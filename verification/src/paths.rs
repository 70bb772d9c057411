//! Paths of files as texts, with `/` between their parts.

pub mod laws;

use vstd::prelude::*;
use crate::text::{
    after_last, begins, chars_of, cut_last, ends, ends_with, opt_text, parts_of, rsplit_once, same,
    split, starts_with, string_of, views,
};

verus! {

/// Where the part that ends at `end` begins: after the last `/` before it.
pub open spec fn part_start(path: Seq<char>, end: int) -> int
    decreases end,
{
    if end <= 0 {
        0
    } else if path[end - 1] == '/' {
        end
    } else {
        part_start(path, end - 1)
    }
}

/// The part that ends at `end` says nothing: a `.` that is not the first part.
pub open spec fn is_idle(path: Seq<char>, end: int) -> bool {
    part_start(path, end) > 0 && part_start(path, end) == end - 1 && path[end - 1] == '.'
}

/// The end of the last part up to `end` that says something, past which only `/` and
/// idle parts follow; the `/` of the root stays.
pub open spec fn body_end(path: Seq<char>, end: int) -> int
    decreases end,
{
    if end <= 0 {
        0
    } else if path[end - 1] == '/' {
        if end == 1 {
            1
        } else {
            body_end(path, end - 1)
        }
    } else if is_idle(path, end) {
        body_end(path, end - 1)
    } else {
        end
    }
}

/// The path holds a part, not the root alone.
pub open spec fn has_part(path: Seq<char>) -> bool {
    let end = body_end(path, path.len() as int);
    end > 1 || (end == 1 && path[0] != '/')
}

/// The last part of a path.
pub open spec fn last_part(path: Seq<char>) -> Option<Seq<char>> {
    let end = body_end(path, path.len() as int);
    if has_part(path) {
        Some(path.subrange(part_start(path, end), end))
    } else {
        None
    }
}

/// The path without its last part.
pub open spec fn parent(path: Seq<char>) -> Option<Seq<char>> {
    let end = body_end(path, path.len() as int);
    if has_part(path) {
        Some(path.subrange(0, body_end(path, part_start(path, end))))
    } else {
        None
    }
}

/// What follows the last `.` of a file's name, where something stands before it.
pub open spec fn name_extension(name: Seq<char>) -> Option<Seq<char>> {
    if name == ".."@ {
        None
    } else {
        match rsplit_once(name, "."@) {
            Some((stem, extension)) => if stem.len() == 0 {
                None
            } else {
                Some(extension)
            },
            None => None,
        }
    }
}

/// What follows the last `.` of the last part of a path.
pub open spec fn extension(path: Seq<char>) -> Option<Seq<char>> {
    match last_part(path) {
        Some(name) => name_extension(name),
        None => None,
    }
}

fn find_start(path: &Vec<char>, end: usize) -> (start: usize)
    requires
        end <= path@.len(),
    ensures
        start == part_start(path@, end as int),
        start <= end,
{
    let mut at: usize = end;
    while at > 0 && path[at - 1] != '/'
        invariant
            at <= end <= path@.len(),
            part_start(path@, end as int) == part_start(path@, at as int),
        decreases at,
    {
        at = at - 1;
    }
    at
}

fn find_end(path: &Vec<char>, end: usize) -> (found: usize)
    requires
        end <= path@.len(),
    ensures
        found == body_end(path@, end as int),
        found <= end,
{
    let mut at: usize = end;
    while at > 0
        invariant
            at <= end <= path@.len(),
            body_end(path@, end as int) == body_end(path@, at as int),
        decreases at,
    {
        if path[at - 1] == '/' {
            if at == 1 {
                return 1;
            }
        } else {
            let start = find_start(path, at);
            if !(start > 0 && start == at - 1 && path[at - 1] == '.') {
                return at;
            }
        }
        at = at - 1;
    }
    0
}

/// The last part of a path.
pub fn file_name(path: &str) -> (name: Option<String>)
    ensures
        opt_text(name) == last_part(path@),
{
    let chars = chars_of(path);
    let end = find_end(&chars, chars.len());
    if end > 1 || (end == 1 && chars[0] != '/') {
        let start = find_start(&chars, end);
        Some(string_of(&chars, start, end))
    } else {
        None
    }
}

/// What follows the last `.` of the last part of a path.
pub fn extension_of(path: &str) -> (found: Option<String>)
    ensures
        opt_text(found) == extension(path@),
{
    match file_name(path) {
        Some(name) => {
            if same(name.as_str(), "..") {
                return None;
            }
            match cut_last(name.as_str(), ".") {
                Some((stem, extension)) => {
                    if stem.as_str().is_empty() {
                        None
                    } else {
                        Some(extension)
                    }
                },
                None => None,
            }
        },
        None => None,
    }
}

/// A text with `/` for every `\`.
pub open spec fn with_slashes(text: Seq<char>) -> Seq<char> {
    text.map_values(
        |c: char|
            if c == '\\' {
                '/'
            } else {
                c
            },
    )
}

/// The directory of a file, `.` for the one that paths start from.
pub open spec fn directory(path: Seq<char>) -> Seq<char> {
    match parent(path) {
        Some(parent) => if parent.len() == 0 {
            "."@
        } else {
            with_slashes(parent)
        },
        None => "."@,
    }
}

fn slashed(chars: &Vec<char>, end: usize) -> (text: String)
    requires
        end <= chars@.len(),
    ensures
        text@ == with_slashes(chars@.subrange(0, end as int)),
{
    let ghost wanted = with_slashes(chars@.subrange(0, end as int));
    let mut text = String::new();
    let mut i: usize = 0;
    assert(text@ =~= wanted.take(0));
    while i < end
        invariant
            i <= end <= chars@.len(),
            wanted == with_slashes(chars@.subrange(0, end as int)),
            text@ == wanted.take(i as int),
        decreases end - i,
    {
        let c = if chars[i] == '\\' {
            '/'
        } else {
            chars[i]
        };
        text.push(c);
        assert(wanted[i as int] == c);
        assert(wanted.take(i + 1) =~= wanted.take(i as int).push(c));
        i = i + 1;
    }
    assert(wanted.take(i as int) =~= wanted);
    text
}

/// The directory of a file, `.` for the one that paths start from.
pub fn parent_location(path: &str) -> (location: String)
    ensures
        location@ == directory(path@),
{
    let chars = chars_of(path);
    let end = find_end(&chars, chars.len());
    if end > 1 || (end == 1 && chars[0] != '/') {
        let start = find_start(&chars, end);
        let cut = find_end(&chars, start);
        if cut > 0 {
            return slashed(&chars, cut);
        }
    }
    ".".to_string()
}

// ---------------------------------------------------------------------------
// Tests

/// A directory that holds tests.
pub open spec fn is_test_dir(name: Seq<char>) -> bool {
    name == "test"@ || name == "tests"@
}

/// The name of a file of tests, without its extension.
pub open spec fn is_test_stem(stem: Seq<char>) -> bool {
    stem == "tests"@ || starts_with(stem, "test_"@) || ends_with(stem, "_test"@) || ends_with(
        stem,
        "_tests"@,
    ) || ends_with(stem, "Test"@) || ends_with(stem, "Tests"@)
}

/// A file's name up to its last dot.
pub open spec fn stem_of(name: Seq<char>) -> Seq<char> {
    match rsplit_once(name, "."@) {
        Some((stem, _)) => stem,
        None => name,
    }
}

/// The path of a file of tests: one in a directory that holds tests, or one with a name
/// of tests.
pub open spec fn is_test_path(path: Seq<char>) -> bool {
    ||| exists|i: int|
        0 <= i < split(path, "/"@).len() - 1 && is_test_dir(#[trigger] split(path, "/"@)[i])
    ||| is_test_stem(stem_of(after_last(path, "/"@)))
}

/// Whether a path is that of a file of tests.
pub fn holds_tests(path: &str) -> (found: bool)
    ensures
        found == is_test_path(path@),
{
    proof {
        reveal_strlit("/");
    }
    let name = crate::text::last_part(path, "/");
    let stem = match cut_last(name.as_str(), ".") {
        Some((stem, _)) => stem,
        None => name,
    };
    let stem = stem.as_str();
    if same(stem, "tests") || begins(stem, "test_") || ends(stem, "_test") || ends(
        stem,
        "_tests",
    ) || ends(stem, "Test") || ends(stem, "Tests") {
        return true;
    }
    let parts = parts_of(path, "/");
    let mut i: usize = 0;
    while i < parts.len() && parts.len() - i > 1
        invariant
            i <= parts@.len(),
            views(parts@) == split(path@, "/"@),
            forall|k: int|
                0 <= k < i && k < parts@.len() - 1 ==> !is_test_dir(#[trigger] views(parts@)[k]),
        decreases parts@.len() - i,
    {
        assert(views(parts@)[i as int] == parts@[i as int]@);
        if same(parts[i].as_str(), "test") || same(parts[i].as_str(), "tests") {
            return true;
        }
        i = i + 1;
    }
    false
}

} // verus!

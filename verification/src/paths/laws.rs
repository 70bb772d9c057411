//! How paths come apart, and which are of tests.

use vstd::prelude::*;
use crate::paths::{
    body_end, directory, extension, is_idle, is_test_path, last_part, name_extension, parent,
    part_start, stem_of, with_slashes,
};
use crate::text::laws::{is_made_of, the_last_separator_cuts};
use crate::text::{after_last, contains, ends_with, occurs_at, split, starts_with};

verus! {

/// The text is the name of a file or a directory: some characters, none of them a `/`.
pub open spec fn is_name(text: Seq<char>) -> bool {
    text.len() > 0 && forall|i: int| 0 <= i < text.len() ==> #[trigger] text[i] != '/'
}

/// The path of a directory, written without a `/` at its end or a `.` as its last part.
pub open spec fn is_plain_directory(path: Seq<char>) -> bool {
    path.len() > 0 && path.last() != '/' && !is_idle(path, path.len() as int)
}

proof fn lemma_start_before(path: Seq<char>, more: Seq<char>, end: int)
    requires
        0 <= end <= path.len(),
    ensures
        part_start(path + more, end) == part_start(path, end),
    decreases end,
{
    if end > 0 {
        assert((path + more)[end - 1] == path[end - 1]);
        lemma_start_before(path, more, end - 1);
    }
}

proof fn lemma_start_within(path: Seq<char>, start: int, end: int)
    requires
        0 <= start <= end <= path.len(),
        start == 0 || path[start - 1] == '/',
        forall|i: int| start <= i < end ==> #[trigger] path[i] != '/',
    ensures
        part_start(path, end) == start,
    decreases end,
{
    if end > start {
        assert(path[end - 1] != '/');
        lemma_start_within(path, start, end - 1);
    }
}

/// The path of a file in a directory is the directory's path and the file's name.
pub proof fn paths_come_apart(dir: Seq<char>, name: Seq<char>)
    requires
        is_plain_directory(dir),
        is_name(name),
        name != "."@,
    ensures
        last_part(dir + "/"@ + name) == Some(name),
        parent(dir + "/"@ + name) == Some(dir),
        directory(dir + "/"@ + name) == with_slashes(dir),
{
    reveal_strlit("/");
    reveal_strlit(".");
    let path = dir + "/"@ + name;
    let n = dir.len() as int;
    let end = path.len() as int;
    assert(path[n] == '/');
    assert forall|i: int| n + 1 <= i < end implies #[trigger] path[i] != '/' by {
        assert(path[i] == name[i - n - 1]);
    }
    lemma_start_within(path, n + 1, end);
    assert(path[end - 1] == name[name.len() - 1]);
    if is_idle(path, end) {
        assert(name =~= "."@);
    }
    assert(body_end(path, end) == end);
    assert(path.subrange(n + 1, end) =~= name);
    let more = "/"@ + name;
    assert(path =~= dir + more);
    lemma_start_before(dir, more, n);
    assert(path[n - 1] == dir[n - 1]);
    assert(dir.last() == dir[n - 1]);
    assert(is_idle(path, n) == is_idle(dir, n));
    assert(body_end(path, n) == n);
    assert(body_end(path, n + 1) == n);
    assert(path.subrange(0, n) =~= dir);
}

/// A file that stands where paths start from is its name, in the directory `.`.
pub proof fn names_alone_stand_at_the_start(name: Seq<char>)
    requires
        is_name(name),
    ensures
        last_part(name) == Some(name),
        directory(name) == "."@,
{
    let end = name.len() as int;
    lemma_start_within(name, 0, end);
    assert(name[end - 1] != '/');
    assert(name.subrange(0, end) =~= name);
    assert(name[0] != '/');
    assert(name.subrange(0, 0).len() == 0);
}

/// A file's extension is what follows the last dot of its name, where something stands
/// before the dot.
pub proof fn extensions_follow_the_last_dot(stem: Seq<char>, own: Seq<char>)
    requires
        forall|i: int| 0 <= i < own.len() ==> #[trigger] own[i] != '.',
        stem + "."@ + own != ".."@,
    ensures
        stem.len() > 0 ==> name_extension(stem + "."@ + own) == Some(own),
        stem.len() == 0 ==> name_extension(stem + "."@ + own) is None,
        !contains(own, "."@) ==> name_extension(own) is None,
        stem_of(stem + "."@ + own) == stem,
{
    reveal_strlit(".");
    let name = stem + "."@ + own;
    assert(is_made_of(name, stem, "."@, own));
    assert forall|at: int| stem.len() < at implies !#[trigger] occurs_at(name, "."@, at) by {
        if occurs_at(name, "."@, at) {
            assert(name.subrange(at, at + 1)[0] == name[at]);
            assert(name[at] == own[at - stem.len() - 1]);
        }
    }
    the_last_separator_cuts(name, "."@, stem, own);
    the_last_separator_cuts(own, "."@, stem, own);
    assert forall|at: int| !#[trigger] occurs_at(own, "."@, at) by {
        if occurs_at(own, "."@, at) {
            assert(own.subrange(at, at + 1)[0] == own[at]);
        }
    }
}

/// The path leads through a directory of the name.
pub open spec fn leads_through(path: Seq<char>, dir: Seq<char>) -> bool {
    exists|i: int| 0 <= i < split(path, "/"@).len() - 1 && #[trigger] split(path, "/"@)[i] == dir
}

/// A path is one of tests where it leads through `test` or `tests`, or where the file's
/// name up to its last dot is `tests`, begins with `test_`, or ends with `_test`,
/// `_tests`, `Test` or `Tests`; and nowhere else.
pub proof fn tests_are_told_by_their_paths(path: Seq<char>)
    ensures
        is_test_path(path) <==> {
            let stem = stem_of(after_last(path, "/"@));
            ||| leads_through(path, "test"@)
            ||| leads_through(path, "tests"@)
            ||| stem == "tests"@
            ||| starts_with(stem, "test_"@)
            ||| ends_with(stem, "_test"@)
            ||| ends_with(stem, "_tests"@)
            ||| ends_with(stem, "Test"@)
            ||| ends_with(stem, "Tests"@)
        },
{
    let parts = split(path, "/"@);
    if exists|i: int|
        0 <= i < parts.len() - 1 && crate::paths::is_test_dir(#[trigger] parts[i]) {
        let i = choose|i: int|
            0 <= i < parts.len() - 1 && crate::paths::is_test_dir(#[trigger] parts[i]);
        assert(parts[i] == "test"@ || parts[i] == "tests"@);
    }
    if leads_through(path, "test"@) {
        let i = choose|i: int| 0 <= i < parts.len() - 1 && #[trigger] parts[i] == "test"@;
        assert(crate::paths::is_test_dir(parts[i]));
    }
    if leads_through(path, "tests"@) {
        let i = choose|i: int| 0 <= i < parts.len() - 1 && #[trigger] parts[i] == "tests"@;
        assert(crate::paths::is_test_dir(parts[i]));
    }
}

} // verus!

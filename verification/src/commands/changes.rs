//! What a comparison of revisions changes: the arguments it is asked for with, the
//! files it names and the hunks of its patch.

pub mod laws;

use vstd::prelude::*;
use crate::ordered::{
    dedup_by, distinct_items_ascend, is_weak_order, relation_of, relations_are_orders, sameness_of,
    sort_by, sorted_by, sorting_orders_and_keeps, strictly_ascending, tells_apart, text_keys_order,
    without_repeats, Order, Sameness,
};
use crate::text::{
    begins, chars_of, cut_first, lemma_text_lt_irreflexive, lemma_text_lt_total, lemma_views_push,
    less, lines, lines_add_up, lines_of, opt_str, opt_text, parse_signed, parts_of, same,
    signed_value, split, split_once, starts_with, string_of, strip_prefix, text_lt, views,
    without_prefix, words, words_of,
};

verus! {

/// The number of changed files that a comparison looks at.
pub const MAX_CHANGED_FILES: usize = 500;

// ---------------------------------------------------------------------------
// Arguments

/// The revisions of a comparison: from `base` to `head`, or to the working tree.
pub open spec fn range_texts(base: Seq<char>, head: Option<Seq<char>>) -> Seq<Seq<char>> {
    match head {
        Some(head) => seq![base, head],
        None => seq![base],
    }
}

/// The revisions of a comparison.
pub fn git_range(base: &str, head: Option<&str>) -> (range: Vec<String>)
    ensures
        views(range@) == range_texts(base@, opt_str(head)),
{
    let mut range: Vec<String> = Vec::new();
    range.push(base.to_string());
    if let Some(head) = head {
        range.push(head.to_string());
    }
    assert(views(range@) =~= range_texts(base@, opt_str(head)));
    range
}

/// Arguments followed by the revisions of a comparison, which cannot be taken for
/// options.
pub open spec fn with_range(
    arguments: Seq<Seq<char>>,
    base: Seq<char>,
    head: Option<Seq<char>>,
) -> Seq<Seq<char>> {
    arguments.push("--end-of-options"@) + range_texts(base, head)
}

fn add_range(arguments: Vec<String>, base: &str, head: Option<&str>) -> (all: Vec<String>)
    ensures
        views(all@) == with_range(views(arguments@), base@, opt_str(head)),
{
    let mut all = arguments;
    all.push("--end-of-options".to_string());
    all.push(base.to_string());
    if let Some(head) = head {
        all.push(head.to_string());
    }
    assert(views(all@) =~= with_range(views(arguments@), base@, opt_str(head)));
    all
}

/// The arguments that ask for the names and states of the changed files.
pub fn changed_files_arguments(base: &str, head: Option<&str>) -> (arguments: Vec<String>)
    ensures
        views(arguments@) == with_range(
            seq!["diff"@, "--name-status"@, "-M"@],
            base@,
            opt_str(head),
        ),
{
    let mut arguments: Vec<String> = Vec::new();
    arguments.push("diff".to_string());
    arguments.push("--name-status".to_string());
    arguments.push("-M".to_string());
    assert(views(arguments@) =~= seq!["diff"@, "--name-status"@, "-M"@]);
    add_range(arguments, base, head)
}

/// The arguments that ask for the patch without context lines.
pub fn patch_arguments(base: &str, head: Option<&str>) -> (arguments: Vec<String>)
    ensures
        views(arguments@) == with_range(
            seq!["diff"@, "--unified=0"@, "--no-ext-diff"@, "-M"@],
            base@,
            opt_str(head),
        ),
{
    let mut arguments: Vec<String> = Vec::new();
    arguments.push("diff".to_string());
    arguments.push("--unified=0".to_string());
    arguments.push("--no-ext-diff".to_string());
    arguments.push("-M".to_string());
    assert(views(arguments@) =~= seq!["diff"@, "--unified=0"@, "--no-ext-diff"@, "-M"@]);
    add_range(arguments, base, head)
}

/// The arguments that ask what a revision stands for.
pub fn revision_arguments(revision: &str) -> (arguments: Vec<String>)
    ensures
        views(arguments@) == seq![
            "rev-parse"@,
            "--verify"@,
            "--end-of-options"@,
            revision@,
        ],
{
    let mut arguments: Vec<String> = Vec::new();
    arguments.push("rev-parse".to_string());
    arguments.push("--verify".to_string());
    arguments.push("--end-of-options".to_string());
    arguments.push(revision.to_string());
    assert(views(arguments@) =~= seq![
        "rev-parse"@,
        "--verify"@,
        "--end-of-options"@,
        revision@,
    ]);
    arguments
}

/// A path stays inside the workspace: it does not start at the root, and no part of it
/// goes up.
pub open spec fn is_workspace_relative(path: Seq<char>) -> bool {
    !starts_with(path, "/"@) && !split(path, "/"@).contains(".."@)
}

/// Whether a path stays inside the workspace.
pub fn workspace_relative(path: &str) -> (relative: bool)
    ensures
        relative == is_workspace_relative(path@),
{
    proof {
        reveal_strlit("/");
    }
    if begins(path, "/") {
        return false;
    }
    let parts = parts_of(path, "/");
    let mut i: usize = 0;
    while i < parts.len()
        invariant
            i <= parts@.len(),
            views(parts@) == split(path@, "/"@),
            forall|k: int| 0 <= k < i ==> views(parts@)[k] != ".."@,
        decreases parts@.len() - i,
    {
        if same(parts[i].as_str(), "..") {
            assert(views(parts@)[i as int] == ".."@);
            return false;
        }
        i = i + 1;
    }
    assert(!split(path@, "/"@).contains(".."@)) by {
        if split(path@, "/"@).contains(".."@) {
            let k = choose|k: int| 0 <= k < views(parts@).len() && views(parts@)[k] == ".."@;
            assert(views(parts@)[k] != ".."@);
        }
    }
    true
}

// ---------------------------------------------------------------------------
// Changed files

/// A file that a comparison names, and what became of it.
#[derive(Debug)]
pub struct ChangedFile {
    pub path: String,
    pub status: &'static str,
}

/// The content of a [`ChangedFile`].
#[verifier::ext_equal]
pub struct ChangedFileView {
    pub path: Seq<char>,
    pub status: Seq<char>,
}

impl View for ChangedFile {
    type V = ChangedFileView;

    open spec fn view(&self) -> ChangedFileView {
        ChangedFileView { path: self.path@, status: self.status@ }
    }
}

impl Clone for ChangedFile {
    fn clone(&self) -> (copy: Self)
        ensures
            copy@ == self@,
    {
        ChangedFile { path: self.path.clone(), status: self.status }
    }
}

/// The order of files by path.
pub struct ByPath;

impl Order<ChangedFile> for ByPath {
    open spec fn precedes(&self, left: ChangedFileView, right: ChangedFileView) -> bool {
        text_lt(left.path, right.path)
    }

    fn before(&self, left: &ChangedFile, right: &ChangedFile) -> (found: bool) {
        less(left.path.as_str(), right.path.as_str())
    }

    proof fn is_order(&self) {
        text_keys_order(
            |left: ChangedFileView, right: ChangedFileView| self.precedes(left, right),
            |item: ChangedFileView| item.path,
        );
    }
}

impl Sameness<ChangedFile> for ByPath {
    open spec fn alike(&self, left: ChangedFileView, right: ChangedFileView) -> bool {
        left.path == right.path
    }

    fn equal(&self, left: &ChangedFile, right: &ChangedFile) -> (found: bool) {
        same(left.path.as_str(), right.path.as_str())
    }
}

/// Files in the order of their paths.
pub open spec fn files_by_path(files: Seq<ChangedFileView>) -> Seq<ChangedFileView> {
    sorted_by(files, relation_of::<ChangedFile, ByPath>(ByPath))
}

/// Files in the order of their paths, one for each path.
pub open spec fn distinct_files(files: Seq<ChangedFileView>) -> Seq<ChangedFileView> {
    without_repeats(files_by_path(files), sameness_of::<ChangedFile, ByPath>(ByPath))
}

/// The status that the letter of a state stands for.
pub open spec fn status_of_code(code: Seq<char>) -> Seq<char> {
    if code.len() > 0 && code[0] == 'A' {
        "added"@
    } else if code.len() > 0 && code[0] == 'D' {
        "deleted"@
    } else if code.len() > 0 && code[0] == 'R' {
        "renamed"@
    } else {
        "modified"@
    }
}

/// A field of a line, or nothing where there are too few.
pub open spec fn field_at(fields: Seq<Seq<char>>, at: int) -> Option<Seq<char>> {
    if 0 <= at < fields.len() {
        Some(fields[at])
    } else {
        None
    }
}

/// The text of a field, or nothing where it is missing.
pub open spec fn field_text(field: Option<Seq<char>>) -> Seq<char> {
    match field {
        Some(text) => text,
        None => seq![],
    }
}

/// The file that a line of names and states tells of. A renamed file goes by its new
/// path.
pub open spec fn file_of_line(line: Seq<char>) -> ChangedFileView {
    let fields = split(line, "\t"@);
    let code = field_text(field_at(fields, 0));
    let first = field_text(field_at(fields, 1));
    let path = if code.len() > 0 && code[0] == 'R' {
        match field_at(fields, 2) {
            Some(renamed) => renamed,
            None => first,
        }
    } else {
        first
    };
    ChangedFileView { path, status: status_of_code(code) }
}

/// The files that a listing of names and states tells of, in the order of their paths.
pub open spec fn listed_files(output: Seq<char>) -> Seq<ChangedFileView> {
    files_by_path(lines(output).map_values(|line: Seq<char>| file_of_line(line)))
}

fn text_of_field(fields: &Vec<String>, at: usize) -> (text: Option<String>)
    ensures
        opt_text(text) == field_at(views(fields@), at as int),
{
    assert(views(fields@).len() == fields@.len());
    if at < fields.len() {
        assert(views(fields@)[at as int] == fields@[at as int]@);
        Some(fields[at].clone())
    } else {
        None
    }
}

fn read_file_line(line: &str) -> (file: ChangedFile)
    ensures
        file@ == file_of_line(line@),
{
    proof {
        reveal_strlit("\t");
    }
    let fields = parts_of(line, "\t");
    let code = match text_of_field(&fields, 0) {
        Some(code) => code,
        None => String::new(),
    };
    let first = match text_of_field(&fields, 1) {
        Some(first) => first,
        None => String::new(),
    };
    let letters = chars_of(code.as_str());
    let status: &'static str = if letters.len() > 0 && letters[0] == 'A' {
        "added"
    } else if letters.len() > 0 && letters[0] == 'D' {
        "deleted"
    } else if letters.len() > 0 && letters[0] == 'R' {
        "renamed"
    } else {
        "modified"
    };
    let path = if letters.len() > 0 && letters[0] == 'R' {
        match text_of_field(&fields, 2) {
            Some(renamed) => renamed,
            None => first,
        }
    } else {
        first
    };
    ChangedFile { path, status }
}

/// The files that a listing of names and states tells of.
pub fn parse_changed_files(output: &str) -> (files: Vec<ChangedFile>)
    ensures
        views(files@) == listed_files(output@),
{
    let all = lines_of(output);
    let ghost wanted = lines(output@).map_values(|line: Seq<char>| file_of_line(line));
    let mut files: Vec<ChangedFile> = Vec::new();
    let mut i: usize = 0;
    assert(views(files@) =~= wanted.take(0));
    while i < all.len()
        invariant
            i <= all@.len(),
            views(all@) == lines(output@),
            wanted == lines(output@).map_values(|line: Seq<char>| file_of_line(line)),
            views(files@) == wanted.take(i as int),
        decreases all@.len() - i,
    {
        let file = read_file_line(all[i].as_str());
        let ghost before = files@;
        files.push(file);
        proof {
            assert(views(all@)[i as int] == all@[i as int]@);
            lemma_views_push(before, file);
            assert(wanted.take(i + 1) =~= wanted.take(i as int).push(file@));
        }
        i = i + 1;
    }
    assert(wanted.take(i as int) =~= wanted);
    sort_by(files, &ByPath)
}

/// Brings the files into the order of their paths, one for each path, and keeps the
/// first of them. Says whether any were left out.
pub fn cap_changed_files(files: &mut Vec<ChangedFile>) -> (truncated: bool)
    ensures
        truncated == (distinct_files(views(old(files)@)).len() > MAX_CHANGED_FILES),
        views(final(files)@) == if distinct_files(views(old(files)@)).len() > MAX_CHANGED_FILES {
            distinct_files(views(old(files)@)).take(MAX_CHANGED_FILES as int)
        } else {
            distinct_files(views(old(files)@))
        },
{
    let mut taken: Vec<ChangedFile> = Vec::new();
    let mut i: usize = 0;
    while i < files.len()
        invariant
            i <= files@.len(),
            files@ == old(files)@,
            views(taken@) == views(files@).take(i as int),
        decreases files@.len() - i,
    {
        let file = files[i].clone();
        let ghost before = taken@;
        taken.push(file);
        proof {
            lemma_views_push(before, file);
            assert(views(files@).take(i + 1) =~= views(files@).take(i as int).push(file@));
        }
        i = i + 1;
    }
    assert(views(files@).take(i as int) =~= views(files@));
    let mut kept = dedup_by(sort_by(taken, &ByPath), &ByPath);
    let ghost all = kept@;
    assert(views(kept@).len() == kept@.len());
    let truncated = kept.len() > MAX_CHANGED_FILES;
    if truncated {
        kept.truncate(MAX_CHANGED_FILES);
        assert(views(kept@) =~= views(all).take(MAX_CHANGED_FILES as int));
    }
    *files = kept;
    truncated
}

/// After capping there are at most as many files as looked at, in strictly ascending
/// order of their paths; each was among the files before.
pub proof fn capped_files_ascend(files: Seq<ChangedFileView>)
    ensures
        strictly_ascending(distinct_files(files), relation_of::<ChangedFile, ByPath>(ByPath)),
        forall|i: int|
            0 <= i < distinct_files(files).len() ==> files.contains(
                #[trigger] distinct_files(files)[i],
            ),
{
    let precedes = relation_of::<ChangedFile, ByPath>(ByPath);
    let alike = sameness_of::<ChangedFile, ByPath>(ByPath);
    lemma_path_order();
    sorting_orders_and_keeps(files, precedes);
    distinct_items_ascend(files_by_path(files), precedes, alike);
    broadcast use vstd::seq_lib::group_to_multiset_ensures;

    assert forall|i: int| 0 <= i < distinct_files(files).len() implies files.contains(
        #[trigger] distinct_files(files)[i],
    ) by {
        let file = distinct_files(files)[i];
        assert(files_by_path(files).contains(file));
        assert(files_by_path(files).to_multiset().count(file) > 0);
    }
}

proof fn lemma_path_order()
    ensures
        is_weak_order(relation_of::<ChangedFile, ByPath>(ByPath)),
        tells_apart(
            relation_of::<ChangedFile, ByPath>(ByPath),
            sameness_of::<ChangedFile, ByPath>(ByPath),
        ),
{
    let precedes = relation_of::<ChangedFile, ByPath>(ByPath);
    let alike = sameness_of::<ChangedFile, ByPath>(ByPath);
    relations_are_orders::<ChangedFile, ByPath>(ByPath);
    reveal(tells_apart);
    assert forall|a: ChangedFileView, b: ChangedFileView| #[trigger]
        alike(a, b) == (!precedes(a, b) && !precedes(b, a)) by {
        lemma_text_lt_total(a.path, b.path);
        lemma_text_lt_irreflexive(a.path);
    }
}

// ---------------------------------------------------------------------------
// Hunks

/// A changed range of a file.
#[derive(Debug)]
pub struct Hunk {
    pub path: String,
    pub old_start: i64,
    pub new_start: i64,
    pub new_count: i64,
}

/// The content of a [`Hunk`].
#[verifier::ext_equal]
pub struct HunkView {
    pub path: Seq<char>,
    pub old_start: int,
    pub new_start: int,
    pub new_count: int,
}

impl View for Hunk {
    type V = HunkView;

    open spec fn view(&self) -> HunkView {
        HunkView {
            path: self.path@,
            old_start: self.old_start as int,
            new_start: self.new_start as int,
            new_count: self.new_count as int,
        }
    }
}

/// A text without the signs it starts with.
pub open spec fn without_signs(text: Seq<char>) -> Seq<char>
    decreases text.len(),
{
    if text.len() > 0 && (text[0] == '-' || text[0] == '+') {
        without_signs(text.skip(1))
    } else {
        text
    }
}

/// The number that a text denotes, or another where it denotes none of 64 bits.
pub open spec fn number_or(text: Seq<char>, otherwise: int) -> int {
    match signed_value(text) {
        Some(n) => if i64::MIN <= n <= i64::MAX {
            n
        } else {
            otherwise
        },
        None => otherwise,
    }
}

/// The start and the length of a range; without a length it is one line.
pub open spec fn range_of(text: Seq<char>) -> (int, int) {
    let value = without_signs(text);
    match split_once(value, ","@) {
        Some((start, count)) => (number_or(start, 0), number_or(count, 1)),
        None => (number_or(value, 0), number_or("1"@, 1)),
    }
}

/// What is known after some lines of a patch.
#[verifier::ext_equal]
pub struct PatchView {
    pub old_path: Option<Seq<char>>,
    pub new_path: Option<Seq<char>>,
    pub current: Option<HunkView>,
    pub done: Seq<HunkView>,
}

/// The hunk that a header opens in the file of the new path, or else of the old one.
pub open spec fn opened_hunk(
    line: Seq<char>,
    old_path: Option<Seq<char>>,
    new_path: Option<Seq<char>>,
) -> Option<HunkView> {
    let parts = words(line);
    let path = match new_path {
        Some(path) => Some(path),
        None => old_path,
    };
    match (field_at(parts, 1), field_at(parts, 2), path) {
        (Some(old_range), Some(new_range), Some(path)) => Some(
            HunkView {
                path,
                old_start: range_of(old_range).0,
                new_start: range_of(new_range).0,
                new_count: range_of(new_range).1,
            },
        ),
        _ => None,
    }
}

/// The hunks that are complete once another one opens.
pub open spec fn closed_hunks(state: PatchView) -> Seq<HunkView> {
    match state.current {
        Some(hunk) => state.done.push(hunk),
        None => state.done,
    }
}

/// What is known after one more line.
pub open spec fn patch_step(state: PatchView, line: Seq<char>) -> PatchView {
    match strip_prefix(line, "--- a/"@) {
        Some(path) => PatchView { old_path: Some(path), ..state },
        None => if line == "--- /dev/null"@ {
            PatchView { old_path: None, ..state }
        } else {
            match strip_prefix(line, "+++ b/"@) {
                Some(path) => PatchView { new_path: Some(path), ..state },
                None => if line == "+++ /dev/null"@ {
                    PatchView { new_path: None, ..state }
                } else if starts_with(line, "@@ "@) {
                    PatchView {
                        current: opened_hunk(line, state.old_path, state.new_path),
                        done: closed_hunks(state),
                        ..state
                    }
                } else {
                    state
                },
            }
        },
    }
}

/// What is known after the lines of a patch.
pub open spec fn patch_state(patch_lines: Seq<Seq<char>>) -> PatchView
    decreases patch_lines.len(),
{
    if patch_lines.len() == 0 {
        PatchView { old_path: None, new_path: None, current: None, done: seq![] }
    } else {
        patch_step(patch_state(patch_lines.drop_last()), patch_lines.last())
    }
}

/// The hunks of a patch, in their order.
pub open spec fn hunks_of(patch: Seq<char>) -> Seq<HunkView> {
    closed_hunks(patch_state(lines(patch)))
}

fn drop_signs(text: &str) -> (rest: String)
    ensures
        rest@ == without_signs(text@),
{
    let chars = chars_of(text);
    let mut start: usize = 0;
    assert(chars@.skip(0) =~= chars@);
    while start < chars.len() && (chars[start] == '-' || chars[start] == '+')
        invariant
            start <= chars@.len(),
            without_signs(chars@) == without_signs(chars@.skip(start as int)),
        decreases chars@.len() - start,
    {
        assert(chars@.skip(start as int).skip(1) =~= chars@.skip(start + 1));
        start = start + 1;
    }
    let rest = string_of(&chars, start, chars.len());
    assert(rest@ =~= chars@.skip(start as int));
    rest
}

fn parse_or(text: &str, otherwise: i64) -> (n: i64)
    ensures
        n as int == number_or(text@, otherwise as int),
{
    match parse_signed(text) {
        Some(n) => n,
        None => otherwise,
    }
}

fn parse_range(text: &str) -> (range: (i64, i64))
    ensures
        (range.0 as int, range.1 as int) == range_of(text@),
{
    let value = drop_signs(text);
    match cut_first(value.as_str(), ",") {
        Some((start, count)) => (parse_or(start.as_str(), 0), parse_or(count.as_str(), 1)),
        None => (parse_or(value.as_str(), 0), parse_or("1", 1)),
    }
}

fn open_hunk(line: &str, old_path: &Option<String>, new_path: &Option<String>) -> (hunk: Option<
    Hunk,
>)
    ensures
        match hunk {
            Some(hunk) => opened_hunk(line@, opt_text(*old_path), opt_text(*new_path)) == Some(
                hunk@,
            ),
            None => opened_hunk(line@, opt_text(*old_path), opt_text(*new_path)) is None,
        },
{
    let parts = words_of(line);
    let path: Option<String> = match new_path {
        Some(path) => Some(path.clone()),
        None => old_path.clone(),
    };
    match (text_of_field(&parts, 1), text_of_field(&parts, 2), path) {
        (Some(old_range), Some(new_range), Some(path)) => {
            let (old_start, _) = parse_range(old_range.as_str());
            let (new_start, new_count) = parse_range(new_range.as_str());
            Some(Hunk { path, old_start, new_start, new_count })
        },
        _ => None,
    }
}

spec fn opt_hunk(hunk: Option<Hunk>) -> Option<HunkView> {
    match hunk {
        Some(hunk) => Some(hunk@),
        None => None,
    }
}

fn close_hunk(done: &mut Vec<Hunk>, current: Option<Hunk>)
    ensures
        views(final(done)@) == match current {
            Some(hunk) => views(old(done)@).push(hunk@),
            None => views(old(done)@),
        },
{
    if let Some(hunk) = current {
        proof {
            lemma_views_push(done@, hunk);
        }
        done.push(hunk);
    }
}

/// The hunks of a patch. A deleted file keeps the path that it had.
pub fn parse_hunks(patch: &str) -> (hunks: Vec<Hunk>)
    ensures
        views(hunks@) == hunks_of(patch@),
{
    let all = lines_of(patch);
    let mut old_path: Option<String> = None;
    let mut new_path: Option<String> = None;
    let mut current: Option<Hunk> = None;
    let mut done: Vec<Hunk> = Vec::new();
    let mut i: usize = 0;
    assert(views(all@).take(0) =~= seq![]);
    assert(views(done@) =~= seq![]);
    while i < all.len()
        invariant
            i <= all@.len(),
            views(all@) == lines(patch@),
            patch_state(views(all@).take(i as int)) == (PatchView {
                old_path: opt_text(old_path),
                new_path: opt_text(new_path),
                current: opt_hunk(current),
                done: views(done@),
            }),
        decreases all@.len() - i,
    {
        let line = all[i].as_str();
        proof {
            assert(views(all@).take(i + 1).drop_last() =~= views(all@).take(i as int));
            assert(views(all@).take(i + 1).last() == line@);
        }
        if let Some(path) = without_prefix(line, "--- a/") {
            old_path = Some(path);
        } else if same(line, "--- /dev/null") {
            old_path = None;
        } else if let Some(path) = without_prefix(line, "+++ b/") {
            new_path = Some(path);
        } else if same(line, "+++ /dev/null") {
            new_path = None;
        } else if begins(line, "@@ ") {
            close_hunk(&mut done, current);
            current = open_hunk(line, &old_path, &new_path);
        }
        i = i + 1;
        assert(patch_state(views(all@).take(i as int)) =~= (PatchView {
            old_path: opt_text(old_path),
            new_path: opt_text(new_path),
            current: opt_hunk(current),
            done: views(done@),
        }));
    }
    assert(views(all@).take(i as int) =~= views(all@));
    close_hunk(&mut done, current);
    done
}

// ---------------------------------------------------------------------------
// Patches one after the other

/// The line names the file before the change.
pub open spec fn is_old_header(line: Seq<char>) -> bool {
    starts_with(line, "--- a/"@) || line == "--- /dev/null"@
}

/// The line names the file after the change.
pub open spec fn is_new_header(line: Seq<char>) -> bool {
    starts_with(line, "+++ b/"@) || line == "+++ /dev/null"@
}

/// Some of the lines names the file before the change.
pub open spec fn names_old(patch_lines: Seq<Seq<char>>) -> bool {
    exists|i: int| 0 <= i < patch_lines.len() && is_old_header(#[trigger] patch_lines[i])
}

/// Some of the lines names the file after the change.
pub open spec fn names_new(patch_lines: Seq<Seq<char>>) -> bool {
    exists|i: int| 0 <= i < patch_lines.len() && is_new_header(#[trigger] patch_lines[i])
}

/// A patch names its first file, before and after the change, ahead of its first hunk.
pub open spec fn names_files_first(patch: Seq<char>) -> bool {
    forall|k: int|
        0 <= k < lines(patch).len() && starts_with(#[trigger] lines(patch)[k], "@@ "@)
            ==> names_old(lines(patch).take(k)) && names_new(lines(patch).take(k))
}

proof fn lemma_headers_differ(line: Seq<char>)
    ensures
        is_old_header(line) ==> !is_new_header(line) && !starts_with(line, "@@ "@),
        is_new_header(line) ==> !starts_with(line, "@@ "@),
{
    reveal_strlit("--- a/");
    reveal_strlit("--- /dev/null");
    reveal_strlit("+++ b/");
    reveal_strlit("+++ /dev/null");
    reveal_strlit("@@ ");
    assert("--- a/"@[0] == '-');
    assert("--- /dev/null"@[0] == '-');
    assert("+++ b/"@[0] == '+');
    assert("+++ /dev/null"@[0] == '+');
    assert("@@ "@[0] == '@');
    if starts_with(line, "--- a/"@) {
        assert(line.subrange(0, 6)[0] == line[0]);
    }
    if starts_with(line, "+++ b/"@) {
        assert(line.subrange(0, 6)[0] == line[0]);
    }
    if starts_with(line, "@@ "@) {
        assert(line.subrange(0, 3)[0] == line[0]);
    }
}

proof fn lemma_named_so_far(patch_lines: Seq<Seq<char>>)
    requires
        patch_lines.len() > 0,
    ensures
        names_old(patch_lines) == (names_old(patch_lines.drop_last()) || is_old_header(
            patch_lines.last(),
        )),
        names_new(patch_lines) == (names_new(patch_lines.drop_last()) || is_new_header(
            patch_lines.last(),
        )),
{
    let front = patch_lines.drop_last();
    let end = patch_lines.len() - 1;
    assert(patch_lines[end] == patch_lines.last());
    if names_old(front) {
        let i = choose|i: int| 0 <= i < front.len() && is_old_header(#[trigger] front[i]);
        assert(patch_lines[i] == front[i]);
    }
    if names_new(front) {
        let i = choose|i: int| 0 <= i < front.len() && is_new_header(#[trigger] front[i]);
        assert(patch_lines[i] == front[i]);
    }
    if names_old(patch_lines) {
        let i = choose|i: int| 0 <= i < patch_lines.len() && is_old_header(
            #[trigger] patch_lines[i],
        );
        if i < end {
            assert(front[i] == patch_lines[i]);
        }
    }
    if names_new(patch_lines) {
        let i = choose|i: int| 0 <= i < patch_lines.len() && is_new_header(
            #[trigger] patch_lines[i],
        );
        if i < end {
            assert(front[i] == patch_lines[i]);
        }
    }
}

proof fn lemma_patch_continued(earlier: Seq<Seq<char>>, later: Seq<Seq<char>>)
    requires
        forall|k: int|
            0 <= k < later.len() && starts_with(#[trigger] later[k], "@@ "@) ==> names_old(
                later.take(k),
            ) && names_new(later.take(k)),
    ensures
        closed_hunks(patch_state(earlier + later)) == closed_hunks(patch_state(earlier))
            + closed_hunks(patch_state(later)),
        names_old(later) ==> patch_state(earlier + later).old_path == patch_state(later).old_path,
        names_new(later) ==> patch_state(earlier + later).new_path == patch_state(later).new_path,
    decreases later.len(),
{
    let both = earlier + later;
    let base = closed_hunks(patch_state(earlier));
    if later.len() == 0 {
        assert(both =~= earlier);
        assert(base + closed_hunks(patch_state(later)) =~= base);
    } else {
        let front = later.drop_last();
        let line = later.last();
        assert(both.drop_last() =~= earlier + front);
        assert(both.last() == line);
        assert forall|k: int| 0 <= k < front.len() && starts_with(
            #[trigger] front[k],
            "@@ "@,
        ) implies names_old(front.take(k)) && names_new(front.take(k)) by {
            assert(later[k] == front[k]);
            assert(later.take(k) =~= front.take(k));
        }
        lemma_patch_continued(earlier, front);
        lemma_named_so_far(later);
        lemma_headers_differ(line);
        assert(later.take(later.len() - 1) =~= front);
        assert(later[later.len() - 1] == line);
        let whole = patch_state(earlier + front);
        let own = patch_state(front);
        if starts_with(line, "@@ "@) {
            assert(whole.old_path == own.old_path && whole.new_path == own.new_path);
            let opened = opened_hunk(line, own.old_path, own.new_path);
            assert(patch_step(whole, line).done == closed_hunks(whole));
            assert(patch_step(own, line).done == closed_hunks(own));
        }
        assert(closed_hunks(patch_step(whole, line)) =~= base + closed_hunks(
            patch_step(own, line),
        ));
    }
}

/// The hunks of two patches one after the other are those of the one and then those of
/// the other, where the first ends with a line and the second names its files before its
/// first hunk: no hunk is lost, merged or given the path of another file.
pub proof fn patches_add_up(first: Seq<char>, second: Seq<char>)
    requires
        first.len() == 0 || first.last() == '\n',
        names_files_first(second),
    ensures
        hunks_of(first + second) == hunks_of(first) + hunks_of(second),
{
    lines_add_up(first, second);
    lemma_patch_continued(lines(first), lines(second));
}

} // verus!

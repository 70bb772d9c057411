//! What listings of changes and patches are read as.

use vstd::prelude::*;
use crate::commands::changes::{
    closed_hunks, file_of_line, is_workspace_relative, listed_files, patch_state, patch_step,
    range_of, status_of_code, with_range, without_signs, ByPath, ChangedFile, ChangedFileView,
    HunkView, PatchView,
};
use crate::ordered::{relation_of, sorting_keeps_members};
use crate::text::laws::{ends_make_up_the_text, is_made_of, none_before, the_first_separator_cuts};
use crate::text::{
    contains, decimal, digit, digits, find, lemma_find_from, lines, occurs_at, split, split_once,
    starts_with, words, written_numbers_are_read_back,
};

verus! {

/// The letters of a listing stand for their states, and any other for a modification.
pub proof fn letters_stand_for_states(rest: Seq<char>, c: char)
    ensures
        status_of_code("A"@ + rest) == "added"@,
        status_of_code("D"@ + rest) == "deleted"@,
        status_of_code("R"@ + rest) == "renamed"@,
        c != 'A' && c != 'D' && c != 'R' ==> status_of_code(seq![c] + rest) == "modified"@,
        status_of_code(seq![]) == "modified"@,
{
    reveal_strlit("A");
    reveal_strlit("D");
    reveal_strlit("R");
    assert(("A"@ + rest)[0] == 'A');
    assert(("D"@ + rest)[0] == 'D');
    assert(("R"@ + rest)[0] == 'R');
    assert((seq![c] + rest)[0] == c);
}

/// The text holds no tab.
pub open spec fn is_without_tabs(text: Seq<char>) -> bool {
    forall|i: int| 0 <= i < text.len() ==> #[trigger] text[i] != '\t'
}

proof fn lemma_no_tab(text: Seq<char>)
    requires
        is_without_tabs(text),
    ensures
        split(text, "\t"@) == seq![text],
{
    reveal_strlit("\t");
    lemma_find_from(text, "\t"@, 0);
    if let Some(at) = find(text, "\t"@) {
        assert(text.subrange(at, at + 1)[0] == text[at]);
    }
}

proof fn lemma_tab(first: Seq<char>, rest: Seq<char>)
    requires
        is_without_tabs(first),
    ensures
        split(first + "\t"@ + rest, "\t"@) == seq![first] + split(rest, "\t"@),
{
    reveal_strlit("\t");
    let text = first + "\t"@ + rest;
    assert forall|at: int| 0 <= at < first.len() implies !#[trigger] occurs_at(
        text,
        "\t"@,
        at,
    ) by {
        if occurs_at(text, "\t"@, at) {
            assert(text.subrange(at, at + 1)[0] == text[at]);
            assert(text[at] == first[at]);
        }
    }
    the_first_separator_cuts(text, "\t"@, first, rest);
    assert(is_made_of(text, first, "\t"@, rest));
    assert(none_before(text, "\t"@, first.len() as int));
    assert(split_once(text, "\t"@) == Some((first, rest)));
    lemma_find_from(text, "\t"@, 0);
    let at = find(text, "\t"@)->0;
    assert(text.take(at) == first);
    assert(text.skip(at + "\t"@.len()) == rest);
}

/// A line of a letter and a path tells of the file of the path. A line of a rename tells of
/// the file of the new path.
pub proof fn lines_tell_of_their_files(code: Seq<char>, path: Seq<char>, renamed: Seq<char>)
    requires
        is_without_tabs(code),
        is_without_tabs(path),
        is_without_tabs(renamed),
        code.len() > 0,
    ensures
        code[0] != 'R' ==> file_of_line(code + "\t"@ + path) == (ChangedFileView {
            path,
            status: status_of_code(code),
        }),
        code[0] == 'R' ==> file_of_line(code + "\t"@ + (path + "\t"@ + renamed)) == (
        ChangedFileView { path: renamed, status: "renamed"@ }),
{
    lemma_no_tab(path);
    lemma_no_tab(renamed);
    lemma_tab(code, path);
    lemma_tab(code, path + "\t"@ + renamed);
    lemma_tab(path, renamed);
    let two = seq![code] + seq![path];
    assert(two[0] == code && two[1] == path);
    let three = seq![code] + (seq![path] + seq![renamed]);
    assert(three[0] == code && three[1] == path && three[2] == renamed);
}

/// Every line of a listing tells of a file, and no other file is told of.
pub proof fn every_line_tells_of_a_file(output: Seq<char>, file: ChangedFileView)
    ensures
        listed_files(output).contains(file) <==> exists|i: int|
            0 <= i < lines(output).len() && file_of_line(#[trigger] lines(output)[i]) == file,
{
    let all = lines(output).map_values(|line: Seq<char>| file_of_line(line));
    sorting_keeps_members(all, relation_of::<ChangedFile, ByPath>(ByPath));
    if all.contains(file) {
        let i = choose|i: int| 0 <= i < all.len() && all[i] == file;
        assert(file_of_line(lines(output)[i]) == file);
    }
    if exists|i: int|
        0 <= i < lines(output).len() && file_of_line(#[trigger] lines(output)[i]) == file {
        let i = choose|i: int|
            0 <= i < lines(output).len() && file_of_line(#[trigger] lines(output)[i]) == file;
        assert(all[i] == file);
    }
}

/// A path stays in the workspace unless it starts at the root or one of its parts goes up.
pub proof fn paths_leave_by_root_or_by_going_up(path: Seq<char>)
    ensures
        is_workspace_relative(path) <==> !(path.len() > 0 && path[0] == '/') && forall|i: int|
            0 <= i < split(path, "/"@).len() ==> #[trigger] split(path, "/"@)[i] != ".."@,
{
    reveal_strlit("/");
    if starts_with(path, "/"@) {
        assert(path.subrange(0, 1)[0] == path[0]);
    }
    if path.len() > 0 && path[0] == '/' {
        assert(path.subrange(0, 1) =~= "/"@);
    }
    let parts = split(path, "/"@);
    if parts.contains(".."@) {
        let i = choose|i: int| 0 <= i < parts.len() && parts[i] == ".."@;
        assert(parts[i] == ".."@);
    }
    if exists|i: int| 0 <= i < parts.len() && #[trigger] parts[i] == ".."@ {
        let i = choose|i: int| 0 <= i < parts.len() && #[trigger] parts[i] == ".."@;
        assert(parts.contains(parts[i]));
    }
}

proof fn lemma_headers()
    ensures
        "--- a/"@ =~= seq!['-', '-', '-', ' ', 'a', '/'],
        "+++ b/"@ =~= seq!['+', '+', '+', ' ', 'b', '/'],
        "@@ "@ =~= seq!['@', '@', ' '],
        "--- /dev/null"@.len() == 13,
        "+++ /dev/null"@.len() == 13,
        "--- /dev/null"@[0] == '-',
        "--- /dev/null"@[4] == '/',
        "+++ /dev/null"@[0] == '+',
        "+++ /dev/null"@[4] == '/',
{
    reveal_strlit("--- a/");
    reveal_strlit("+++ b/");
    reveal_strlit("@@ ");
    reveal_strlit("--- /dev/null");
    reveal_strlit("+++ /dev/null");
}

proof fn lemma_starts(line: Seq<char>, start: Seq<char>, i: int)
    requires
        starts_with(line, start),
        0 <= i < start.len(),
    ensures
        line.len() >= start.len(),
        line[i] == start[i],
{
    assert(line.subrange(0, start.len() as int)[i] == line[i]);
}

/// The headers of a file name it before and after the change; the null device stands for
/// no file. Nothing else changes what file a patch is at.
pub proof fn headers_name_the_files(state: PatchView, path: Seq<char>, line: Seq<char>)
    ensures
        patch_step(state, "--- a/"@ + path) == (PatchView { old_path: Some(path), ..state }),
        patch_step(state, "+++ b/"@ + path) == (PatchView { new_path: Some(path), ..state }),
        patch_step(state, "--- /dev/null"@) == (PatchView { old_path: None, ..state }),
        patch_step(state, "+++ /dev/null"@) == (PatchView { new_path: None, ..state }),
        !starts_with(line, "--- a/"@) && line != "--- /dev/null"@ ==> patch_step(
            state,
            line,
        ).old_path == state.old_path,
        !starts_with(line, "+++ b/"@) && line != "+++ /dev/null"@ ==> patch_step(
            state,
            line,
        ).new_path == state.new_path,
        !starts_with(line, "@@ "@) ==> closed_hunks(patch_step(state, line)) == closed_hunks(state),
{
    lemma_headers();
    ends_make_up_the_text("--- a/"@ + path, "--- a/"@, path);
    ends_make_up_the_text("+++ b/"@ + path, "+++ b/"@, path);
    let old = "--- a/"@ + path;
    let new = "+++ b/"@ + path;
    assert(new[0] == '+' && old[0] == '-');
    if starts_with(new, "--- a/"@) {
        lemma_starts(new, "--- a/"@, 0);
    }
    if starts_with("--- /dev/null"@, "--- a/"@) {
        lemma_starts("--- /dev/null"@, "--- a/"@, 4);
    }
    if starts_with("+++ /dev/null"@, "--- a/"@) {
        lemma_starts("+++ /dev/null"@, "--- a/"@, 0);
    }
    if starts_with("+++ /dev/null"@, "+++ b/"@) {
        lemma_starts("+++ /dev/null"@, "+++ b/"@, 4);
    }
    ends_make_up_the_text(line, "--- a/"@, path);
    ends_make_up_the_text(line, "+++ b/"@, path);
    assert("+++ /dev/null"@ != "--- /dev/null"@);
    assert(new != "--- /dev/null"@);
}

/// Every hunk header opens one hunk, after those that came before: in the file of the new
/// path, or of the old one where there is no new one, with the ranges that stand second and
/// third in the header. A header without two ranges, or without a file, opens none.
pub proof fn headers_open_hunks(before: Seq<Seq<char>>, line: Seq<char>)
    requires
        starts_with(line, "@@ "@),
    ensures
        ({
            let state = patch_state(before);
            let after = patch_state(before.push(line));
            let parts = words(line);
            let hunks = closed_hunks(state);
            &&& after.old_path == state.old_path
            &&& after.new_path == state.new_path
            &&& parts.len() >= 3 && state.new_path is Some ==> closed_hunks(after) == hunks.push(
                HunkView {
                    path: state.new_path->0,
                    old_start: range_of(parts[1]).0,
                    new_start: range_of(parts[2]).0,
                    new_count: range_of(parts[2]).1,
                },
            )
            &&& parts.len() >= 3 && state.new_path is None && state.old_path is Some
                ==> closed_hunks(after) == hunks.push(
                HunkView {
                    path: state.old_path->0,
                    old_start: range_of(parts[1]).0,
                    new_start: range_of(parts[2]).0,
                    new_count: range_of(parts[2]).1,
                },
            )
            &&& parts.len() < 3 || (state.new_path is None && state.old_path is None)
                ==> closed_hunks(after) == hunks
        }),
{
    lemma_headers();
    assert(before.push(line).drop_last() =~= before);
    lemma_starts(line, "@@ "@, 0);
    if starts_with(line, "--- a/"@) {
        lemma_starts(line, "--- a/"@, 0);
    }
    if starts_with(line, "+++ b/"@) {
        lemma_starts(line, "+++ b/"@, 0);
    }
}

proof fn lemma_digits(n: nat)
    ensures
        digits(n).len() > 0,
        forall|i: int| 0 <= i < digits(n).len() ==> '0' <= #[trigger] digits(n)[i] <= '9',
    decreases n,
{
    if n >= 10 {
        lemma_digits(n / 10);
    }
}

/// A range is read as its start and its length; without a length it is one line long.
pub proof fn ranges_are_read(start: int, count: int)
    requires
        0 <= start <= i64::MAX,
        0 <= count <= i64::MAX,
    ensures
        range_of("-"@ + (decimal(start) + ","@ + decimal(count))) == (start, count),
        range_of("+"@ + (decimal(start) + ","@ + decimal(count))) == (start, count),
        range_of("-"@ + decimal(start)) == (start, 1int),
        range_of("+"@ + decimal(start)) == (start, 1int),
{
    reveal_strlit("-");
    reveal_strlit("+");
    reveal_strlit(",");
    reveal_strlit("1");
    let first = decimal(start);
    let pair = first + ","@ + decimal(count);
    lemma_digits(start as nat);
    written_numbers_are_read_back(start);
    written_numbers_are_read_back(count);
    written_numbers_are_read_back(1);
    assert(first[0] != '-' && first[0] != '+');
    assert(pair[0] == first[0]);
    lemma_signed("-"@, pair);
    lemma_signed("+"@, pair);
    lemma_signed("-"@, first);
    lemma_signed("+"@, first);
    assert forall|at: int| 0 <= at < first.len() implies !#[trigger] occurs_at(pair, ","@, at) by {
        if occurs_at(pair, ","@, at) {
            assert(pair.subrange(at, at + 1)[0] == pair[at]);
            assert(pair[at] == first[at]);
        }
    }
    the_first_separator_cuts(pair, ","@, first, decimal(count));
    assert(is_made_of(pair, first, ","@, decimal(count)));
    assert(none_before(pair, ","@, first.len() as int));
    the_first_separator_cuts(first, ","@, first, first);
    if contains(first, ","@) {
        let at = choose|at: int| occurs_at(first, ","@, at);
        assert(first.subrange(at, at + 1)[0] == first[at]);
    }
    assert(digits(1) =~= "1"@) by {
        assert(digits(1) =~= seq![digit(1)]);
    }
}

proof fn lemma_signed(sign: Seq<char>, text: Seq<char>)
    requires
        sign == "-"@ || sign == "+"@,
        text.len() > 0,
        text[0] != '-' && text[0] != '+',
    ensures
        without_signs(sign + text) == text,
{
    reveal_strlit("-");
    reveal_strlit("+");
    let whole = sign + text;
    assert(whole[0] == sign[0]);
    assert(whole.skip(1) =~= text);
    assert(without_signs(text) == text);
}

/// A comparison names its first revision, and its second where there is one, behind the end
/// of the options.
pub proof fn comparisons_name_their_revisions(
    arguments: Seq<Seq<char>>,
    base: Seq<char>,
    head: Seq<char>,
)
    ensures
        with_range(arguments, base, None) == arguments.push("--end-of-options"@).push(base),
        with_range(arguments, base, Some(head)) == arguments.push("--end-of-options"@).push(
            base,
        ).push(head),
{
    assert(with_range(arguments, base, None) =~= arguments.push("--end-of-options"@).push(base));
    assert(with_range(arguments, base, Some(head)) =~= arguments.push("--end-of-options"@).push(
        base,
    ).push(head));
}

} // verus!

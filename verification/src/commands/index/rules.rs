//! What a run takes in, what it calls changed and what it works anew, case by case.

use vstd::prelude::*;
use crate::commands::index::runs::{after_run, calls_within, ids_of, last_of_each, FileView};
use crate::commands::index::{
    affected, anchored, callers_of, calls_of, edges_of, edges_of_others, is_changed, is_skipped,
    language_of, missing_paths, nth_part, owner_of, referrers_of, worktree_state,
};
use crate::db::{callee_parts, EdgeView, FileMetadata, NodeView, RawCallView, UnresolvedRefView};
use crate::ordered::{chosen, chosen_members, distinct_texts_ascend, lemma_push_members};
use crate::text::laws::{
    ends_make_up_the_text, is_blank, none_before, splitting_goes_on_after_the_first,
    the_first_separator_cuts, trimming_takes_only_space_away,
};
use crate::text::{contains, occurs_at, split};

verus! {

proof fn lemma_extensions()
    ensures
        "rs"@ =~= seq!['r', 's'],
        "go"@ =~= seq!['g', 'o'],
        "java"@ =~= seq!['j', 'a', 'v', 'a'],
        "c"@ =~= seq!['c'],
        "h"@ =~= seq!['h'],
        "cc"@ =~= seq!['c', 'c'],
        "cpp"@ =~= seq!['c', 'p', 'p'],
        "cxx"@ =~= seq!['c', 'x', 'x'],
        "hh"@ =~= seq!['h', 'h'],
        "hpp"@ =~= seq!['h', 'p', 'p'],
        "hxx"@ =~= seq!['h', 'x', 'x'],
        "zig"@ =~= seq!['z', 'i', 'g'],
{
    reveal_strlit("rs");
    reveal_strlit("go");
    reveal_strlit("java");
    reveal_strlit("c");
    reveal_strlit("h");
    reveal_strlit("cc");
    reveal_strlit("cpp");
    reveal_strlit("cxx");
    reveal_strlit("hh");
    reveal_strlit("hpp");
    reveal_strlit("hxx");
    reveal_strlit("zig");
}

/// Each extension stands for its language, and no other extension for any.
pub proof fn extensions_tell_languages(extension: Seq<char>)
    ensures
        extension == "rs"@ ==> language_of(extension) == Some("rust"@),
        extension == "go"@ ==> language_of(extension) == Some("go"@),
        extension == "java"@ ==> language_of(extension) == Some("java"@),
        extension == "c"@ || extension == "h"@ ==> language_of(extension) == Some("c"@),
        extension == "cc"@ || extension == "cpp"@ || extension == "cxx"@ || extension == "hh"@
            || extension == "hpp"@ || extension == "hxx"@ ==> language_of(extension) == Some("cpp"@),
        extension == "zig"@ ==> language_of(extension) == Some("zig"@),
        language_of(extension) is Some <==> {
            ||| extension == "rs"@
            ||| extension == "go"@
            ||| extension == "java"@
            ||| extension == "c"@
            ||| extension == "h"@
            ||| extension == "cc"@
            ||| extension == "cpp"@
            ||| extension == "cxx"@
            ||| extension == "hh"@
            ||| extension == "hpp"@
            ||| extension == "hxx"@
            ||| extension == "zig"@
        },
{
    lemma_extensions();
    assert("rs"@[0] == 'r' && "go"@[0] == 'g' && "java"@[0] == 'j' && "zig"@[0] == 'z');
    assert("c"@.len() == 1 && "h"@.len() == 1 && "c"@[0] == 'c' && "h"@[0] == 'h');
    assert("cc"@[0] == 'c' && "cpp"@[0] == 'c' && "cxx"@[0] == 'c');
    assert("hh"@[0] == 'h' && "hpp"@[0] == 'h' && "hxx"@[0] == 'h');
    assert("cc"@.len() == 2 && "cpp"@.len() == 3 && "cxx"@.len() == 3);
    assert("hh"@.len() == 2 && "hpp"@.len() == 3 && "hxx"@.len() == 3);
}

/// Generated and foreign code is passed by unless it is wanted; hidden directories and
/// clones are passed by in any case; every other directory is walked.
pub proof fn directories_are_walked_or_passed_by(name: Seq<char>, rest: Seq<char>, wanted: bool)
    ensures
        name == "target"@ || name == "node_modules"@ || name == ".venv"@ || name == "vendor"@
            || name == "build"@ || name == "dist"@ ==> is_skipped(name, wanted) == !wanted,
        name == "clones"@ ==> is_skipped(name, wanted),
        name == "."@ + rest && rest != "venv"@ ==> is_skipped(name, wanted),
        is_skipped(name, true) ==> name == "clones"@ || (name.len() > 0 && name[0] == '.'),
        is_skipped(name, wanted) ==> {
            ||| name == "target"@
            ||| name == "node_modules"@
            ||| name == "vendor"@
            ||| name == "build"@
            ||| name == "dist"@
            ||| name == "clones"@
            ||| name.len() > 0 && name[0] == '.'
        },
{
    reveal_strlit("target");
    reveal_strlit("node_modules");
    reveal_strlit(".venv");
    reveal_strlit("venv");
    reveal_strlit("vendor");
    reveal_strlit("build");
    reveal_strlit("dist");
    reveal_strlit("clones");
    reveal_strlit(".");
    assert("target"@[0] == 't' && "node_modules"@[0] == 'n' && "vendor"@[0] == 'v');
    assert("build"@[0] == 'b' && "dist"@[0] == 'd' && "clones"@[0] == 'c' && ".venv"@[0] == '.');
    ends_make_up_the_text(name, "."@, rest);
    if name == "."@ + rest {
        assert(name[0] == '.');
        if name == ".venv"@ {
            assert(rest =~= name.skip(1));
            assert(rest =~= "venv"@);
        }
    }
    if crate::text::starts_with(name, "."@) {
        assert(name.subrange(0, 1)[0] == name[0]);
        assert("."@[0] == '.');
    }
}

/// A stored file is changed as soon as its hash, its size or its time differs, and not
/// where all three agree; a file that is not stored is.
pub proof fn any_difference_is_a_change(
    stored: &FileMetadata,
    content_hash: Seq<char>,
    size_bytes: i64,
    last_modified: i64,
)
    ensures
        is_changed(None, content_hash, size_bytes, last_modified),
        stored.content_hash@ != content_hash ==> is_changed(
            Some(stored),
            content_hash,
            size_bytes,
            last_modified,
        ),
        stored.size_bytes != Some(size_bytes) ==> is_changed(
            Some(stored),
            content_hash,
            size_bytes,
            last_modified,
        ),
        stored.last_modified != Some(last_modified) ==> is_changed(
            Some(stored),
            content_hash,
            size_bytes,
            last_modified,
        ),
        stored.content_hash@ == content_hash && stored.size_bytes == Some(size_bytes)
            && stored.last_modified == Some(last_modified) ==> !is_changed(
            Some(stored),
            content_hash,
            size_bytes,
            last_modified,
        ),
{
}

/// A worktree is clean where nothing is listed, and dirty where anything is.
pub proof fn listed_changes_are_dirt(listing: Seq<char>)
    ensures
        is_blank(listing) ==> worktree_state(listing) == "clean"@,
        !is_blank(listing) ==> worktree_state(listing) == "dirty"@,
{
    trimming_takes_only_space_away(listing);
}

/// Just the stored files that are gone from disk are pruned.
pub proof fn just_the_missing_are_pruned(
    stored: Seq<Seq<char>>,
    on_disk: Seq<Seq<char>>,
    path: Seq<char>,
)
    ensures
        missing_paths(stored, on_disk).contains(path) <==> stored.contains(path)
            && !on_disk.contains(path),
    decreases stored.len(),
{
    if stored.len() > 0 {
        just_the_missing_are_pruned(stored.drop_last(), on_disk, path);
        assert(stored =~= stored.drop_last().push(stored.last()));
        lemma_push_members(stored.drop_last(), stored.last(), path);
        lemma_push_members(missing_paths(stored.drop_last(), on_disk), stored.last(), path);
    }
}

/// A call of the symbol with the id calls a name that changed.
pub open spec fn calls_changed(
    calls: Seq<RawCallView>,
    names: Seq<Seq<char>>,
    id: Seq<char>,
) -> bool {
    exists|i: int|
        0 <= i < calls.len() && (#[trigger] calls[i]).caller_id == id && names.contains(
            calls[i].callee_simple,
        )
}

/// A reference of the symbol with the id is to a name that changed.
pub open spec fn refers_to_changed(
    references: Seq<UnresolvedRefView>,
    names: Seq<Seq<char>>,
    id: Seq<char>,
) -> bool {
    exists|i: int|
        0 <= i < references.len() && (#[trigger] references[i]).source_id == id && names.contains(
            callee_parts(references[i].specifier).1,
        )
}

proof fn lemma_callers(calls: Seq<RawCallView>, names: Seq<Seq<char>>, id: Seq<char>)
    ensures
        callers_of(calls, names).contains(id) <==> calls_changed(calls, names, id),
    decreases calls.len(),
{
    if calls.len() > 0 {
        let rest = calls.drop_last();
        lemma_callers(rest, names, id);
        lemma_push_members(callers_of(rest, names), calls.last().caller_id, id);
        if calls_changed(calls, names, id) {
            let i = choose|i: int|
                0 <= i < calls.len() && (#[trigger] calls[i]).caller_id == id && names.contains(
                    calls[i].callee_simple,
                );
            if i < rest.len() {
                assert(rest[i].caller_id == id && names.contains(rest[i].callee_simple));
            }
        }
        if calls_changed(rest, names, id) {
            let i = choose|i: int|
                0 <= i < rest.len() && (#[trigger] rest[i]).caller_id == id && names.contains(
                    rest[i].callee_simple,
                );
            assert(calls[i].caller_id == id && names.contains(calls[i].callee_simple));
        }
        if calls.last().caller_id == id && names.contains(calls.last().callee_simple) {
            assert(calls[calls.len() - 1].caller_id == id);
        }
    }
}

proof fn lemma_referrers(
    references: Seq<UnresolvedRefView>,
    names: Seq<Seq<char>>,
    id: Seq<char>,
)
    ensures
        referrers_of(references, names).contains(id) <==> refers_to_changed(references, names, id),
    decreases references.len(),
{
    if references.len() > 0 {
        let rest = references.drop_last();
        lemma_referrers(rest, names, id);
        lemma_push_members(referrers_of(rest, names), references.last().source_id, id);
        if refers_to_changed(references, names, id) {
            let i = choose|i: int|
                0 <= i < references.len() && (#[trigger] references[i]).source_id == id
                    && names.contains(callee_parts(references[i].specifier).1);
            if i < rest.len() {
                assert(rest[i].source_id == id);
            }
        }
        if refers_to_changed(rest, names, id) {
            let i = choose|i: int|
                0 <= i < rest.len() && (#[trigger] rest[i]).source_id == id && names.contains(
                    callee_parts(rest[i].specifier).1,
                );
            assert(references[i].source_id == id);
        }
        if references.last().source_id == id && names.contains(
            callee_parts(references.last().specifier).1,
        ) {
            assert(references[references.len() - 1].source_id == id);
        }
    }
}

/// Worked anew are the changed symbols, those with a call of a changed name and those with
/// a reference to one, and no others.
pub proof fn just_the_concerned_are_affected(
    ids: Seq<Seq<char>>,
    names: Seq<Seq<char>>,
    calls: Seq<RawCallView>,
    references: Seq<UnresolvedRefView>,
    id: Seq<char>,
)
    ensures
        affected(ids, names, calls, references).contains(id) <==> {
            ||| ids.contains(id)
            ||| calls_changed(calls, names, id)
            ||| refers_to_changed(references, names, id)
        },
{
    let callers = callers_of(calls, names);
    let referrers = referrers_of(references, names);
    let all = ids + callers + referrers;
    distinct_texts_ascend(all);
    lemma_callers(calls, names, id);
    lemma_referrers(references, names, id);
    if all.contains(id) {
        let i = choose|i: int| 0 <= i < all.len() && all[i] == id;
        if i < ids.len() {
            assert(ids[i] == id);
        } else if i < ids.len() + callers.len() {
            assert(callers[i - ids.len()] == id);
        } else {
            assert(referrers[i - ids.len() - callers.len()] == id);
        }
    }
    if ids.contains(id) {
        let i = choose|i: int| 0 <= i < ids.len() && ids[i] == id;
        assert(all[i] == id);
    }
    if callers.contains(id) {
        let i = choose|i: int| 0 <= i < callers.len() && callers[i] == id;
        assert(all[ids.len() + i] == id);
    }
    if referrers.contains(id) {
        let i = choose|i: int| 0 <= i < referrers.len() && referrers[i] == id;
        assert(all[ids.len() + callers.len() + i] == id);
    }
    assert(affected(ids, names, calls, references).contains(id) == all.contains(id));
}

/// All calls of the callers are resolved anew, and no others.
pub proof fn all_calls_of_the_callers_are_replayed(
    calls: Seq<RawCallView>,
    callers: Seq<Seq<char>>,
    call: RawCallView,
)
    ensures
        calls_of(calls, callers).contains(call) <==> calls.contains(call) && callers.contains(
            call.caller_id,
        ),
{
    chosen_members(calls, |call: RawCallView| callers.contains(call.caller_id));
}

/// An edge belongs to its target where something is injected or an event consumed, and
/// otherwise to its source. It is dropped with the one it belongs to, and stays with any
/// other.
pub proof fn edges_go_with_their_owners(
    edges: Seq<EdgeView>,
    owners: Seq<Seq<char>>,
    edge: EdgeView,
)
    requires
        edges.contains(edge),
    ensures
        edge.kind == "injected_into"@ || edge.kind == "consumes_event"@ ==> owner_of(edge)
            == edge.target_id,
        edge.kind != "injected_into"@ && edge.kind != "consumes_event"@ ==> owner_of(edge)
            == edge.source_id,
        edges_of(edges, owners).contains(edge) <==> owners.contains(owner_of(edge)),
        edges_of_others(edges, owners).contains(edge) <==> !owners.contains(owner_of(edge)),
{
    chosen_members(edges, |edge: EdgeView| owners.contains(owner_of(edge)));
    chosen_members(edges, |edge: EdgeView| !owners.contains(owner_of(edge)));
}

/// An edge is stored where both of its ends are symbols.
pub proof fn edges_join_stored_symbols(edges: Seq<EdgeView>, ids: Set<Seq<char>>, edge: EdgeView)
    ensures
        anchored(edges, ids).contains(edge) <==> edges.contains(edge) && ids.contains(
            edge.source_id,
        ) && ids.contains(edge.target_id),
{
    chosen_members(
        edges,
        |edge: EdgeView| ids.contains(edge.source_id) && ids.contains(edge.target_id),
    );
}

proof fn lemma_has_id(nodes: Seq<NodeView>, id: Seq<char>)
    ensures
        ids_of(nodes).contains(id) <==> exists|j: int|
            0 <= j < nodes.len() && (#[trigger] nodes[j]).id == id,
{
    if ids_of(nodes).contains(id) {
        let j = choose|j: int| 0 <= j < ids_of(nodes).len() && ids_of(nodes)[j] == id;
        assert(nodes[j].id == id);
    }
    if exists|j: int| 0 <= j < nodes.len() && (#[trigger] nodes[j]).id == id {
        let j = choose|j: int| 0 <= j < nodes.len() && (#[trigger] nodes[j]).id == id;
        assert(ids_of(nodes)[j] == id);
    }
}

/// Of the symbols of a file with one id, the last one is stored.
pub proof fn the_last_of_an_id_is_stored(nodes: Seq<NodeView>, i: int)
    requires
        0 <= i < nodes.len(),
        forall|j: int| i < j < nodes.len() ==> (#[trigger] nodes[j]).id != nodes[i].id,
    ensures
        last_of_each(nodes).contains(nodes[i]),
    decreases nodes.len(),
{
    let rest = nodes.skip(1);
    let later = last_of_each(rest);
    if i == 0 {
        lemma_has_id(rest, nodes[0].id);
        assert forall|j: int| 0 <= j < rest.len() implies (#[trigger] rest[j]).id
            != nodes[0].id by {
            assert(rest[j] == nodes[j + 1]);
        }
        assert(last_of_each(nodes)[0] == nodes[0]);
    } else {
        assert(rest[i - 1] == nodes[i]);
        assert forall|j: int| i - 1 < j < rest.len() implies (#[trigger] rest[j]).id
            != rest[i - 1].id by {
            assert(rest[j] == nodes[j + 1]);
        }
        the_last_of_an_id_is_stored(rest, i - 1);
        let k = choose|k: int| 0 <= k < later.len() && later[k] == nodes[i];
        if ids_of(rest).contains(nodes[0].id) {
            assert(last_of_each(nodes)[k] == nodes[i]);
        } else {
            assert(last_of_each(nodes)[k + 1] == nodes[i]);
        }
    }
}

/// The calls that are stored of a file are those that its symbols make.
pub proof fn stored_calls_have_stored_callers(
    calls: Seq<RawCallView>,
    nodes: Seq<NodeView>,
    call: RawCallView,
)
    ensures
        calls_within(calls, nodes).contains(call) <==> calls.contains(call) && exists|j: int|
            0 <= j < nodes.len() && (#[trigger] nodes[j]).id == call.caller_id,
{
    let picks = |call: RawCallView| ids_of(nodes).contains(call.caller_id);
    chosen_members(calls, picks);
    lemma_has_id(nodes, call.caller_id);
    let found = calls_within(calls, nodes);
    if found.contains(call) {
        let i = choose|i: int| 0 <= i < found.len() && found[i] == call;
        assert(picks(found[i]));
    }
    if calls.contains(call) && picks(call) {
        assert(found.contains(call));
    }
}

/// After a run the files that it did not touch are as they were, and those that it parsed
/// are as they were found; nothing else is there.
pub proof fn runs_replace_what_they_touch(
    files: Seq<FileView>,
    touched: Seq<Seq<char>>,
    parsed: Seq<FileView>,
    file: FileView,
)
    ensures
        after_run(files, touched, parsed).contains(file) <==> parsed.contains(file) || (
        files.contains(file) && !touched.contains(file.path)),
{
    let picks = |file: FileView| !touched.contains(file.path);
    let kept = chosen(files, picks);
    let after = after_run(files, touched, parsed);
    chosen_members(files, picks);
    if after.contains(file) {
        let i = choose|i: int| 0 <= i < after.len() && after[i] == file;
        if i < kept.len() {
            assert(kept[i] == file && picks(kept[i]));
            assert(kept.contains(file));
        } else {
            assert(parsed[i - kept.len()] == file);
        }
    }
    if parsed.contains(file) {
        let i = choose|i: int| 0 <= i < parsed.len() && parsed[i] == file;
        assert(after[kept.len() + i] == file);
    }
    if files.contains(file) && picks(file) {
        assert(kept.contains(file));
        let i = choose|i: int| 0 <= i < kept.len() && kept[i] == file;
        assert(after[i] == file);
    }
}

/// A commit is shown as its hash, its subject and its date, with bars between them.
pub proof fn commits_come_apart_at_bars(sha: Seq<char>, subject: Seq<char>, date: Seq<char>)
    requires
        !contains(sha, "|"@),
        !contains(subject, "|"@),
        !contains(date, "|"@),
    ensures
        ({
            let parts = split(sha + "|"@ + (subject + "|"@ + date), "|"@);
            &&& nth_part(parts, 0) == Some(sha)
            &&& nth_part(parts, 1) == Some(subject)
            &&& nth_part(parts, 2) == Some(date)
            &&& nth_part(parts, 3) is None
        }),
{
    reveal_strlit("|");
    lemma_no_bar_before(sha, subject + "|"@ + date);
    lemma_no_bar_before(subject, date);
    splitting_goes_on_after_the_first(sha, "|"@, subject + "|"@ + date);
    splitting_goes_on_after_the_first(subject, "|"@, date);
    the_first_separator_cuts(date, "|"@, date, date);
    assert(split(date, "|"@) == seq![date]);
    let parts = seq![sha] + (seq![subject] + seq![date]);
    assert(parts[0] == sha && parts[1] == subject && parts[2] == date && parts.len() == 3);
}

proof fn lemma_no_bar_before(first: Seq<char>, rest: Seq<char>)
    requires
        !contains(first, "|"@),
    ensures
        none_before(first + "|"@ + rest, "|"@, first.len() as int),
{
    reveal_strlit("|");
    let text = first + "|"@ + rest;
    assert forall|at: int| 0 <= at < first.len() implies !#[trigger] occurs_at(
        text,
        "|"@,
        at,
    ) by {
        if occurs_at(text, "|"@, at) {
            assert(text.subrange(at, at + 1) =~= first.subrange(at, at + 1));
            assert(occurs_at(first, "|"@, at));
        }
    }
}

} // verus!

//! A run over an index that is there leaves what a first run over the same files makes.

use vstd::prelude::*;
use crate::commands::index::laws::{
    bearing, calls_by, later_runs_store_what_full_runs_store, only_noted_changed,
    references_of_others, selective_runs_equal_full_runs, well_recorded,
};
use crate::commands::index::order::{have_own_ids, order_does_not_matter, same_items};
use crate::commands::index::recording::{is_of_file, parsed_files_are_well_recorded};
use crate::commands::index::runs::{
    after_run, all_calls, all_nodes, file_of, files_of, found_in, ids_of, is_noted, last_of_each,
    FileView, SourceView,
};
use crate::commands::index::{affected, anchored, calls_of, edges_of_others, path_language};
use crate::commands::snapshot::node_with_id;
use crate::db::{EdgeView, NodeView, RawCallView, UnresolvedRefView};
use crate::ordered::{
    choosing_adds_up, chosen, chosen_members, lemma_push_members, nothing_is_chosen,
};
use crate::parser::edge_order::is_canonical;
use crate::parser::grammar_named;
use crate::parser::interner::index_of_nodes;
use crate::parser::resolve::{edges_of_calls, unresolved_of_calls};
use crate::parser::syntax::source_tree;
use crate::text::starts_with;

verus! {

// ---------------------------------------------------------------------------
// A run notes what it changes

/// Every call of a file is made by one of its symbols.
pub open spec fn is_self_contained(file: FileView) -> bool {
    forall|k: int|
        0 <= k < file.calls.len() ==> ids_of(file.nodes).contains(
            (#[trigger] file.calls[k]).caller_id,
        )
}

proof fn lemma_files_added(files: Seq<FileView>, more: Seq<FileView>)
    ensures
        all_nodes(files + more) == all_nodes(files) + all_nodes(more),
        all_calls(files + more) == all_calls(files) + all_calls(more),
    decreases more.len(),
{
    if more.len() == 0 {
        assert(files + more =~= files);
        assert(all_nodes(files) + all_nodes(more) =~= all_nodes(files));
        assert(all_calls(files) + all_calls(more) =~= all_calls(files));
    } else {
        let front = more.drop_last();
        assert((files + more).drop_last() =~= files + front);
        assert((files + more).last() == more.last());
        lemma_files_added(files, front);
        assert(all_nodes(files + more) =~= all_nodes(files) + all_nodes(more));
        assert(all_calls(files + more) =~= all_calls(files) + all_calls(more));
    }
}

/// Nothing of a file is picked.
spec fn is_silent(
    file: FileView,
    picks_node: spec_fn(NodeView) -> bool,
    picks_call: spec_fn(RawCallView) -> bool,
) -> bool {
    &&& forall|k: int| 0 <= k < file.nodes.len() ==> !picks_node(#[trigger] file.nodes[k])
    &&& forall|k: int| 0 <= k < file.calls.len() ==> !picks_call(#[trigger] file.calls[k])
}

proof fn lemma_silent_files(
    files: Seq<FileView>,
    touched: Seq<Seq<char>>,
    picks_node: spec_fn(NodeView) -> bool,
    picks_call: spec_fn(RawCallView) -> bool,
)
    requires
        forall|i: int|
            0 <= i < files.len() && touched.contains((#[trigger] files[i]).path) ==> is_silent(
                files[i],
                picks_node,
                picks_call,
            ),
    ensures
        ({
            let left = chosen(files, |file: FileView| !touched.contains(file.path));
            &&& chosen(all_nodes(files), picks_node) == chosen(all_nodes(left), picks_node)
            &&& chosen(all_calls(files), picks_call) == chosen(all_calls(left), picks_call)
        }),
    decreases files.len(),
{
    let untouched = |file: FileView| !touched.contains(file.path);
    let left = chosen(files, untouched);
    if files.len() > 0 {
        let front = files.drop_last();
        let last = files.last();
        let before = chosen(front, untouched);
        assert(files[files.len() - 1] == last);
        assert forall|i: int|
            0 <= i < front.len() && touched.contains((#[trigger] front[i]).path) implies is_silent(
            front[i],
            picks_node,
            picks_call,
        ) by {
            assert(files[i] == front[i]);
        }
        lemma_silent_files(front, touched, picks_node, picks_call);
        choosing_adds_up(all_nodes(front), last.nodes, picks_node);
        choosing_adds_up(all_calls(front), last.calls, picks_call);
        if untouched(last) {
            assert(left == before.push(last));
            assert(left.drop_last() =~= before);
            choosing_adds_up(all_nodes(before), last.nodes, picks_node);
            choosing_adds_up(all_calls(before), last.calls, picks_call);
        } else {
            assert(left == before);
            nothing_is_chosen(last.nodes, picks_node);
            nothing_is_chosen(last.calls, picks_call);
            assert(chosen(all_nodes(front), picks_node) + Seq::<NodeView>::empty() =~= chosen(
                all_nodes(front),
                picks_node,
            ));
            assert(chosen(all_calls(front), picks_call) + Seq::<RawCallView>::empty() =~= chosen(
                all_calls(front),
                picks_call,
            ));
        }
    } else {
        assert(left =~= files);
    }
}

proof fn lemma_all_silent(
    files: Seq<FileView>,
    picks_node: spec_fn(NodeView) -> bool,
    picks_call: spec_fn(RawCallView) -> bool,
)
    requires
        forall|i: int|
            0 <= i < files.len() ==> is_silent(#[trigger] files[i], picks_node, picks_call),
    ensures
        chosen(all_nodes(files), picks_node) == Seq::<NodeView>::empty(),
        chosen(all_calls(files), picks_call) == Seq::<RawCallView>::empty(),
    decreases files.len(),
{
    if files.len() > 0 {
        let front = files.drop_last();
        let last = files.last();
        assert(is_silent(files[files.len() - 1], picks_node, picks_call));
        assert forall|i: int| 0 <= i < front.len() implies is_silent(
            #[trigger] front[i],
            picks_node,
            picks_call,
        ) by {
            assert(files[i] == front[i]);
        }
        lemma_all_silent(front, picks_node, picks_call);
        choosing_adds_up(all_nodes(front), last.nodes, picks_node);
        choosing_adds_up(all_calls(front), last.calls, picks_call);
        nothing_is_chosen(last.nodes, picks_node);
        nothing_is_chosen(last.calls, picks_call);
        assert(Seq::<NodeView>::empty() + Seq::<NodeView>::empty() =~= Seq::<NodeView>::empty());
        assert(Seq::<RawCallView>::empty() + Seq::<RawCallView>::empty() =~= Seq::<
            RawCallView,
        >::empty());
    }
}

proof fn lemma_silent_run(
    files: Seq<FileView>,
    touched: Seq<Seq<char>>,
    parsed: Seq<FileView>,
    picks_node: spec_fn(NodeView) -> bool,
    picks_call: spec_fn(RawCallView) -> bool,
)
    requires
        forall|i: int|
            0 <= i < files.len() && touched.contains((#[trigger] files[i]).path) ==> is_silent(
                files[i],
                picks_node,
                picks_call,
            ),
        forall|i: int|
            0 <= i < parsed.len() ==> is_silent(#[trigger] parsed[i], picks_node, picks_call),
    ensures
        chosen(all_nodes(files), picks_node) == chosen(
            all_nodes(after_run(files, touched, parsed)),
            picks_node,
        ),
        chosen(all_calls(files), picks_call) == chosen(
            all_calls(after_run(files, touched, parsed)),
            picks_call,
        ),
{
    let left = chosen(files, |file: FileView| !touched.contains(file.path));
    lemma_silent_files(files, touched, picks_node, picks_call);
    lemma_all_silent(parsed, picks_node, picks_call);
    lemma_files_added(left, parsed);
    choosing_adds_up(all_nodes(left), all_nodes(parsed), picks_node);
    choosing_adds_up(all_calls(left), all_calls(parsed), picks_call);
    assert(chosen(all_nodes(left), picks_node) + Seq::<NodeView>::empty() =~= chosen(
        all_nodes(left),
        picks_node,
    ));
    assert(chosen(all_calls(left), picks_call) + Seq::<RawCallView>::empty() =~= chosen(
        all_calls(left),
        picks_call,
    ));
}

proof fn lemma_found_among_its_own(nodes: Seq<NodeView>, id: Seq<char>)
    ensures
        node_with_id(nodes, id) == node_with_id(
            chosen(nodes, |node: NodeView| node.id == id),
            id,
        ),
    decreases nodes.len(),
{
    if nodes.len() > 0 {
        lemma_found_among_its_own(nodes.drop_last(), id);
        if nodes.last().id == id {
            let own = chosen(nodes, |node: NodeView| node.id == id);
            assert(own.last() == nodes.last());
        }
    }
}

/// A run that notes the ids and names of all symbols of the files that it touches, as they
/// were and as they are, has noted all that it changes.
pub proof fn runs_note_what_they_change(
    files: Seq<FileView>,
    touched: Seq<Seq<char>>,
    parsed: Seq<FileView>,
    ids: Seq<Seq<char>>,
    names: Seq<Seq<char>>,
)
    requires
        forall|i: int|
            0 <= i < files.len() && touched.contains((#[trigger] files[i]).path) ==> is_noted(
                files[i],
                ids,
                names,
            ) && is_self_contained(files[i]),
        forall|i: int|
            0 <= i < parsed.len() ==> is_noted(#[trigger] parsed[i], ids, names)
                && is_self_contained(parsed[i]),
    ensures
        only_noted_changed(
            all_nodes(files),
            all_calls(files),
            all_nodes(after_run(files, touched, parsed)),
            all_calls(after_run(files, touched, parsed)),
            ids,
            names,
        ),
{
    let after = after_run(files, touched, parsed);
    let nodes = all_nodes(files);
    let calls = all_calls(files);
    let new_nodes = all_nodes(after);
    let new_calls = all_calls(after);
    let no_call = |call: RawCallView| false;
    assert forall|name: Seq<char>| !names.contains(name) implies #[trigger] bearing(nodes, name)
        == bearing(new_nodes, name) by {
        let picks = |node: NodeView| node.name == name;
        assert forall|i: int|
            0 <= i < files.len() && touched.contains((#[trigger] files[i]).path) implies is_silent(
            files[i],
            picks,
            no_call,
        ) by {}
        assert forall|i: int| 0 <= i < parsed.len() implies is_silent(
            #[trigger] parsed[i],
            picks,
            no_call,
        ) by {}
        lemma_silent_run(files, touched, parsed, picks, no_call);
    }
    assert forall|id: Seq<char>| !ids.contains(id) implies node_with_id(nodes, id) == node_with_id(
        new_nodes,
        id,
    ) && #[trigger] calls_by(calls, id) == calls_by(new_calls, id) by {
        let picks = |node: NodeView| node.id == id;
        let made = |call: RawCallView| call.caller_id == id;
        assert forall|i: int|
            0 <= i < files.len() && touched.contains((#[trigger] files[i]).path) implies is_silent(
            files[i],
            picks,
            made,
        ) by {
            lemma_callers_noted(files[i], ids, names, id);
        }
        assert forall|i: int| 0 <= i < parsed.len() implies is_silent(
            #[trigger] parsed[i],
            picks,
            made,
        ) by {
            lemma_callers_noted(parsed[i], ids, names, id);
        }
        lemma_silent_run(files, touched, parsed, picks, made);
        lemma_found_among_its_own(nodes, id);
        lemma_found_among_its_own(new_nodes, id);
    }
    assert forall|id: Seq<char>| !ids.contains(id) implies #[trigger] node_with_id(nodes, id)
        == node_with_id(new_nodes, id) by {
        assert(calls_by(calls, id) == calls_by(new_calls, id));
    }
}

proof fn lemma_callers_noted(
    file: FileView,
    ids: Seq<Seq<char>>,
    names: Seq<Seq<char>>,
    id: Seq<char>,
)
    requires
        is_noted(file, ids, names),
        is_self_contained(file),
        !ids.contains(id),
    ensures
        is_silent(
            file,
            |node: NodeView| node.id == id,
            |call: RawCallView| call.caller_id == id,
        ),
{
    assert forall|k: int| 0 <= k < file.calls.len() implies (#[trigger] file.calls[k]).caller_id
        != id by {
        let own = ids_of(file.nodes);
        let t = choose|t: int| 0 <= t < own.len() && own[t] == file.calls[k].caller_id;
        assert(ids.contains(file.nodes[t].id));
    }
}

// ---------------------------------------------------------------------------
// What is stored of a file

proof fn lemma_last_of_each(nodes: Seq<NodeView>)
    ensures
        have_own_ids(last_of_each(nodes)),
        forall|k: int|
            0 <= k < last_of_each(nodes).len() ==> nodes.contains(
                #[trigger] last_of_each(nodes)[k],
            ),
    decreases nodes.len(),
{
    if nodes.len() > 0 {
        let later = nodes.skip(1);
        let rest = last_of_each(later);
        let kept = last_of_each(nodes);
        lemma_last_of_each(later);
        assert forall|k: int| 0 <= k < rest.len() implies nodes.contains(#[trigger] rest[k])
            && ids_of(later).contains(rest[k].id) by {
            let t = choose|t: int| 0 <= t < later.len() && later[t] == rest[k];
            assert(nodes[t + 1] == rest[k]);
            assert(ids_of(later)[t] == rest[k].id);
        }
        if !ids_of(later).contains(nodes[0].id) {
            assert forall|i: int, j: int|
                #![trigger kept[i], kept[j]]
                0 <= i < j < kept.len() implies kept[i].id != kept[j].id by {
                assert(kept[j] == rest[j - 1]);
                if i > 0 {
                    assert(kept[i] == rest[i - 1]);
                }
            }
            assert forall|k: int| 0 <= k < kept.len() implies nodes.contains(#[trigger] kept[k]) by {
                if k > 0 {
                    assert(kept[k] == rest[k - 1]);
                } else {
                    assert(nodes[0] == kept[0]);
                }
            }
        }
    }
}

/// What is stored of a file is in order: its symbols belong to it and have ids of their
/// own, its calls are made by its symbols, and they are well recorded.
pub proof fn stored_files_are_sound(source: SourceView)
    ensures
        have_own_ids(file_of(source).nodes),
        is_self_contained(file_of(source)),
        forall|k: int|
            0 <= k < file_of(source).calls.len() ==> well_recorded(
                #[trigger] file_of(source).calls[k],
            ),
        forall|k: int|
            0 <= k < file_of(source).nodes.len() ==> is_of_file(
                #[trigger] file_of(source).nodes[k],
                source.path,
            ),
{
    let found = found_in(source);
    let file = file_of(source);
    lemma_last_of_each(found.nodes);
    chosen_members(
        found.calls,
        |call: RawCallView| ids_of(file.nodes).contains(call.caller_id),
    );
    assert forall|k: int| 0 <= k < file.calls.len() implies well_recorded(#[trigger] file.calls[k])
        && ids_of(file.nodes).contains(file.calls[k].caller_id) by {
        assert(file.calls.contains(file.calls[k]));
        let t = choose|t: int| 0 <= t < found.calls.len() && found.calls[t] == file.calls[k];
        if let Some(language) = path_language(source.path) {
            if let Some(grammar) = grammar_named(language) {
                parsed_files_are_well_recorded(
                    grammar,
                    source_tree(grammar, source.content),
                    source.path,
                );
                assert(well_recorded(found.calls[t]));
            }
        }
    }
    assert forall|k: int| 0 <= k < file.nodes.len() implies is_of_file(
        #[trigger] file.nodes[k],
        source.path,
    ) by {
        let t = choose|t: int| 0 <= t < found.nodes.len() && found.nodes[t] == file.nodes[k];
        if let Some(language) = path_language(source.path) {
            if let Some(grammar) = grammar_named(language) {
                parsed_files_are_well_recorded(
                    grammar,
                    source_tree(grammar, source.content),
                    source.path,
                );
                assert(is_of_file(found.nodes[t], source.path));
            }
        }
    }
}

// ---------------------------------------------------------------------------
// The symbols and calls of all files

proof fn lemma_nodes_of(files: Seq<FileView>, node: NodeView)
    ensures
        all_nodes(files).contains(node) <==> exists|i: int|
            0 <= i < files.len() && (#[trigger] files[i]).nodes.contains(node),
    decreases files.len(),
{
    if files.len() > 0 {
        let front = files.drop_last();
        let before = all_nodes(front);
        let more = files.last().nodes;
        let all = all_nodes(files);
        assert(files[files.len() - 1] == files.last());
        lemma_nodes_of(front, node);
        if all.contains(node) {
            let t = choose|t: int| 0 <= t < all.len() && all[t] == node;
            if t < before.len() {
                assert(before[t] == node);
                let i = choose|i: int|
                    0 <= i < front.len() && (#[trigger] front[i]).nodes.contains(node);
                assert(files[i] == front[i]);
            } else {
                assert(more[t - before.len()] == node);
            }
        }
        if exists|i: int| 0 <= i < files.len() && (#[trigger] files[i]).nodes.contains(node) {
            let i = choose|i: int|
                0 <= i < files.len() && (#[trigger] files[i]).nodes.contains(node);
            if i < front.len() {
                assert(front[i] == files[i]);
                let t = choose|t: int| 0 <= t < before.len() && before[t] == node;
                assert(all[t] == node);
            } else {
                let t = choose|t: int| 0 <= t < more.len() && more[t] == node;
                assert(all[before.len() + t] == node);
            }
        }
    }
}

proof fn lemma_calls_of(files: Seq<FileView>, call: RawCallView)
    ensures
        all_calls(files).contains(call) <==> exists|i: int|
            0 <= i < files.len() && (#[trigger] files[i]).calls.contains(call),
    decreases files.len(),
{
    if files.len() > 0 {
        let front = files.drop_last();
        let before = all_calls(front);
        let more = files.last().calls;
        let all = all_calls(files);
        assert(files[files.len() - 1] == files.last());
        lemma_calls_of(front, call);
        if all.contains(call) {
            let t = choose|t: int| 0 <= t < all.len() && all[t] == call;
            if t < before.len() {
                assert(before[t] == call);
                let i = choose|i: int|
                    0 <= i < front.len() && (#[trigger] front[i]).calls.contains(call);
                assert(files[i] == front[i]);
            } else {
                assert(more[t - before.len()] == call);
            }
        }
        if exists|i: int| 0 <= i < files.len() && (#[trigger] files[i]).calls.contains(call) {
            let i = choose|i: int|
                0 <= i < files.len() && (#[trigger] files[i]).calls.contains(call);
            if i < front.len() {
                assert(front[i] == files[i]);
                let t = choose|t: int| 0 <= t < before.len() && before[t] == call;
                assert(all[t] == call);
            } else {
                let t = choose|t: int| 0 <= t < more.len() && more[t] == call;
                assert(all[before.len() + t] == call);
            }
        }
    }
}

proof fn lemma_same_files(files: Seq<FileView>, others: Seq<FileView>)
    requires
        same_items(files, others),
    ensures
        same_items(all_nodes(files), all_nodes(others)),
        same_items(all_calls(files), all_calls(others)),
{
    assert forall|node: NodeView| #[trigger]
        all_nodes(files).contains(node) <==> all_nodes(others).contains(node) by {
        lemma_nodes_of(files, node);
        lemma_nodes_of(others, node);
        if all_nodes(files).contains(node) {
            let i = choose|i: int|
                0 <= i < files.len() && (#[trigger] files[i]).nodes.contains(node);
            assert(files.contains(files[i]));
            assert(others.contains(files[i]));
            let t = choose|t: int| 0 <= t < others.len() && others[t] == files[i];
            assert(others[t].nodes.contains(node));
        }
        if all_nodes(others).contains(node) {
            let i = choose|i: int|
                0 <= i < others.len() && (#[trigger] others[i]).nodes.contains(node);
            assert(others.contains(others[i]));
            assert(files.contains(others[i]));
            let t = choose|t: int| 0 <= t < files.len() && files[t] == others[i];
            assert(files[t].nodes.contains(node));
        }
    }
    assert forall|call: RawCallView| #[trigger]
        all_calls(files).contains(call) <==> all_calls(others).contains(call) by {
        lemma_calls_of(files, call);
        lemma_calls_of(others, call);
        if all_calls(files).contains(call) {
            let i = choose|i: int|
                0 <= i < files.len() && (#[trigger] files[i]).calls.contains(call);
            assert(files.contains(files[i]));
            assert(others.contains(files[i]));
            let t = choose|t: int| 0 <= t < others.len() && others[t] == files[i];
            assert(others[t].calls.contains(call));
        }
        if all_calls(others).contains(call) {
            let i = choose|i: int|
                0 <= i < others.len() && (#[trigger] others[i]).calls.contains(call);
            assert(others.contains(others[i]));
            assert(files.contains(others[i]));
            let t = choose|t: int| 0 <= t < files.len() && files[t] == others[i];
            assert(files[t].calls.contains(call));
        }
    }
}

/// No symbol of the one file has the id of a symbol of the other.
pub open spec fn share_no_id(left: FileView, right: FileView) -> bool {
    forall|a: int, b: int|
        #![trigger left.nodes[a], right.nodes[b]]
        0 <= a < left.nodes.len() && 0 <= b < right.nodes.len() ==> left.nodes[a].id
            != right.nodes[b].id
}

proof fn lemma_files_own_ids(files: Seq<FileView>)
    requires
        forall|i: int| 0 <= i < files.len() ==> have_own_ids((#[trigger] files[i]).nodes),
        forall|i: int, j: int|
            #![trigger files[i], files[j]]
            0 <= i < j < files.len() ==> share_no_id(files[i], files[j]),
    ensures
        have_own_ids(all_nodes(files)),
    decreases files.len(),
{
    if files.len() > 0 {
        let front = files.drop_last();
        let before = all_nodes(front);
        let more = files.last().nodes;
        let all = all_nodes(files);
        let end = files.len() - 1;
        assert(files[end] == files.last());
        assert forall|i: int| 0 <= i < front.len() implies have_own_ids(
            (#[trigger] front[i]).nodes,
        ) by {
            assert(front[i] == files[i]);
        }
        assert forall|i: int, j: int|
            #![trigger front[i], front[j]]
            0 <= i < j < front.len() implies share_no_id(front[i], front[j]) by {
            assert(front[i] == files[i] && front[j] == files[j]);
        }
        lemma_files_own_ids(front);
        assert forall|i: int, j: int|
            #![trigger all[i], all[j]]
            0 <= i < j < all.len() implies all[i].id != all[j].id by {
            if j < before.len() {
                assert(all[i] == before[i] && all[j] == before[j]);
            } else if i >= before.len() {
                assert(all[i] == more[i - before.len()] && all[j] == more[j - before.len()]);
            } else {
                assert(all[i] == before[i] && all[j] == more[j - before.len()]);
                assert(before.contains(before[i]));
                lemma_nodes_of(front, before[i]);
                let f = choose|f: int|
                    0 <= f < front.len() && (#[trigger] front[f]).nodes.contains(before[i]);
                assert(files[f] == front[f]);
                assert(share_no_id(files[f], files[end]));
                let t = choose|t: int|
                    0 <= t < files[f].nodes.len() && files[f].nodes[t] == before[i];
                assert(files[f].nodes[t].id != files[end].nodes[j - before.len()].id);
            }
        }
    }
}

proof fn lemma_known_ids(nodes: Seq<NodeView>, id: Seq<char>)
    ensures
        index_of_nodes(nodes).by_id.dom().contains(id) <==> ids_of(nodes).contains(id),
    decreases nodes.len(),
{
    let ids = ids_of(nodes);
    if nodes.len() > 0 {
        let front = nodes.drop_last();
        lemma_known_ids(front, id);
        assert(ids =~= ids_of(front).push(nodes.last().id));
        lemma_push_members(ids_of(front), nodes.last().id, id);
    }
}

proof fn lemma_same_known(nodes: Seq<NodeView>, others: Seq<NodeView>)
    requires
        same_items(nodes, others),
    ensures
        index_of_nodes(nodes).by_id.dom() == index_of_nodes(others).by_id.dom(),
{
    let known = index_of_nodes(nodes).by_id.dom();
    let other = index_of_nodes(others).by_id.dom();
    assert forall|id: Seq<char>| known.contains(id) == other.contains(id) by {
        lemma_known_ids(nodes, id);
        lemma_known_ids(others, id);
        let first = ids_of(nodes);
        let second = ids_of(others);
        if first.contains(id) {
            let k = choose|k: int| 0 <= k < first.len() && first[k] == id;
            assert(nodes.contains(nodes[k]));
            assert(others.contains(nodes[k]));
            let t = choose|t: int| 0 <= t < others.len() && others[t] == nodes[k];
            assert(second[t] == id);
        }
        if second.contains(id) {
            let k = choose|k: int| 0 <= k < second.len() && second[k] == id;
            assert(others.contains(others[k]));
            assert(nodes.contains(others[k]));
            let t = choose|t: int| 0 <= t < nodes.len() && nodes[t] == others[k];
            assert(first[t] == id);
        }
    }
    assert(known =~= other);
}

// ---------------------------------------------------------------------------
// A run over sources

/// No two files have the same path.
pub open spec fn have_own_paths(sources: Seq<SourceView>) -> bool {
    forall|i: int, j: int|
        #![trigger sources[i], sources[j]]
        0 <= i < j < sources.len() ==> sources[i].path != sources[j].path
}

/// Files with different paths hold no symbols with the same id.
pub open spec fn are_apart(sources: Seq<SourceView>) -> bool {
    forall|i: int, j: int|
        #![trigger sources[i], sources[j]]
        0 <= i < sources.len() && 0 <= j < sources.len() && sources[i].path != sources[j].path
            ==> share_no_id(file_of(sources[i]), file_of(sources[j]))
}

/// What was added, changed or deleted between two states of a project is touched.
pub open spec fn only_touched_differ(
    sources: Seq<SourceView>,
    new_sources: Seq<SourceView>,
    touched: Seq<Seq<char>>,
) -> bool {
    forall|source: SourceView|
        !touched.contains(source.path) ==> (#[trigger] sources.contains(source)
            <==> new_sources.contains(source))
}

proof fn lemma_same_path(id: Seq<char>, left: Seq<char>, right: Seq<char>)
    requires
        starts_with(id, left + "::"@),
        starts_with(id, right + "::"@),
        !left.contains(':'),
        !right.contains(':'),
    ensures
        left == right,
{
    reveal_strlit("::");
    let first = id.subrange(0, (left + "::"@).len() as int);
    let second = id.subrange(0, (right + "::"@).len() as int);
    assert(first[left.len() as int] == ':');
    assert(second[right.len() as int] == ':');
    if left.len() < right.len() {
        assert(second[left.len() as int] == right[left.len() as int]);
    } else if right.len() < left.len() {
        assert(first[right.len() as int] == left[right.len() as int]);
    }
    assert forall|k: int| 0 <= k < left.len() implies left[k] == right[k] by {
        assert(first[k] == left[k]);
        assert(second[k] == right[k]);
    }
    assert(left =~= right);
}

/// Where no path holds a colon, the symbols of different files have different ids.
pub proof fn paths_without_colons_keep_files_apart(sources: Seq<SourceView>)
    requires
        forall|i: int| 0 <= i < sources.len() ==> !(#[trigger] sources[i]).path.contains(':'),
    ensures
        are_apart(sources),
{
    assert forall|i: int, j: int|
        #![trigger sources[i], sources[j]]
        0 <= i < sources.len() && 0 <= j < sources.len() && sources[i].path
            != sources[j].path implies share_no_id(file_of(sources[i]), file_of(sources[j])) by {
        let left = file_of(sources[i]);
        let right = file_of(sources[j]);
        assert forall|a: int, b: int|
            #![trigger left.nodes[a], right.nodes[b]]
            0 <= a < left.nodes.len() && 0 <= b < right.nodes.len() implies left.nodes[a].id
            != right.nodes[b].id by {
            stored_files_are_sound(sources[i]);
            stored_files_are_sound(sources[j]);
            assert(is_of_file(left.nodes[a], sources[i].path));
            assert(is_of_file(right.nodes[b], sources[j].path));
            if left.nodes[a].id == right.nodes[b].id {
                lemma_same_path(left.nodes[a].id, sources[i].path, sources[j].path);
            }
        }
    }
}

/// The touched files, as they are now.
pub open spec fn parsed_anew(new_sources: Seq<SourceView>, touched: Seq<Seq<char>>) -> Seq<
    FileView,
> {
    files_of(chosen(new_sources, |source: SourceView| touched.contains(source.path)))
}

proof fn lemma_untouched_files(sources: Seq<SourceView>, touched: Seq<Seq<char>>)
    ensures
        chosen(files_of(sources), |file: FileView| !touched.contains(file.path)) == files_of(
            chosen(sources, |source: SourceView| !touched.contains(source.path)),
        ),
    decreases sources.len(),
{
    let by_path = |file: FileView| !touched.contains(file.path);
    let by_source = |source: SourceView| !touched.contains(source.path);
    if sources.len() > 0 {
        let front = sources.drop_last();
        lemma_untouched_files(front, touched);
        assert(files_of(sources).drop_last() =~= files_of(front));
        assert(files_of(sources).last() == file_of(sources.last()));
        if by_source(sources.last()) {
            assert(files_of(chosen(sources, by_source)) =~= files_of(
                chosen(front, by_source),
            ).push(file_of(sources.last())));
        }
    } else {
        assert(files_of(chosen(sources, by_source)) =~= chosen(files_of(sources), by_path));
    }
}

proof fn lemma_chosen_paths(sources: Seq<SourceView>, picks: spec_fn(SourceView) -> bool)
    requires
        have_own_paths(sources),
    ensures
        have_own_paths(chosen(sources, picks)),
    decreases sources.len(),
{
    if sources.len() > 0 {
        let front = sources.drop_last();
        let last = sources.last();
        let inner = chosen(front, picks);
        let all = chosen(sources, picks);
        assert forall|i: int, j: int|
            #![trigger front[i], front[j]]
            0 <= i < j < front.len() implies front[i].path != front[j].path by {
            assert(front[i] == sources[i] && front[j] == sources[j]);
        }
        lemma_chosen_paths(front, picks);
        chosen_members(front, picks);
        assert forall|i: int, j: int|
            #![trigger all[i], all[j]]
            0 <= i < j < all.len() implies all[i].path != all[j].path by {
            assert(all[i] == inner[i]);
            if j < inner.len() {
                assert(all[j] == inner[j]);
            } else {
                assert(inner.contains(inner[i]));
                let t = choose|t: int| 0 <= t < front.len() && front[t] == inner[i];
                assert(sources[t] == front[t] && sources[sources.len() - 1] == last);
            }
        }
    }
}

/// The files that are stored after a run, as sources.
pub open spec fn sources_after(
    sources: Seq<SourceView>,
    new_sources: Seq<SourceView>,
    touched: Seq<Seq<char>>,
) -> Seq<SourceView> {
    chosen(sources, |source: SourceView| !touched.contains(source.path)) + chosen(
        new_sources,
        |source: SourceView| touched.contains(source.path),
    )
}

proof fn lemma_sources_after(
    sources: Seq<SourceView>,
    new_sources: Seq<SourceView>,
    touched: Seq<Seq<char>>,
)
    requires
        have_own_paths(sources),
        have_own_paths(new_sources),
        only_touched_differ(sources, new_sources, touched),
    ensures
        after_run(files_of(sources), touched, parsed_anew(new_sources, touched)) == files_of(
            sources_after(sources, new_sources, touched),
        ),
        have_own_paths(sources_after(sources, new_sources, touched)),
        same_items(sources_after(sources, new_sources, touched), new_sources),
{
    let stays = |source: SourceView| !touched.contains(source.path);
    let comes = |source: SourceView| touched.contains(source.path);
    let left = chosen(sources, stays);
    let anew = chosen(new_sources, comes);
    let after = sources_after(sources, new_sources, touched);
    lemma_untouched_files(sources, touched);
    assert(files_of(after) =~= files_of(left) + files_of(anew));
    lemma_chosen_paths(sources, stays);
    lemma_chosen_paths(new_sources, comes);
    chosen_members(sources, stays);
    chosen_members(new_sources, comes);
    assert forall|i: int, j: int|
        #![trigger after[i], after[j]]
        0 <= i < j < after.len() implies after[i].path != after[j].path by {
        if j < left.len() {
            assert(after[i] == left[i] && after[j] == left[j]);
        } else if i >= left.len() {
            assert(after[i] == anew[i - left.len()] && after[j] == anew[j - left.len()]);
        } else {
            assert(after[i] == left[i] && after[j] == anew[j - left.len()]);
            assert(stays(left[i]));
            assert(comes(anew[j - left.len()]));
        }
    }
    assert forall|source: SourceView| #[trigger]
        after.contains(source) <==> new_sources.contains(source) by {
        if after.contains(source) {
            let k = choose|k: int| 0 <= k < after.len() && after[k] == source;
            if k < left.len() {
                assert(left[k] == source);
                assert(left.contains(source));
            } else {
                assert(anew[k - left.len()] == source);
                assert(anew.contains(source));
            }
        }
        if new_sources.contains(source) {
            if touched.contains(source.path) {
                assert(anew.contains(source));
                let k = choose|k: int| 0 <= k < anew.len() && anew[k] == source;
                assert(after[left.len() + k] == source);
            } else {
                assert(left.contains(source));
                let k = choose|k: int| 0 <= k < left.len() && left[k] == source;
                assert(after[k] == source);
            }
        }
    }
}

proof fn lemma_apart_files(sources: Seq<SourceView>, all: Seq<SourceView>)
    requires
        have_own_paths(sources),
        same_items(sources, all),
        are_apart(all),
    ensures
        have_own_ids(all_nodes(files_of(sources))),
{
    let files = files_of(sources);
    assert forall|i: int| 0 <= i < files.len() implies have_own_ids((#[trigger] files[i]).nodes) by {
        stored_files_are_sound(sources[i]);
    }
    assert forall|i: int, j: int|
        #![trigger files[i], files[j]]
        0 <= i < j < files.len() implies share_no_id(files[i], files[j]) by {
        assert(sources[i].path != sources[j].path);
        assert(sources.contains(sources[i]) && sources.contains(sources[j]));
        assert(all.contains(sources[i]) && all.contains(sources[j]));
        let s = choose|s: int| 0 <= s < all.len() && all[s] == sources[i];
        let t = choose|t: int| 0 <= t < all.len() && all[t] == sources[j];
        assert(share_no_id(file_of(all[s]), file_of(all[t])));
    }
    lemma_files_own_ids(files);
}

proof fn lemma_calls_recorded(sources: Seq<SourceView>)
    ensures
        forall|k: int|
            0 <= k < all_calls(files_of(sources)).len() ==> well_recorded(
                #[trigger] all_calls(files_of(sources))[k],
            ),
{
    let files = files_of(sources);
    let calls = all_calls(files);
    assert forall|k: int| 0 <= k < calls.len() implies well_recorded(#[trigger] calls[k]) by {
        assert(calls.contains(calls[k]));
        lemma_calls_of(files, calls[k]);
        let i = choose|i: int|
            0 <= i < files.len() && (#[trigger] files[i]).calls.contains(calls[k]);
        stored_files_are_sound(sources[i]);
        let t = choose|t: int| 0 <= t < files[i].calls.len() && files[i].calls[t] == calls[k];
        assert(well_recorded(file_of(sources[i]).calls[t]));
    }
}

/// A run over an index that is there leaves what a first run over the same files stores.
/// The index holds what is stored of `sources`; files were then added, changed or deleted,
/// so that `new_sources` are there. The run touches the files that differ, notes their
/// symbols as they were and as they are, drops the stored edges and references of the
/// affected symbols, and resolves their calls anew. The symbols and calls, the edges with
/// their kinds and the unresolved references are then those of a first run over
/// `new_sources`, in whatever order it takes the files.
pub proof fn later_runs_leave_what_first_runs_make(
    sources: Seq<SourceView>,
    new_sources: Seq<SourceView>,
    touched: Seq<Seq<char>>,
    references: Seq<UnresolvedRefView>,
    ids: Seq<Seq<char>>,
    names: Seq<Seq<char>>,
    stored: Seq<EdgeView>,
    resolved: Seq<EdgeView>,
    first: Seq<EdgeView>,
)
    requires
        have_own_paths(sources),
        have_own_paths(new_sources),
        are_apart(new_sources),
        only_touched_differ(sources, new_sources, touched),
        forall|i: int|
            0 <= i < sources.len() && touched.contains((#[trigger] sources[i]).path) ==> is_noted(
                file_of(sources[i]),
                ids,
                names,
            ),
        forall|i: int|
            0 <= i < new_sources.len() && touched.contains((#[trigger] new_sources[i]).path)
                ==> is_noted(file_of(new_sources[i]), ids, names),
        all_nodes(files_of(sources)).len() <= 0x1_0000_0000,
        all_nodes(files_of(new_sources)).len() <= 0x1_0000_0000,
        all_nodes(
            after_run(files_of(sources), touched, parsed_anew(new_sources, touched)),
        ).len() <= 0x1_0000_0000,
        is_canonical(
            stored,
            edges_of_calls(
                index_of_nodes(all_nodes(files_of(sources))),
                all_calls(files_of(sources)),
            ),
        ),
        ({
            let after = after_run(files_of(sources), touched, parsed_anew(new_sources, touched));
            is_canonical(
                resolved,
                edges_of_calls(
                    index_of_nodes(all_nodes(after)),
                    calls_of(
                        all_calls(after),
                        affected(ids, names, all_calls(after), references),
                    ),
                ),
            )
        }),
        is_canonical(
            first,
            edges_of_calls(
                index_of_nodes(all_nodes(files_of(new_sources))),
                all_calls(files_of(new_sources)),
            ),
        ),
    ensures
        ({
            let files = files_of(sources);
            let after = after_run(files, touched, parsed_anew(new_sources, touched));
            let fresh = files_of(new_sources);
            let callers = affected(ids, names, all_calls(after), references);
            let known = index_of_nodes(all_nodes(files)).by_id.dom();
            let new_known = index_of_nodes(all_nodes(fresh)).by_id.dom();
            let open = unresolved_of_calls(index_of_nodes(all_nodes(files)), all_calls(files));
            let again = unresolved_of_calls(
                index_of_nodes(all_nodes(after)),
                calls_of(all_calls(after), callers),
            );
            let all_open = unresolved_of_calls(
                index_of_nodes(all_nodes(fresh)),
                all_calls(fresh),
            );
            &&& same_items(after, fresh)
            &&& same_items(all_nodes(after), all_nodes(fresh))
            &&& same_items(all_calls(after), all_calls(fresh))
            &&& is_canonical(
                anchored(first, new_known),
                edges_of_others(anchored(stored, known), callers) + anchored(resolved, new_known),
            )
            &&& (references_of_others(open, callers) + again).to_set() == all_open.to_set()
        }),
{
    let files = files_of(sources);
    let parsed = parsed_anew(new_sources, touched);
    let after = after_run(files, touched, parsed);
    let fresh = files_of(new_sources);
    let after_sources = sources_after(sources, new_sources, touched);
    let nodes = all_nodes(files);
    let calls = all_calls(files);
    let new_nodes = all_nodes(after);
    let new_calls = all_calls(after);
    let fresh_nodes = all_nodes(fresh);
    let fresh_calls = all_calls(fresh);
    lemma_sources_after(sources, new_sources, touched);
    assert forall|file: FileView| #[trigger] after.contains(file) <==> fresh.contains(file) by {
        if after.contains(file) {
            let k = choose|k: int| 0 <= k < after.len() && after[k] == file;
            assert(after_sources.contains(after_sources[k]));
            assert(new_sources.contains(after_sources[k]));
            let t = choose|t: int|
                0 <= t < new_sources.len() && new_sources[t] == after_sources[k];
            assert(fresh[t] == file);
        }
        if fresh.contains(file) {
            let k = choose|k: int| 0 <= k < fresh.len() && fresh[k] == file;
            assert(new_sources.contains(new_sources[k]));
            assert(after_sources.contains(new_sources[k]));
            let t = choose|t: int|
                0 <= t < after_sources.len() && after_sources[t] == new_sources[k];
            assert(after[t] == file);
        }
    }
    lemma_same_files(after, fresh);
    lemma_apart_files(after_sources, new_sources);
    lemma_apart_files(new_sources, new_sources);
    lemma_calls_recorded(sources);
    lemma_calls_recorded(after_sources);
    assert forall|i: int|
        0 <= i < files.len() && touched.contains((#[trigger] files[i]).path) implies is_noted(
        files[i],
        ids,
        names,
    ) && is_self_contained(files[i]) by {
        assert(files[i] == file_of(sources[i]));
        assert(touched.contains(sources[i].path));
        stored_files_are_sound(sources[i]);
    }
    let comes = |source: SourceView| touched.contains(source.path);
    let anew = chosen(new_sources, comes);
    chosen_members(new_sources, comes);
    assert forall|i: int| 0 <= i < parsed.len() implies is_noted(#[trigger] parsed[i], ids, names)
        && is_self_contained(parsed[i]) by {
        assert(parsed[i] == file_of(anew[i]));
        assert(anew.contains(anew[i]));
        let t = choose|t: int| 0 <= t < new_sources.len() && new_sources[t] == anew[i];
        assert(touched.contains(new_sources[t].path));
        stored_files_are_sound(new_sources[t]);
    }
    runs_note_what_they_change(files, touched, parsed, ids, names);
    order_does_not_matter(new_nodes, fresh_nodes, new_calls, fresh_calls);
    lemma_same_known(new_nodes, fresh_nodes);
    later_runs_store_what_full_runs_store(
        nodes,
        calls,
        new_nodes,
        new_calls,
        references,
        ids,
        names,
        stored,
        resolved,
        first,
    );
    selective_runs_equal_full_runs(
        nodes,
        calls,
        new_nodes,
        new_calls,
        references,
        ids,
        names,
        stored,
        resolved,
        first,
    );
}

} // verus!

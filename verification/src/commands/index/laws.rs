//! An indexing run that resolves only what a change concerns stores what a run over
//! everything would.

use vstd::prelude::*;
use crate::commands::index::{
    affected, anchored, calls_of, edges_of_others, is_reversed_kind, lemma_affected,
    lemma_caller_listed, owner_of, recorder,
};
use crate::commands::snapshot::node_with_id;
use crate::db::{EdgeView, NodeView, RawCallView, UnresolvedRefView};
use crate::ordered::{
    choosing_adds_up, choosing_twice_is_choosing_once, chosen, chosen_members, nothing_is_chosen,
};
use crate::parser::edge_order::{
    ascending, best_kinds, is_canonical, key_lt, key_of, lemma_ascending_kinds, EdgeKey,
};
use crate::parser::interner::{
    index_of_nodes, indexed_symbol, names_list_their_symbols, IndexView, SymbolText,
};
use crate::parser::resolve::{
    call_edges, called_name, caller_symbol, candidates_of, edge_between, edges_of_calls,
    file_criterion, import_criterion, imported_receiver_criterion, is_relation,
    local_edges_join_the_given_symbols, matching, matching_some, meets, namespace_criterion,
    package_criterion, path_criterion, receiver_criterion, resolution, scope_criterion,
    unresolved_call, unresolved_of_calls, CriterionView,
};
use crate::parser::tables::{candidates_named, SymbolIx};

verus! {

// ---------------------------------------------------------------------------
// What a call depends on

/// The symbols with a name.
pub open spec fn bearing(nodes: Seq<NodeView>, name: Seq<char>) -> Seq<NodeView> {
    chosen(nodes, |node: NodeView| node.name == name)
}

/// The calls that a symbol makes.
pub open spec fn calls_by(calls: Seq<RawCallView>, id: Seq<char>) -> Seq<RawCallView> {
    chosen(calls, |call: RawCallView| call.caller_id == id)
}

/// The references that a symbol makes.
pub open spec fn references_by(references: Seq<UnresolvedRefView>, id: Seq<char>) -> Seq<
    UnresolvedRefView,
> {
    chosen(references, |reference: UnresolvedRefView| reference.source_id == id)
}

/// The entry of a symbol in an index.
pub open spec fn entry_of(node: NodeView) -> SymbolText {
    indexed_symbol(node.id, node.name, node.file_path, node.qualified_name)
}

/// The entries at some positions of an index.
pub open spec fn entries_at(symbols: Seq<SymbolText>, positions: Seq<SymbolIx>) -> Seq<SymbolText> {
    positions.map_values(|ix: SymbolIx| symbols[ix as int])
}

/// The entries of the candidates of a call.
pub open spec fn candidate_entries(index: IndexView, call: RawCallView) -> Seq<SymbolText> {
    entries_at(index.symbols, candidates_of(index, call))
}

pub proof fn lemma_entries(nodes: Seq<NodeView>, name: Seq<char>)
    requires
        nodes.len() <= 0x1_0000_0000,
    ensures
        entries_at(
            index_of_nodes(nodes).symbols,
            candidates_named(index_of_nodes(nodes).by_name, name),
        ) == bearing(nodes, name).map_values(|node: NodeView| entry_of(node)),
    decreases nodes.len(),
{
    let index = index_of_nodes(nodes);
    let list = candidates_named(index.by_name, name);
    let entries = entries_at(index.symbols, list);
    let wanted = bearing(nodes, name).map_values(|node: NodeView| entry_of(node));
    if nodes.len() == 0 {
        assert(entries =~= wanted);
    } else {
        let front = nodes.drop_last();
        let before = index_of_nodes(front);
        let old_list = candidates_named(before.by_name, name);
        let old_entries = entries_at(before.symbols, old_list);
        let old_wanted = bearing(front, name).map_values(|node: NodeView| entry_of(node));
        lemma_entries(front, name);
        names_list_their_symbols(front, name);
        assert forall|i: int| 0 <= i < old_list.len() implies #[trigger] index.symbols[old_list[i] as int]
            == before.symbols[old_list[i] as int] by {
            assert(old_list[i] < front.len());
        }
        if nodes.last().name == name {
            let ix = front.len() as u32;
            assert(list == old_list.push(ix));
            assert(index.symbols[ix as int] == entry_of(nodes.last()));
            assert(entries =~= old_entries.push(entry_of(nodes.last()))) by {
                assert forall|i: int| 0 <= i < entries.len() implies entries[i]
                    == old_entries.push(entry_of(nodes.last()))[i] by {
                    if i < old_list.len() {
                        assert(list[i] == old_list[i]);
                    }
                }
            }
            assert(wanted =~= old_wanted.push(entry_of(nodes.last())));
        } else {
            assert(list =~= old_list);
            assert(entries =~= old_entries);
            assert(wanted =~= old_wanted);
        }
    }
}

pub proof fn lemma_caller(nodes: Seq<NodeView>, id: Seq<char>)
    requires
        nodes.len() <= 0x1_0000_0000,
    ensures
        caller_symbol(index_of_nodes(nodes), id) == match node_with_id(nodes, id) {
            Some(node) => Some(entry_of(node)),
            None => None,
        },
        index_of_nodes(nodes).symbols.len() == nodes.len(),
        index_of_nodes(nodes).by_id.dom().contains(id) ==> index_of_nodes(nodes).by_id[id]
            < nodes.len(),
    decreases nodes.len(),
{
    names_list_their_symbols(nodes, id);
    if nodes.len() > 0 {
        lemma_caller(nodes.drop_last(), id);
    }
}

// ---------------------------------------------------------------------------
// Alike candidates give alike targets

proof fn lemma_matching_entries(
    symbols: Seq<SymbolText>,
    others: Seq<SymbolText>,
    candidates: Seq<SymbolIx>,
    other_candidates: Seq<SymbolIx>,
    criterion: CriterionView,
)
    requires
        entries_at(symbols, candidates) == entries_at(others, other_candidates),
    ensures
        entries_at(symbols, matching(symbols, candidates, criterion)) == entries_at(
            others,
            matching(others, other_candidates, criterion),
        ),
    decreases candidates.len(),
{
    reveal(Seq::filter);
    assert(candidates.len() == entries_at(symbols, candidates).len());
    assert(other_candidates.len() == entries_at(others, other_candidates).len());
    let found = matching(symbols, candidates, criterion);
    let other = matching(others, other_candidates, criterion);
    if candidates.len() == 0 {
        assert(entries_at(symbols, found) =~= entries_at(others, other));
    } else {
        let front = candidates.drop_last();
        let other_front = other_candidates.drop_last();
        assert(entries_at(symbols, front) =~= entries_at(symbols, candidates).drop_last());
        assert(entries_at(others, other_front) =~= entries_at(others, other_candidates).drop_last());
        lemma_matching_entries(symbols, others, front, other_front, criterion);
        let entry = symbols[candidates.last() as int];
        assert(entries_at(symbols, candidates).last() == entry);
        assert(entries_at(others, other_candidates).last() == others[other_candidates.last() as int]);
        let before = matching(symbols, front, criterion);
        let other_before = matching(others, other_front, criterion);
        if meets(entry, criterion) {
            assert(found == before.push(candidates.last()));
            assert(other == other_before.push(other_candidates.last()));
            assert(entries_at(symbols, found) =~= entries_at(symbols, before).push(entry));
            assert(entries_at(others, other) =~= entries_at(others, other_before).push(entry));
        } else {
            assert(found == before);
            assert(other == other_before);
        }
    }
}

proof fn lemma_matching_some_entries(
    symbols: Seq<SymbolText>,
    others: Seq<SymbolText>,
    candidates: Seq<SymbolIx>,
    other_candidates: Seq<SymbolIx>,
    criterion: Option<CriterionView>,
)
    requires
        entries_at(symbols, candidates) == entries_at(others, other_candidates),
    ensures
        entries_at(symbols, matching_some(symbols, candidates, criterion)) == entries_at(
            others,
            matching_some(others, other_candidates, criterion),
        ),
        matching_some(symbols, candidates, criterion).len() == matching_some(
            others,
            other_candidates,
            criterion,
        ).len(),
{
    let found = matching_some(symbols, candidates, criterion);
    let other = matching_some(others, other_candidates, criterion);
    match criterion {
        Some(criterion) => {
            lemma_matching_entries(symbols, others, candidates, other_candidates, criterion);
        },
        None => {
            assert(entries_at(symbols, found) =~= entries_at(others, other));
        },
    }
    assert(entries_at(symbols, found).len() == found.len());
    assert(entries_at(others, other).len() == other.len());
}

/// A call resolves by the entries of its caller and of the symbols with its callee's
/// name alone: where two indexes agree on these, the call has the same edges in both.
pub proof fn calls_depend_on_their_candidates(index: IndexView, other: IndexView, call: RawCallView)
    requires
        candidate_entries(index, call) == candidate_entries(other, call),
        caller_symbol(index, call.caller_id) == caller_symbol(other, call.caller_id),
    ensures
        call_edges(index, call) == call_edges(other, call),
        resolution(index, call).0.len() == resolution(other, call).0.len(),
{
    let symbols = index.symbols;
    let others = other.symbols;
    let candidates = candidates_of(index, call);
    let other_candidates = candidates_of(other, call);
    let caller = caller_symbol(index, call.caller_id);
    lemma_matching_some_entries(
        symbols,
        others,
        candidates,
        other_candidates,
        import_criterion(call),
    );
    lemma_matching_some_entries(
        symbols,
        others,
        candidates,
        other_candidates,
        imported_receiver_criterion(call),
    );
    lemma_matching_some_entries(
        symbols,
        others,
        candidates,
        other_candidates,
        receiver_criterion(call),
    );
    lemma_matching_some_entries(
        symbols,
        others,
        candidates,
        other_candidates,
        path_criterion(call),
    );
    lemma_matching_some_entries(
        symbols,
        others,
        candidates,
        other_candidates,
        package_criterion(call),
    );
    lemma_matching_some_entries(
        symbols,
        others,
        candidates,
        other_candidates,
        scope_criterion(call),
    );
    lemma_matching_some_entries(
        symbols,
        others,
        candidates,
        other_candidates,
        namespace_criterion(caller),
    );
    lemma_matching_some_entries(
        symbols,
        others,
        candidates,
        other_candidates,
        file_criterion(caller),
    );
    if let Some(name) = call.target_qualified_hint {
        lemma_matching_some_entries(
            symbols,
            others,
            candidates,
            other_candidates,
            Some(CriterionView::Qualified { name }),
        );
    }
    assert(entries_at(symbols, candidates).len() == candidates.len());
    assert(entries_at(others, other_candidates).len() == other_candidates.len());
    let (targets, kind) = resolution(index, call);
    let (other_targets, other_kind) = resolution(other, call);
    if targets.len() == 0 {
        assert(entries_at(symbols, Seq::<SymbolIx>::empty()) =~= entries_at(
            others,
            Seq::<SymbolIx>::empty(),
        ));
    }
    assert(kind == other_kind);
    assert(entries_at(symbols, targets) == entries_at(others, other_targets));
    assert(targets.len() == entries_at(symbols, targets).len());
    assert(other_targets.len() == entries_at(others, other_targets).len());
    assert forall|i: int| 0 <= i < targets.len() implies call_edges(index, call)[i] == call_edges(
        other,
        call,
    )[i] by {
        assert(entries_at(symbols, targets)[i] == symbols[targets[i] as int]);
        assert(entries_at(others, other_targets)[i] == others[other_targets[i] as int]);
    }
    assert(call_edges(index, call) =~= call_edges(other, call));
}

// ---------------------------------------------------------------------------
// The edges that a symbol owns come from its calls

/// Two tables agree on a key.
pub open spec fn agree(left: Map<EdgeKey, int>, right: Map<EdgeKey, int>, key: EdgeKey) -> bool {
    &&& left.dom().contains(key) == right.dom().contains(key)
    &&& left.dom().contains(key) ==> left[key] == right[key]
}

/// The edges with a key.
pub open spec fn keyed(edges: Seq<EdgeView>, key: EdgeKey) -> Seq<EdgeView> {
    chosen(edges, |edge: EdgeView| key_of(edge) == key)
}

/// The symbol that records the calls that edges with a key come from.
pub open spec fn key_owner(key: EdgeKey) -> Seq<char> {
    recorder(key.source_id, key.target_id, key.kind)
}

/// A call is recorded as the parser records it: with the simple name of its callee, and
/// reversed just where its kind is.
pub open spec fn well_recorded(call: RawCallView) -> bool {
    &&& call.callee_simple == called_name(call.callee_name).1
    &&& is_relation(call) ==> call.reverse_edge == is_reversed_kind(call.relationship_kind)
}

proof fn lemma_kinds_by_key(edges: Seq<EdgeView>, key: EdgeKey)
    ensures
        agree(best_kinds(edges), best_kinds(keyed(edges, key)), key),
    decreases edges.len(),
{
    if edges.len() > 0 {
        let front = edges.drop_last();
        lemma_kinds_by_key(front, key);
        if key_of(edges.last()) == key {
            assert(keyed(edges, key).drop_last() =~= keyed(front, key));
        }
    }
}

proof fn lemma_edge_owner(index: IndexView, call: RawCallView, i: int)
    requires
        well_recorded(call),
        0 <= i < call_edges(index, call).len(),
    ensures
        owner_of(call_edges(index, call)[i]) == call.caller_id,
{
    reveal_strlit("calls");
    reveal_strlit("injected_into");
    reveal_strlit("consumes_event");
    assert("calls"@.len() != "injected_into"@.len());
    assert("calls"@.len() != "consumes_event"@.len());
}

proof fn lemma_edges_by_owner(index: IndexView, calls: Seq<RawCallView>, key: EdgeKey)
    requires
        forall|k: int| 0 <= k < calls.len() ==> well_recorded(#[trigger] calls[k]),
    ensures
        keyed(edges_of_calls(index, calls), key) == keyed(
            edges_of_calls(index, calls_by(calls, key_owner(key))),
            key,
        ),
    decreases calls.len(),
{
    let own = calls_by(calls, key_owner(key));
    let picks = |edge: EdgeView| key_of(edge) == key;
    if calls.len() > 0 {
        let front = calls.drop_last();
        let last = calls.last();
        let own_front = calls_by(front, key_owner(key));
        let more = call_edges(index, last);
        assert(well_recorded(calls[calls.len() - 1]));
        assert forall|k: int| 0 <= k < front.len() implies well_recorded(#[trigger] front[k]) by {
            assert(front[k] == calls[k]);
        }
        lemma_edges_by_owner(index, front, key);
        choosing_adds_up(edges_of_calls(index, front), more, picks);
        if last.caller_id == key_owner(key) {
            assert(own == own_front.push(last));
            assert(own.drop_last() =~= own_front);
            choosing_adds_up(edges_of_calls(index, own_front), more, picks);
        } else {
            assert(own == own_front);
            assert forall|i: int| 0 <= i < more.len() implies !picks(#[trigger] more[i]) by {
                lemma_edge_owner(index, last, i);
            }
            nothing_is_chosen(more, picks);
            assert(keyed(edges_of_calls(index, front), key) + Seq::<EdgeView>::empty() =~= keyed(
                edges_of_calls(index, front),
                key,
            ));
        }
    } else {
        assert(own =~= calls);
    }
}

proof fn lemma_kinds_by_owner(index: IndexView, calls: Seq<RawCallView>, key: EdgeKey)
    requires
        forall|k: int| 0 <= k < calls.len() ==> well_recorded(#[trigger] calls[k]),
    ensures
        agree(
            best_kinds(edges_of_calls(index, calls)),
            best_kinds(edges_of_calls(index, calls_by(calls, key_owner(key)))),
            key,
        ),
{
    lemma_edges_by_owner(index, calls, key);
    lemma_kinds_by_key(edges_of_calls(index, calls), key);
    lemma_kinds_by_key(edges_of_calls(index, calls_by(calls, key_owner(key))), key);
}

proof fn lemma_references_by_source(index: IndexView, calls: Seq<RawCallView>, id: Seq<char>)
    ensures
        references_by(unresolved_of_calls(index, calls), id) == unresolved_of_calls(
            index,
            calls_by(calls, id),
        ),
    decreases calls.len(),
{
    let own = calls_by(calls, id);
    let all = unresolved_of_calls(index, calls);
    if calls.len() > 0 {
        let front = calls.drop_last();
        let last = calls.last();
        let own_front = calls_by(front, id);
        let rest = unresolved_of_calls(index, front);
        lemma_references_by_source(index, front, id);
        if resolution(index, last).0.len() == 0 {
            assert(all == rest.push(unresolved_call(last)));
            assert(all.drop_last() =~= rest);
        }
        if last.caller_id == id {
            assert(own == own_front.push(last));
            assert(own.drop_last() =~= own_front);
        } else {
            assert(own == own_front);
        }
    } else {
        assert(own =~= calls);
        assert(all =~= seq![]);
    }
}

proof fn lemma_alike_calls(index: IndexView, other: IndexView, calls: Seq<RawCallView>)
    requires
        forall|k: int|
            0 <= k < calls.len() ==> call_edges(index, #[trigger] calls[k]) == call_edges(
                other,
                calls[k],
            ) && resolution(index, calls[k]).0.len() == resolution(other, calls[k]).0.len(),
    ensures
        edges_of_calls(index, calls) == edges_of_calls(other, calls),
        unresolved_of_calls(index, calls) == unresolved_of_calls(other, calls),
    decreases calls.len(),
{
    if calls.len() > 0 {
        let front = calls.drop_last();
        assert forall|k: int| 0 <= k < front.len() implies call_edges(index, #[trigger] front[k])
            == call_edges(other, front[k]) && resolution(index, front[k]).0.len() == resolution(
            other,
            front[k],
        ).0.len() by {
            assert(front[k] == calls[k]);
        }
        lemma_alike_calls(index, other, front);
        assert(calls[calls.len() - 1] == calls.last());
    }
}

// ---------------------------------------------------------------------------
// Replayed calls

proof fn lemma_replayed_calls(calls: Seq<RawCallView>, callers: Seq<Seq<char>>, id: Seq<char>)
    ensures
        calls_by(calls_of(calls, callers), id) == if callers.contains(id) {
            calls_by(calls, id)
        } else {
            Seq::<RawCallView>::empty()
        },
{
    let kept = |call: RawCallView| callers.contains(call.caller_id);
    let picks = |call: RawCallView| call.caller_id == id;
    if callers.contains(id) {
        choosing_twice_is_choosing_once(calls, kept, picks);
    } else {
        chosen_members(calls, kept);
        nothing_is_chosen(calls_of(calls, callers), picks);
    }
}

/// The references of other symbols.
pub open spec fn references_of_others(
    references: Seq<UnresolvedRefView>,
    sources: Seq<Seq<char>>,
) -> Seq<UnresolvedRefView> {
    chosen(references, |reference: UnresolvedRefView| !sources.contains(reference.source_id))
}

// ---------------------------------------------------------------------------
// The law

/// What is not noted as changed is the same before and after: the symbols with other
/// names, and the symbols and calls of other ids.
pub open spec fn only_noted_changed(
    nodes: Seq<NodeView>,
    calls: Seq<RawCallView>,
    new_nodes: Seq<NodeView>,
    new_calls: Seq<RawCallView>,
    ids: Seq<Seq<char>>,
    names: Seq<Seq<char>>,
) -> bool {
    &&& forall|name: Seq<char>|
        !names.contains(name) ==> #[trigger] bearing(nodes, name) == bearing(new_nodes, name)
    &&& forall|id: Seq<char>|
        !ids.contains(id) ==> node_with_id(nodes, id) == node_with_id(new_nodes, id)
            && #[trigger] calls_by(calls, id) == calls_by(new_calls, id)
}

proof fn lemma_unaffected(
    nodes: Seq<NodeView>,
    calls: Seq<RawCallView>,
    new_nodes: Seq<NodeView>,
    new_calls: Seq<RawCallView>,
    references: Seq<UnresolvedRefView>,
    ids: Seq<Seq<char>>,
    names: Seq<Seq<char>>,
    id: Seq<char>,
)
    requires
        nodes.len() <= 0x1_0000_0000,
        new_nodes.len() <= 0x1_0000_0000,
        only_noted_changed(nodes, calls, new_nodes, new_calls, ids, names),
        forall|k: int| 0 <= k < new_calls.len() ==> well_recorded(#[trigger] new_calls[k]),
        !affected(ids, names, new_calls, references).contains(id),
    ensures
        calls_by(calls, id) == calls_by(new_calls, id),
        edges_of_calls(index_of_nodes(nodes), calls_by(calls, id)) == edges_of_calls(
            index_of_nodes(new_nodes),
            calls_by(new_calls, id),
        ),
        unresolved_of_calls(index_of_nodes(nodes), calls_by(calls, id)) == unresolved_of_calls(
            index_of_nodes(new_nodes),
            calls_by(new_calls, id),
        ),
{
    let index = index_of_nodes(nodes);
    let other = index_of_nodes(new_nodes);
    let own = calls_by(new_calls, id);
    if ids.contains(id) {
        lemma_affected(ids, names, new_calls, references, id);
    }
    assert(calls_by(calls, id) == own);
    chosen_members(new_calls, |call: RawCallView| call.caller_id == id);
    assert forall|k: int| 0 <= k < own.len() implies call_edges(index, #[trigger] own[k])
        == call_edges(other, own[k]) && resolution(index, own[k]).0.len() == resolution(
        other,
        own[k],
    ).0.len() by {
        let call = own[k];
        assert(own.contains(call));
        assert(new_calls.contains(call) && call.caller_id == id);
        let t = choose|t: int| 0 <= t < new_calls.len() && new_calls[t] == call;
        let name = called_name(call.callee_name).1;
        if names.contains(name) {
            lemma_caller_listed(new_calls, names, t);
            lemma_affected(ids, names, new_calls, references, id);
        }
        assert(bearing(nodes, name) == bearing(new_nodes, name));
        lemma_entries(nodes, name);
        lemma_entries(new_nodes, name);
        lemma_caller(nodes, id);
        lemma_caller(new_nodes, id);
        calls_depend_on_their_candidates(index, other, call);
    }
    lemma_alike_calls(index, other, own);
}

proof fn lemma_stored_kinds(
    stored: Seq<EdgeView>,
    resolved: Seq<EdgeView>,
    callers: Seq<Seq<char>>,
    key: EdgeKey,
)
    requires
        !callers.contains(key_owner(key)) ==> !best_kinds(resolved).dom().contains(key),
    ensures
        agree(
            best_kinds(edges_of_others(stored, callers) + resolved),
            if callers.contains(key_owner(key)) {
                best_kinds(resolved)
            } else {
                best_kinds(stored)
            },
            key,
        ),
{
    let kept = edges_of_others(stored, callers);
    let stays = |edge: EdgeView| !callers.contains(owner_of(edge));
    let picks = |edge: EdgeView| key_of(edge) == key;
    choosing_adds_up(kept, resolved, picks);
    lemma_kinds_by_key(kept + resolved, key);
    lemma_kinds_by_key(resolved, key);
    lemma_kinds_by_key(stored, key);
    if callers.contains(key_owner(key)) {
        chosen_members(stored, stays);
        assert forall|i: int| 0 <= i < kept.len() implies !picks(#[trigger] kept[i]) by {
            assert(stays(kept[i]));
        }
        nothing_is_chosen(kept, picks);
        assert(Seq::<EdgeView>::empty() + keyed(resolved, key) =~= keyed(resolved, key));
    } else {
        choosing_twice_is_choosing_once(stored, stays, picks);
        lemma_key_of_each(resolved, key);
        assert(keyed(stored, key) + Seq::<EdgeView>::empty() =~= keyed(stored, key));
    }
}

proof fn lemma_key_of_each(edges: Seq<EdgeView>, key: EdgeKey)
    requires
        !best_kinds(edges).dom().contains(key),
    ensures
        keyed(edges, key) == Seq::<EdgeView>::empty(),
    decreases edges.len(),
{
    if edges.len() > 0 {
        lemma_key_of_each(edges.drop_last(), key);
    }
}

proof fn lemma_resolved_kinds(
    nodes: Seq<NodeView>,
    calls: Seq<RawCallView>,
    callers: Seq<Seq<char>>,
    resolved: Seq<EdgeView>,
    key: EdgeKey,
)
    requires
        forall|k: int| 0 <= k < calls.len() ==> well_recorded(#[trigger] calls[k]),
        is_canonical(resolved, edges_of_calls(index_of_nodes(nodes), calls_of(calls, callers))),
    ensures
        !callers.contains(key_owner(key)) ==> !best_kinds(resolved).dom().contains(key),
        callers.contains(key_owner(key)) ==> agree(
            best_kinds(resolved),
            best_kinds(edges_of_calls(index_of_nodes(nodes), calls)),
            key,
        ),
{
    let after = index_of_nodes(nodes);
    let replayed = calls_of(calls, callers);
    chosen_members(calls, |call: RawCallView| callers.contains(call.caller_id));
    assert forall|k: int| 0 <= k < replayed.len() implies well_recorded(#[trigger] replayed[k]) by {
        assert(replayed.contains(replayed[k]));
        let t = choose|t: int| 0 <= t < calls.len() && calls[t] == replayed[k];
        assert(well_recorded(calls[t]));
    }
    lemma_kinds_by_owner(after, calls, key);
    lemma_kinds_by_owner(after, replayed, key);
    lemma_replayed_calls(calls, callers, key_owner(key));
}

/// A run that resolves only the calls that a change concerns ends with what a run over
/// everything stores. The stored edges of other symbols and the edges of the replayed
/// calls together are the edges of all calls; with the unresolved references it is the
/// same, symbol by symbol and as a set.
pub proof fn selective_runs_equal_full_runs(
    nodes: Seq<NodeView>,
    calls: Seq<RawCallView>,
    new_nodes: Seq<NodeView>,
    new_calls: Seq<RawCallView>,
    references: Seq<UnresolvedRefView>,
    ids: Seq<Seq<char>>,
    names: Seq<Seq<char>>,
    stored: Seq<EdgeView>,
    resolved: Seq<EdgeView>,
    full: Seq<EdgeView>,
)
    requires
        nodes.len() <= 0x1_0000_0000,
        new_nodes.len() <= 0x1_0000_0000,
        only_noted_changed(nodes, calls, new_nodes, new_calls, ids, names),
        forall|k: int| 0 <= k < calls.len() ==> well_recorded(#[trigger] calls[k]),
        forall|k: int| 0 <= k < new_calls.len() ==> well_recorded(#[trigger] new_calls[k]),
        is_canonical(stored, edges_of_calls(index_of_nodes(nodes), calls)),
        is_canonical(
            resolved,
            edges_of_calls(
                index_of_nodes(new_nodes),
                calls_of(new_calls, affected(ids, names, new_calls, references)),
            ),
        ),
        is_canonical(full, edges_of_calls(index_of_nodes(new_nodes), new_calls)),
    ensures
        ({
            let callers = affected(ids, names, new_calls, references);
            let before = index_of_nodes(nodes);
            let after = index_of_nodes(new_nodes);
            let kept = references_of_others(unresolved_of_calls(before, calls), callers);
            let again = unresolved_of_calls(after, calls_of(new_calls, callers));
            let all = unresolved_of_calls(after, new_calls);
            &&& is_canonical(full, edges_of_others(stored, callers) + resolved)
            &&& forall|id: Seq<char>| #[trigger]
                references_by(kept + again, id) == references_by(all, id)
            &&& (kept + again).to_set() == all.to_set()
        }),
{
    let callers = affected(ids, names, new_calls, references);
    let replayed = calls_of(new_calls, callers);
    let before = index_of_nodes(nodes);
    let after = index_of_nodes(new_nodes);
    let together = edges_of_others(stored, callers) + resolved;
    let kept = references_of_others(unresolved_of_calls(before, calls), callers);
    let again = unresolved_of_calls(after, replayed);
    let all = unresolved_of_calls(after, new_calls);
    assert forall|key: EdgeKey| agree(best_kinds(full), best_kinds(together), key) by {
        let id = key_owner(key);
        lemma_resolved_kinds(new_nodes, new_calls, callers, resolved, key);
        lemma_kinds_by_owner(after, new_calls, key);
        lemma_kinds_by_owner(before, calls, key);
        if !callers.contains(id) {
            lemma_unaffected(nodes, calls, new_nodes, new_calls, references, ids, names, id);
        }
        lemma_stored_kinds(stored, resolved, callers, key);
    }
    assert forall|key: EdgeKey| #[trigger]
        best_kinds(full).dom().contains(key) == best_kinds(together).dom().contains(key) by {
        assert(agree(best_kinds(full), best_kinds(together), key));
    }
    assert forall|key: EdgeKey| best_kinds(full).dom().contains(key) implies #[trigger] best_kinds(
        full,
    )[key] == best_kinds(together)[key] by {
        assert(agree(best_kinds(full), best_kinds(together), key));
    }
    assert(best_kinds(full) =~= best_kinds(together));
    assert forall|id: Seq<char>| #[trigger]
        references_by(kept + again, id) == references_by(all, id) by {
        let stays = |reference: UnresolvedRefView| !callers.contains(reference.source_id);
        let picks = |reference: UnresolvedRefView| reference.source_id == id;
        choosing_adds_up(kept, again, picks);
        lemma_references_by_source(after, new_calls, id);
        lemma_references_by_source(after, replayed, id);
        lemma_references_by_source(before, calls, id);
        lemma_replayed_calls(new_calls, callers, id);
        if callers.contains(id) {
            chosen_members(unresolved_of_calls(before, calls), stays);
            nothing_is_chosen(kept, picks);
            assert(Seq::<UnresolvedRefView>::empty() + references_by(again, id) =~= references_by(
                again,
                id,
            ));
        } else {
            lemma_unaffected(nodes, calls, new_nodes, new_calls, references, ids, names, id);
            choosing_twice_is_choosing_once(unresolved_of_calls(before, calls), stays, picks);
            assert(references_by(kept, id) + Seq::<UnresolvedRefView>::empty() =~= references_by(
                kept,
                id,
            ));
        }
    }
    assert forall|reference: UnresolvedRefView|
        (kept + again).contains(reference) <==> all.contains(reference) by {
        let id = reference.source_id;
        let picks = |reference: UnresolvedRefView| reference.source_id == id;
        chosen_members(kept + again, picks);
        chosen_members(all, picks);
        assert(references_by(kept + again, id) == references_by(all, id));
        assert(references_by(kept + again, id).contains(reference) <==> (kept + again).contains(
            reference,
        ));
        assert(references_by(all, id).contains(reference) <==> all.contains(reference));
    }
    assert((kept + again).to_set() =~= all.to_set());
}

// ---------------------------------------------------------------------------
// Stored edges

/// Both ends of the edges with a key are among some ids.
pub open spec fn key_anchored(key: EdgeKey, ids: Set<Seq<char>>) -> bool {
    ids.contains(key.source_id) && ids.contains(key.target_id)
}

proof fn lemma_anchored_kinds(edges: Seq<EdgeView>, ids: Set<Seq<char>>, key: EdgeKey)
    ensures
        key_anchored(key, ids) ==> agree(best_kinds(anchored(edges, ids)), best_kinds(edges), key),
        !key_anchored(key, ids) ==> !best_kinds(anchored(edges, ids)).dom().contains(key),
{
    let kept = |edge: EdgeView| ids.contains(edge.source_id) && ids.contains(edge.target_id);
    let picks = |edge: EdgeView| key_of(edge) == key;
    lemma_kinds_by_key(anchored(edges, ids), key);
    lemma_kinds_by_key(edges, key);
    if key_anchored(key, ids) {
        choosing_twice_is_choosing_once(edges, kept, picks);
    } else {
        let found = anchored(edges, ids);
        chosen_members(edges, kept);
        assert forall|i: int| 0 <= i < found.len() implies !picks(#[trigger] found[i]) by {
            assert(kept(found[i]));
        }
        nothing_is_chosen(found, picks);
    }
}

proof fn lemma_anchored_ascend(edges: Seq<EdgeView>, ids: Set<Seq<char>>)
    requires
        ascending(edges),
    ensures
        ascending(anchored(edges, ids)),
    decreases edges.len(),
{
    if edges.len() > 0 {
        let front = edges.drop_last();
        let last = edges.last();
        let kept = |edge: EdgeView| ids.contains(edge.source_id) && ids.contains(edge.target_id);
        let inner = anchored(front, ids);
        let found = anchored(edges, ids);
        assert forall|i: int, j: int|
            #![trigger front[i], front[j]]
            0 <= i < j < front.len() implies key_lt(key_of(front[i]), key_of(front[j])) by {
            assert(edges[i] == front[i] && edges[j] == front[j]);
        }
        lemma_anchored_ascend(front, ids);
        chosen_members(front, kept);
        assert forall|i: int, j: int|
            #![trigger found[i], found[j]]
            0 <= i < j < found.len() implies key_lt(key_of(found[i]), key_of(found[j])) by {
            assert(found[i] == inner[i]);
            if j < inner.len() {
                assert(found[j] == inner[j]);
            } else {
                assert(inner.contains(inner[i]));
                let t = choose|t: int| 0 <= t < front.len() && front[t] == inner[i];
                assert(edges[t] == front[t] && edges[edges.len() - 1] == last);
            }
        }
    }
}

proof fn lemma_ids_known(nodes: Seq<NodeView>, n: int)
    requires
        0 <= n < nodes.len(),
    ensures
        index_of_nodes(nodes).by_id.dom().contains(nodes[n].id),
    decreases nodes.len(),
{
    if n < nodes.len() - 1 {
        lemma_ids_known(nodes.drop_last(), n);
    }
}

proof fn lemma_ends_known(
    nodes: Seq<NodeView>,
    calls: Seq<RawCallView>,
    merged: Seq<EdgeView>,
    key: EdgeKey,
)
    requires
        forall|k: int| 0 <= k < calls.len() ==> well_recorded(#[trigger] calls[k]),
        is_canonical(merged, edges_of_calls(index_of_nodes(nodes), calls)),
        best_kinds(merged).dom().contains(key),
    ensures
        key_anchored(key, index_of_nodes(nodes).by_id.dom()) == index_of_nodes(
            nodes,
        ).by_id.dom().contains(key_owner(key)),
{
    lemma_ascending_kinds(merged);
    let m = choose|m: int| 0 <= m < merged.len() && key_of(#[trigger] merged[m]) == key;
    local_edges_join_the_given_symbols(nodes, calls, merged, m);
    let (i, n) = choose|i: int, n: int|
        0 <= i < calls.len() && 0 <= n < nodes.len() && merged[m] == #[trigger] edge_between(
            calls[i],
            nodes[n].id,
            merged[m].resolution_kind,
        );
    assert(well_recorded(calls[i]));
    lemma_ids_known(nodes, n);
    reveal_strlit("calls");
    reveal_strlit("injected_into");
    reveal_strlit("consumes_event");
    assert("calls"@.len() != "injected_into"@.len());
    assert("calls"@.len() != "consumes_event"@.len());
}

/// With the edges that are stored it is the same, of which only those between known
/// symbols are: dropping the stored edges of the affected symbols and storing those of
/// the replayed calls leaves what a run over everything stores.
pub proof fn later_runs_store_what_full_runs_store(
    nodes: Seq<NodeView>,
    calls: Seq<RawCallView>,
    new_nodes: Seq<NodeView>,
    new_calls: Seq<RawCallView>,
    references: Seq<UnresolvedRefView>,
    ids: Seq<Seq<char>>,
    names: Seq<Seq<char>>,
    stored: Seq<EdgeView>,
    resolved: Seq<EdgeView>,
    full: Seq<EdgeView>,
)
    requires
        nodes.len() <= 0x1_0000_0000,
        new_nodes.len() <= 0x1_0000_0000,
        only_noted_changed(nodes, calls, new_nodes, new_calls, ids, names),
        forall|k: int| 0 <= k < calls.len() ==> well_recorded(#[trigger] calls[k]),
        forall|k: int| 0 <= k < new_calls.len() ==> well_recorded(#[trigger] new_calls[k]),
        is_canonical(stored, edges_of_calls(index_of_nodes(nodes), calls)),
        is_canonical(
            resolved,
            edges_of_calls(
                index_of_nodes(new_nodes),
                calls_of(new_calls, affected(ids, names, new_calls, references)),
            ),
        ),
        is_canonical(full, edges_of_calls(index_of_nodes(new_nodes), new_calls)),
    ensures
        ({
            let callers = affected(ids, names, new_calls, references);
            let known = index_of_nodes(nodes).by_id.dom();
            let new_known = index_of_nodes(new_nodes).by_id.dom();
            is_canonical(
                anchored(full, new_known),
                edges_of_others(anchored(stored, known), callers) + anchored(resolved, new_known),
            )
        }),
{
    let callers = affected(ids, names, new_calls, references);
    let known = index_of_nodes(nodes).by_id.dom();
    let new_known = index_of_nodes(new_nodes).by_id.dom();
    let all = anchored(full, new_known);
    let kept = anchored(stored, known);
    let again = anchored(resolved, new_known);
    let together = edges_of_others(kept, callers) + again;
    let apart = edges_of_others(stored, callers) + resolved;
    selective_runs_equal_full_runs(
        nodes,
        calls,
        new_nodes,
        new_calls,
        references,
        ids,
        names,
        stored,
        resolved,
        full,
    );
    lemma_anchored_ascend(full, new_known);
    assert forall|key: EdgeKey| agree(best_kinds(all), best_kinds(together), key) by {
        let id = key_owner(key);
        lemma_resolved_kinds(new_nodes, new_calls, callers, resolved, key);
        lemma_anchored_kinds(full, new_known, key);
        lemma_anchored_kinds(stored, known, key);
        lemma_anchored_kinds(resolved, new_known, key);
        lemma_stored_kinds(stored, resolved, callers, key);
        lemma_stored_kinds(kept, again, callers, key);
        if !callers.contains(id) && best_kinds(full).dom().contains(key) {
            if ids.contains(id) {
                lemma_affected(ids, names, new_calls, references, id);
            }
            assert(calls_by(calls, id) == calls_by(new_calls, id));
            lemma_caller(nodes, id);
            lemma_caller(new_nodes, id);
            lemma_ends_known(nodes, calls, stored, key);
            lemma_ends_known(new_nodes, new_calls, full, key);
        }
    }
    assert forall|key: EdgeKey| #[trigger]
        best_kinds(all).dom().contains(key) == best_kinds(together).dom().contains(key) by {
        assert(agree(best_kinds(all), best_kinds(together), key));
    }
    assert forall|key: EdgeKey| best_kinds(all).dom().contains(key) implies #[trigger] best_kinds(
        all,
    )[key] == best_kinds(together)[key] by {
        assert(agree(best_kinds(all), best_kinds(together), key));
    }
    assert(best_kinds(all) =~= best_kinds(together));
}

} // verus!

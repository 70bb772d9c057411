//! What calls resolve to does not depend on the order in which symbols and calls are held.

use vstd::prelude::*;
use crate::commands::index::laws::{bearing, entries_at, entry_of, lemma_caller, lemma_entries};
use crate::commands::snapshot::node_with_id;
use crate::db::{EdgeView, NodeView, RawCallView, UnresolvedRefView};
use crate::ordered::{chosen, chosen_members};
use crate::parser::edge_order::{best_kinds, key_of, EdgeKey};
use crate::parser::interner::{index_of_nodes, IndexView, SymbolText};
use crate::parser::resolve::{
    call_edges, called_name, caller_symbol, candidates_of, edge_between, edges_of_calls,
    file_criterion, import_criterion, imported_receiver_criterion, matching, matching_some, meets,
    namespace_criterion, package_criterion, path_criterion, receiver_criterion, resolution,
    scope_criterion, unresolved_call, unresolved_of_calls, CriterionView,
};
use crate::parser::tables::SymbolIx;

verus! {

/// No two symbols have the same id.
pub open spec fn have_own_ids(nodes: Seq<NodeView>) -> bool {
    forall|i: int, j: int|
        #![trigger nodes[i], nodes[j]]
        0 <= i < j < nodes.len() ==> nodes[i].id != nodes[j].id
}

/// The same items are there, in whatever order and number.
pub open spec fn same_items<V>(left: Seq<V>, right: Seq<V>) -> bool {
    forall|x: V| #[trigger] left.contains(x) <==> right.contains(x)
}

// ---------------------------------------------------------------------------
// The candidates of a call

proof fn lemma_own_ids_differ(nodes: Seq<NodeView>)
    requires
        have_own_ids(nodes),
    ensures
        nodes.no_duplicates(),
{
    assert forall|i: int, j: int| 0 <= i < nodes.len() && 0 <= j < nodes.len() && i
        != j implies nodes[i] != nodes[j] by {
        if i < j {
            assert(nodes[i].id != nodes[j].id);
        } else {
            assert(nodes[j].id != nodes[i].id);
        }
    }
}

proof fn lemma_chosen_differ<V>(items: Seq<V>, picks: spec_fn(V) -> bool)
    requires
        items.no_duplicates(),
    ensures
        chosen(items, picks).no_duplicates(),
    decreases items.len(),
{
    if items.len() > 0 {
        let front = items.drop_last();
        let last = items.last();
        let inner = chosen(front, picks);
        let all = chosen(items, picks);
        lemma_chosen_differ(front, picks);
        chosen_members(front, picks);
        assert forall|i: int, j: int| 0 <= i < all.len() && 0 <= j < all.len() && i
            != j implies all[i] != all[j] by {
            if i < inner.len() && j < inner.len() {
                assert(all[i] == inner[i] && all[j] == inner[j]);
            } else {
                let k = if i < inner.len() {
                    i
                } else {
                    j
                };
                assert(all[k] == inner[k]);
                assert(inner.contains(inner[k]));
                let t = choose|t: int| 0 <= t < front.len() && front[t] == inner[k];
                assert(items[t] == front[t] && items[items.len() - 1] == last);
            }
        }
    }
}

proof fn lemma_same_number<V>(left: Seq<V>, right: Seq<V>)
    requires
        left.no_duplicates(),
        right.no_duplicates(),
        same_items(left, right),
    ensures
        left.len() == right.len(),
{
    left.unique_seq_to_set();
    right.unique_seq_to_set();
    assert(left.to_set() =~= right.to_set()) by {
        assert forall|x: V| left.to_set().contains(x) == right.to_set().contains(x) by {
            assert(left.contains(x) <==> right.contains(x));
        }
    }
}

/// The ids of the symbols at some positions of an index.
spec fn ids_at(symbols: Seq<SymbolText>, positions: Seq<SymbolIx>) -> Seq<Seq<char>> {
    positions.map_values(|ix: SymbolIx| symbols[ix as int].id)
}

/// The symbols that meet a criterion.
pub open spec fn meeting(nodes: Seq<NodeView>, criterion: CriterionView) -> Seq<NodeView> {
    chosen(nodes, |node: NodeView| meets(entry_of(node), criterion))
}

pub proof fn lemma_meeting(
    symbols: Seq<SymbolText>,
    candidates: Seq<SymbolIx>,
    nodes: Seq<NodeView>,
    criterion: CriterionView,
)
    requires
        entries_at(symbols, candidates) == nodes.map_values(|node: NodeView| entry_of(node)),
    ensures
        entries_at(symbols, matching(symbols, candidates, criterion)) == meeting(
            nodes,
            criterion,
        ).map_values(|node: NodeView| entry_of(node)),
    decreases candidates.len(),
{
    reveal(Seq::filter);
    let entries = nodes.map_values(|node: NodeView| entry_of(node));
    assert(entries_at(symbols, candidates).len() == candidates.len());
    assert(entries.len() == nodes.len());
    let found = matching(symbols, candidates, criterion);
    let wanted = meeting(nodes, criterion);
    if candidates.len() == 0 {
        assert(entries_at(symbols, found) =~= wanted.map_values(
            |node: NodeView| entry_of(node),
        ));
    } else {
        let front = candidates.drop_last();
        let nodes_front = nodes.drop_last();
        assert(entries_at(symbols, front) =~= entries_at(symbols, candidates).drop_last());
        assert(nodes_front.map_values(|node: NodeView| entry_of(node)) =~= entries.drop_last());
        lemma_meeting(symbols, front, nodes_front, criterion);
        let entry = symbols[candidates.last() as int];
        assert(entries_at(symbols, candidates).last() == entry);
        assert(entries.last() == entry_of(nodes.last()));
        let before = matching(symbols, front, criterion);
        let wanted_before = meeting(nodes_front, criterion);
        if meets(entry, criterion) {
            assert(found == before.push(candidates.last()));
            assert(wanted == wanted_before.push(nodes.last()));
            assert(entries_at(symbols, found) =~= entries_at(symbols, before).push(entry));
            assert(wanted.map_values(|node: NodeView| entry_of(node))
                =~= wanted_before.map_values(|node: NodeView| entry_of(node)).push(entry));
        } else {
            assert(found == before);
            assert(wanted == wanted_before);
        }
    }
}

proof fn lemma_ids_at(symbols: Seq<SymbolText>, positions: Seq<SymbolIx>, nodes: Seq<NodeView>)
    requires
        entries_at(symbols, positions) == nodes.map_values(|node: NodeView| entry_of(node)),
    ensures
        positions.len() == nodes.len(),
        ids_at(symbols, positions) == nodes.map_values(|node: NodeView| node.id),
{
    let entries = nodes.map_values(|node: NodeView| entry_of(node));
    assert(entries_at(symbols, positions).len() == positions.len());
    assert(entries.len() == nodes.len());
    assert forall|i: int| 0 <= i < positions.len() implies ids_at(symbols, positions)[i]
        == nodes[i].id by {
        assert(entries_at(symbols, positions)[i] == symbols[positions[i] as int]);
        assert(entries[i] == entry_of(nodes[i]));
    }
    assert(ids_at(symbols, positions) =~= nodes.map_values(|node: NodeView| node.id));
}

proof fn lemma_same_ids(left: Seq<NodeView>, right: Seq<NodeView>)
    requires
        same_items(left, right),
    ensures
        same_items(
            left.map_values(|node: NodeView| node.id),
            right.map_values(|node: NodeView| node.id),
        ),
{
    let first = left.map_values(|node: NodeView| node.id);
    let second = right.map_values(|node: NodeView| node.id);
    assert forall|id: Seq<char>| #[trigger] first.contains(id) <==> second.contains(id) by {
        if first.contains(id) {
            let k = choose|k: int| 0 <= k < first.len() && first[k] == id;
            assert(left.contains(left[k]));
            assert(right.contains(left[k]));
            let t = choose|t: int| 0 <= t < right.len() && right[t] == left[k];
            assert(second[t] == id);
        }
        if second.contains(id) {
            let k = choose|k: int| 0 <= k < second.len() && second[k] == id;
            assert(right.contains(right[k]));
            assert(left.contains(right[k]));
            let t = choose|t: int| 0 <= t < left.len() && left[t] == right[k];
            assert(first[t] == id);
        }
    }
}

proof fn lemma_same_chosen(
    left: Seq<NodeView>,
    right: Seq<NodeView>,
    picks: spec_fn(NodeView) -> bool,
)
    requires
        same_items(left, right),
        left.no_duplicates(),
        right.no_duplicates(),
    ensures
        same_items(chosen(left, picks), chosen(right, picks)),
        chosen(left, picks).no_duplicates(),
        chosen(right, picks).no_duplicates(),
        chosen(left, picks).len() == chosen(right, picks).len(),
{
    chosen_members(left, picks);
    chosen_members(right, picks);
    lemma_chosen_differ(left, picks);
    lemma_chosen_differ(right, picks);
    assert forall|x: NodeView| #[trigger]
        chosen(left, picks).contains(x) <==> chosen(right, picks).contains(x) by {
        assert(left.contains(x) <==> right.contains(x));
    }
    lemma_same_number(chosen(left, picks), chosen(right, picks));
}

/// Two indexes hold the same symbols.
spec fn hold_the_same(nodes: Seq<NodeView>, others: Seq<NodeView>) -> bool {
    &&& have_own_ids(nodes)
    &&& have_own_ids(others)
    &&& same_items(nodes, others)
    &&& nodes.len() <= 0x1_0000_0000
    &&& others.len() <= 0x1_0000_0000
}

proof fn lemma_same_bearers(nodes: Seq<NodeView>, others: Seq<NodeView>, call: RawCallView)
    requires
        hold_the_same(nodes, others),
    ensures
        ({
            let name = called_name(call.callee_name).1;
            let index = index_of_nodes(nodes);
            let other = index_of_nodes(others);
            &&& same_items(bearing(nodes, name), bearing(others, name))
            &&& bearing(nodes, name).no_duplicates()
            &&& bearing(others, name).no_duplicates()
            &&& entries_at(index.symbols, candidates_of(index, call)) == bearing(
                nodes,
                name,
            ).map_values(|node: NodeView| entry_of(node))
            &&& entries_at(other.symbols, candidates_of(other, call)) == bearing(
                others,
                name,
            ).map_values(|node: NodeView| entry_of(node))
            &&& candidates_of(index, call).len() == candidates_of(other, call).len()
            &&& same_items(
                ids_at(index.symbols, candidates_of(index, call)),
                ids_at(other.symbols, candidates_of(other, call)),
            )
        }),
{
    let name = called_name(call.callee_name).1;
    let index = index_of_nodes(nodes);
    let other = index_of_nodes(others);
    lemma_own_ids_differ(nodes);
    lemma_own_ids_differ(others);
    lemma_same_chosen(nodes, others, |node: NodeView| node.name == name);
    lemma_entries(nodes, name);
    lemma_entries(others, name);
    lemma_ids_at(index.symbols, candidates_of(index, call), bearing(nodes, name));
    lemma_ids_at(other.symbols, candidates_of(other, call), bearing(others, name));
    lemma_same_ids(bearing(nodes, name), bearing(others, name));
}

proof fn lemma_same_matches(
    nodes: Seq<NodeView>,
    others: Seq<NodeView>,
    call: RawCallView,
    criterion: Option<CriterionView>,
)
    requires
        hold_the_same(nodes, others),
    ensures
        ({
            let index = index_of_nodes(nodes);
            let other = index_of_nodes(others);
            let found = matching_some(index.symbols, candidates_of(index, call), criterion);
            let same = matching_some(other.symbols, candidates_of(other, call), criterion);
            &&& found.len() == same.len()
            &&& same_items(ids_at(index.symbols, found), ids_at(other.symbols, same))
        }),
{
    let name = called_name(call.callee_name).1;
    let index = index_of_nodes(nodes);
    let other = index_of_nodes(others);
    let found = matching_some(index.symbols, candidates_of(index, call), criterion);
    let same = matching_some(other.symbols, candidates_of(other, call), criterion);
    lemma_same_bearers(nodes, others, call);
    match criterion {
        Some(criterion) => {
            let first = bearing(nodes, name);
            let second = bearing(others, name);
            lemma_meeting(index.symbols, candidates_of(index, call), first, criterion);
            lemma_meeting(other.symbols, candidates_of(other, call), second, criterion);
            lemma_same_chosen(first, second, |node: NodeView| meets(entry_of(node), criterion));
            lemma_ids_at(index.symbols, found, meeting(first, criterion));
            lemma_ids_at(other.symbols, same, meeting(second, criterion));
            lemma_same_ids(meeting(first, criterion), meeting(second, criterion));
        },
        None => {
            assert(ids_at(index.symbols, found) =~= ids_at(other.symbols, same));
        },
    }
}

proof fn lemma_found_by_id(nodes: Seq<NodeView>, id: Seq<char>)
    requires
        have_own_ids(nodes),
    ensures
        forall|node: NodeView|
            nodes.contains(node) && node.id == id ==> node_with_id(nodes, id) == Some(node),
        node_with_id(nodes, id) matches Some(node) ==> nodes.contains(node) && node.id == id,
    decreases nodes.len(),
{
    if nodes.len() > 0 {
        let front = nodes.drop_last();
        assert(nodes[nodes.len() - 1] == nodes.last());
        assert forall|i: int, j: int|
            #![trigger front[i], front[j]]
            0 <= i < j < front.len() implies front[i].id != front[j].id by {
            assert(front[i] == nodes[i] && front[j] == nodes[j]);
        }
        lemma_found_by_id(front, id);
        assert forall|node: NodeView|
            nodes.contains(node) && node.id == id implies node_with_id(nodes, id) == Some(node) by {
            let k = choose|k: int| 0 <= k < nodes.len() && nodes[k] == node;
            if k < front.len() {
                assert(front[k] == node);
                assert(front.contains(node));
                assert(nodes[k].id != nodes[nodes.len() - 1].id);
            }
        }
        if let Some(node) = node_with_id(front, id) {
            let k = choose|k: int| 0 <= k < front.len() && front[k] == node;
            assert(nodes[k] == node);
        }
    }
}

proof fn lemma_same_caller(nodes: Seq<NodeView>, others: Seq<NodeView>, id: Seq<char>)
    requires
        hold_the_same(nodes, others),
    ensures
        caller_symbol(index_of_nodes(nodes), id) == caller_symbol(index_of_nodes(others), id),
{
    lemma_caller(nodes, id);
    lemma_caller(others, id);
    lemma_found_by_id(nodes, id);
    lemma_found_by_id(others, id);
    if let Some(node) = node_with_id(nodes, id) {
        assert(others.contains(node));
    }
    if let Some(node) = node_with_id(others, id) {
        assert(nodes.contains(node));
    }
}

proof fn lemma_same_targets(nodes: Seq<NodeView>, others: Seq<NodeView>, call: RawCallView)
    requires
        hold_the_same(nodes, others),
    ensures
        ({
            let index = index_of_nodes(nodes);
            let other = index_of_nodes(others);
            &&& resolution(index, call).1 == resolution(other, call).1
            &&& resolution(index, call).0.len() == resolution(other, call).0.len()
            &&& same_items(
                ids_at(index.symbols, resolution(index, call).0),
                ids_at(other.symbols, resolution(other, call).0),
            )
        }),
{
    let index = index_of_nodes(nodes);
    let other = index_of_nodes(others);
    let caller = caller_symbol(index, call.caller_id);
    lemma_same_caller(nodes, others, call.caller_id);
    lemma_same_bearers(nodes, others, call);
    lemma_same_matches(nodes, others, call, import_criterion(call));
    lemma_same_matches(nodes, others, call, imported_receiver_criterion(call));
    lemma_same_matches(nodes, others, call, receiver_criterion(call));
    lemma_same_matches(nodes, others, call, path_criterion(call));
    lemma_same_matches(nodes, others, call, package_criterion(call));
    lemma_same_matches(nodes, others, call, scope_criterion(call));
    lemma_same_matches(nodes, others, call, namespace_criterion(caller));
    lemma_same_matches(nodes, others, call, file_criterion(caller));
    if let Some(name) = call.target_qualified_hint {
        lemma_same_matches(nodes, others, call, Some(CriterionView::Qualified { name }));
    }
    assert(ids_at(index.symbols, seq![]) =~= ids_at(other.symbols, seq![]));
}

proof fn lemma_same_edges(nodes: Seq<NodeView>, others: Seq<NodeView>, call: RawCallView)
    requires
        hold_the_same(nodes, others),
    ensures
        same_items(
            call_edges(index_of_nodes(nodes), call),
            call_edges(index_of_nodes(others), call),
        ),
{
    let index = index_of_nodes(nodes);
    let other = index_of_nodes(others);
    lemma_same_targets(nodes, others, call);
    let first = call_edges(index, call);
    let second = call_edges(other, call);
    assert forall|edge: EdgeView| #[trigger] first.contains(edge) <==> second.contains(edge) by {
        if first.contains(edge) {
            lemma_edge_moves(index, other, call, edge);
        }
        if second.contains(edge) {
            lemma_edge_moves(other, index, call, edge);
        }
    }
}

proof fn lemma_edge_moves(index: IndexView, other: IndexView, call: RawCallView, edge: EdgeView)
    requires
        resolution(index, call).1 == resolution(other, call).1,
        same_items(
            ids_at(index.symbols, resolution(index, call).0),
            ids_at(other.symbols, resolution(other, call).0),
        ) || same_items(
            ids_at(other.symbols, resolution(other, call).0),
            ids_at(index.symbols, resolution(index, call).0),
        ),
        call_edges(index, call).contains(edge),
    ensures
        call_edges(other, call).contains(edge),
{
    let first = call_edges(index, call);
    let second = call_edges(other, call);
    let ids = ids_at(index.symbols, resolution(index, call).0);
    let other_ids = ids_at(other.symbols, resolution(other, call).0);
    let k = choose|k: int| 0 <= k < first.len() && first[k] == edge;
    assert(ids[k] == index.symbols[resolution(index, call).0[k] as int].id);
    assert(edge == edge_between(call, ids[k], resolution(index, call).1));
    assert(ids.contains(ids[k]));
    assert(other_ids.contains(ids[k]));
    let t = choose|t: int| 0 <= t < other_ids.len() && other_ids[t] == ids[k];
    assert(second[t] == edge_between(call, other_ids[t], resolution(other, call).1));
}

// ---------------------------------------------------------------------------
// All calls

proof fn lemma_edges_of(index: IndexView, calls: Seq<RawCallView>, edge: EdgeView)
    ensures
        edges_of_calls(index, calls).contains(edge) <==> exists|k: int|
            0 <= k < calls.len() && call_edges(index, #[trigger] calls[k]).contains(edge),
    decreases calls.len(),
{
    if calls.len() > 0 {
        let front = calls.drop_last();
        let before = edges_of_calls(index, front);
        let more = call_edges(index, calls.last());
        let all = edges_of_calls(index, calls);
        assert(calls[calls.len() - 1] == calls.last());
        lemma_edges_of(index, front, edge);
        if all.contains(edge) {
            let t = choose|t: int| 0 <= t < all.len() && all[t] == edge;
            if t < before.len() {
                assert(before[t] == edge);
                let k = choose|k: int|
                    0 <= k < front.len() && call_edges(index, #[trigger] front[k]).contains(edge);
                assert(calls[k] == front[k]);
            } else {
                assert(more[t - before.len()] == edge);
            }
        }
        if exists|k: int|
            0 <= k < calls.len() && call_edges(index, #[trigger] calls[k]).contains(edge) {
            let k = choose|k: int|
                0 <= k < calls.len() && call_edges(index, #[trigger] calls[k]).contains(edge);
            if k < front.len() {
                assert(front[k] == calls[k]);
                let t = choose|t: int| 0 <= t < before.len() && before[t] == edge;
                assert(all[t] == edge);
            } else {
                let t = choose|t: int| 0 <= t < more.len() && more[t] == edge;
                assert(all[before.len() + t] == edge);
            }
        }
    }
}

proof fn lemma_references_of(
    index: IndexView,
    calls: Seq<RawCallView>,
    reference: UnresolvedRefView,
)
    ensures
        unresolved_of_calls(index, calls).contains(reference) <==> exists|k: int|
            0 <= k < calls.len() && resolution(index, #[trigger] calls[k]).0.len() == 0
                && unresolved_call(calls[k]) == reference,
    decreases calls.len(),
{
    if calls.len() > 0 {
        let front = calls.drop_last();
        let before = unresolved_of_calls(index, front);
        let all = unresolved_of_calls(index, calls);
        assert(calls[calls.len() - 1] == calls.last());
        lemma_references_of(index, front, reference);
        if all.contains(reference) {
            let t = choose|t: int| 0 <= t < all.len() && all[t] == reference;
            if t < before.len() {
                assert(before[t] == reference);
                let k = choose|k: int|
                    0 <= k < front.len() && resolution(index, #[trigger] front[k]).0.len() == 0
                        && unresolved_call(front[k]) == reference;
                assert(calls[k] == front[k]);
            }
        }
        if exists|k: int|
            0 <= k < calls.len() && resolution(index, #[trigger] calls[k]).0.len() == 0
                && unresolved_call(calls[k]) == reference {
            let k = choose|k: int|
                0 <= k < calls.len() && resolution(index, #[trigger] calls[k]).0.len() == 0
                    && unresolved_call(calls[k]) == reference;
            if k < front.len() {
                assert(front[k] == calls[k]);
                let t = choose|t: int| 0 <= t < before.len() && before[t] == reference;
                assert(all[t] == reference);
            } else {
                assert(all[before.len() as int] == reference);
            }
        }
    }
}

pub proof fn lemma_best_of_members(edges: Seq<EdgeView>)
    ensures
        forall|edge: EdgeView| #[trigger]
            edges.contains(edge) ==> best_kinds(edges).dom().contains(key_of(edge)) && best_kinds(
                edges,
            )[key_of(edge)] >= edge.resolution_kind,
        forall|key: EdgeKey| #[trigger]
            best_kinds(edges).dom().contains(key) ==> edges.contains(
                EdgeView {
                    source_id: key.source_id,
                    target_id: key.target_id,
                    kind: key.kind,
                    resolution_kind: best_kinds(edges)[key],
                },
            ),
    decreases edges.len(),
{
    if edges.len() > 0 {
        let front = edges.drop_last();
        let last = edges.last();
        lemma_best_of_members(front);
        assert(edges[edges.len() - 1] == last);
        assert forall|edge: EdgeView| #[trigger] edges.contains(edge) implies best_kinds(
            edges,
        ).dom().contains(key_of(edge)) && best_kinds(edges)[key_of(edge)]
            >= edge.resolution_kind by {
            let k = choose|k: int| 0 <= k < edges.len() && edges[k] == edge;
            if k < front.len() {
                assert(front[k] == edge);
                assert(front.contains(edge));
            }
        }
        assert forall|key: EdgeKey| #[trigger]
            best_kinds(edges).dom().contains(key) implies edges.contains(
            EdgeView {
                source_id: key.source_id,
                target_id: key.target_id,
                kind: key.kind,
                resolution_kind: best_kinds(edges)[key],
            },
        ) by {
            let best = EdgeView {
                source_id: key.source_id,
                target_id: key.target_id,
                kind: key.kind,
                resolution_kind: best_kinds(edges)[key],
            };
            if best_kinds(front).dom().contains(key) && best_kinds(edges)[key] == best_kinds(
                front,
            )[key] {
                assert(front.contains(best));
                let k = choose|k: int| 0 <= k < front.len() && front[k] == best;
                assert(edges[k] == best);
            } else {
                assert(best =~= last);
            }
        }
    }
}

proof fn lemma_best_kinds_of_same(left: Seq<EdgeView>, right: Seq<EdgeView>)
    requires
        same_items(left, right),
    ensures
        best_kinds(left) == best_kinds(right),
{
    lemma_best_of_members(left);
    lemma_best_of_members(right);
    let first = best_kinds(left);
    let second = best_kinds(right);
    assert forall|key: EdgeKey| #[trigger]
        first.dom().contains(key) == second.dom().contains(key) by {
        lemma_best_covered(left, right, key);
        lemma_best_covered(right, left, key);
    }
    assert forall|key: EdgeKey| first.dom().contains(key) implies #[trigger] first[key]
        == second[key] by {
        lemma_best_covered(left, right, key);
        lemma_best_covered(right, left, key);
    }
    assert(first =~= second);
}

proof fn lemma_best_covered(left: Seq<EdgeView>, right: Seq<EdgeView>, key: EdgeKey)
    requires
        same_items(left, right) || same_items(right, left),
    ensures
        best_kinds(left).dom().contains(key) ==> best_kinds(right).dom().contains(key)
            && best_kinds(right)[key] >= best_kinds(left)[key],
{
    lemma_best_of_members(left);
    lemma_best_of_members(right);
    if best_kinds(left).dom().contains(key) {
        let best = EdgeView {
            source_id: key.source_id,
            target_id: key.target_id,
            kind: key.kind,
            resolution_kind: best_kinds(left)[key],
        };
        assert(left.contains(best));
        assert(right.contains(best));
        assert(key_of(best) =~= key);
    }
}

/// The same calls have the same edges and leave the same references unresolved over the
/// same symbols, in whatever order symbols and calls are held.
pub proof fn order_does_not_matter(
    nodes: Seq<NodeView>,
    others: Seq<NodeView>,
    calls: Seq<RawCallView>,
    other_calls: Seq<RawCallView>,
)
    requires
        have_own_ids(nodes),
        have_own_ids(others),
        same_items(nodes, others),
        same_items(calls, other_calls),
        nodes.len() <= 0x1_0000_0000,
        others.len() <= 0x1_0000_0000,
    ensures
        best_kinds(edges_of_calls(index_of_nodes(nodes), calls)) == best_kinds(
            edges_of_calls(index_of_nodes(others), other_calls),
        ),
        unresolved_of_calls(index_of_nodes(nodes), calls).to_set() == unresolved_of_calls(
            index_of_nodes(others),
            other_calls,
        ).to_set(),
{
    let index = index_of_nodes(nodes);
    let other = index_of_nodes(others);
    let edges = edges_of_calls(index, calls);
    let other_edges = edges_of_calls(other, other_calls);
    assert forall|edge: EdgeView| #[trigger]
        edges.contains(edge) <==> other_edges.contains(edge) by {
        lemma_edges_of(index, calls, edge);
        lemma_edges_of(other, other_calls, edge);
        if edges.contains(edge) {
            let k = choose|k: int|
                0 <= k < calls.len() && call_edges(index, #[trigger] calls[k]).contains(edge);
            lemma_same_edges(nodes, others, calls[k]);
            assert(calls.contains(calls[k]));
            assert(other_calls.contains(calls[k]));
            let t = choose|t: int| 0 <= t < other_calls.len() && other_calls[t] == calls[k];
            assert(call_edges(other, other_calls[t]).contains(edge));
        }
        if other_edges.contains(edge) {
            let k = choose|k: int|
                0 <= k < other_calls.len() && call_edges(
                    other,
                    #[trigger] other_calls[k],
                ).contains(edge);
            lemma_same_edges(nodes, others, other_calls[k]);
            assert(other_calls.contains(other_calls[k]));
            assert(calls.contains(other_calls[k]));
            let t = choose|t: int| 0 <= t < calls.len() && calls[t] == other_calls[k];
            assert(call_edges(index, calls[t]).contains(edge));
        }
    }
    lemma_best_kinds_of_same(edges, other_edges);
    let open = unresolved_of_calls(index, calls);
    let other_open = unresolved_of_calls(other, other_calls);
    assert forall|reference: UnresolvedRefView|
        open.contains(reference) <==> other_open.contains(reference) by {
        lemma_references_of(index, calls, reference);
        lemma_references_of(other, other_calls, reference);
        if open.contains(reference) {
            let k = choose|k: int|
                0 <= k < calls.len() && resolution(index, #[trigger] calls[k]).0.len() == 0
                    && unresolved_call(calls[k]) == reference;
            lemma_same_targets(nodes, others, calls[k]);
            assert(calls.contains(calls[k]));
            assert(other_calls.contains(calls[k]));
            let t = choose|t: int| 0 <= t < other_calls.len() && other_calls[t] == calls[k];
            assert(resolution(other, other_calls[t]).0.len() == 0);
        }
        if other_open.contains(reference) {
            let k = choose|k: int|
                0 <= k < other_calls.len() && resolution(other, #[trigger] other_calls[k]).0.len()
                    == 0 && unresolved_call(other_calls[k]) == reference;
            lemma_same_targets(nodes, others, other_calls[k]);
            assert(other_calls.contains(other_calls[k]));
            assert(calls.contains(other_calls[k]));
            let t = choose|t: int| 0 <= t < calls.len() && calls[t] == other_calls[k];
            assert(resolution(index, calls[t]).0.len() == 0);
        }
    }
    assert(open.to_set() =~= other_open.to_set());
}

} // verus!

//! What a snapshot holds of stored symbols and edges.

use vstd::prelude::*;
use crate::commands::snapshot::{
    distinct_callers, edge_snapshot, latest_edges, latest_nodes, snapshot_of, ById, ByKey,
    ByReference, EdgeSnapshot, EdgeSnapshotView, StoredReferenceView, UnresolvedCaller,
    UnresolvedCallerView,
};
use crate::db::refs::reason_of;
use crate::db::{tier_confidence, tier_label, EdgeView, Node, NodeView};
use crate::ordered::laws::{
    sorting_keeps_equals_in_order, the_chosen_are_items, the_first_is_chosen_first,
    the_first_of_each_is_kept,
};
use crate::ordered::{
    chosen, kept_items_stand_for_all, relation_of, sameness_of, sorted_by, sorting_keeps_members,
};
use crate::text::lemma_text_lt_irreflexive;

verus! {

/// No later symbol has the id of the one at `i`.
pub open spec fn is_last_node(nodes: Seq<NodeView>, i: int) -> bool {
    0 <= i < nodes.len() && forall|j: int|
        i < j < nodes.len() ==> (#[trigger] nodes[j]).id != nodes[i].id
}

/// No later edge has the ends and the kind of the one at `i`.
pub open spec fn is_last_edge(edges: Seq<EdgeView>, i: int) -> bool {
    0 <= i < edges.len() && forall|j: int|
        i < j < edges.len() ==> !((#[trigger] edges[j]).source_id == edges[i].source_id
            && edges[j].target_id == edges[i].target_id && edges[j].kind == edges[i].kind)
}

/// The edge is shown, by its ends, its kind and its tier.
pub open spec fn shows_edge(found: Seq<EdgeSnapshotView>, edge: EdgeView) -> bool {
    exists|k: int|
        0 <= k < found.len() && (#[trigger] found[k]).key.source_id == edge.source_id
            && found[k].key.target_id == edge.target_id && found[k].key.kind == edge.kind
            && found[k].resolution_kind == tier_label(edge.resolution_kind) && found[k].confidence
            == tier_confidence(edge.resolution_kind)
}

/// The reference is shown, by its source, what it means and why that is not found.
pub open spec fn shows_reference(
    found: Seq<UnresolvedCallerView>,
    reference: StoredReferenceView,
) -> bool {
    exists|k: int|
        0 <= k < found.len() && (#[trigger] found[k]).source == reference.source
            && found[k].specifier == reference.specifier && found[k].reason == reason_of(
            reference.kind,
            reference.candidates,
        )
}

/// Of symbols with one id the last one counts.
pub proof fn the_last_symbol_of_an_id_counts(nodes: Seq<NodeView>, i: int)
    requires
        is_last_node(nodes, i),
    ensures
        latest_nodes(nodes).contains(nodes[i]),
{
    let id = nodes[i].id;
    let picks = |node: NodeView| node.id == id;
    let precedes = relation_of::<Node, ById>(ById);
    let alike = sameness_of::<Node, ById>(ById);
    let turned = nodes.reverse();
    let k = nodes.len() - 1 - i;
    assert(turned[k] == nodes[i]);
    assert forall|j: int| 0 <= j < k implies !picks(#[trigger] turned[j]) by {
        assert(turned[j] == nodes[nodes.len() - 1 - j]);
    }
    the_first_is_chosen_first(turned, picks, k);
    lemma_text_lt_irreflexive(id);
    sorting_keeps_equals_in_order(turned, precedes, picks);
    the_first_of_each_is_kept(sorted_by(turned, precedes), alike, picks);
    the_chosen_are_items(latest_nodes(nodes), picks);
    assert(chosen(latest_nodes(nodes), picks)[0] == nodes[i]);
}

/// Of edges with the same ends and kind the last one counts, with the name and the
/// confidence of its tier.
pub proof fn the_last_edge_of_a_key_counts(
    nodes: Seq<NodeView>,
    edges: Seq<EdgeView>,
    references: Seq<StoredReferenceView>,
    i: int,
)
    requires
        is_last_edge(edges, i),
    ensures
        shows_edge(snapshot_of(nodes, edges, references).edges, edges[i]),
{
    let all = edges.map_values(|edge: EdgeView| edge_snapshot(edge));
    let key = all[i].key;
    let picks = |edge: EdgeSnapshotView| edge.key == key;
    let precedes = relation_of::<EdgeSnapshot, ByKey>(ByKey);
    let alike = sameness_of::<EdgeSnapshot, ByKey>(ByKey);
    let turned = all.reverse();
    let at = all.len() - 1 - i;
    assert(turned[at] == all[i]);
    assert forall|j: int| 0 <= j < at implies !picks(#[trigger] turned[j]) by {
        let other = all.len() - 1 - j;
        assert(turned[j] == all[other]);
        assert(all[other] == edge_snapshot(edges[other]));
    }
    the_first_is_chosen_first(turned, picks, at);
    lemma_text_lt_irreflexive(key.source_id);
    lemma_text_lt_irreflexive(key.target_id);
    lemma_text_lt_irreflexive(key.kind);
    assert forall|a: EdgeSnapshotView, b: EdgeSnapshotView| picks(a) && picks(
        b,
    ) implies !#[trigger] precedes(a, b) by {
        assert(a.key == b.key);
    }
    sorting_keeps_equals_in_order(turned, precedes, picks);
    the_first_of_each_is_kept(sorted_by(turned, precedes), alike, picks);
    the_chosen_are_items(latest_edges(all), picks);
    let one = chosen(latest_edges(all), picks)[0];
    assert(one == edge_snapshot(edges[i]));
    let found = snapshot_of(nodes, edges, references).edges;
    assert(found.contains(one));
    let k = choose|k: int| 0 <= k < found.len() && found[k] == one;
    assert(found[k].key.source_id == edges[i].source_id);
}

/// Every stored reference is reported, with its reason.
pub proof fn every_reference_is_reported(references: Seq<StoredReferenceView>, i: int)
    requires
        0 <= i < references.len(),
    ensures
        shows_reference(distinct_callers(references), references[i]),
{
    let all = references.map_values(
        |reference: StoredReferenceView| crate::commands::snapshot::reported(reference),
    );
    let precedes = relation_of::<UnresolvedCaller, ByReference>(ByReference);
    let alike = sameness_of::<UnresolvedCaller, ByReference>(ByReference);
    let sorted = sorted_by(all, precedes);
    sorting_keeps_members(all, precedes);
    assert(all.contains(all[i]));
    assert(sorted.contains(all[i]));
    let t = choose|t: int| 0 <= t < sorted.len() && sorted[t] == all[i];
    kept_items_stand_for_all(sorted, alike, t);
    let found = distinct_callers(references);
    let k = choose|k: int| 0 <= k < found.len() && alike(sorted[t], #[trigger] found[k]);
    assert(found[k].source == references[i].source);
}

} // verus!

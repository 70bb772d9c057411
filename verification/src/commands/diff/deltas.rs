//! What a report holds, told of the two graphs, the hunks and the files that it was made of.

use vstd::prelude::*;
use crate::commands::changes::{ChangedFileView, HunkView};
use crate::commands::diff::laws::every_hunk_is_accounted_for;
use crate::commands::diff::{
    any_overlaps, callers_on_new_lines, change_in, changed_edge, compared, found_symbols,
    lemma_position_within, limited, needs_history, new_callers, new_edges, nodes_in, old_edges,
    on_new_line, overlaps, position_of, removals, removed_files, removed_hunks, report_of, retained,
    status_of, touched, touched_by_file, touched_by_files, touched_by_hunk, touched_by_hunks,
    touched_symbols, untouching, with_line, ByEnds, ByPlace, BySymbol, ChangedEdge, ChangedEdgeView,
    ChangedSymbol, ChangedSymbolView, ComparisonView, ReportView, UnmappedHunk, UnmappedHunkView,
};
use crate::commands::snapshot::{
    edge_with_key, graph_in_order, keys_ascend, node_with_id, reported, EdgeSnapshotView,
    StoredReferenceView, UnresolvedCallerView,
};
use crate::db::refs::reason_of;
use crate::db::NodeView;
use crate::ordered::{
    kept_items_are_items, relation_of, sameness_of, sorted_by, sorting_keeps_members,
};
use crate::parser::edge_order::{key_lt, lemma_key_lt_irreflexive};

verus! {

// ---------------------------------------------------------------------------
// Finding by id and by key

/// A symbol is the one with an id: it is among the symbols and has the id, and there is
/// none just where no symbol has it.
pub open spec fn is_the_one(nodes: Seq<NodeView>, id: Seq<char>, end: Option<NodeView>) -> bool {
    match end {
        Some(node) => nodes.contains(node) && node.id == id,
        None => forall|i: int| 0 <= i < nodes.len() ==> (#[trigger] nodes[i]).id != id,
    }
}

proof fn lemma_the_one(nodes: Seq<NodeView>, id: Seq<char>)
    ensures
        is_the_one(nodes, id, node_with_id(nodes, id)),
    decreases nodes.len(),
{
    if nodes.len() > 0 {
        let front = nodes.drop_last();
        lemma_the_one(front, id);
        assert(nodes[nodes.len() - 1] == nodes.last());
        match node_with_id(front, id) {
            Some(node) => {
                let k = choose|k: int| 0 <= k < front.len() && front[k] == node;
                assert(nodes[k] == node);
            },
            None => {
                if nodes.last().id != id {
                    assert forall|i: int| 0 <= i < nodes.len() implies (#[trigger] nodes[i]).id
                        != id by {
                        if i < front.len() {
                            assert(front[i] == nodes[i]);
                        }
                    }
                }
            },
        }
    }
}

proof fn lemma_by_key(edges: Seq<EdgeSnapshotView>, edge: EdgeSnapshotView)
    requires
        keys_ascend(edges),
    ensures
        match edge_with_key(edges, edge.key) {
            Some(found) => edges.contains(found) && found.key == edge.key && forall|i: int|
                0 <= i < edges.len() && (#[trigger] edges[i]).key == edge.key ==> edges[i] == found,
            None => forall|i: int| 0 <= i < edges.len() ==> (#[trigger] edges[i]).key != edge.key,
        },
    decreases edges.len(),
{
    if edges.len() > 0 {
        let front = edges.drop_last();
        assert forall|i: int, j: int| 0 <= i < j < front.len() implies key_lt(
            (#[trigger] front[i]).key,
            (#[trigger] front[j]).key,
        ) by {
            assert(front[i] == edges[i] && front[j] == edges[j]);
        }
        lemma_by_key(front, edge);
        let end = edges.len() - 1;
        assert(edges[end] == edges.last());
        if edges.last().key == edge.key {
            assert forall|i: int| 0 <= i < edges.len() && (#[trigger] edges[i]).key
                == edge.key implies edges[i] == edges.last() by {
                if i < end {
                    assert(key_lt(edges[i].key, edges[end].key));
                    lemma_key_lt_irreflexive(edge.key);
                }
            }
        } else {
            match edge_with_key(front, edge.key) {
                Some(found) => {
                    let k = choose|k: int| 0 <= k < front.len() && front[k] == found;
                    assert(edges[k] == found);
                    assert forall|i: int| 0 <= i < edges.len() && (#[trigger] edges[i]).key
                        == edge.key implies edges[i] == found by {
                        if i < end {
                            assert(front[i] == edges[i]);
                        }
                    }
                },
                None => {
                    assert forall|i: int| 0 <= i < edges.len() implies (#[trigger] edges[i]).key
                        != edge.key by {
                        if i < end {
                            assert(front[i] == edges[i]);
                        }
                    }
                },
            }
        }
    }
}

// ---------------------------------------------------------------------------
// Edges

/// A reported edge tells of an edge: its ends are the symbols with their ids, where these
/// are known, and its relation, tier and confidence are those of the edge.
pub open spec fn tells_of(
    entry: ChangedEdgeView,
    edge: EdgeSnapshotView,
    nodes: Seq<NodeView>,
) -> bool {
    &&& is_the_one(nodes, edge.key.source_id, entry.source)
    &&& is_the_one(nodes, edge.key.target_id, entry.target)
    &&& entry.relationship == edge.key.kind
    &&& entry.resolution_kind == edge.resolution_kind
    &&& entry.confidence == edge.confidence
}

/// No edge has the ends and the relation of this one.
pub open spec fn is_without_like(edges: Seq<EdgeSnapshotView>, edge: EdgeSnapshotView) -> bool {
    forall|i: int|
        0 <= i < edges.len() ==> !((#[trigger] edges[i]).key.source_id == edge.key.source_id
            && edges[i].key.target_id == edge.key.target_id && edges[i].key.kind == edge.key.kind)
}

/// An edge with the ends and the relation of this one is there at another tier.
pub open spec fn is_otherwise_in(edges: Seq<EdgeSnapshotView>, edge: EdgeSnapshotView) -> bool {
    exists|i: int|
        0 <= i < edges.len() && (#[trigger] edges[i]).key.source_id == edge.key.source_id
            && edges[i].key.target_id == edge.key.target_id && edges[i].key.kind == edge.key.kind
            && (edges[i].resolution_kind != edge.resolution_kind || edges[i].confidence
            != edge.confidence)
}

proof fn lemma_without_like(edges: Seq<EdgeSnapshotView>, edge: EdgeSnapshotView)
    requires
        keys_ascend(edges),
    ensures
        edge_with_key(edges, edge.key) is None <==> is_without_like(edges, edge),
        (edge_with_key(edges, edge.key) is Some && edge_with_key(edges, edge.key)->0 != edge)
            <==> is_otherwise_in(edges, edge),
{
    lemma_by_key(edges, edge);
    match edge_with_key(edges, edge.key) {
        Some(found) => {
            let k = choose|k: int| 0 <= k < edges.len() && edges[k] == found;
            assert(edges[k].key.source_id == edge.key.source_id);
            if found != edge {
                if found.resolution_kind == edge.resolution_kind && found.confidence
                    == edge.confidence {
                    assert(found =~= edge);
                }
                assert(is_otherwise_in(edges, edge));
            }
            if is_otherwise_in(edges, edge) {
                let i = choose|i: int|
                    0 <= i < edges.len() && (#[trigger] edges[i]).key.source_id
                        == edge.key.source_id && edges[i].key.target_id == edge.key.target_id
                        && edges[i].key.kind == edge.key.kind && (edges[i].resolution_kind
                        != edge.resolution_kind || edges[i].confidence != edge.confidence);
                assert(edges[i].key =~= edge.key);
                assert(edges[i] == found);
            }
        },
        None => {
            assert forall|i: int| 0 <= i < edges.len() implies !((
            #[trigger] edges[i]).key.source_id == edge.key.source_id && edges[i].key.target_id
                == edge.key.target_id && edges[i].key.kind == edge.key.kind) by {
                if edges[i].key.source_id == edge.key.source_id && edges[i].key.target_id
                    == edge.key.target_id && edges[i].key.kind == edge.key.kind {
                    assert(edges[i].key =~= edge.key);
                }
            }
        },
    }
}

proof fn lemma_new_edges(
    edges: Seq<EdgeSnapshotView>,
    earlier: Seq<EdgeSnapshotView>,
    nodes: Seq<NodeView>,
    k: int,
)
    requires
        0 <= k < edges.len(),
    ensures
        edge_with_key(earlier, edges[k].key) is None ==> new_edges(
            edges,
            earlier,
            nodes,
        ).contains(changed_edge(edges[k], nodes, "added"@)),
        edge_with_key(earlier, edges[k].key) matches Some(found) ==> found != edges[k]
            ==> new_edges(edges, earlier, nodes).contains(
            changed_edge(edges[k], nodes, "modified"@),
        ),
    decreases edges.len(),
{
    let front = edges.drop_last();
    let before = new_edges(front, earlier, nodes);
    let all = new_edges(edges, earlier, nodes);
    if k < front.len() {
        lemma_new_edges(front, earlier, nodes, k);
        assert(front[k] == edges[k]);
        assert forall|entry: ChangedEdgeView| before.contains(entry) implies all.contains(
            entry,
        ) by {
            let i = choose|i: int| 0 <= i < before.len() && before[i] == entry;
            assert(all[i] == entry);
        }
    } else if all.len() > before.len() {
        assert(all[before.len() as int] == all.last());
    }
}

proof fn lemma_old_edges(
    earlier: Seq<EdgeSnapshotView>,
    edges: Seq<EdgeSnapshotView>,
    nodes: Seq<NodeView>,
    k: int,
)
    requires
        0 <= k < earlier.len(),
        edge_with_key(edges, earlier[k].key) is None,
    ensures
        old_edges(earlier, edges, nodes).contains(changed_edge(earlier[k], nodes, "removed"@)),
    decreases earlier.len(),
{
    let front = earlier.drop_last();
    let before = old_edges(front, edges, nodes);
    let all = old_edges(earlier, edges, nodes);
    let entry = changed_edge(earlier[k], nodes, "removed"@);
    if k < front.len() {
        assert(front[k] == earlier[k]);
        lemma_old_edges(front, edges, nodes, k);
        let i = choose|i: int| 0 <= i < before.len() && before[i] == entry;
        assert(all[i] == entry);
    } else {
        assert(all[before.len() as int] == entry);
    }
}

proof fn lemma_new_edges_from(
    edges: Seq<EdgeSnapshotView>,
    earlier: Seq<EdgeSnapshotView>,
    nodes: Seq<NodeView>,
    entry: ChangedEdgeView,
)
    requires
        new_edges(edges, earlier, nodes).contains(entry),
    ensures
        exists|k: int|
            0 <= k < edges.len() && ((edge_with_key(earlier, (#[trigger] edges[k]).key) is None
                && entry == changed_edge(edges[k], nodes, "added"@)) || (edge_with_key(
                earlier,
                edges[k].key,
            ) is Some && edge_with_key(earlier, edges[k].key)->0 != edges[k] && entry
                == changed_edge(edges[k], nodes, "modified"@))),
    decreases edges.len(),
{
    let all = new_edges(edges, earlier, nodes);
    let i = choose|i: int| 0 <= i < all.len() && all[i] == entry;
    if edges.len() > 0 {
        let front = edges.drop_last();
        let before = new_edges(front, earlier, nodes);
        if i < before.len() {
            assert(before[i] == entry);
            lemma_new_edges_from(front, earlier, nodes, entry);
            let k = choose|k: int|
                0 <= k < front.len() && ((edge_with_key(earlier, (#[trigger] front[k]).key) is None
                    && entry == changed_edge(front[k], nodes, "added"@)) || (edge_with_key(
                    earlier,
                    front[k].key,
                ) is Some && edge_with_key(earlier, front[k].key)->0 != front[k] && entry
                    == changed_edge(front[k], nodes, "modified"@)));
            assert(edges[k] == front[k]);
        } else {
            assert(edges[edges.len() - 1] == edges.last());
        }
    }
}

proof fn lemma_old_edges_from(
    earlier: Seq<EdgeSnapshotView>,
    edges: Seq<EdgeSnapshotView>,
    nodes: Seq<NodeView>,
    entry: ChangedEdgeView,
)
    requires
        old_edges(earlier, edges, nodes).contains(entry),
    ensures
        exists|k: int|
            0 <= k < earlier.len() && edge_with_key(edges, (#[trigger] earlier[k]).key) is None
                && entry == changed_edge(earlier[k], nodes, "removed"@),
    decreases earlier.len(),
{
    let all = old_edges(earlier, edges, nodes);
    let i = choose|i: int| 0 <= i < all.len() && all[i] == entry;
    if earlier.len() > 0 {
        let front = earlier.drop_last();
        let before = old_edges(front, edges, nodes);
        if i < before.len() {
            assert(before[i] == entry);
            lemma_old_edges_from(front, edges, nodes, entry);
            let k = choose|k: int|
                0 <= k < front.len() && edge_with_key(edges, (#[trigger] front[k]).key) is None
                    && entry == changed_edge(front[k], nodes, "removed"@);
            assert(earlier[k] == front[k]);
        } else {
            assert(earlier[earlier.len() - 1] == earlier.last());
        }
    }
}

/// An entry with this change tells of this edge.
pub open spec fn lists_edge(
    entries: Seq<ChangedEdgeView>,
    edge: EdgeSnapshotView,
    nodes: Seq<NodeView>,
    change: Seq<char>,
) -> bool {
    exists|i: int|
        0 <= i < entries.len() && tells_of(#[trigger] entries[i], edge, nodes)
            && entries[i].change == change
}

proof fn lemma_listed(
    entries: Seq<ChangedEdgeView>,
    edge: EdgeSnapshotView,
    nodes: Seq<NodeView>,
    change: Seq<char>,
)
    requires
        entries.contains(changed_edge(edge, nodes, change)),
    ensures
        lists_edge(entries, edge, nodes, change),
{
    lemma_the_one(nodes, edge.key.source_id);
    lemma_the_one(nodes, edge.key.target_id);
    let i = choose|i: int| 0 <= i < entries.len() && entries[i] == changed_edge(edge, nodes, change);
    assert(tells_of(entries[i], edge, nodes));
}

/// With an earlier graph, every edge that is new is reported as added, every one that has
/// another tier as modified, and every one that is gone as removed, whatever its tier.
pub proof fn every_edge_difference_is_reported(input: ComparisonView)
    requires
        input.earlier is Some,
        graph_in_order(input.graph),
        graph_in_order(input.earlier->0),
    ensures
        ({
            let earlier = input.earlier->0;
            let later = input.graph;
            let entries = report_of(input).edges;
            &&& forall|k: int|
                0 <= k < later.edges.len() && is_without_like(
                    earlier.edges,
                    #[trigger] later.edges[k],
                ) ==> lists_edge(entries, later.edges[k], later.nodes, "added"@)
            &&& forall|k: int|
                0 <= k < later.edges.len() && is_otherwise_in(
                    earlier.edges,
                    #[trigger] later.edges[k],
                ) ==> lists_edge(entries, later.edges[k], later.nodes, "modified"@)
            &&& forall|k: int|
                0 <= k < earlier.edges.len() && is_without_like(
                    later.edges,
                    #[trigger] earlier.edges[k],
                ) ==> lists_edge(entries, earlier.edges[k], earlier.nodes, "removed"@)
        }),
{
    let earlier = input.earlier->0;
    let later = input.graph;
    let first = new_edges(later.edges, earlier.edges, later.nodes);
    let gone = old_edges(earlier.edges, later.edges, earlier.nodes);
    let entries = report_of(input).edges;
    sorting_keeps_members(first + gone, relation_of::<ChangedEdge, ByEnds>(ByEnds));
    assert forall|entry: ChangedEdgeView|
        first.contains(entry) || gone.contains(entry) implies entries.contains(entry) by {
        if first.contains(entry) {
            let i = choose|i: int| 0 <= i < first.len() && first[i] == entry;
            assert((first + gone)[i] == entry);
        } else {
            let i = choose|i: int| 0 <= i < gone.len() && gone[i] == entry;
            assert((first + gone)[first.len() + i] == entry);
        }
        assert((first + gone).contains(entry));
    }
    assert forall|k: int| 0 <= k < later.edges.len() && is_without_like(
        earlier.edges,
        #[trigger] later.edges[k],
    ) implies lists_edge(entries, later.edges[k], later.nodes, "added"@) by {
        lemma_without_like(earlier.edges, later.edges[k]);
        lemma_new_edges(later.edges, earlier.edges, later.nodes, k);
        lemma_listed(entries, later.edges[k], later.nodes, "added"@);
    }
    assert forall|k: int| 0 <= k < later.edges.len() && is_otherwise_in(
        earlier.edges,
        #[trigger] later.edges[k],
    ) implies lists_edge(entries, later.edges[k], later.nodes, "modified"@) by {
        lemma_without_like(earlier.edges, later.edges[k]);
        lemma_new_edges(later.edges, earlier.edges, later.nodes, k);
        lemma_listed(entries, later.edges[k], later.nodes, "modified"@);
    }
    assert forall|k: int| 0 <= k < earlier.edges.len() && is_without_like(
        later.edges,
        #[trigger] earlier.edges[k],
    ) implies lists_edge(entries, earlier.edges[k], earlier.nodes, "removed"@) by {
        lemma_without_like(later.edges, earlier.edges[k]);
        lemma_old_edges(earlier.edges, later.edges, earlier.nodes, k);
        lemma_listed(entries, earlier.edges[k], earlier.nodes, "removed"@);
    }
}

/// Only differences are reported: an edge as added where it is new, as modified where it
/// has another tier, as removed where it is gone. Without an earlier graph no edge is
/// reported.
pub proof fn only_edge_differences_are_reported(input: ComparisonView, i: int)
    requires
        0 <= i < report_of(input).edges.len(),
        graph_in_order(input.graph),
        input.earlier is Some ==> graph_in_order(input.earlier->0),
    ensures
        input.earlier is Some,
        ({
            let entry = report_of(input).edges[i];
            let earlier = input.earlier->0;
            let later = input.graph;
            ||| entry.change == "added"@ && exists|k: int|
                0 <= k < later.edges.len() && is_without_like(
                    earlier.edges,
                    #[trigger] later.edges[k],
                ) && tells_of(entry, later.edges[k], later.nodes)
            ||| entry.change == "modified"@ && exists|k: int|
                0 <= k < later.edges.len() && is_otherwise_in(
                    earlier.edges,
                    #[trigger] later.edges[k],
                ) && tells_of(entry, later.edges[k], later.nodes)
            ||| entry.change == "removed"@ && exists|k: int|
                0 <= k < earlier.edges.len() && is_without_like(
                    later.edges,
                    #[trigger] earlier.edges[k],
                ) && tells_of(entry, earlier.edges[k], earlier.nodes)
        }),
{
    let earlier = input.earlier->0;
    let later = input.graph;
    let entries = report_of(input).edges;
    let entry = entries[i];
    assert(input.earlier is Some);
    let first = new_edges(later.edges, earlier.edges, later.nodes);
    let gone = old_edges(earlier.edges, later.edges, earlier.nodes);
    sorting_keeps_members(first + gone, relation_of::<ChangedEdge, ByEnds>(ByEnds));
    assert(entries.contains(entry));
    assert((first + gone).contains(entry));
    let t = choose|t: int| 0 <= t < (first + gone).len() && (first + gone)[t] == entry;
    if t < first.len() {
        assert(first[t] == entry);
        lemma_new_edges_from(later.edges, earlier.edges, later.nodes, entry);
        let k = choose|k: int|
            0 <= k < later.edges.len() && ((edge_with_key(
                earlier.edges,
                (#[trigger] later.edges[k]).key,
            ) is None && entry == changed_edge(later.edges[k], later.nodes, "added"@)) || (
            edge_with_key(earlier.edges, later.edges[k].key) is Some && edge_with_key(
                earlier.edges,
                later.edges[k].key,
            )->0 != later.edges[k] && entry == changed_edge(
                later.edges[k],
                later.nodes,
                "modified"@,
            )));
        lemma_without_like(earlier.edges, later.edges[k]);
        lemma_the_one(later.nodes, later.edges[k].key.source_id);
        lemma_the_one(later.nodes, later.edges[k].key.target_id);
        assert(tells_of(entry, later.edges[k], later.nodes));
    } else {
        assert(gone[t - first.len()] == entry);
        lemma_old_edges_from(earlier.edges, later.edges, earlier.nodes, entry);
        let k = choose|k: int|
            0 <= k < earlier.edges.len() && edge_with_key(
                later.edges,
                (#[trigger] earlier.edges[k]).key,
            ) is None && entry == changed_edge(earlier.edges[k], earlier.nodes, "removed"@);
        lemma_without_like(later.edges, earlier.edges[k]);
        lemma_the_one(earlier.nodes, earlier.edges[k].key.source_id);
        lemma_the_one(earlier.nodes, earlier.edges[k].key.target_id);
        assert(tells_of(entry, earlier.edges[k], earlier.nodes));
    }
}

// ---------------------------------------------------------------------------
// Unresolved calls

proof fn lemma_new_callers(
    callers: Seq<UnresolvedCallerView>,
    earlier: Seq<UnresolvedCallerView>,
    caller: UnresolvedCallerView,
)
    ensures
        new_callers(callers, earlier).contains(caller) <==> callers.contains(caller)
            && !earlier.contains(caller),
    decreases callers.len(),
{
    if callers.len() > 0 {
        let front = callers.drop_last();
        let last = callers.last();
        lemma_new_callers(front, earlier, caller);
        assert(callers =~= front.push(last));
        crate::ordered::lemma_push_members(front, last, caller);
        crate::ordered::lemma_push_members(new_callers(front, earlier), last, caller);
    }
}

/// With an earlier graph, the unresolved calls that are reported are those of the later
/// graph that the earlier one does not have.
pub proof fn newly_unresolved_calls_are_reported(input: ComparisonView, caller: UnresolvedCallerView)
    requires
        input.earlier is Some,
    ensures
        report_of(input).unresolved.contains(caller) <==> input.graph.unresolved.contains(caller)
            && !input.earlier->0.unresolved.contains(caller),
{
    lemma_new_callers(input.graph.unresolved, input.earlier->0.unresolved, caller);
}

// ---------------------------------------------------------------------------
// Symbols that are touched

/// A hunk is about a changed file.
pub open spec fn is_about_changed(hunk: HunkView, files: Seq<ChangedFileView>) -> bool {
    exists|f: int| 0 <= f < files.len() && (#[trigger] files[f]).path == hunk.path
}

/// A hunk with new lines stands on lines of a symbol: one of its new lines is a line of it,
/// in its file.
pub open spec fn stands_on(hunk: HunkView, node: NodeView) -> bool {
    &&& hunk.new_count > 0
    &&& hunk.path == node.file_path
    &&& node.start_line <= hunk.new_start + hunk.new_count - 1
    &&& hunk.new_start <= node.end_line
}

proof fn lemma_retained(hunks: Seq<HunkView>, files: Seq<ChangedFileView>, hunk: HunkView)
    ensures
        retained(hunks, files).contains(hunk) <==> hunks.contains(hunk) && is_about_changed(
            hunk,
            files,
        ),
    decreases hunks.len(),
{
    if hunks.len() > 0 {
        let front = hunks.drop_last();
        let last = hunks.last();
        lemma_retained(front, files, hunk);
        assert(hunks =~= front.push(last));
        crate::ordered::lemma_push_members(front, last, hunk);
        crate::ordered::lemma_push_members(retained(front, files), last, hunk);
    }
}

proof fn lemma_nodes_in(nodes: Seq<NodeView>, path: Seq<char>, node: NodeView)
    ensures
        nodes_in(nodes, path).contains(node) <==> nodes.contains(node) && node.file_path == path,
    decreases nodes.len(),
{
    if nodes.len() > 0 {
        let front = nodes.drop_last();
        let last = nodes.last();
        lemma_nodes_in(front, path, node);
        assert(nodes =~= front.push(last));
        crate::ordered::lemma_push_members(front, last, node);
        crate::ordered::lemma_push_members(nodes_in(front, path), last, node);
    }
}

/// A symbol is reported as added where its file was added, and as modified where its file
/// was changed otherwise.
pub open spec fn change_fits(
    change: Seq<char>,
    node: NodeView,
    files: Seq<ChangedFileView>,
) -> bool {
    ||| change == "added"@ && exists|f: int|
        0 <= f < files.len() && (#[trigger] files[f]).path == node.file_path && files[f].status
            == "added"@
    ||| change == "modified"@ && exists|f: int|
        0 <= f < files.len() && (#[trigger] files[f]).path == node.file_path && files[f].status
            != "added"@
}

proof fn lemma_status(files: Seq<ChangedFileView>, path: Seq<char>)
    requires
        exists|f: int| 0 <= f < files.len() && (#[trigger] files[f]).path == path,
    ensures
        exists|f: int|
            0 <= f < files.len() && (#[trigger] files[f]).path == path && status_of(files, path)
                == Some(files[f].status),
    decreases files.len(),
{
    let f = choose|f: int| 0 <= f < files.len() && (#[trigger] files[f]).path == path;
    let front = files.drop_last();
    assert(files[files.len() - 1] == files.last());
    if files.last().path != path {
        assert(front[f] == files[f]);
        lemma_status(front, path);
        let g = choose|g: int|
            0 <= g < front.len() && (#[trigger] front[g]).path == path && status_of(front, path)
                == Some(front[g].status);
        assert(files[g] == front[g]);
    }
}

/// The lines of a hunk that stand on a symbol, or its file as a whole, are why it is
/// touched.
spec fn is_due(entry: ChangedSymbolView, input: ComparisonView) -> bool {
    &&& entry.symbol matches Some(node)
    &&& input.graph.nodes.contains(node)
    &&& entry.path is None
    &&& change_fits(entry.change, node, input.files)
    &&& forall|l: int| #[trigger]
        entry.hunks.contains(l) ==> exists|h: int|
            0 <= h < input.hunks.len() && (#[trigger] input.hunks[h]).new_start == l
                && is_about_changed(input.hunks[h], input.files) && stands_on(
                input.hunks[h],
                node,
            )
    &&& entry.hunks.len() > 0 || exists|f: int|
        0 <= f < input.files.len() && (#[trigger] input.files[f]).path == node.file_path && (
        input.named || input.files[f].status == "renamed"@)
}

/// All entries are due.
spec fn all_due(entries: Seq<ChangedSymbolView>, input: ComparisonView) -> bool {
    forall|i: int| 0 <= i < entries.len() ==> is_due(#[trigger] entries[i], input)
}

/// Symbols with one id are one symbol.
spec fn ids_are_own(nodes: Seq<NodeView>) -> bool {
    forall|i: int, j: int|
        #![trigger nodes[i], nodes[j]]
        0 <= i < nodes.len() && 0 <= j < nodes.len() && nodes[i].id == nodes[j].id ==> nodes[i]
            == nodes[j]
}

proof fn lemma_ids_are_own(nodes: Seq<NodeView>)
    requires
        crate::commands::snapshot::ids_ascend(nodes),
    ensures
        ids_are_own(nodes),
{
    assert forall|i: int, j: int|
        #![trigger nodes[i], nodes[j]]
        0 <= i < nodes.len() && 0 <= j < nodes.len() && nodes[i].id
            == nodes[j].id implies nodes[i] == nodes[j] by {
        crate::text::lemma_text_lt_irreflexive(nodes[i].id);
        if i < j {
            assert(crate::text::text_lt(nodes[i].id, nodes[j].id));
        } else if j < i {
            assert(crate::text::text_lt(nodes[j].id, nodes[i].id));
        }
    }
}

proof fn lemma_touched_due(
    entries: Seq<ChangedSymbolView>,
    node: NodeView,
    change: Seq<char>,
    line: Option<int>,
    input: ComparisonView,
)
    requires
        all_due(entries, input),
        ids_are_own(input.graph.nodes),
        input.graph.nodes.contains(node),
        change_fits(change, node, input.files),
        line matches Some(l) ==> exists|h: int|
            0 <= h < input.hunks.len() && (#[trigger] input.hunks[h]).new_start == l
                && is_about_changed(input.hunks[h], input.files) && stands_on(
                input.hunks[h],
                node,
            ),
        line is None ==> exists|f: int|
            0 <= f < input.files.len() && (#[trigger] input.files[f]).path == node.file_path && (
            input.named || input.files[f].status == "renamed"@),
    ensures
        all_due(touched(entries, node, change, line), input),
{
    let after = touched(entries, node, change, line);
    lemma_position_within(entries, node.id);
    match position_of(entries, node.id) {
        Some(at) => {
            let own = entries[at].symbol->0;
            assert(is_due(entries[at], input));
            let a = choose|a: int|
                0 <= a < input.graph.nodes.len() && input.graph.nodes[a] == own;
            let b = choose|b: int|
                0 <= b < input.graph.nodes.len() && input.graph.nodes[b] == node;
            assert(input.graph.nodes[a] == input.graph.nodes[b]);
            assert forall|i: int| 0 <= i < after.len() implies is_due(#[trigger] after[i], input) by {
                assert(is_due(entries[i], input));
                if i == at && line is Some {
                    let l = line->0;
                    let lines = entries[at].hunks;
                    crate::ordered::lemma_inserted_members(
                        lines,
                        l,
                        |left: int, right: int| left < right,
                    );
                    assert(with_line(lines, l).len() > 0);
                    assert forall|x: int| #[trigger] after[at].hunks.contains(x) implies exists|
                        h: int,
                    |
                        0 <= h < input.hunks.len() && (#[trigger] input.hunks[h]).new_start == x
                            && is_about_changed(input.hunks[h], input.files) && stands_on(
                            input.hunks[h],
                            own,
                        ) by {
                        if x != l {
                            assert(lines.contains(x));
                        }
                    }
                }
            }
        },
        None => {
            assert forall|i: int| 0 <= i < after.len() implies is_due(#[trigger] after[i], input) by {
                if i < entries.len() {
                    assert(is_due(entries[i], input));
                } else if line is Some {
                    assert(after[i].hunks =~= seq![line->0]);
                } else {
                    assert(after[i].hunks =~= seq![]);
                }
            }
        },
    }
}

proof fn lemma_hunk_due(
    entries: Seq<ChangedSymbolView>,
    nodes: Seq<NodeView>,
    hunk: HunkView,
    change: Seq<char>,
    input: ComparisonView,
)
    requires
        all_due(entries, input),
        ids_are_own(input.graph.nodes),
        forall|k: int|
            0 <= k < nodes.len() ==> input.graph.nodes.contains(#[trigger] nodes[k])
                && nodes[k].file_path == hunk.path && change_fits(change, nodes[k], input.files),
        hunk.new_count > 0,
        input.hunks.contains(hunk),
        is_about_changed(hunk, input.files),
    ensures
        all_due(touched_by_hunk(entries, nodes, hunk, change), input),
    decreases nodes.len(),
{
    if nodes.len() > 0 {
        let front = nodes.drop_last();
        let last = nodes.last();
        assert forall|k: int| 0 <= k < front.len() implies input.graph.nodes.contains(
            #[trigger] front[k],
        ) && front[k].file_path == hunk.path && change_fits(change, front[k], input.files) by {
            assert(front[k] == nodes[k]);
        }
        assert(nodes[nodes.len() - 1] == last);
        lemma_hunk_due(entries, front, hunk, change, input);
        if overlaps(last, hunk) {
            let h = choose|h: int| 0 <= h < input.hunks.len() && input.hunks[h] == hunk;
            assert(stands_on(input.hunks[h], last));
            lemma_touched_due(
                touched_by_hunk(entries, front, hunk, change),
                last,
                change,
                Some(hunk.new_start),
                input,
            );
        }
    }
}

proof fn lemma_hunks_due(hunks: Seq<HunkView>, input: ComparisonView)
    requires
        ids_are_own(input.graph.nodes),
        forall|h: int|
            0 <= h < hunks.len() ==> input.hunks.contains(#[trigger] hunks[h])
                && is_about_changed(hunks[h], input.files),
    ensures
        all_due(touched_by_hunks(hunks, input.files, input.graph.nodes), input),
    decreases hunks.len(),
{
    if hunks.len() > 0 {
        let front = hunks.drop_last();
        let last = hunks.last();
        assert forall|h: int| 0 <= h < front.len() implies input.hunks.contains(
            #[trigger] front[h],
        ) && is_about_changed(front[h], input.files) by {
            assert(front[h] == hunks[h]);
        }
        assert(hunks[hunks.len() - 1] == last);
        lemma_hunks_due(front, input);
        if last.new_count > 0 {
            let own = nodes_in(input.graph.nodes, last.path);
            let change = change_in(status_of(input.files, last.path));
            lemma_status(input.files, last.path);
            assert forall|k: int| 0 <= k < own.len() implies input.graph.nodes.contains(
                #[trigger] own[k],
            ) && own[k].file_path == last.path && change_fits(change, own[k], input.files) by {
                lemma_nodes_in(input.graph.nodes, last.path, own[k]);
                assert(own.contains(own[k]));
            }
            lemma_hunk_due(
                touched_by_hunks(front, input.files, input.graph.nodes),
                own,
                last,
                change_in(status_of(input.files, last.path)),
                input,
            );
        }
    }
}

proof fn lemma_file_due(
    entries: Seq<ChangedSymbolView>,
    nodes: Seq<NodeView>,
    change: Seq<char>,
    f: int,
    input: ComparisonView,
)
    requires
        all_due(entries, input),
        ids_are_own(input.graph.nodes),
        0 <= f < input.files.len(),
        input.named || input.files[f].status == "renamed"@,
        forall|k: int|
            0 <= k < nodes.len() ==> input.graph.nodes.contains(#[trigger] nodes[k])
                && nodes[k].file_path == input.files[f].path && change_fits(
                change,
                nodes[k],
                input.files,
            ),
    ensures
        all_due(touched_by_file(entries, nodes, change), input),
    decreases nodes.len(),
{
    if nodes.len() > 0 {
        let front = nodes.drop_last();
        assert forall|k: int| 0 <= k < front.len() implies input.graph.nodes.contains(
            #[trigger] front[k],
        ) && front[k].file_path == input.files[f].path && change_fits(
            change,
            front[k],
            input.files,
        ) by {
            assert(front[k] == nodes[k]);
        }
        assert(nodes[nodes.len() - 1] == nodes.last());
        lemma_file_due(entries, front, change, f, input);
        lemma_touched_due(
            touched_by_file(entries, front, change),
            nodes.last(),
            change,
            None,
            input,
        );
    }
}

proof fn lemma_files_due(
    entries: Seq<ChangedSymbolView>,
    count: int,
    input: ComparisonView,
)
    requires
        all_due(entries, input),
        ids_are_own(input.graph.nodes),
        0 <= count <= input.files.len(),
    ensures
        all_due(
            touched_by_files(
                entries,
                input.files.take(count),
                input.graph.nodes,
                input.named,
            ),
            input,
        ),
    decreases count,
{
    let files = input.files.take(count);
    if count > 0 {
        lemma_files_due(entries, count - 1, input);
        assert(files.drop_last() =~= input.files.take(count - 1));
        let f = count - 1;
        let file = input.files[f];
        assert(files.last() == file);
        let own = nodes_in(input.graph.nodes, file.path);
        reveal_strlit("renamed");
        reveal_strlit("added");
        assert("renamed"@.len() != "added"@.len());
        let change = change_in(Some(file.status));
        assert forall|k: int| 0 <= k < own.len() implies input.graph.nodes.contains(
            #[trigger] own[k],
        ) && own[k].file_path == file.path && change_fits(change, own[k], input.files) && (
        file.status == "renamed"@ ==> change_fits("modified"@, own[k], input.files)) by {
            lemma_nodes_in(input.graph.nodes, file.path, own[k]);
            assert(own.contains(own[k]));
        }
        let before = touched_by_files(
            entries,
            files.drop_last(),
            input.graph.nodes,
            input.named,
        );
        if input.named {
            lemma_file_due(before, own, change_in(Some(file.status)), f, input);
        } else if file.status == "renamed"@ {
            lemma_file_due(before, own, "modified"@, f, input);
        }
    }
}

proof fn lemma_all_due(input: ComparisonView)
    requires
        graph_in_order(input.graph),
    ensures
        all_due(touched_symbols(input), input),
{
    let hunks = retained(input.hunks, input.files);
    lemma_ids_are_own(input.graph.nodes);
    assert forall|h: int| 0 <= h < hunks.len() implies input.hunks.contains(#[trigger] hunks[h])
        && is_about_changed(hunks[h], input.files) by {
        lemma_retained(input.hunks, input.files, hunks[h]);
        assert(hunks.contains(hunks[h]));
    }
    lemma_hunks_due(hunks, input);
    assert(input.files.take(input.files.len() as int) =~= input.files);
    lemma_files_due(
        touched_by_hunks(hunks, input.files, input.graph.nodes),
        input.files.len() as int,
        input,
    );
}

/// Without an earlier graph, a symbol is reported only for a reason: a hunk of a changed
/// file stands on its lines, or its file is reported as a whole, because it was named or
/// renamed. An entry without a symbol tells of a removal: of lines, by the line where they
/// stood, or of a file that was named and deleted.
pub proof fn symbols_are_reported_for_a_reason(input: ComparisonView, i: int)
    requires
        input.earlier is None,
        graph_in_order(input.graph),
        0 <= i < report_of(input).symbols.len(),
    ensures
        ({
            let entry = report_of(input).symbols[i];
            match entry.symbol {
                Some(node) => {
                    &&& input.graph.nodes.contains(node)
                    &&& change_fits(entry.change, node, input.files)
                    &&& forall|l: int| #[trigger]
                        entry.hunks.contains(l) ==> exists|h: int|
                            0 <= h < input.hunks.len() && (
                            #[trigger] input.hunks[h]).new_start == l && is_about_changed(
                                input.hunks[h],
                                input.files,
                            ) && stands_on(input.hunks[h], node)
                    &&& entry.hunks.len() > 0 || exists|f: int|
                        0 <= f < input.files.len() && (#[trigger] input.files[f]).path
                            == node.file_path && (input.named || input.files[f].status
                            == "renamed"@)
                },
                None => {
                    &&& entry.change == "removed"@
                    &&& (exists|h: int|
                        0 <= h < input.hunks.len() && (#[trigger] input.hunks[h]).new_count == 0
                            && is_about_changed(input.hunks[h], input.files) && entry.hunks
                            == seq![input.hunks[h].old_start] && entry.path is None) || (exists|
                        f: int,
                    |
                        0 <= f < input.files.len() && (#[trigger] input.files[f]).status
                            == "deleted"@ && input.named && entry.hunks.len() == 0 && entry.path
                            == Some(input.files[f].path))
                },
            }
        }),
{
    let all = found_symbols(input);
    let entry = report_of(input).symbols[i];
    let hunks = retained(input.hunks, input.files);
    sorting_keeps_members(all, relation_of::<ChangedSymbol, BySymbol>(BySymbol));
    assert(report_of(input).symbols.contains(entry));
    assert(all.contains(entry));
    let t = choose|t: int| 0 <= t < all.len() && all[t] == entry;
    lemma_all_due(input);
    let first = touched_symbols(input);
    if t < first.len() {
        assert(all[t] == first[t]);
        assert(is_due(first[t], input));
    } else {
        let gone = removed_hunks(hunks);
        if t < first.len() + gone.len() {
            assert(gone[t - first.len()] == entry);
            lemma_removed_hunks(hunks, entry);
            let h = choose|h: int|
                0 <= h < hunks.len() && (#[trigger] hunks[h]).new_count == 0 && entry.symbol is None
                    && entry.change == "removed"@ && entry.path is None && entry.hunks
                    == seq![hunks[h].old_start];
            lemma_retained(input.hunks, input.files, hunks[h]);
            assert(hunks.contains(hunks[h]));
            let g = choose|g: int| 0 <= g < input.hunks.len() && input.hunks[g] == hunks[h];
            assert(input.hunks[g].new_count == 0);
        } else {
            assert(input.named);
            let files = removed_files(input.files);
            assert(files[t - first.len() - gone.len()] == entry);
            lemma_removed_files(input.files, entry);
        }
    }
}

proof fn lemma_removed_hunks(hunks: Seq<HunkView>, entry: ChangedSymbolView)
    requires
        removed_hunks(hunks).contains(entry),
    ensures
        exists|h: int|
            0 <= h < hunks.len() && (#[trigger] hunks[h]).new_count == 0 && entry.symbol is None
                && entry.change == "removed"@ && entry.path is None && entry.hunks == seq![
                hunks[h].old_start,
            ],
    decreases hunks.len(),
{
    let all = removed_hunks(hunks);
    let i = choose|i: int| 0 <= i < all.len() && all[i] == entry;
    if hunks.len() > 0 {
        let front = hunks.drop_last();
        let before = removed_hunks(front);
        if i < before.len() {
            assert(before[i] == entry);
            lemma_removed_hunks(front, entry);
            let h = choose|h: int|
                0 <= h < front.len() && (#[trigger] front[h]).new_count == 0 && entry.symbol is None
                    && entry.change == "removed"@ && entry.path is None && entry.hunks == seq![
                    front[h].old_start,
                ];
            assert(hunks[h] == front[h]);
        } else {
            assert(hunks[hunks.len() - 1] == hunks.last());
        }
    }
}

proof fn lemma_removed_files(files: Seq<ChangedFileView>, entry: ChangedSymbolView)
    requires
        removed_files(files).contains(entry),
    ensures
        entry.symbol is None,
        entry.change == "removed"@,
        entry.hunks.len() == 0,
        exists|f: int|
            0 <= f < files.len() && (#[trigger] files[f]).status == "deleted"@ && entry.path
                == Some(files[f].path),
    decreases files.len(),
{
    let all = removed_files(files);
    let i = choose|i: int| 0 <= i < all.len() && all[i] == entry;
    if files.len() > 0 {
        let front = files.drop_last();
        let before = removed_files(front);
        if i < before.len() {
            assert(before[i] == entry);
            lemma_removed_files(front, entry);
            let f = choose|f: int|
                0 <= f < front.len() && (#[trigger] front[f]).status == "deleted"@ && entry.path
                    == Some(front[f].path);
            assert(files[f] == front[f]);
        } else {
            assert(files[files.len() - 1] == files.last());
        }
    }
}

// ---------------------------------------------------------------------------
// Everything that is touched is reported

/// An entry tells of the symbol with an id.
pub open spec fn tells_of_symbol(entries: Seq<ChangedSymbolView>, id: Seq<char>) -> bool {
    exists|i: int|
        0 <= i < entries.len() && ((#[trigger] entries[i]).symbol matches Some(node) && node.id
            == id)
}

/// An entry tells of the symbol with an id, and that a hunk stands on it at a line.
pub open spec fn tells_of_line(
    entries: Seq<ChangedSymbolView>,
    id: Seq<char>,
    line: int,
) -> bool {
    exists|i: int|
        0 <= i < entries.len() && ((#[trigger] entries[i]).symbol matches Some(node) && node.id
            == id) && entries[i].hunks.contains(line)
}

/// Without an earlier graph, every symbol on whose lines a hunk of a changed file stands is
/// reported with the first line of the hunk.
pub proof fn hunks_touch_the_symbols_they_stand_on(input: ComparisonView, h: int, n: int)
    requires
        input.earlier is None,
        0 <= h < input.hunks.len(),
        0 <= n < input.graph.nodes.len(),
        is_about_changed(input.hunks[h], input.files),
        stands_on(input.hunks[h], input.graph.nodes[n]),
    ensures
        tells_of_line(
            report_of(input).symbols,
            input.graph.nodes[n].id,
            input.hunks[h].new_start,
        ),
{
    let hunk = input.hunks[h];
    let node = input.graph.nodes[n];
    let kept = retained(input.hunks, input.files);
    assert(input.hunks.contains(hunk));
    lemma_retained(input.hunks, input.files, hunk);
    let g = choose|g: int| 0 <= g < kept.len() && kept[g] == hunk;
    let own = nodes_in(input.graph.nodes, hunk.path);
    assert(input.graph.nodes.contains(node));
    lemma_nodes_in(input.graph.nodes, hunk.path, node);
    let m = choose|m: int| 0 <= m < own.len() && own[m] == node;
    every_hunk_is_accounted_for(input, g);
    assert(overlaps(own[m], hunk));
    let first = touched_symbols(input);
    let i = choose|i: int|
        0 <= i < first.len() && (#[trigger] first[i]).symbol is Some && first[i].symbol->0.id
            == node.id && first[i].hunks.contains(hunk.new_start);
    let all = found_symbols(input);
    assert(all[i] == first[i]);
    sorting_keeps_members(all, relation_of::<ChangedSymbol, BySymbol>(BySymbol));
    assert(all.contains(first[i]));
    let symbols = report_of(input).symbols;
    assert(symbols.contains(first[i]));
    let k = choose|k: int| 0 <= k < symbols.len() && symbols[k] == first[i];
    assert(symbols[k].symbol matches Some(found) && found.id == node.id);
}

proof fn lemma_ids_kept(
    entries: Seq<ChangedSymbolView>,
    node: NodeView,
    change: Seq<char>,
    line: Option<int>,
)
    ensures
        tells_of_symbol(touched(entries, node, change, line), node.id),
        forall|id: Seq<char>|
            tells_of_symbol(entries, id) ==> #[trigger] tells_of_symbol(
                touched(entries, node, change, line),
                id,
            ),
{
    let after = touched(entries, node, change, line);
    lemma_position_within(entries, node.id);
    let at = match position_of(entries, node.id) {
        Some(at) => at,
        None => entries.len() as int,
    };
    assert(after[at].symbol matches Some(own) && own.id == node.id);
    assert forall|id: Seq<char>| tells_of_symbol(entries, id) implies #[trigger] tells_of_symbol(
        after,
        id,
    ) by {
        let i = choose|i: int|
            0 <= i < entries.len() && ((#[trigger] entries[i]).symbol matches Some(own) && own.id
                == id);
        assert(after[i].symbol == entries[i].symbol);
    }
}

proof fn lemma_file_told(entries: Seq<ChangedSymbolView>, nodes: Seq<NodeView>, change: Seq<char>)
    ensures
        forall|k: int|
            0 <= k < nodes.len() ==> tells_of_symbol(
                touched_by_file(entries, nodes, change),
                (#[trigger] nodes[k]).id,
            ),
        forall|id: Seq<char>|
            tells_of_symbol(entries, id) ==> #[trigger] tells_of_symbol(
                touched_by_file(entries, nodes, change),
                id,
            ),
    decreases nodes.len(),
{
    if nodes.len() > 0 {
        let front = nodes.drop_last();
        let before = touched_by_file(entries, front, change);
        let after = touched_by_file(entries, nodes, change);
        lemma_file_told(entries, front, change);
        lemma_ids_kept(before, nodes.last(), change, None);
        assert forall|k: int| 0 <= k < nodes.len() implies tells_of_symbol(
            after,
            (#[trigger] nodes[k]).id,
        ) by {
            if k < front.len() {
                assert(front[k] == nodes[k]);
                assert(tells_of_symbol(before, front[k].id));
            }
        }
    }
}

proof fn lemma_files_told(
    entries: Seq<ChangedSymbolView>,
    files: Seq<ChangedFileView>,
    nodes: Seq<NodeView>,
    named: bool,
)
    ensures
        forall|f: int, n: int|
            0 <= f < files.len() && 0 <= n < nodes.len() && (#[trigger] files[f]).path == (
            #[trigger] nodes[n]).file_path && (named || files[f].status == "renamed"@)
                ==> tells_of_symbol(touched_by_files(entries, files, nodes, named), nodes[n].id),
        forall|id: Seq<char>|
            tells_of_symbol(entries, id) ==> #[trigger] tells_of_symbol(
                touched_by_files(entries, files, nodes, named),
                id,
            ),
    decreases files.len(),
{
    if files.len() > 0 {
        let front = files.drop_last();
        let file = files.last();
        let own = nodes_in(nodes, file.path);
        let before = touched_by_files(entries, front, nodes, named);
        let after = touched_by_files(entries, files, nodes, named);
        lemma_files_told(entries, front, nodes, named);
        lemma_file_told(before, own, change_in(Some(file.status)));
        lemma_file_told(before, own, "modified"@);
        assert forall|f: int, n: int|
            0 <= f < files.len() && 0 <= n < nodes.len() && (#[trigger] files[f]).path == (
            #[trigger] nodes[n]).file_path && (named || files[f].status
                == "renamed"@) implies tells_of_symbol(after, nodes[n].id) by {
            if f < front.len() {
                assert(front[f] == files[f]);
                assert(tells_of_symbol(before, nodes[n].id));
            } else {
                assert(nodes.contains(nodes[n]));
                lemma_nodes_in(nodes, file.path, nodes[n]);
                let m = choose|m: int| 0 <= m < own.len() && own[m] == nodes[n];
                assert(own[m].id == nodes[n].id);
            }
        }
    }
}

/// Without an earlier graph, all symbols of a file that was named or renamed are reported.
pub proof fn whole_files_are_reported(input: ComparisonView, f: int, n: int)
    requires
        input.earlier is None,
        0 <= f < input.files.len(),
        0 <= n < input.graph.nodes.len(),
        input.graph.nodes[n].file_path == input.files[f].path,
        input.named || input.files[f].status == "renamed"@,
    ensures
        tells_of_symbol(report_of(input).symbols, input.graph.nodes[n].id),
{
    let kept = retained(input.hunks, input.files);
    let by_hunks = touched_by_hunks(kept, input.files, input.graph.nodes);
    lemma_files_told(by_hunks, input.files, input.graph.nodes, input.named);
    let first = touched_symbols(input);
    let id = input.graph.nodes[n].id;
    assert(tells_of_symbol(first, id));
    let i = choose|i: int|
        0 <= i < first.len() && ((#[trigger] first[i]).symbol matches Some(own) && own.id == id);
    let all = found_symbols(input);
    assert(all[i] == first[i]);
    sorting_keeps_members(all, relation_of::<ChangedSymbol, BySymbol>(BySymbol));
    assert(all.contains(first[i]));
    let symbols = report_of(input).symbols;
    assert(symbols.contains(first[i]));
    let k = choose|k: int| 0 <= k < symbols.len() && symbols[k] == first[i];
    assert(symbols[k].symbol matches Some(found) && found.id == id);
}

proof fn lemma_untouching_from(
    hunks: Seq<HunkView>,
    nodes: Seq<NodeView>,
    place: UnmappedHunkView,
)
    requires
        untouching(hunks, nodes).contains(place),
    ensures
        exists|h: int|
            0 <= h < hunks.len() && (#[trigger] hunks[h]).new_count > 0 && hunks[h].path
                == place.path && hunks[h].new_start == place.line && !any_overlaps(
                nodes_in(nodes, hunks[h].path),
                hunks[h],
            ),
    decreases hunks.len(),
{
    let all = untouching(hunks, nodes);
    let i = choose|i: int| 0 <= i < all.len() && all[i] == place;
    if hunks.len() > 0 {
        let front = hunks.drop_last();
        let before = untouching(front, nodes);
        if i < before.len() {
            assert(before[i] == place);
            lemma_untouching_from(front, nodes, place);
            let h = choose|h: int|
                0 <= h < front.len() && (#[trigger] front[h]).new_count > 0 && front[h].path
                    == place.path && front[h].new_start == place.line && !any_overlaps(
                    nodes_in(nodes, front[h].path),
                    front[h],
                );
            assert(hunks[h] == front[h]);
        } else {
            assert(hunks[hunks.len() - 1] == hunks.last());
        }
    }
}

/// The hunks that are reported as unmapped are those of changed files, with new lines, that
/// stand on no symbol.
pub proof fn unmapped_hunks_stand_on_nothing(input: ComparisonView, place: UnmappedHunkView)
    ensures
        report_of(input).unmapped.contains(place) <==> exists|h: int|
            0 <= h < input.hunks.len() && (#[trigger] input.hunks[h]).new_count > 0
                && input.hunks[h].path == place.path && input.hunks[h].new_start == place.line
                && is_about_changed(input.hunks[h], input.files) && forall|n: int|
                0 <= n < input.graph.nodes.len() ==> !stands_on(
                    input.hunks[h],
                    #[trigger] input.graph.nodes[n],
                ),
{
    let kept = retained(input.hunks, input.files);
    let nodes = input.graph.nodes;
    let places = untouching(kept, nodes);
    let precedes = relation_of::<UnmappedHunk, ByPlace>(ByPlace);
    let alike = sameness_of::<UnmappedHunk, ByPlace>(ByPlace);
    let sorted = sorted_by(places, precedes);
    sorting_keeps_members(places, precedes);
    kept_items_are_items(sorted, alike);
    if report_of(input).unmapped.contains(place) {
        let unmapped = report_of(input).unmapped;
        let u = choose|u: int| 0 <= u < unmapped.len() && unmapped[u] == place;
        assert(sorted.contains(unmapped[u]));
        assert(places.contains(place));
        lemma_untouching_from(kept, nodes, place);
        let g = choose|g: int|
            0 <= g < kept.len() && (#[trigger] kept[g]).new_count > 0 && kept[g].path
                == place.path && kept[g].new_start == place.line && !any_overlaps(
                nodes_in(nodes, kept[g].path),
                kept[g],
            );
        assert(kept.contains(kept[g]));
        lemma_retained(input.hunks, input.files, kept[g]);
        let h = choose|h: int| 0 <= h < input.hunks.len() && input.hunks[h] == kept[g];
        assert forall|n: int| 0 <= n < nodes.len() implies !stands_on(
            input.hunks[h],
            #[trigger] nodes[n],
        ) by {
            if stands_on(input.hunks[h], nodes[n]) {
                assert(nodes.contains(nodes[n]));
                lemma_nodes_in(nodes, kept[g].path, nodes[n]);
                let own = nodes_in(nodes, kept[g].path);
                let m = choose|m: int| 0 <= m < own.len() && own[m] == nodes[n];
                assert(overlaps(own[m], kept[g]));
            }
        }
        assert(input.hunks[h].new_count > 0);
    }
    if exists|h: int|
        0 <= h < input.hunks.len() && (#[trigger] input.hunks[h]).new_count > 0
            && input.hunks[h].path == place.path && input.hunks[h].new_start == place.line
            && is_about_changed(input.hunks[h], input.files) && forall|n: int|
            0 <= n < input.graph.nodes.len() ==> !stands_on(
                input.hunks[h],
                #[trigger] input.graph.nodes[n],
            ) {
        let h = choose|h: int|
            0 <= h < input.hunks.len() && (#[trigger] input.hunks[h]).new_count > 0
                && input.hunks[h].path == place.path && input.hunks[h].new_start == place.line
                && is_about_changed(input.hunks[h], input.files) && forall|n: int|
                0 <= n < input.graph.nodes.len() ==> !stands_on(
                    input.hunks[h],
                    #[trigger] input.graph.nodes[n],
                );
        let hunk = input.hunks[h];
        assert(input.hunks.contains(hunk));
        lemma_retained(input.hunks, input.files, hunk);
        let g = choose|g: int| 0 <= g < kept.len() && kept[g] == hunk;
        let own = nodes_in(nodes, hunk.path);
        assert(!any_overlaps(own, hunk)) by {
            if any_overlaps(own, hunk) {
                let m = choose|m: int| 0 <= m < own.len() && overlaps(#[trigger] own[m], hunk);
                assert(own.contains(own[m]));
                lemma_nodes_in(nodes, hunk.path, own[m]);
                let n = choose|n: int| 0 <= n < nodes.len() && nodes[n] == own[m];
                assert(stands_on(hunk, nodes[n]));
            }
        }
        every_hunk_is_accounted_for(input, g);
        assert(place =~= (UnmappedHunkView { path: hunk.path, line: hunk.new_start }));
    }
}

/// A report asks for history just where there is no earlier graph and something is gone: a
/// hunk of a changed file leaves no new line, or a file that was named is deleted.
pub proof fn history_is_asked_for_where_something_is_gone(input: ComparisonView)
    ensures
        report_of(input).needs_history <==> input.earlier is None && ((exists|h: int|
            0 <= h < input.hunks.len() && (#[trigger] input.hunks[h]).new_count == 0
                && is_about_changed(input.hunks[h], input.files)) || (input.named && exists|
            f: int,
        |
            0 <= f < input.files.len() && (#[trigger] input.files[f]).status == "deleted"@)),
{
    let kept = retained(input.hunks, input.files);
    if exists|h: int|
        0 <= h < input.hunks.len() && (#[trigger] input.hunks[h]).new_count == 0
            && is_about_changed(input.hunks[h], input.files) {
        let h = choose|h: int|
            0 <= h < input.hunks.len() && (#[trigger] input.hunks[h]).new_count == 0
                && is_about_changed(input.hunks[h], input.files);
        assert(input.hunks.contains(input.hunks[h]));
        lemma_retained(input.hunks, input.files, input.hunks[h]);
        let g = choose|g: int| 0 <= g < kept.len() && kept[g] == input.hunks[h];
        assert(kept[g].new_count == 0);
    }
    if crate::commands::diff::removes_lines(kept) {
        let g = choose|g: int| 0 <= g < kept.len() && (#[trigger] kept[g]).new_count == 0;
        assert(kept.contains(kept[g]));
        lemma_retained(input.hunks, input.files, kept[g]);
        let h = choose|h: int| 0 <= h < input.hunks.len() && input.hunks[h] == kept[g];
        assert(input.hunks[h].new_count == 0);
    }
}

/// A report that is cut keeps its first symbols and edges, up to the limit, and its first
/// unmapped hunks, up to five hundred; the rest of it stays.
pub proof fn cut_reports_keep_what_comes_first(report: ReportView, limit: int, i: int)
    requires
        0 <= limit,
        0 <= i,
    ensures
        i < limited(report, limit).symbols.len() <==> i < report.symbols.len() && i < limit,
        i < limited(report, limit).symbols.len() ==> limited(report, limit).symbols[i]
            == report.symbols[i],
        i < limited(report, limit).edges.len() <==> i < report.edges.len() && i < limit,
        i < limited(report, limit).edges.len() ==> limited(report, limit).edges[i]
            == report.edges[i],
        i < limited(report, limit).unmapped.len() <==> i < report.unmapped.len() && i < 500,
        i < limited(report, limit).unmapped.len() ==> limited(report, limit).unmapped[i]
            == report.unmapped[i],
        limited(report, limit).unresolved == report.unresolved,
        limited(report, limit).needs_history == report.needs_history,
{
}

// ---------------------------------------------------------------------------
// What is gone, and what stays unresolved, where no earlier graph is known

proof fn lemma_each_removed_hunk(hunks: Seq<HunkView>, h: int)
    requires
        0 <= h < hunks.len(),
        hunks[h].new_count == 0,
    ensures
        removed_hunks(hunks).contains(
            ChangedSymbolView {
                symbol: None,
                change: "removed"@,
                hunks: seq![hunks[h].old_start],
                path: None,
            },
        ),
    decreases hunks.len(),
{
    let front = hunks.drop_last();
    let entry = ChangedSymbolView {
        symbol: None,
        change: "removed"@,
        hunks: seq![hunks[h].old_start],
        path: None,
    };
    if h < front.len() {
        assert(front[h] == hunks[h]);
        lemma_each_removed_hunk(front, h);
        if hunks.last().new_count == 0 {
            let last = removed_hunks(hunks).last();
            crate::ordered::lemma_push_members(removed_hunks(front), last, entry);
        }
    } else {
        assert(removed_hunks(hunks).last() == entry);
        assert(removed_hunks(hunks)[removed_hunks(hunks).len() - 1] == entry);
    }
}

proof fn lemma_each_removed_file(files: Seq<ChangedFileView>, f: int)
    requires
        0 <= f < files.len(),
        files[f].status == "deleted"@,
    ensures
        removed_files(files).contains(
            ChangedSymbolView {
                symbol: None,
                change: "removed"@,
                hunks: seq![],
                path: Some(files[f].path),
            },
        ),
    decreases files.len(),
{
    let front = files.drop_last();
    let entry = ChangedSymbolView {
        symbol: None,
        change: "removed"@,
        hunks: seq![],
        path: Some(files[f].path),
    };
    if f < front.len() {
        assert(front[f] == files[f]);
        lemma_each_removed_file(front, f);
        if files.last().status == "deleted"@ {
            let last = removed_files(files).last();
            crate::ordered::lemma_push_members(removed_files(front), last, entry);
        }
    } else {
        assert(removed_files(files).last() == entry);
        assert(removed_files(files)[removed_files(files).len() - 1] == entry);
    }
}

/// Without an earlier graph every hunk that only removes lines is reported as a removal at
/// the line where it stood.
pub proof fn removed_lines_are_reported(input: ComparisonView, h: int)
    requires
        input.earlier is None,
        0 <= h < input.hunks.len(),
        input.hunks[h].new_count == 0,
        is_about_changed(input.hunks[h], input.files),
    ensures
        report_of(input).symbols.contains(
            ChangedSymbolView {
                symbol: None,
                change: "removed"@,
                hunks: seq![input.hunks[h].old_start],
                path: None,
            },
        ),
{
    let entry = ChangedSymbolView {
        symbol: None,
        change: "removed"@,
        hunks: seq![input.hunks[h].old_start],
        path: None,
    };
    let kept = retained(input.hunks, input.files);
    history_is_asked_for_where_something_is_gone(input);
    assert(input.hunks.contains(input.hunks[h]));
    lemma_retained(input.hunks, input.files, input.hunks[h]);
    let g = choose|g: int| 0 <= g < kept.len() && kept[g] == input.hunks[h];
    lemma_each_removed_hunk(kept, g);
    let removed = removed_hunks(kept);
    let found = found_symbols(input);
    let i = choose|i: int| 0 <= i < removed.len() && removed[i] == entry;
    assert(found[touched_symbols(input).len() + i] == entry);
    sorting_keeps_members(found, relation_of::<ChangedSymbol, BySymbol>(BySymbol));
    assert(found.contains(entry));
}

/// Without an earlier graph every deleted file that was named is reported as a removal.
pub proof fn deleted_files_are_reported(input: ComparisonView, f: int)
    requires
        input.earlier is None,
        input.named,
        0 <= f < input.files.len(),
        input.files[f].status == "deleted"@,
    ensures
        report_of(input).symbols.contains(
            ChangedSymbolView {
                symbol: None,
                change: "removed"@,
                hunks: seq![],
                path: Some(input.files[f].path),
            },
        ),
{
    let entry = ChangedSymbolView {
        symbol: None,
        change: "removed"@,
        hunks: seq![],
        path: Some(input.files[f].path),
    };
    history_is_asked_for_where_something_is_gone(input);
    lemma_each_removed_file(input.files, f);
    let removed = removed_files(input.files);
    let kept = removed_hunks(retained(input.hunks, input.files));
    let found = found_symbols(input);
    let i = choose|i: int| 0 <= i < removed.len() && removed[i] == entry;
    assert(found[touched_symbols(input).len() + kept.len() + i] == entry);
    sorting_keeps_members(found, relation_of::<ChangedSymbol, BySymbol>(BySymbol));
    assert(found.contains(entry));
}

/// A new line of some hunk of a changed file is the line.
pub open spec fn is_new_line(
    hunks: Seq<HunkView>,
    files: Seq<ChangedFileView>,
    path: Seq<char>,
    line: int,
) -> bool {
    exists|h: int|
        0 <= h < hunks.len() && is_about_changed(#[trigger] hunks[h], files) && hunks[h].path
            == path && hunks[h].new_start <= line && line <= hunks[h].new_start
            + hunks[h].new_count - 1
}

proof fn lemma_new_line(
    hunks: Seq<HunkView>,
    files: Seq<ChangedFileView>,
    path: Seq<char>,
    line: int,
)
    ensures
        on_new_line(retained(hunks, files), path, line) <==> is_new_line(hunks, files, path, line),
{
    let kept = retained(hunks, files);
    if on_new_line(kept, path, line) {
        let g = choose|g: int|
            0 <= g < kept.len() && (#[trigger] kept[g]).path == path && kept[g].new_start <= line
                <= crate::commands::diff::hunk_end(kept[g]);
        assert(kept.contains(kept[g]));
        lemma_retained(hunks, files, kept[g]);
        let h = choose|h: int| 0 <= h < hunks.len() && hunks[h] == kept[g];
        assert(is_about_changed(hunks[h], files));
    }
    if is_new_line(hunks, files, path, line) {
        let h = choose|h: int|
            0 <= h < hunks.len() && is_about_changed(#[trigger] hunks[h], files) && hunks[h].path
                == path && hunks[h].new_start <= line && line <= hunks[h].new_start
                + hunks[h].new_count - 1;
        assert(hunks.contains(hunks[h]));
        lemma_retained(hunks, files, hunks[h]);
        let g = choose|g: int| 0 <= g < kept.len() && kept[g] == hunks[h];
        assert(kept[g].path == path);
    }
}

proof fn lemma_known(changes: Seq<ChangedSymbolView>, id: Seq<char>)
    ensures
        position_of(changes, id) is Some <==> tells_of_symbol(changes, id),
    decreases changes.len(),
{
    if changes.len() > 0 {
        let front = changes.drop_last();
        lemma_known(front, id);
        if tells_of_symbol(front, id) {
            let i = choose|i: int|
                0 <= i < front.len() && ((#[trigger] front[i]).symbol matches Some(node)
                    && node.id == id);
            assert(changes[i].symbol == front[i].symbol);
        }
        if tells_of_symbol(changes, id) {
            let i = choose|i: int|
                0 <= i < changes.len() && ((#[trigger] changes[i]).symbol matches Some(node)
                    && node.id == id);
            if i < front.len() {
                assert(front[i].symbol == changes[i].symbol);
            }
        }
        if changes.last().symbol is Some && changes.last().symbol->0.id == id {
            assert(changes[changes.len() - 1].symbol == changes.last().symbol);
        }
    }
}

/// The reference is one of a changed symbol on a new line.
pub open spec fn is_freshly_open(input: ComparisonView, reference: StoredReferenceView) -> bool {
    tells_of_symbol(touched_symbols(input), reference.source) && is_new_line(
        input.hunks,
        input.files,
        reference.path,
        reference.line,
    )
}

proof fn lemma_callers(
    input: ComparisonView,
    references: Seq<StoredReferenceView>,
    caller: UnresolvedCallerView,
)
    ensures
        callers_on_new_lines(
            references,
            touched_symbols(input),
            retained(input.hunks, input.files),
        ).contains(caller) <==> exists|r: int|
            0 <= r < references.len() && is_freshly_open(input, #[trigger] references[r])
                && reported(references[r]) == caller,
    decreases references.len(),
{
    let changes = touched_symbols(input);
    let kept = retained(input.hunks, input.files);
    if references.len() > 0 {
        let front = references.drop_last();
        let last = references[references.len() - 1];
        lemma_callers(input, front, caller);
        lemma_known(changes, last.source);
        lemma_new_line(input.hunks, input.files, last.path, last.line);
        crate::ordered::lemma_push_members(
            callers_on_new_lines(front, changes, kept),
            reported(last),
            caller,
        );
        if exists|r: int|
            0 <= r < front.len() && is_freshly_open(input, #[trigger] front[r]) && reported(
                front[r],
            ) == caller {
            let r = choose|r: int|
                0 <= r < front.len() && is_freshly_open(input, #[trigger] front[r]) && reported(
                    front[r],
                ) == caller;
            assert(is_freshly_open(input, references[r]));
        }
        if exists|r: int|
            0 <= r < references.len() && is_freshly_open(input, #[trigger] references[r])
                && reported(references[r]) == caller {
            let r = choose|r: int|
                0 <= r < references.len() && is_freshly_open(input, #[trigger] references[r])
                    && reported(references[r]) == caller;
            if r < front.len() {
                assert(is_freshly_open(input, front[r]));
            }
        }
    }
}

/// Without an earlier graph the unresolved calls are those that changed symbols make on new
/// lines of changed files, and no others.
pub proof fn unresolved_calls_on_new_lines_are_reported(
    input: ComparisonView,
    caller: UnresolvedCallerView,
)
    requires
        input.earlier is None,
    ensures
        report_of(input).unresolved.contains(caller) <==> exists|r: int|
            0 <= r < input.references.len() && is_freshly_open(
                input,
                #[trigger] input.references[r],
            ) && caller.source == input.references[r].source && caller.specifier
                == input.references[r].specifier && caller.reason == reason_of(
                input.references[r].kind,
                input.references[r].candidates,
            ),
{
    lemma_callers(input, input.references, caller);
    if exists|r: int|
        0 <= r < input.references.len() && is_freshly_open(input, #[trigger] input.references[r])
            && caller.source == input.references[r].source && caller.specifier
            == input.references[r].specifier && caller.reason == reason_of(
            input.references[r].kind,
            input.references[r].candidates,
        ) {
        let r = choose|r: int|
            0 <= r < input.references.len() && is_freshly_open(
                input,
                #[trigger] input.references[r],
            ) && caller.source == input.references[r].source && caller.specifier
                == input.references[r].specifier && caller.reason == reason_of(
                input.references[r].kind,
                input.references[r].candidates,
            );
        assert(reported(input.references[r]) =~= caller);
    }
}

// ---------------------------------------------------------------------------
// Symbols, where an earlier graph is known

/// No symbol has the id.
pub open spec fn is_unknown(nodes: Seq<NodeView>, id: Seq<char>) -> bool {
    forall|i: int| 0 <= i < nodes.len() ==> (#[trigger] nodes[i]).id != id
}

/// Some symbol with the id of this one is not what it is.
pub open spec fn is_other_in(nodes: Seq<NodeView>, node: NodeView) -> bool {
    exists|i: int| 0 <= i < nodes.len() && (#[trigger] nodes[i]).id == node.id && nodes[i] != node
}

/// The entry tells what became of a symbol: it is new, it is not what it was, or it is
/// gone.
pub open spec fn tells_difference(
    entry: ChangedSymbolView,
    nodes: Seq<NodeView>,
    earlier: Seq<NodeView>,
) -> bool {
    match entry.symbol {
        Some(node) => entry.hunks.len() == 0 && entry.path is None && {
            ||| entry.change == "added"@ && nodes.contains(node) && is_unknown(earlier, node.id)
            ||| entry.change == "modified"@ && nodes.contains(node) && is_other_in(earlier, node)
            ||| entry.change == "removed"@ && earlier.contains(node) && is_unknown(nodes, node.id)
        },
        None => false,
    }
}

proof fn lemma_compared(
    changes: Seq<ChangedSymbolView>,
    nodes: Seq<NodeView>,
    all: Seq<NodeView>,
    earlier: Seq<NodeView>,
)
    requires
        forall|i: int| 0 <= i < nodes.len() ==> all.contains(#[trigger] nodes[i]),
    ensures
        forall|i: int|
            0 <= i < compared(changes, nodes, earlier).len() ==> changes.contains(
                #[trigger] compared(changes, nodes, earlier)[i],
            ) || tells_difference(compared(changes, nodes, earlier)[i], all, earlier),
    decreases nodes.len(),
{
    let after = compared(changes, nodes, earlier);
    if nodes.len() > 0 {
        let front = nodes.drop_last();
        let node = nodes.last();
        assert forall|i: int| 0 <= i < front.len() implies all.contains(#[trigger] front[i]) by {
            assert(front[i] == nodes[i]);
        }
        assert(all.contains(nodes[nodes.len() - 1]));
        lemma_compared(changes, front, all, earlier);
        lemma_the_one(earlier, node.id);
        let before = compared(changes, front, earlier);
        lemma_position_within(before, node.id);
        if let Some(old_node) = node_with_id(earlier, node.id) {
            let k = choose|k: int| 0 <= k < earlier.len() && earlier[k] == old_node;
            assert(earlier[k].id == node.id);
        }
        assert forall|i: int| 0 <= i < after.len() implies changes.contains(#[trigger] after[i])
            || tells_difference(after[i], all, earlier) by {
            if i < before.len() && after[i] == before[i] {
            } else {
                assert(after[i].symbol == Some(node));
            }
        }
    } else {
        assert forall|i: int| 0 <= i < after.len() implies changes.contains(#[trigger] after[i])
            || tells_difference(after[i], all, earlier) by {
            assert(after[i] == changes[i]);
        }
    }
}

proof fn lemma_removals(earlier: Seq<NodeView>, all: Seq<NodeView>, nodes: Seq<NodeView>)
    requires
        forall|i: int| 0 <= i < earlier.len() ==> all.contains(#[trigger] earlier[i]),
    ensures
        forall|i: int|
            0 <= i < removals(earlier, nodes).len() ==> tells_difference(
                #[trigger] removals(earlier, nodes)[i],
                nodes,
                all,
            ),
    decreases earlier.len(),
{
    if earlier.len() > 0 {
        let front = earlier.drop_last();
        assert forall|i: int| 0 <= i < front.len() implies all.contains(#[trigger] front[i]) by {
            assert(front[i] == earlier[i]);
        }
        assert(all.contains(earlier[earlier.len() - 1]));
        lemma_removals(front, all, nodes);
        lemma_the_one(nodes, earlier.last().id);
        let before = removals(front, nodes);
        let after = removals(earlier, nodes);
        assert forall|i: int| 0 <= i < after.len() implies tells_difference(
            #[trigger] after[i],
            nodes,
            all,
        ) by {
            if i < before.len() {
                assert(after[i] == before[i]);
            } else {
                assert(after[i].symbol == Some(earlier.last()));
            }
        }
    }
}

/// Where an earlier graph is known, a symbol is reported as new, as changed or as gone only
/// where it is, and any other entry is of a symbol that hunks or files touch.
pub proof fn only_symbol_differences_are_reported(input: ComparisonView, i: int)
    requires
        input.earlier is Some,
        0 <= i < report_of(input).symbols.len(),
    ensures
        ({
            let entry = report_of(input).symbols[i];
            ||| tells_difference(entry, input.graph.nodes, input.earlier->0.nodes)
            ||| touched_symbols(input).contains(entry)
        }),
{
    let nodes = input.graph.nodes;
    let earlier = input.earlier->0.nodes;
    let changes = touched_symbols(input);
    let found = found_symbols(input);
    let entry = report_of(input).symbols[i];
    lemma_compared(changes, nodes, nodes, earlier);
    lemma_removals(earlier, earlier, nodes);
    sorting_keeps_members(found, relation_of::<ChangedSymbol, BySymbol>(BySymbol));
    assert(report_of(input).symbols.contains(entry));
    assert(found.contains(entry));
    let k = choose|k: int| 0 <= k < found.len() && found[k] == entry;
    let first = compared(changes, nodes, earlier);
    if k < first.len() {
        assert(first[k] == entry);
    } else {
        assert(removals(earlier, nodes)[k - first.len()] == entry);
    }
}

} // verus!

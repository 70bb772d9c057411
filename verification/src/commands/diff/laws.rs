//! What holds of every comparison.

use vstd::prelude::*;
use crate::commands::changes::{ChangedFileView, HunkView};
use crate::commands::diff::{
    any_overlaps, change_in, compared, found_symbols, lemma_position_within, needs_history,
    new_callers, new_edges, nodes_in, old_edges, overlaps, position_of, removals, report_of,
    retained, settled, status_of, touched, touched_by_file, touched_by_files, touched_by_hunk,
    touched_by_hunks, touched_symbols, untouching, with_line, BySymbol, ByEnds, ByPlace,
    ChangedEdge, ChangedEdgeView, ChangedSymbol, ChangedSymbolView, ComparisonView, UnmappedHunk,
    UnmappedHunkView,
};
use crate::commands::snapshot::{
    edge_with_key, graph_in_order, ids_ascend, keys_ascend, node_with_id, EdgeSnapshotView,
    UnresolvedCallerView,
};
use crate::db::NodeView;
use crate::ordered::{
    distinct_items_ascend, lemma_inserted_members, relation_of, relations_are_orders, sameness_of,
    sorted_by, sorting_keeps_members, sorting_orders_and_keeps, tells_apart,
};
use crate::parser::edge_order::{key_lt, lemma_key_lt_irreflexive};
use crate::text::{lemma_text_lt_irreflexive, lemma_text_lt_total, text_lt};

verus! {

// ---------------------------------------------------------------------------
// Hunks

/// A change of the symbol with an id has the line among its hunks.
pub open spec fn has_touch(changes: Seq<ChangedSymbolView>, id: Seq<char>, line: int) -> bool {
    exists|i: int|
        0 <= i < changes.len() && (#[trigger] changes[i]).symbol is Some && changes[i].symbol->0.id
            == id && changes[i].hunks.contains(line)
}

proof fn lemma_with_line(lines: Seq<int>, line: int)
    ensures
        with_line(lines, line).contains(line),
        forall|l: int| lines.contains(l) ==> #[trigger] with_line(lines, line).contains(l),
{
    lemma_inserted_members(lines, line, |left: int, right: int| left < right);
}

proof fn lemma_touched(
    changes: Seq<ChangedSymbolView>,
    node: NodeView,
    change: Seq<char>,
    line: Option<int>,
)
    ensures
        line is Some ==> has_touch(touched(changes, node, change, line), node.id, line->0),
        forall|id: Seq<char>, l: int|
            has_touch(changes, id, l) ==> #[trigger] has_touch(
                touched(changes, node, change, line),
                id,
                l,
            ),
{
    let after = touched(changes, node, change, line);
    lemma_position_within(changes, node.id);
    match position_of(changes, node.id) {
        Some(at) => {
            if let Some(line) = line {
                lemma_with_line(changes[at].hunks, line);
                assert(after[at].hunks.contains(line));
            }
            assert forall|id: Seq<char>, l: int| has_touch(changes, id, l) implies #[trigger]
                has_touch(after, id, l) by {
                let i = choose|i: int|
                    0 <= i < changes.len() && (#[trigger] changes[i]).symbol is Some
                        && changes[i].symbol->0.id == id && changes[i].hunks.contains(l);
                if i == at && line is Some {
                    lemma_with_line(changes[at].hunks, line->0);
                }
                assert(after[i].symbol == changes[i].symbol);
                assert(after[i].hunks.contains(l));
            }
        },
        None => {
            let last = changes.len() as int;
            if let Some(line) = line {
                assert(after[last].hunks =~= seq![line]);
                assert(after[last].hunks[0] == line);
                assert(after[last].hunks.contains(line));
            }
            assert forall|id: Seq<char>, l: int| has_touch(changes, id, l) implies #[trigger]
                has_touch(after, id, l) by {
                let i = choose|i: int|
                    0 <= i < changes.len() && (#[trigger] changes[i]).symbol is Some
                        && changes[i].symbol->0.id == id && changes[i].hunks.contains(l);
                assert(after[i] == changes[i]);
            }
        },
    }
}

proof fn lemma_touched_by_hunk(
    changes: Seq<ChangedSymbolView>,
    nodes: Seq<NodeView>,
    hunk: HunkView,
    change: Seq<char>,
)
    ensures
        forall|i: int|
            0 <= i < nodes.len() && overlaps(#[trigger] nodes[i], hunk) ==> has_touch(
                touched_by_hunk(changes, nodes, hunk, change),
                nodes[i].id,
                hunk.new_start,
            ),
        forall|id: Seq<char>, l: int|
            has_touch(changes, id, l) ==> #[trigger] has_touch(
                touched_by_hunk(changes, nodes, hunk, change),
                id,
                l,
            ),
    decreases nodes.len(),
{
    if nodes.len() > 0 {
        let front = nodes.drop_last();
        let before = touched_by_hunk(changes, front, hunk, change);
        let after = touched_by_hunk(changes, nodes, hunk, change);
        lemma_touched_by_hunk(changes, front, hunk, change);
        lemma_touched(before, nodes.last(), change, Some(hunk.new_start));
        assert forall|i: int| 0 <= i < nodes.len() && overlaps(
            #[trigger] nodes[i],
            hunk,
        ) implies has_touch(after, nodes[i].id, hunk.new_start) by {
            if i < front.len() {
                assert(front[i] == nodes[i]);
                assert(has_touch(before, front[i].id, hunk.new_start));
            }
        }
    }
}

proof fn lemma_touched_by_hunks(
    hunks: Seq<HunkView>,
    files: Seq<ChangedFileView>,
    nodes: Seq<NodeView>,
)
    ensures
        forall|h: int, i: int|
            0 <= h < hunks.len() && (#[trigger] hunks[h]).new_count > 0 && 0 <= i < nodes_in(
                nodes,
                hunks[h].path,
            ).len() && overlaps(#[trigger] nodes_in(nodes, hunks[h].path)[i], hunks[h])
                ==> has_touch(
                touched_by_hunks(hunks, files, nodes),
                nodes_in(nodes, hunks[h].path)[i].id,
                hunks[h].new_start,
            ),
    decreases hunks.len(),
{
    if hunks.len() > 0 {
        let front = hunks.drop_last();
        let last = hunks.last();
        let before = touched_by_hunks(front, files, nodes);
        let after = touched_by_hunks(hunks, files, nodes);
        lemma_touched_by_hunks(front, files, nodes);
        lemma_touched_by_hunk(
            before,
            nodes_in(nodes, last.path),
            last,
            change_in(status_of(files, last.path)),
        );
        assert forall|h: int, i: int|
            0 <= h < hunks.len() && (#[trigger] hunks[h]).new_count > 0 && 0 <= i < nodes_in(
                nodes,
                hunks[h].path,
            ).len() && overlaps(
                #[trigger] nodes_in(nodes, hunks[h].path)[i],
                hunks[h],
            ) implies has_touch(
            after,
            nodes_in(nodes, hunks[h].path)[i].id,
            hunks[h].new_start,
        ) by {
            if h < front.len() {
                assert(front[h] == hunks[h]);
                assert(has_touch(
                    before,
                    nodes_in(nodes, front[h].path)[i].id,
                    front[h].new_start,
                ));
            }
        }
    }
}

proof fn lemma_touched_by_file(
    changes: Seq<ChangedSymbolView>,
    nodes: Seq<NodeView>,
    change: Seq<char>,
)
    ensures
        forall|id: Seq<char>, l: int|
            has_touch(changes, id, l) ==> #[trigger] has_touch(
                touched_by_file(changes, nodes, change),
                id,
                l,
            ),
    decreases nodes.len(),
{
    if nodes.len() > 0 {
        lemma_touched_by_file(changes, nodes.drop_last(), change);
        lemma_touched(
            touched_by_file(changes, nodes.drop_last(), change),
            nodes.last(),
            change,
            None,
        );
    }
}

proof fn lemma_touched_by_files(
    changes: Seq<ChangedSymbolView>,
    files: Seq<ChangedFileView>,
    nodes: Seq<NodeView>,
    named: bool,
)
    ensures
        forall|id: Seq<char>, l: int|
            has_touch(changes, id, l) ==> #[trigger] has_touch(
                touched_by_files(changes, files, nodes, named),
                id,
                l,
            ),
    decreases files.len(),
{
    if files.len() > 0 {
        let before = touched_by_files(changes, files.drop_last(), nodes, named);
        let file = files.last();
        lemma_touched_by_files(changes, files.drop_last(), nodes, named);
        lemma_touched_by_file(before, nodes_in(nodes, file.path), change_in(Some(file.status)));
        lemma_touched_by_file(before, nodes_in(nodes, file.path), "modified"@);
    }
}

proof fn lemma_untouching(hunks: Seq<HunkView>, nodes: Seq<NodeView>, h: int)
    requires
        0 <= h < hunks.len(),
        hunks[h].new_count > 0,
        !any_overlaps(nodes_in(nodes, hunks[h].path), hunks[h]),
    ensures
        untouching(hunks, nodes).contains(
            (UnmappedHunkView { path: hunks[h].path, line: hunks[h].new_start }),
        ),
    decreases hunks.len(),
{
    let front = hunks.drop_last();
    let before = untouching(front, nodes);
    let all = untouching(hunks, nodes);
    let place = UnmappedHunkView { path: hunks[h].path, line: hunks[h].new_start };
    if h == hunks.len() - 1 {
        assert(all[before.len() as int] == place);
    } else {
        assert(front[h] == hunks[h]);
        lemma_untouching(front, nodes, h);
        let i = choose|i: int| 0 <= i < before.len() && before[i] == place;
        assert(all[i] == place);
    }
}

proof fn lemma_unmapped(places: Seq<UnmappedHunkView>, place: UnmappedHunkView)
    requires
        places.contains(place),
    ensures
        crate::ordered::without_repeats(
            sorted_by(places, relation_of::<UnmappedHunk, ByPlace>(ByPlace)),
            sameness_of::<UnmappedHunk, ByPlace>(ByPlace),
        ).contains(place),
{
    let precedes = relation_of::<UnmappedHunk, ByPlace>(ByPlace);
    let alike = sameness_of::<UnmappedHunk, ByPlace>(ByPlace);
    let sorted = sorted_by(places, precedes);
    let kept = crate::ordered::without_repeats(sorted, alike);
    relations_are_orders::<UnmappedHunk, ByPlace>(ByPlace);
    assert(tells_apart(precedes, alike)) by {
        reveal(tells_apart);
        assert forall|a: UnmappedHunkView, b: UnmappedHunkView| #[trigger] alike(a, b) == (
        !precedes(a, b) && !precedes(b, a)) by {
            lemma_text_lt_total(a.path, b.path);
            lemma_text_lt_irreflexive(a.path);
            if !precedes(a, b) && !precedes(b, a) {
                assert(a =~= b);
            }
        }
    }
    sorting_orders_and_keeps(places, precedes);
    sorting_keeps_members(places, precedes);
    distinct_items_ascend(sorted, precedes, alike);
    assert(sorted.contains(place));
    let k = choose|k: int| 0 <= k < sorted.len() && sorted[k] == place;
    let i = choose|i: int| 0 <= i < kept.len() && alike(#[trigger] sorted[k], #[trigger] kept[i]);
    assert(kept[i] == place);
}

/// Every hunk with new lines in a changed file is accounted for: each symbol on its lines
/// is touched at its first line, and where there is none, the hunk is reported as
/// unmapped.
pub proof fn every_hunk_is_accounted_for(input: ComparisonView, h: int)
    requires
        0 <= h < retained(input.hunks, input.files).len(),
        retained(input.hunks, input.files)[h].new_count > 0,
    ensures
        ({
            let hunk = retained(input.hunks, input.files)[h];
            let nodes = nodes_in(input.graph.nodes, hunk.path);
            &&& forall|i: int|
                0 <= i < nodes.len() && overlaps(#[trigger] nodes[i], hunk) ==> has_touch(
                    touched_symbols(input),
                    nodes[i].id,
                    hunk.new_start,
                )
            &&& !any_overlaps(nodes, hunk) ==> report_of(input).unmapped.contains(
                (UnmappedHunkView { path: hunk.path, line: hunk.new_start }),
            )
        }),
{
    let hunks = retained(input.hunks, input.files);
    let hunk = hunks[h];
    let nodes = nodes_in(input.graph.nodes, hunk.path);
    let by_hunks = touched_by_hunks(hunks, input.files, input.graph.nodes);
    lemma_touched_by_hunks(hunks, input.files, input.graph.nodes);
    lemma_touched_by_files(by_hunks, input.files, input.graph.nodes, input.named);
    assert forall|i: int| 0 <= i < nodes.len() && overlaps(
        #[trigger] nodes[i],
        hunk,
    ) implies has_touch(touched_symbols(input), nodes[i].id, hunk.new_start) by {
        assert(overlaps(nodes_in(input.graph.nodes, hunks[h].path)[i], hunks[h]));
        assert(has_touch(by_hunks, nodes[i].id, hunk.new_start));
    }
    if !any_overlaps(nodes, hunk) {
        lemma_untouching(hunks, input.graph.nodes, h);
        lemma_unmapped(
            untouching(hunks, input.graph.nodes),
            UnmappedHunkView { path: hunk.path, line: hunk.new_start },
        );
    }
}

// ---------------------------------------------------------------------------
// Differences

/// A symbol is reported with a change.
pub open spec fn reports(
    changes: Seq<ChangedSymbolView>,
    node: NodeView,
    change: Seq<char>,
) -> bool {
    exists|i: int|
        0 <= i < changes.len() && (#[trigger] changes[i]).symbol == Some(node) && changes[i].change
            == change
}

proof fn lemma_settled(changes: Seq<ChangedSymbolView>, node: NodeView, change: Seq<char>)
    ensures
        reports(settled(changes, node, change), node, change),
        forall|other: NodeView, how: Seq<char>|
            reports(changes, other, how) && other.id != node.id ==> #[trigger] reports(
                settled(changes, node, change),
                other,
                how,
            ),
{
    let after = settled(changes, node, change);
    lemma_position_within(changes, node.id);
    let at = match position_of(changes, node.id) {
        Some(at) => at,
        None => changes.len() as int,
    };
    assert(after[at].symbol == Some(node) && after[at].change == change);
    assert forall|other: NodeView, how: Seq<char>|
        reports(changes, other, how) && other.id != node.id implies #[trigger] reports(
        after,
        other,
        how,
    ) by {
        let i = choose|i: int|
            0 <= i < changes.len() && (#[trigger] changes[i]).symbol == Some(other)
                && changes[i].change == how;
        assert(i != at);
        assert(after[i] == changes[i]);
    }
}

proof fn lemma_compared(
    changes: Seq<ChangedSymbolView>,
    nodes: Seq<NodeView>,
    earlier: Seq<NodeView>,
)
    requires
        ids_ascend(nodes),
    ensures
        forall|k: int|
            0 <= k < nodes.len() ==> match node_with_id(earlier, (#[trigger] nodes[k]).id) {
                None => reports(compared(changes, nodes, earlier), nodes[k], "added"@),
                Some(old_node) => old_node != nodes[k] ==> reports(
                    compared(changes, nodes, earlier),
                    nodes[k],
                    "modified"@,
                ),
            },
    decreases nodes.len(),
{
    if nodes.len() > 0 {
        let front = nodes.drop_last();
        let last = nodes.last();
        let before = compared(changes, front, earlier);
        let after = compared(changes, nodes, earlier);
        assert forall|i: int, j: int| 0 <= i < j < front.len() implies text_lt(
            (#[trigger] front[i]).id,
            (#[trigger] front[j]).id,
        ) by {
            assert(front[i] == nodes[i] && front[j] == nodes[j]);
        }
        lemma_compared(changes, front, earlier);
        lemma_settled(before, last, "added"@);
        lemma_settled(before, last, "modified"@);
        assert forall|k: int| 0 <= k < nodes.len() implies match node_with_id(
            earlier,
            (#[trigger] nodes[k]).id,
        ) {
            None => reports(after, nodes[k], "added"@),
            Some(old_node) => old_node != nodes[k] ==> reports(after, nodes[k], "modified"@),
        } by {
            if k < front.len() {
                assert(front[k] == nodes[k]);
                assert(text_lt(nodes[k].id, nodes[nodes.len() - 1].id));
                lemma_text_lt_irreflexive(nodes[k].id);
                assert(nodes[k].id != last.id);
            } else {
                assert(nodes[k] == last);
            }
        }
    }
}

proof fn lemma_removals(earlier: Seq<NodeView>, nodes: Seq<NodeView>)
    ensures
        forall|k: int|
            0 <= k < earlier.len() && node_with_id(nodes, (#[trigger] earlier[k]).id) is None
                ==> reports(removals(earlier, nodes), earlier[k], "removed"@),
    decreases earlier.len(),
{
    if earlier.len() > 0 {
        let front = earlier.drop_last();
        let before = removals(front, nodes);
        let all = removals(earlier, nodes);
        lemma_removals(front, nodes);
        assert forall|k: int|
            0 <= k < earlier.len() && node_with_id(nodes, (#[trigger] earlier[k]).id) is None implies reports(
            all,
            earlier[k],
            "removed"@,
        ) by {
            if k < front.len() {
                assert(front[k] == earlier[k]);
                let i = choose|i: int|
                    0 <= i < before.len() && (#[trigger] before[i]).symbol == Some(front[k])
                        && before[i].change == "removed"@;
                assert(all[i] == before[i]);
            } else {
                assert(all[before.len() as int].symbol == Some(earlier[k]));
            }
        }
    }
}

proof fn lemma_sorted_reports(changes: Seq<ChangedSymbolView>, node: NodeView, change: Seq<char>)
    requires
        reports(changes, node, change),
    ensures
        reports(
            sorted_by(changes, relation_of::<ChangedSymbol, BySymbol>(BySymbol)),
            node,
            change,
        ),
{
    let precedes = relation_of::<ChangedSymbol, BySymbol>(BySymbol);
    let sorted = sorted_by(changes, precedes);
    sorting_keeps_members(changes, precedes);
    let i = choose|i: int|
        0 <= i < changes.len() && (#[trigger] changes[i]).symbol == Some(node) && changes[i].change
            == change;
    assert(changes.contains(changes[i]));
    assert(sorted.contains(changes[i]));
    let k = choose|k: int| 0 <= k < sorted.len() && sorted[k] == changes[i];
    assert(sorted[k].symbol == Some(node));
}

/// With an earlier graph, every symbol that is new is reported as added, every one that
/// differs as modified, and every one that is gone as removed.
pub proof fn every_difference_is_reported(input: ComparisonView)
    requires
        input.earlier is Some,
        graph_in_order(input.graph),
    ensures
        ({
            let earlier = input.earlier->0.nodes;
            let nodes = input.graph.nodes;
            let symbols = report_of(input).symbols;
            &&& forall|k: int|
                0 <= k < nodes.len() ==> match node_with_id(earlier, (#[trigger] nodes[k]).id) {
                    None => reports(symbols, nodes[k], "added"@),
                    Some(old_node) => old_node != nodes[k] ==> reports(
                        symbols,
                        nodes[k],
                        "modified"@,
                    ),
                }
            &&& forall|k: int|
                0 <= k < earlier.len() && node_with_id(nodes, (#[trigger] earlier[k]).id) is None
                    ==> reports(symbols, earlier[k], "removed"@)
        }),
{
    let earlier = input.earlier->0.nodes;
    let nodes = input.graph.nodes;
    let first = compared(touched_symbols(input), nodes, earlier);
    let gone = removals(earlier, nodes);
    let all = found_symbols(input);
    let symbols = report_of(input).symbols;
    lemma_compared(touched_symbols(input), nodes, earlier);
    lemma_removals(earlier, nodes);
    assert(all == first + gone);
    assert forall|node: NodeView, change: Seq<char>|
        reports(first, node, change) || reports(gone, node, change) implies #[trigger] reports(
        symbols,
        node,
        change,
    ) by {
        if reports(first, node, change) {
            let i = choose|i: int|
                0 <= i < first.len() && (#[trigger] first[i]).symbol == Some(node)
                    && first[i].change == change;
            assert(all[i] == first[i]);
        } else {
            let i = choose|i: int|
                0 <= i < gone.len() && (#[trigger] gone[i]).symbol == Some(node) && gone[i].change
                    == change;
            assert(all[first.len() + i] == gone[i]);
        }
        assert(reports(all, node, change));
        lemma_sorted_reports(all, node, change);
    }
    assert forall|k: int| 0 <= k < nodes.len() implies match node_with_id(
        earlier,
        (#[trigger] nodes[k]).id,
    ) {
        None => reports(symbols, nodes[k], "added"@),
        Some(old_node) => old_node != nodes[k] ==> reports(symbols, nodes[k], "modified"@),
    } by {}
}

// ---------------------------------------------------------------------------
// No differences

proof fn lemma_own_node(nodes: Seq<NodeView>, k: int)
    requires
        ids_ascend(nodes),
        0 <= k < nodes.len(),
    ensures
        node_with_id(nodes, nodes[k].id) == Some(nodes[k]),
    decreases nodes.len(),
{
    let front = nodes.drop_last();
    if k < front.len() {
        assert(text_lt(nodes[k].id, nodes[nodes.len() - 1].id));
        lemma_text_lt_irreflexive(nodes[k].id);
        assert forall|i: int, j: int| 0 <= i < j < front.len() implies text_lt(
            (#[trigger] front[i]).id,
            (#[trigger] front[j]).id,
        ) by {
            assert(front[i] == nodes[i] && front[j] == nodes[j]);
        }
        lemma_own_node(front, k);
        assert(front[k] == nodes[k]);
    }
}

proof fn lemma_own_edge(edges: Seq<EdgeSnapshotView>, k: int)
    requires
        keys_ascend(edges),
        0 <= k < edges.len(),
    ensures
        edge_with_key(edges, edges[k].key) == Some(edges[k]),
    decreases edges.len(),
{
    let front = edges.drop_last();
    if k < front.len() {
        assert(key_lt(edges[k].key, edges[edges.len() - 1].key));
        lemma_key_lt_irreflexive(edges[k].key);
        assert forall|i: int, j: int| 0 <= i < j < front.len() implies key_lt(
            (#[trigger] front[i]).key,
            (#[trigger] front[j]).key,
        ) by {
            assert(front[i] == edges[i] && front[j] == edges[j]);
        }
        lemma_own_edge(front, k);
        assert(front[k] == edges[k]);
    }
}

proof fn lemma_same_nodes(changes: Seq<ChangedSymbolView>, nodes: Seq<NodeView>, all: Seq<NodeView>)
    requires
        forall|k: int|
            0 <= k < nodes.len() ==> node_with_id(all, (#[trigger] nodes[k]).id) == Some(nodes[k]),
    ensures
        compared(changes, nodes, all) == changes,
        removals(nodes, all) == Seq::<ChangedSymbolView>::empty(),
    decreases nodes.len(),
{
    if nodes.len() > 0 {
        let front = nodes.drop_last();
        assert forall|k: int| 0 <= k < front.len() implies node_with_id(
            all,
            (#[trigger] front[k]).id,
        ) == Some(front[k]) by {
            assert(front[k] == nodes[k]);
        }
        assert(node_with_id(all, nodes[nodes.len() - 1].id) == Some(nodes.last()));
        lemma_same_nodes(changes, front, all);
    }
}

proof fn lemma_same_edges(
    edges: Seq<EdgeSnapshotView>,
    all: Seq<EdgeSnapshotView>,
    nodes: Seq<NodeView>,
)
    requires
        forall|k: int|
            0 <= k < edges.len() ==> edge_with_key(all, (#[trigger] edges[k]).key) == Some(
                edges[k],
            ),
    ensures
        new_edges(edges, all, nodes) == Seq::<ChangedEdgeView>::empty(),
        old_edges(edges, all, nodes) == Seq::<ChangedEdgeView>::empty(),
    decreases edges.len(),
{
    if edges.len() > 0 {
        let front = edges.drop_last();
        assert forall|k: int| 0 <= k < front.len() implies edge_with_key(
            all,
            (#[trigger] front[k]).key,
        ) == Some(front[k]) by {
            assert(front[k] == edges[k]);
        }
        assert(edge_with_key(all, edges[edges.len() - 1].key) == Some(edges.last()));
        lemma_same_edges(front, all, nodes);
    }
}

proof fn lemma_same_callers(callers: Seq<UnresolvedCallerView>, all: Seq<UnresolvedCallerView>)
    requires
        forall|k: int| 0 <= k < callers.len() ==> all.contains(#[trigger] callers[k]),
    ensures
        new_callers(callers, all) == Seq::<UnresolvedCallerView>::empty(),
    decreases callers.len(),
{
    if callers.len() > 0 {
        let front = callers.drop_last();
        assert forall|k: int| 0 <= k < front.len() implies all.contains(#[trigger] front[k]) by {
            assert(front[k] == callers[k]);
        }
        assert(all.contains(callers[callers.len() - 1]));
        lemma_same_callers(front, all);
    }
}

proof fn lemma_nothing_retained(hunks: Seq<HunkView>)
    ensures
        retained(hunks, seq![]) == Seq::<HunkView>::empty(),
    decreases hunks.len(),
{
    if hunks.len() > 0 {
        lemma_nothing_retained(hunks.drop_last());
    }
}

/// A graph that is compared with itself, with no file changed, shows no change.
pub proof fn a_graph_does_not_differ_from_itself(input: ComparisonView)
    requires
        input.files.len() == 0,
        input.earlier == Some(input.graph),
        graph_in_order(input.graph),
    ensures
        report_of(input).symbols.len() == 0,
        report_of(input).edges.len() == 0,
        report_of(input).unresolved.len() == 0,
        report_of(input).unmapped.len() == 0,
        !report_of(input).needs_history,
{
    let graph = input.graph;
    assert(input.files =~= seq![]);
    lemma_nothing_retained(input.hunks);
    assert forall|k: int| 0 <= k < graph.nodes.len() implies node_with_id(
        graph.nodes,
        (#[trigger] graph.nodes[k]).id,
    ) == Some(graph.nodes[k]) by {
        lemma_own_node(graph.nodes, k);
    }
    assert forall|k: int| 0 <= k < graph.edges.len() implies edge_with_key(
        graph.edges,
        (#[trigger] graph.edges[k]).key,
    ) == Some(graph.edges[k]) by {
        lemma_own_edge(graph.edges, k);
    }
    lemma_same_nodes(touched_symbols(input), graph.nodes, graph.nodes);
    lemma_same_edges(graph.edges, graph.edges, graph.nodes);
    lemma_same_callers(graph.unresolved, graph.unresolved);
    assert(touched_symbols(input) =~= seq![]);
    assert(found_symbols(input) =~= seq![]);
    sorting_keeps_members(
        found_symbols(input),
        relation_of::<ChangedSymbol, BySymbol>(BySymbol),
    );
    let edges = new_edges(graph.edges, graph.edges, graph.nodes) + old_edges(
        graph.edges,
        graph.edges,
        graph.nodes,
    );
    assert(edges =~= seq![]);
    sorting_keeps_members(edges, relation_of::<ChangedEdge, ByEnds>(ByEnds));
    assert(untouching(retained(input.hunks, input.files), graph.nodes) =~= seq![]);
}

} // verus!

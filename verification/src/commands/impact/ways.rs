//! What a walk is for: the ways through the graph that it follows, told of the edges and
//! the bounds alone.

use vstd::prelude::*;
use crate::commands::impact::laws::{
    edge_fits, is_trail, told_apart, walks_are_bounded_and_sound,
    walks_without_frontiers_are_complete, walks_without_frontiers_find_all_paths,
};
use crate::commands::impact::{
    boundaries_of, boundary, impact_of, references_of, result_of, ByPosition, BoundaryView,
    ImpactBounds, ImpactDirection, ImpactEdgeView, ImpactPathView, OpenReference, OpenReferenceView,
    TrailView,
};
use crate::db::NodeView;
use crate::ordered::{relation_of, sorting_keeps_members};

verus! {

/// An edge leads from one symbol to the next: from caller to callee, from callee to caller,
/// or either way.
pub open spec fn leads(
    edge: ImpactEdgeView,
    from: Seq<char>,
    to: Seq<char>,
    direction: ImpactDirection,
) -> bool {
    ||| direction != ImpactDirection::Callers && edge.source.id == from && edge.target.id == to
    ||| direction != ImpactDirection::Callees && edge.target.id == from && edge.source.id == to
}

/// A way from the root: it takes given edges one after the other, at most `depth` of them,
/// in the direction asked for; each is at least as certain as asked for, none has a test at
/// an end where tests are left out, and no symbol is visited twice.
pub open spec fn is_way(
    ids: Seq<Seq<char>>,
    taken: Seq<ImpactEdgeView>,
    edges: Seq<ImpactEdgeView>,
    root: NodeView,
    bounds: ImpactBounds,
) -> bool {
    &&& ids.len() == taken.len() + 1
    &&& ids[0] == root.id
    &&& taken.len() <= bounds.depth
    &&& forall|i: int, j: int|
        #![trigger ids[i], ids[j]]
        0 <= i < j < ids.len() ==> ids[i] != ids[j]
    &&& forall|k: int|
        #![trigger taken[k]]
        0 <= k < taken.len() ==> {
            &&& edges.contains(taken[k])
            &&& taken[k].confidence >= bounds.min_confidence
            &&& bounds.no_tests ==> !taken[k].source.is_test && !taken[k].target.is_test
            &&& leads(taken[k], ids[k], ids[k + 1], bounds.direction)
        }
}

proof fn lemma_way(
    trail: TrailView,
    edges: Seq<ImpactEdgeView>,
    root: NodeView,
    bounds: ImpactBounds,
)
    ensures
        is_trail(trail, edges, root, bounds) <==> is_way(
            trail.node_ids,
            trail.edges,
            edges,
            root,
            bounds,
        ) && trail.node_ids.last() == trail.node.id,
{
    let ids = trail.node_ids;
    let taken = trail.edges;
    if is_trail(trail, edges, root, bounds) {
        assert forall|k: int|
            #![trigger taken[k]]
            0 <= k < taken.len() implies {
            &&& edges.contains(taken[k])
            &&& taken[k].confidence >= bounds.min_confidence
            &&& bounds.no_tests ==> !taken[k].source.is_test && !taken[k].target.is_test
            &&& leads(taken[k], ids[k], ids[k + 1], bounds.direction)
        } by {
            assert(edge_fits(trail, k, edges, bounds));
        }
    }
    if is_way(ids, taken, edges, root, bounds) && ids.last() == trail.node.id {
        assert forall|k: int| 0 <= k < taken.len() implies #[trigger] edge_fits(
            trail,
            k,
            edges,
            bounds,
        ) by {
            assert(edges.contains(taken[k]));
        }
        assert(ids.no_duplicates()) by {
            assert forall|i: int, j: int| 0 <= i < ids.len() && 0 <= j < ids.len() && i
                != j implies ids[i] != ids[j] by {
                if i < j {
                    assert(ids[i] != ids[j]);
                } else {
                    assert(ids[j] != ids[i]);
                }
            }
        }
    }
}

/// The end of an edge with an id.
spec fn end_with(edge: ImpactEdgeView, id: Seq<char>) -> NodeView {
    if edge.source.id == id {
        edge.source
    } else {
        edge.target
    }
}

/// A result that is not truncated holds every way there is, and the symbol at its end.
pub proof fn whole_results_hold_every_way(
    references: Seq<OpenReferenceView>,
    edges: Seq<ImpactEdgeView>,
    root: NodeView,
    bounds: ImpactBounds,
    ids: Seq<Seq<char>>,
    taken: Seq<ImpactEdgeView>,
)
    requires
        told_apart(edges),
        !result_of(impact_of(references, edges, root, bounds)).truncated,
        is_way(ids, taken, edges, root, bounds),
    ensures
        ({
            let found = result_of(impact_of(references, edges, root, bounds));
            &&& exists|i: int|
                0 <= i < found.paths.len() && (#[trigger] found.paths[i]).edges == taken
            &&& taken.len() > 0 ==> exists|n: int|
                0 <= n < found.nodes.len() && (#[trigger] found.nodes[n]).id == ids.last()
        }),
{
    let walk = impact_of(references, edges, root, bounds);
    let last = taken.len() - 1;
    let trail = TrailView {
        id: seq![],
        node: if taken.len() == 0 {
            root
        } else {
            end_with(taken[last], ids.last())
        },
        node_ids: ids,
        edges: taken,
    };
    if taken.len() > 0 {
        assert(leads(taken[last], ids[last], ids[last + 1], bounds.direction));
    }
    lemma_way(trail, edges, root, bounds);
    walks_are_bounded_and_sound(references, edges, root, bounds);
    walks_without_frontiers_find_all_paths(references, edges, root, bounds, trail);
    let i = choose|i: int|
        0 <= i < walk.trails.len() && (#[trigger] walk.trails[i]).edges == taken
            && walk.trails[i].node_ids == ids;
    assert(result_of(walk).paths[i].edges == taken);
    if taken.len() > 0 {
        if i == 0 {
            path_zero_is_empty(references, edges, root, bounds);
        }
        assert(is_trail(walk.trails[i], edges, root, bounds));
        assert(walk.trails[i].node.id == ids.last());
        assert(crate::commands::impact::has_id(walk.nodes, walk.trails[i].node.id));
        let n = choose|n: int|
            0 <= n < walk.nodes.len() && (#[trigger] walk.nodes[n]).id == walk.trails[i].node.id;
        assert(result_of(walk).nodes[n].id == ids.last());
    }
}

/// The first path of a walk is the root by itself.
pub proof fn path_zero_is_empty(
    references: Seq<OpenReferenceView>,
    edges: Seq<ImpactEdgeView>,
    root: NodeView,
    bounds: ImpactBounds,
)
    ensures
        impact_of(references, edges, root, bounds).trails.len() > 0,
        impact_of(references, edges, root, bounds).trails[0].edges.len() == 0,
        impact_of(references, edges, root, bounds).trails[0].id == "root"@,
        impact_of(references, edges, root, bounds).trails[0].node == root,
{
    crate::commands::impact::laws::lemma_first_path_stays(
        crate::commands::impact::at_root(root),
        references,
        edges,
        bounds,
        crate::commands::impact::IMPACT_EDGE_LIMIT as nat,
    );
}

/// Edges one after the other are a way from the root.
pub open spec fn is_along_a_way(
    taken: Seq<ImpactEdgeView>,
    edges: Seq<ImpactEdgeView>,
    root: NodeView,
    bounds: ImpactBounds,
) -> bool {
    exists|ids: Seq<Seq<char>>| is_way(ids, taken, edges, root, bounds)
}

/// Some path is a way, of an edge at least, that ends at the symbol with an id.
pub open spec fn is_end_of_some(
    paths: Seq<ImpactPathView>,
    id: Seq<char>,
    edges: Seq<ImpactEdgeView>,
    root: NodeView,
    bounds: ImpactBounds,
) -> bool {
    exists|i: int, ids: Seq<Seq<char>>|
        0 <= i < paths.len() && #[trigger] is_way(ids, paths[i].edges, edges, root, bounds)
            && ids.last() == id && ids.len() > 1
}

/// Some path ends with the edge.
pub open spec fn is_last_of_some(paths: Seq<ImpactPathView>, edge: ImpactEdgeView) -> bool {
    exists|i: int|
        0 <= i < paths.len() && (#[trigger] paths[i]).edges.len() > 0 && paths[i].edges.last()
            == edge
}

/// Every path of a result is a way from the root; every symbol and every edge of a result,
/// truncated or not, is on one of its paths: the symbol at the end of one, the edge as the
/// last of one.
pub proof fn results_hold_only_ways(
    references: Seq<OpenReferenceView>,
    edges: Seq<ImpactEdgeView>,
    root: NodeView,
    bounds: ImpactBounds,
)
    ensures
        ({
            let found = result_of(impact_of(references, edges, root, bounds));
            &&& forall|i: int|
                0 <= i < found.paths.len() ==> is_along_a_way(
                    (#[trigger] found.paths[i]).edges,
                    edges,
                    root,
                    bounds,
                )
            &&& forall|n: int|
                0 <= n < found.nodes.len() ==> is_end_of_some(
                    found.paths,
                    (#[trigger] found.nodes[n]).id,
                    edges,
                    root,
                    bounds,
                )
            &&& forall|e: int|
                0 <= e < found.edges.len() ==> is_last_of_some(
                    found.paths,
                    #[trigger] found.edges[e],
                )
            &&& found.nodes.len() <= bounds.limit
            &&& found.edges.len() <= 400
            &&& found.paths.len() <= 400
            &&& found.boundaries.len() <= 400
        }),
{
    let walk = impact_of(references, edges, root, bounds);
    let found = result_of(walk);
    walks_are_bounded_and_sound(references, edges, root, bounds);
    assert forall|i: int| 0 <= i < found.paths.len() implies is_along_a_way(
        (#[trigger] found.paths[i]).edges,
        edges,
        root,
        bounds,
    ) by {
        lemma_way(walk.trails[i], edges, root, bounds);
        assert(is_trail(walk.trails[i], edges, root, bounds));
        assert(is_way(walk.trails[i].node_ids, found.paths[i].edges, edges, root, bounds));
    }
    assert forall|n: int| 0 <= n < found.nodes.len() implies is_end_of_some(
        found.paths,
        (#[trigger] found.nodes[n]).id,
        edges,
        root,
        bounds,
    ) by {
        assert(crate::commands::impact::laws::reached(walk, walk.nodes[n]));
        let i = choose|i: int|
            1 <= i < walk.trails.len() && (#[trigger] walk.trails[i]).node == walk.nodes[n];
        lemma_way(walk.trails[i], edges, root, bounds);
        assert(is_trail(walk.trails[i], edges, root, bounds));
        assert(is_way(walk.trails[i].node_ids, found.paths[i].edges, edges, root, bounds));
        later_paths_are_longer(references, edges, root, bounds, i);
    }
    assert forall|e: int| 0 <= e < found.edges.len() implies is_last_of_some(
        found.paths,
        #[trigger] found.edges[e],
    ) by {
        assert(crate::commands::impact::laws::taken(walk, walk.edges[e]));
        let i = choose|i: int|
            0 <= i < walk.trails.len() && (#[trigger] walk.trails[i]).edges.len() > 0
                && walk.trails[i].edges.last() == walk.edges[e];
        assert(found.paths[i].edges == walk.trails[i].edges);
    }
}

/// Every path but the first takes an edge.
pub proof fn later_paths_are_longer(
    references: Seq<OpenReferenceView>,
    edges: Seq<ImpactEdgeView>,
    root: NodeView,
    bounds: ImpactBounds,
    i: int,
)
    requires
        1 <= i < impact_of(references, edges, root, bounds).trails.len(),
    ensures
        impact_of(references, edges, root, bounds).trails[i].edges.len() > 0,
{
    crate::commands::impact::laws::lemma_later_paths(
        crate::commands::impact::at_root(root),
        references,
        edges,
        bounds,
        crate::commands::impact::IMPACT_EDGE_LIMIT as nat,
    );
}

/// A whole result of a walk that may take a step holds the other end of every edge at the
/// root, in the direction asked for, whose confidence is at or above the least; only tests
/// are left out where they are to be, and edges from the root to itself.
pub proof fn neighbours_of_the_root_are_found(
    references: Seq<OpenReferenceView>,
    edges: Seq<ImpactEdgeView>,
    root: NodeView,
    bounds: ImpactBounds,
    edge: ImpactEdgeView,
    id: Seq<char>,
)
    requires
        told_apart(edges),
        !result_of(impact_of(references, edges, root, bounds)).truncated,
        bounds.depth >= 1,
        edges.contains(edge),
        edge.confidence >= bounds.min_confidence,
        bounds.no_tests ==> !edge.source.is_test && !edge.target.is_test,
        match bounds.direction {
            ImpactDirection::Callees => edge.source.id == root.id && edge.target.id == id,
            ImpactDirection::Callers => edge.target.id == root.id && edge.source.id == id,
            ImpactDirection::Both => (edge.source.id == root.id && edge.target.id == id) || (
            edge.target.id == root.id && edge.source.id == id),
        },
        id != root.id,
    ensures
        ({
            let found = result_of(impact_of(references, edges, root, bounds));
            &&& exists|n: int|
                0 <= n < found.nodes.len() && (#[trigger] found.nodes[n]).id == id
            &&& exists|i: int|
                0 <= i < found.paths.len() && (#[trigger] found.paths[i]).edges == seq![edge]
        }),
{
    let ids = seq![root.id, id];
    let taken = seq![edge];
    assert(is_way(ids, taken, edges, root, bounds));
    whole_results_hold_every_way(references, edges, root, bounds, ids, taken);
}

// ---------------------------------------------------------------------------
// Open ends and tests

proof fn lemma_references(references: Seq<OpenReferenceView>, id: Seq<char>, r: int)
    requires
        0 <= r < references.len(),
        references[r].source_id == id,
    ensures
        references_of(references, id).contains(references[r]),
    decreases references.len(),
{
    let front = references.drop_last();
    let before = references_of(front, id);
    let all = references_of(references, id);
    if r < front.len() {
        assert(front[r] == references[r]);
        lemma_references(front, id, r);
        let t = choose|t: int| 0 <= t < before.len() && before[t] == references[r];
        assert(all[t] == references[r]);
    } else {
        assert(all[before.len() as int] == references[r]);
    }
}

/// A whole result reports every unresolved reference of the root and of every symbol that
/// a path ends at, with the path, the relation and the reason: what its kind says, or else
/// whether symbols of its name are known.
pub proof fn open_ends_are_reported(
    references: Seq<OpenReferenceView>,
    edges: Seq<ImpactEdgeView>,
    root: NodeView,
    bounds: ImpactBounds,
    i: int,
    r: int,
)
    requires
        !result_of(impact_of(references, edges, root, bounds)).truncated,
        0 <= i < impact_of(references, edges, root, bounds).trails.len(),
        0 <= r < references.len(),
        references[r].source_id == impact_of(references, edges, root, bounds).trails[i].node.id,
    ensures
        ({
            let walk = impact_of(references, edges, root, bounds);
            let reference = references[r];
            result_of(walk).boundaries.contains(
                BoundaryView {
                    source: walk.trails[i].node,
                    relationship: reference.kind,
                    specifier: reference.specifier,
                    reason: if reference.kind == "macro_or_function"@ || reference.kind
                        == "indirect_call"@ {
                        reference.kind
                    } else if reference.candidates > 0 {
                        "ambiguous_target"@
                    } else {
                        "missing_target"@
                    },
                    path_id: walk.trails[i].id,
                },
            )
        }),
{
    let walk = impact_of(references, edges, root, bounds);
    let trail = walk.trails[i];
    walks_without_frontiers_are_complete(references, edges, root, bounds, i);
    let own = references_of(references, trail.node.id);
    let precedes = relation_of::<OpenReference, ByPosition>(ByPosition);
    let sorted = crate::ordered::sorted_by(own, precedes);
    lemma_references(references, trail.node.id, r);
    sorting_keeps_members(own, precedes);
    assert(sorted.contains(references[r]));
    let t = choose|t: int| 0 <= t < sorted.len() && sorted[t] == references[r];
    let found = boundaries_of(references, trail.node, trail.id);
    assert(found[t] == boundary(references[r], trail.node, trail.id));
    assert(walk.boundaries.contains(found[t]));
}

/// A result lists a test with a path just where the path, other than the first, ends at a
/// symbol that is a test.
pub proof fn tests_at_the_ends_of_paths_are_listed(
    references: Seq<OpenReferenceView>,
    edges: Seq<ImpactEdgeView>,
    root: NodeView,
    bounds: ImpactBounds,
    i: int,
)
    requires
        1 <= i < impact_of(references, edges, root, bounds).trails.len(),
        impact_of(references, edges, root, bounds).trails[i].node.is_test,
    ensures
        ({
            let walk = impact_of(references, edges, root, bounds);
            exists|t: int|
                0 <= t < walk.tests.len() && (#[trigger] walk.tests[t]).test.id
                    == walk.trails[i].node.id && walk.tests[t].path_ids.contains(
                    walk.trails[i].id,
                )
        }),
{
    walks_are_bounded_and_sound(references, edges, root, bounds);
    let walk = impact_of(references, edges, root, bounds);
    assert(crate::commands::impact::laws::lists(
        walk.tests,
        walk.trails[i].node.id,
        walk.trails[i].id,
    ));
}

} // verus!

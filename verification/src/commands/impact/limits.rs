//! What a walk leaves out, it leaves out because of a limit.

use vstd::prelude::*;
use crate::commands::impact::{
    boundaries_of, continued, followed, followed_all, impact_of, noted, ordered_edges,
    references_of, result_of, stepped, ByPosition, ImpactBounds, ImpactEdgeView, OpenReference,
    OpenReferenceView, TrailView, WalkView,
};
use crate::db::NodeView;
use crate::ordered::{
    inserted, relation_of, relations_are_orders, sorting_orders_and_keeps,
};

verus! {

/// The open references of a symbol that a path reaches do not fit beside those that were
/// noted.
pub open spec fn some_references_do_not_fit(
    walk: WalkView,
    references: Seq<OpenReferenceView>,
) -> bool {
    exists|i: int|
        0 <= i < walk.trails.len() && walk.boundaries.len() + references_of(
            references,
            (#[trigger] walk.trails[i]).node.id,
        ).len() > 400
}

/// The walk is at one of its limits: the symbols that were asked for, four hundred edges,
/// four hundred paths or four hundred open references.
pub open spec fn is_at_a_limit(
    walk: WalkView,
    references: Seq<OpenReferenceView>,
    bounds: ImpactBounds,
) -> bool {
    ||| walk.nodes.len() == bounds.limit
    ||| walk.edges.len() == 400
    ||| walk.trails.len() == 400
    ||| some_references_do_not_fit(walk, references)
}

spec fn is_within(
    walk: WalkView,
    references: Seq<OpenReferenceView>,
    bounds: ImpactBounds,
) -> bool {
    &&& walk.nodes.len() <= bounds.limit
    &&& walk.edges.len() <= 400
    &&& walk.trails.len() <= 400
    &&& walk.boundaries.len() <= 400
    &&& walk.frontiers.len() > 0 ==> is_at_a_limit(walk, references, bounds)
}

proof fn lemma_inserted_one<V>(sorted: Seq<V>, item: V, precedes: spec_fn(V, V) -> bool)
    ensures
        inserted(sorted, item, precedes).len() == sorted.len() + 1,
    decreases sorted.len(),
{
    if sorted.len() > 0 {
        lemma_inserted_one(sorted.drop_last(), item, precedes);
    }
}

proof fn lemma_fits_kept(
    before: WalkView,
    after: WalkView,
    references: Seq<OpenReferenceView>,
)
    requires
        some_references_do_not_fit(before, references),
        before.trails.len() <= after.trails.len(),
        forall|i: int|
            0 <= i < before.trails.len() ==> #[trigger] after.trails[i] == before.trails[i],
        before.boundaries.len() <= after.boundaries.len(),
    ensures
        some_references_do_not_fit(after, references),
{
    let i = choose|i: int|
        0 <= i < before.trails.len() && before.boundaries.len() + references_of(
            references,
            (#[trigger] before.trails[i]).node.id,
        ).len() > 400;
    assert(after.trails[i] == before.trails[i]);
}

proof fn lemma_followed_within(
    walk: WalkView,
    trail: TrailView,
    edge: ImpactEdgeView,
    references: Seq<OpenReferenceView>,
    bounds: ImpactBounds,
)
    requires
        is_within(walk, references, bounds),
    ensures
        is_within(followed(walk, trail, edge, bounds), references, bounds),
{
    let after = followed(walk, trail, edge, bounds);
    let next = crate::commands::impact::other_end(edge, trail.node.id);
    lemma_inserted_one(
        walk.nodes,
        next,
        relation_of::<crate::db::Node, crate::commands::snapshot::ById>(
            crate::commands::snapshot::ById,
        ),
    );
    lemma_inserted_one(
        walk.edges,
        edge,
        relation_of::<crate::commands::impact::ImpactEdge, crate::commands::impact::ByEdgeKey>(
            crate::commands::impact::ByEdgeKey,
        ),
    );
    if some_references_do_not_fit(walk, references) {
        lemma_fits_kept(walk, after, references);
    }
}

proof fn lemma_followed_all_within(
    walk: WalkView,
    trail: TrailView,
    edges: Seq<ImpactEdgeView>,
    references: Seq<OpenReferenceView>,
    bounds: ImpactBounds,
)
    requires
        is_within(walk, references, bounds),
    ensures
        is_within(followed_all(walk, trail, edges, bounds), references, bounds),
    decreases edges.len(),
{
    if edges.len() > 0 {
        lemma_followed_all_within(walk, trail, edges.drop_last(), references, bounds);
        lemma_followed_within(
            followed_all(walk, trail, edges.drop_last(), bounds),
            trail,
            edges.last(),
            references,
            bounds,
        );
    }
}

proof fn lemma_stepped_within(
    walk: WalkView,
    references: Seq<OpenReferenceView>,
    edges: Seq<ImpactEdgeView>,
    bounds: ImpactBounds,
)
    requires
        is_within(walk, references, bounds),
        0 <= walk.walked < walk.trails.len(),
    ensures
        is_within(stepped(walk, references, edges, bounds), references, bounds),
{
    let trail = walk.trails[walk.walked];
    let moved = WalkView { walked: walk.walked + 1, ..walk };
    let found = boundaries_of(references, trail.node, trail.id);
    let noticed = noted(moved, trail, found);
    let own = references_of(references, trail.node.id);
    let precedes = relation_of::<OpenReference, ByPosition>(ByPosition);
    relations_are_orders::<OpenReference, ByPosition>(ByPosition);
    sorting_orders_and_keeps(own, precedes);
    assert(found.len() == own.len());
    if some_references_do_not_fit(walk, references) {
        lemma_fits_kept(walk, noticed, references);
    }
    if walk.boundaries.len() + found.len() > 400 {
        assert(noticed.trails[walk.walked] == trail);
        assert(some_references_do_not_fit(noticed, references));
    }
    assert(is_within(noticed, references, bounds));
    lemma_followed_all_within(
        noticed,
        trail,
        ordered_edges(edges, trail.node.id, bounds.direction),
        references,
        bounds,
    );
}

proof fn lemma_continued_within(
    walk: WalkView,
    references: Seq<OpenReferenceView>,
    edges: Seq<ImpactEdgeView>,
    bounds: ImpactBounds,
    steps: nat,
)
    requires
        is_within(walk, references, bounds),
        walk.walked >= 0,
    ensures
        is_within(continued(walk, references, edges, bounds, steps), references, bounds),
    decreases steps,
{
    if steps > 0 && walk.walked < walk.trails.len() {
        lemma_stepped_within(walk, references, edges, bounds);
        lemma_walked(walk, references, edges, bounds);
        lemma_continued_within(
            stepped(walk, references, edges, bounds),
            references,
            edges,
            bounds,
            (steps - 1) as nat,
        );
    }
}

proof fn lemma_walked_all(
    walk: WalkView,
    trail: TrailView,
    edges: Seq<ImpactEdgeView>,
    bounds: ImpactBounds,
)
    ensures
        followed_all(walk, trail, edges, bounds).walked == walk.walked,
    decreases edges.len(),
{
    if edges.len() > 0 {
        lemma_walked_all(walk, trail, edges.drop_last(), bounds);
    }
}

proof fn lemma_walked(
    walk: WalkView,
    references: Seq<OpenReferenceView>,
    edges: Seq<ImpactEdgeView>,
    bounds: ImpactBounds,
)
    ensures
        stepped(walk, references, edges, bounds).walked == walk.walked + 1,
{
    let trail = walk.trails[walk.walked];
    let noticed = noted(
        WalkView { walked: walk.walked + 1, ..walk },
        trail,
        boundaries_of(references, trail.node, trail.id),
    );
    lemma_walked_all(
        noticed,
        trail,
        ordered_edges(edges, trail.node.id, bounds.direction),
        bounds,
    );
}

/// A result is cut only where it holds as many symbols as were asked for, four hundred
/// edges or four hundred paths, or where more than four hundred open references would have
/// to be noted. It never holds more than that.
pub proof fn results_are_cut_only_at_limits(
    references: Seq<OpenReferenceView>,
    edges: Seq<ImpactEdgeView>,
    root: NodeView,
    bounds: ImpactBounds,
)
    ensures
        ({
            let walk = impact_of(references, edges, root, bounds);
            let result = result_of(walk);
            &&& result.nodes.len() <= bounds.limit
            &&& result.edges.len() <= 400
            &&& result.paths.len() <= 400
            &&& result.boundaries.len() <= 400
            &&& result.truncated == (result.truncated_frontiers.len() > 0)
            &&& result.truncated ==> {
                ||| result.nodes.len() == bounds.limit
                ||| result.edges.len() == 400
                ||| result.paths.len() == 400
                ||| some_references_do_not_fit(walk, references)
            }
        }),
{
    let first = crate::commands::impact::at_root(root);
    assert(is_within(first, references, bounds));
    lemma_continued_within(first, references, edges, bounds, 400);
}

} // verus!

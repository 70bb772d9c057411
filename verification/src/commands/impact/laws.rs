//! What holds of every walk.

use vstd::prelude::*;
use crate::commands::impact::{
    admitted, at_root, boundaries, boundaries_of, boundary, continued, edge_key, edges_around,
    extended, followed, followed_all, grows, has_id, has_key, impact_of, incoming, lemma_step_grows,
    next_id, noted, ordered_edges, other_end, outgoing, references_of, result_of, stepped,
    test_position, with_test, AffectedTest, AffectedTestView, BoundaryView, ByEdgeKey, ByEnds,
    ByPosition, ByTest, ImpactBounds, ImpactDirection, ImpactEdge, ImpactEdgeView, OpenReference,
    OpenReferenceView, TrailView, WalkView, IMPACT_EDGE_LIMIT,
};
use crate::commands::snapshot::ById;
use crate::db::{Node, NodeView};
use crate::ordered::{
    chosen, inserted, insertion_keeps_ascent, is_weak_order, kept_items_are_items,
    kept_items_stand_for_all, lemma_inserted_members, relation_of, relations_are_orders,
    sameness_of, sorted_by, sorting_keeps_members, strictly_ascending,
};
use crate::text::{decimal, lemma_text_lt_total, written_numbers_are_read_back};

verus! {

// ---------------------------------------------------------------------------
// What is claimed

/// The id of the path at a position.
pub open spec fn path_name(i: int) -> Seq<char> {
    if i == 0 {
        "root"@
    } else {
        "p"@ + decimal(i)
    }
}

/// An edge leads on from a symbol in a direction.
pub open spec fn starts_at(edge: ImpactEdgeView, from: Seq<char>, direction: ImpactDirection) -> bool {
    match direction {
        ImpactDirection::Callees => edge.source.id == from,
        ImpactDirection::Callers => edge.target.id == from,
        ImpactDirection::Both => edge.source.id == from || edge.target.id == from,
    }
}

/// An edge leads from one symbol to another in a direction.
pub open spec fn runs(
    edge: ImpactEdgeView,
    from: Seq<char>,
    to: Seq<char>,
    direction: ImpactDirection,
) -> bool {
    match direction {
        ImpactDirection::Callees => edge.source.id == from && edge.target.id == to,
        ImpactDirection::Callers => edge.target.id == from && edge.source.id == to,
        ImpactDirection::Both => (edge.source.id == from && edge.target.id == to) || (edge.target.id
            == from && edge.source.id == to),
    }
}

/// The edge at a position of a path is one of the given ones, worth following, and
/// leads from one symbol of the path to the next.
pub open spec fn edge_fits(
    trail: TrailView,
    k: int,
    edges: Seq<ImpactEdgeView>,
    bounds: ImpactBounds,
) -> bool {
    edges.contains(trail.edges[k]) && admitted(trail.edges[k], bounds) && runs(
        trail.edges[k],
        trail.node_ids[k],
        trail.node_ids[k + 1],
        bounds.direction,
    )
}

/// A path from the root along given edges that visits no symbol twice and takes at most
/// `depth` edges.
pub open spec fn is_trail(
    trail: TrailView,
    edges: Seq<ImpactEdgeView>,
    root: NodeView,
    bounds: ImpactBounds,
) -> bool {
    &&& trail.node_ids.len() == trail.edges.len() + 1
    &&& trail.node_ids[0] == root.id
    &&& trail.node_ids.last() == trail.node.id
    &&& trail.node_ids.no_duplicates()
    &&& trail.edges.len() <= bounds.depth
    &&& forall|k: int| 0 <= k < trail.edges.len() ==> #[trigger] edge_fits(trail, k, edges, bounds)
}

/// All paths are such paths, each with its own id.
pub open spec fn trails_sound(
    walk: WalkView,
    edges: Seq<ImpactEdgeView>,
    root: NodeView,
    bounds: ImpactBounds,
) -> bool {
    &&& 0 <= walk.walked <= walk.trails.len()
    &&& 1 <= walk.trails.len() <= IMPACT_EDGE_LIMIT
    &&& forall|i: int|
        0 <= i < walk.trails.len() ==> is_trail(#[trigger] walk.trails[i], edges, root, bounds)
    &&& forall|i: int| 0 <= i < walk.trails.len() ==> (#[trigger] walk.trails[i]).id == path_name(i)
}

/// Some path other than the first ends at the symbol.
pub open spec fn reached(walk: WalkView, node: NodeView) -> bool {
    exists|i: int| 1 <= i < walk.trails.len() && (#[trigger] walk.trails[i]).node == node
}

/// The symbols are the ends of the paths, each once, in the order of their ids, and at
/// most `limit` of them.
pub open spec fn nodes_sound(walk: WalkView, bounds: ImpactBounds) -> bool {
    &&& walk.nodes.len() <= bounds.limit
    &&& strictly_ascending(walk.nodes, relation_of::<Node, ById>(ById))
    &&& forall|i: int|
        1 <= i < walk.trails.len() ==> has_id(walk.nodes, (#[trigger] walk.trails[i]).node.id)
    &&& forall|k: int| 0 <= k < walk.nodes.len() ==> reached(walk, #[trigger] walk.nodes[k])
}

/// Some path ends with the edge.
pub open spec fn taken(walk: WalkView, edge: ImpactEdgeView) -> bool {
    exists|i: int|
        0 <= i < walk.trails.len() && (#[trigger] walk.trails[i]).edges.len() > 0
            && walk.trails[i].edges.last() == edge
}

/// All edges of a path are known.
pub open spec fn edges_known(walk: WalkView, trail: TrailView) -> bool {
    forall|j: int|
        0 <= j < trail.edges.len() ==> has_key(walk.edges, edge_key(#[trigger] trail.edges[j]))
}

/// The edges are those of the paths, each once, in the order of their keys, and no more
/// than the limit.
pub open spec fn edges_sound(walk: WalkView) -> bool {
    &&& walk.edges.len() <= IMPACT_EDGE_LIMIT
    &&& strictly_ascending(walk.edges, relation_of::<ImpactEdge, ByEdgeKey>(ByEdgeKey))
    &&& forall|i: int|
        0 <= i < walk.trails.len() ==> edges_known(walk, #[trigger] walk.trails[i])
    &&& forall|k: int| 0 <= k < walk.edges.len() ==> taken(walk, #[trigger] walk.edges[k])
}

/// Some path with this id ends at the symbol.
pub open spec fn leads_to(walk: WalkView, path_id: Seq<char>, id: Seq<char>) -> bool {
    exists|i: int|
        1 <= i < walk.trails.len() && (#[trigger] walk.trails[i]).id == path_id
            && walk.trails[i].node.id == id
}

/// A test is listed with a path.
pub open spec fn lists(tests: Seq<AffectedTestView>, id: Seq<char>, path_id: Seq<char>) -> bool {
    exists|t: int|
        0 <= t < tests.len() && (#[trigger] tests[t]).test.id == id && tests[t].path_ids.contains(
            path_id,
        )
}

/// All paths listed with a test end there.
pub open spec fn paths_lead(walk: WalkView, test: AffectedTestView) -> bool {
    forall|p: int|
        0 <= p < test.path_ids.len() ==> leads_to(walk, #[trigger] test.path_ids[p], test.test.id)
}

/// The tests are listed in the order of their ids, with just the paths that end there.
pub open spec fn tests_sound(walk: WalkView) -> bool {
    &&& strictly_ascending(walk.tests, relation_of::<AffectedTest, ByTest>(ByTest))
    &&& forall|t: int| 0 <= t < walk.tests.len() ==> paths_lead(walk, #[trigger] walk.tests[t])
    &&& forall|i: int|
        1 <= i < walk.trails.len() && (#[trigger] walk.trails[i]).node.is_test ==> lists(
            walk.tests,
            walk.trails[i].node.id,
            walk.trails[i].id,
        )
}

/// Some path that has been followed has this id and ends at this symbol.
pub open spec fn ends_at(walk: WalkView, path_id: Seq<char>, node: NodeView) -> bool {
    exists|i: int|
        0 <= i < walk.walked && (#[trigger] walk.trails[i]).id == path_id && walk.trails[i].node
            == node
}

/// Every open end belongs to a path that ends at its symbol, and there are no more than
/// the limit.
pub open spec fn boundaries_sound(walk: WalkView) -> bool {
    &&& walk.boundaries.len() <= IMPACT_EDGE_LIMIT
    &&& forall|b: int|
        0 <= b < walk.boundaries.len() ==> ends_at(
            walk,
            (#[trigger] walk.boundaries[b]).path_id,
            walk.boundaries[b].source,
        )
}

/// A path goes on along an edge that it may take.
pub open spec fn goes_on(walk: WalkView, trail: TrailView, edge: ImpactEdgeView, bounds: ImpactBounds) -> bool {
    admitted(edge, bounds) && !trail.node_ids.contains(other_end(edge, trail.node.id).id)
        ==> exists|j: int|
        0 <= j < walk.trails.len() && (#[trigger] walk.trails[j]).edges == trail.edges.push(edge)
            && walk.trails[j].node == other_end(edge, trail.node.id)
}

/// A path goes on along all edges that it may take.
pub open spec fn goes_on_all(
    walk: WalkView,
    trail: TrailView,
    edges: Seq<ImpactEdgeView>,
    bounds: ImpactBounds,
) -> bool {
    forall|k: int| 0 <= k < edges.len() ==> goes_on(walk, trail, #[trigger] edges[k], bounds)
}

/// All open ends of a path are noted.
pub open spec fn ends_noted(walk: WalkView, found: Seq<BoundaryView>) -> bool {
    forall|b: int| 0 <= b < found.len() ==> walk.boundaries.contains(#[trigger] found[b])
}

/// The path at a position has been followed in full.
pub open spec fn exhausted(
    walk: WalkView,
    i: int,
    references: Seq<OpenReferenceView>,
    edges: Seq<ImpactEdgeView>,
    bounds: ImpactBounds,
) -> bool {
    &&& ends_noted(walk, boundaries_of(references, walk.trails[i].node, walk.trails[i].id))
    &&& walk.trails[i].edges.len() < bounds.depth ==> goes_on_all(
        walk,
        walk.trails[i],
        ordered_edges(edges, walk.trails[i].node.id, bounds.direction),
        bounds,
    )
}

/// A walk that has left nothing out has followed its paths in full.
pub open spec fn complete(
    walk: WalkView,
    references: Seq<OpenReferenceView>,
    edges: Seq<ImpactEdgeView>,
    bounds: ImpactBounds,
) -> bool {
    walk.frontiers.len() == 0 ==> forall|i: int|
        0 <= i < walk.walked ==> #[trigger] exhausted(walk, i, references, edges, bounds)
}

// ---------------------------------------------------------------------------
// Edges around a symbol

proof fn lemma_outgoing_members(edges: Seq<ImpactEdgeView>, id: Seq<char>)
    ensures
        forall|k: int|
            0 <= k < outgoing(edges, id).len() ==> edges.contains(
                #[trigger] outgoing(edges, id)[k],
            ) && outgoing(edges, id)[k].source.id == id,
    decreases edges.len(),
{
    if edges.len() > 0 {
        let front = edges.drop_last();
        let inner = outgoing(front, id);
        let all = outgoing(edges, id);
        lemma_outgoing_members(front, id);
        assert forall|k: int| 0 <= k < all.len() implies edges.contains(#[trigger] all[k])
            && all[k].source.id == id by {
            if k < inner.len() {
                assert(all[k] == inner[k]);
                let t = choose|t: int| 0 <= t < front.len() && front[t] == inner[k];
                assert(edges[t] == all[k]);
            } else {
                assert(edges[edges.len() - 1] == all[k]);
            }
        }
    }
}

proof fn lemma_incoming_members(edges: Seq<ImpactEdgeView>, id: Seq<char>)
    ensures
        forall|k: int|
            0 <= k < incoming(edges, id).len() ==> edges.contains(
                #[trigger] incoming(edges, id)[k],
            ) && incoming(edges, id)[k].target.id == id,
    decreases edges.len(),
{
    if edges.len() > 0 {
        let front = edges.drop_last();
        let inner = incoming(front, id);
        let all = incoming(edges, id);
        lemma_incoming_members(front, id);
        assert forall|k: int| 0 <= k < all.len() implies edges.contains(#[trigger] all[k])
            && all[k].target.id == id by {
            if k < inner.len() {
                assert(all[k] == inner[k]);
                let t = choose|t: int| 0 <= t < front.len() && front[t] == inner[k];
                assert(edges[t] == all[k]);
            } else {
                assert(edges[edges.len() - 1] == all[k]);
            }
        }
    }
}

/// The edges around a symbol are among the given ones and lead on from it.
pub proof fn edges_around_touch(
    edges: Seq<ImpactEdgeView>,
    id: Seq<char>,
    direction: ImpactDirection,
)
    ensures
        forall|k: int|
            0 <= k < ordered_edges(edges, id, direction).len() ==> edges.contains(
                #[trigger] ordered_edges(edges, id, direction)[k],
            ) && starts_at(ordered_edges(edges, id, direction)[k], id, direction),
{
    let around = edges_around(edges, id, direction);
    let precedes = relation_of::<ImpactEdge, ByEnds>(ByEnds);
    let alike = sameness_of::<ImpactEdge, ByEnds>(ByEnds);
    let sorted = sorted_by(around, precedes);
    lemma_outgoing_members(edges, id);
    lemma_incoming_members(edges, id);
    sorting_keeps_members(around, precedes);
    kept_items_are_items(sorted, alike);
    let kept = ordered_edges(edges, id, direction);
    assert forall|k: int| 0 <= k < kept.len() implies edges.contains(#[trigger] kept[k])
        && starts_at(kept[k], id, direction) by {
        assert(sorted.contains(kept[k]));
        assert(around.contains(kept[k]));
        let t = choose|t: int| 0 <= t < around.len() && around[t] == kept[k];
        let out = outgoing(edges, id);
        let inc = incoming(edges, id);
        match direction {
            ImpactDirection::Callees => {
                assert(out[t] == kept[k]);
            },
            ImpactDirection::Callers => {
                assert(inc[t] == kept[k]);
            },
            ImpactDirection::Both => {
                if t < out.len() {
                    assert(out[t] == kept[k]);
                } else {
                    assert(inc[t - out.len()] == kept[k]);
                }
            },
        }
    }
}

/// The edges that touch a symbol.
pub open spec fn touching(edges: Seq<ImpactEdgeView>, id: Seq<char>) -> Seq<ImpactEdgeView> {
    chosen(edges, |edge: ImpactEdgeView| edge.source.id == id || edge.target.id == id)
}

proof fn lemma_touching(edges: Seq<ImpactEdgeView>, id: Seq<char>)
    ensures
        outgoing(touching(edges, id), id) == outgoing(edges, id),
        incoming(touching(edges, id), id) == incoming(edges, id),
    decreases edges.len(),
{
    if edges.len() > 0 {
        let before = touching(edges.drop_last(), id);
        lemma_touching(edges.drop_last(), id);
        assert(before.push(edges.last()).drop_last() =~= before);
    }
}

proof fn lemma_own_references(references: Seq<OpenReferenceView>, id: Seq<char>)
    ensures
        references_of(references_of(references, id), id) == references_of(references, id),
    decreases references.len(),
{
    if references.len() > 0 {
        let before = references_of(references.drop_last(), id);
        lemma_own_references(references.drop_last(), id);
        assert(before.push(references.last()).drop_last() =~= before);
    }
}

/// A step needs no more than the edges that touch the symbol it has come to and the
/// references of that symbol, so that these can be read when the walk gets there.
pub proof fn steps_look_around_only(
    walk: WalkView,
    references: Seq<OpenReferenceView>,
    edges: Seq<ImpactEdgeView>,
    bounds: ImpactBounds,
)
    requires
        0 <= walk.walked < walk.trails.len(),
    ensures
        ({
            let id = walk.trails[walk.walked].node.id;
            stepped(walk, references_of(references, id), touching(edges, id), bounds) == stepped(
                walk,
                references,
                edges,
                bounds,
            )
        }),
{
    let id = walk.trails[walk.walked].node.id;
    lemma_touching(edges, id);
    lemma_own_references(references, id);
}

// ---------------------------------------------------------------------------
// One edge

proof fn lemma_extended_trail(
    walk: WalkView,
    at: int,
    edge: ImpactEdgeView,
    edges: Seq<ImpactEdgeView>,
    root: NodeView,
    bounds: ImpactBounds,
)
    requires
        trails_sound(walk, edges, root, bounds),
        0 <= at < walk.trails.len() < IMPACT_EDGE_LIMIT,
        walk.trails[at].edges.len() < bounds.depth,
        edges.contains(edge),
        starts_at(edge, walk.trails[at].node.id, bounds.direction),
        admitted(edge, bounds),
        !walk.trails[at].node_ids.contains(other_end(edge, walk.trails[at].node.id).id),
    ensures
        trails_sound(extended(walk, walk.trails[at], edge), edges, root, bounds),
{
    let trail = walk.trails[at];
    let after = extended(walk, trail, edge);
    let longer = after.trails.last();
    let next = other_end(edge, trail.node.id);
    assert(is_trail(trail, edges, root, bounds));
    assert(trail.node_ids.contains(trail.node.id)) by {
        assert(trail.node_ids[trail.node_ids.len() - 1] == trail.node.id);
    }
    assert(longer.node_ids.no_duplicates()) by {
        assert forall|i: int, j: int|
            0 <= i < longer.node_ids.len() && 0 <= j < longer.node_ids.len() && i
                != j implies longer.node_ids[i] != longer.node_ids[j] by {
            let ids = trail.node_ids;
            if i < ids.len() && j < ids.len() {
                assert(longer.node_ids[i] == ids[i] && longer.node_ids[j] == ids[j]);
            } else if i < ids.len() {
                assert(longer.node_ids[i] == ids[i]);
                assert(ids.contains(ids[i]));
            } else if j < ids.len() {
                assert(longer.node_ids[j] == ids[j]);
                assert(ids.contains(ids[j]));
            }
        }
    }
    assert forall|k: int| 0 <= k < longer.edges.len() implies #[trigger] edge_fits(
        longer,
        k,
        edges,
        bounds,
    ) by {
        if k < trail.edges.len() {
            assert(edge_fits(trail, k, edges, bounds));
        } else {
            assert(longer.node_ids[k] == trail.node.id);
            assert(longer.node_ids[k + 1] == next.id);
        }
    }
    assert(is_trail(longer, edges, root, bounds));
    assert forall|i: int| 0 <= i < after.trails.len() implies is_trail(
        #[trigger] after.trails[i],
        edges,
        root,
        bounds,
    ) by {
        if i < walk.trails.len() {
            assert(after.trails[i] == walk.trails[i]);
        }
    }
    assert forall|i: int| 0 <= i < after.trails.len() implies (#[trigger] after.trails[i]).id
        == path_name(i) by {
        if i < walk.trails.len() {
            assert(after.trails[i] == walk.trails[i]);
        }
    }
}

proof fn lemma_id_order()
    ensures
        is_weak_order(relation_of::<Node, ById>(ById)),
        is_weak_order(relation_of::<ImpactEdge, ByEdgeKey>(ByEdgeKey)),
        is_weak_order(relation_of::<AffectedTest, ByTest>(ByTest)),
{
    relations_are_orders::<Node, ById>(ById);
    relations_are_orders::<ImpactEdge, ByEdgeKey>(ByEdgeKey);
    relations_are_orders::<AffectedTest, ByTest>(ByTest);
}

proof fn lemma_reached_kept(walk: WalkView, after: WalkView, node: NodeView)
    requires
        reached(walk, node),
        walk.trails.len() <= after.trails.len(),
        forall|i: int|
            0 <= i < walk.trails.len() ==> #[trigger] after.trails[i] == walk.trails[i],
    ensures
        reached(after, node),
{
    let i = choose|i: int|
        1 <= i < walk.trails.len() && (#[trigger] walk.trails[i]).node == node;
    assert(after.trails[i].node == node);
}

proof fn lemma_extended_nodes(
    walk: WalkView,
    trail: TrailView,
    edge: ImpactEdgeView,
    bounds: ImpactBounds,
)
    requires
        nodes_sound(walk, bounds),
        walk.trails.len() >= 1,
        has_id(walk.nodes, other_end(edge, trail.node.id).id) || walk.nodes.len() != bounds.limit,
    ensures
        nodes_sound(extended(walk, trail, edge), bounds),
{
    let after = extended(walk, trail, edge);
    let next = other_end(edge, trail.node.id);
    let precedes = relation_of::<Node, ById>(ById);
    let last = walk.trails.len() as int;
    assert forall|i: int| 0 <= i < walk.trails.len() implies #[trigger] after.trails[i]
        == walk.trails[i] by {}
    assert(after.trails[last].node == next);
    assert(reached(after, next));
    if has_id(walk.nodes, next.id) {
        assert(after.nodes == walk.nodes);
        assert forall|k: int| 0 <= k < after.nodes.len() implies reached(
            after,
            #[trigger] after.nodes[k],
        ) by {
            lemma_reached_kept(walk, after, walk.nodes[k]);
        }
    } else {
        lemma_id_order();
        assert forall|i: int| 0 <= i < walk.nodes.len() implies precedes(
            next,
            #[trigger] walk.nodes[i],
        ) || precedes(walk.nodes[i], next) by {
            assert(walk.nodes[i].id != next.id);
            lemma_text_lt_total(next.id, walk.nodes[i].id);
        }
        insertion_keeps_ascent(walk.nodes, next, precedes);
        lemma_inserted_members(walk.nodes, next, precedes);
        assert forall|k: int| 0 <= k < after.nodes.len() implies reached(
            after,
            #[trigger] after.nodes[k],
        ) by {
            assert(after.nodes.contains(after.nodes[k]));
            if after.nodes[k] != next {
                let t = choose|t: int| 0 <= t < walk.nodes.len() && walk.nodes[t] == after.nodes[k];
                lemma_reached_kept(walk, after, walk.nodes[t]);
            }
        }
    }
    assert forall|i: int| 1 <= i < after.trails.len() implies has_id(
        after.nodes,
        (#[trigger] after.trails[i]).node.id,
    ) by {
        if i < walk.trails.len() {
            assert(has_id(walk.nodes, walk.trails[i].node.id));
            if !has_id(walk.nodes, next.id) {
                let t = choose|t: int|
                    0 <= t < walk.nodes.len() && (#[trigger] walk.nodes[t]).id
                        == walk.trails[i].node.id;
                assert(walk.nodes.contains(walk.nodes[t]));
                assert(after.nodes.contains(walk.nodes[t]));
                let u = choose|u: int| 0 <= u < after.nodes.len() && after.nodes[u] == walk.nodes[t];
                assert(after.nodes[u].id == after.trails[i].node.id);
            }
        } else {
            assert(after.trails[i].node == next);
            if !has_id(walk.nodes, next.id) {
                assert(after.nodes.contains(next));
                let u = choose|u: int| 0 <= u < after.nodes.len() && after.nodes[u] == next;
                assert(after.nodes[u].id == next.id);
            }
        }
    }
}

proof fn lemma_taken_kept(walk: WalkView, after: WalkView, edge: ImpactEdgeView)
    requires
        taken(walk, edge),
        walk.trails.len() <= after.trails.len(),
        forall|i: int|
            0 <= i < walk.trails.len() ==> #[trigger] after.trails[i] == walk.trails[i],
    ensures
        taken(after, edge),
{
    let i = choose|i: int|
        0 <= i < walk.trails.len() && (#[trigger] walk.trails[i]).edges.len() > 0
            && walk.trails[i].edges.last() == edge;
    assert(after.trails[i].edges.last() == edge);
}

proof fn lemma_key_kept(edges: Seq<ImpactEdgeView>, edge: ImpactEdgeView, key: Seq<char>)
    requires
        has_key(edges, key) || key == edge_key(edge),
    ensures
        has_key(
            inserted(edges, edge, relation_of::<ImpactEdge, ByEdgeKey>(ByEdgeKey)),
            key,
        ),
{
    let precedes = relation_of::<ImpactEdge, ByEdgeKey>(ByEdgeKey);
    let all = inserted(edges, edge, precedes);
    lemma_inserted_members(edges, edge, precedes);
    let item = if key == edge_key(edge) {
        edge
    } else {
        let t = choose|t: int| 0 <= t < edges.len() && edge_key(#[trigger] edges[t]) == key;
        assert(edges.contains(edges[t]));
        edges[t]
    };
    assert(all.contains(item));
    let u = choose|u: int| 0 <= u < all.len() && all[u] == item;
    assert(edge_key(all[u]) == key);
}

proof fn lemma_extended_edges(walk: WalkView, at: int, edge: ImpactEdgeView)
    requires
        edges_sound(walk),
        0 <= at < walk.trails.len(),
        has_key(walk.edges, edge_key(edge)) || walk.edges.len() != IMPACT_EDGE_LIMIT,
    ensures
        edges_sound(extended(walk, walk.trails[at], edge)),
{
    let trail = walk.trails[at];
    let after = extended(walk, trail, edge);
    let precedes = relation_of::<ImpactEdge, ByEdgeKey>(ByEdgeKey);
    let last = walk.trails.len() as int;
    let known = has_key(walk.edges, edge_key(edge));
    assert forall|i: int| 0 <= i < walk.trails.len() implies #[trigger] after.trails[i]
        == walk.trails[i] by {}
    assert(after.trails[last].edges.last() == edge);
    assert(taken(after, edge));
    if known {
        assert(after.edges == walk.edges);
        assert forall|k: int| 0 <= k < after.edges.len() implies taken(
            after,
            #[trigger] after.edges[k],
        ) by {
            lemma_taken_kept(walk, after, walk.edges[k]);
        }
    } else {
        lemma_id_order();
        assert forall|i: int| 0 <= i < walk.edges.len() implies precedes(
            edge,
            #[trigger] walk.edges[i],
        ) || precedes(walk.edges[i], edge) by {
            assert(edge_key(walk.edges[i]) != edge_key(edge));
            lemma_text_lt_total(edge_key(edge), edge_key(walk.edges[i]));
        }
        insertion_keeps_ascent(walk.edges, edge, precedes);
        lemma_inserted_members(walk.edges, edge, precedes);
        assert forall|k: int| 0 <= k < after.edges.len() implies taken(
            after,
            #[trigger] after.edges[k],
        ) by {
            assert(after.edges.contains(after.edges[k]));
            if after.edges[k] != edge {
                let t = choose|t: int| 0 <= t < walk.edges.len() && walk.edges[t] == after.edges[k];
                lemma_taken_kept(walk, after, walk.edges[t]);
            }
        }
    }
    assert forall|i: int| 0 <= i < after.trails.len() implies edges_known(
        after,
        #[trigger] after.trails[i],
    ) by {
        let own = after.trails[i];
        assert forall|j: int| 0 <= j < own.edges.len() implies has_key(
            after.edges,
            edge_key(#[trigger] own.edges[j]),
        ) by {
            if i < walk.trails.len() {
                assert(edges_known(walk, walk.trails[i]));
                assert(own.edges[j] == walk.trails[i].edges[j]);
            } else if j < trail.edges.len() {
                assert(edges_known(walk, walk.trails[at]));
                assert(own.edges[j] == trail.edges[j]);
            } else {
                assert(own.edges[j] == edge);
            }
            if !known {
                lemma_key_kept(walk.edges, edge, edge_key(own.edges[j]));
            }
        }
    }
}

proof fn lemma_leads_kept(walk: WalkView, after: WalkView, path_id: Seq<char>, id: Seq<char>)
    requires
        leads_to(walk, path_id, id),
        walk.trails.len() <= after.trails.len(),
        forall|i: int|
            0 <= i < walk.trails.len() ==> #[trigger] after.trails[i] == walk.trails[i],
    ensures
        leads_to(after, path_id, id),
{
    let i = choose|i: int|
        1 <= i < walk.trails.len() && (#[trigger] walk.trails[i]).id == path_id
            && walk.trails[i].node.id == id;
    assert(after.trails[i].id == path_id);
}

proof fn lemma_test_position(tests: Seq<AffectedTestView>, id: Seq<char>)
    ensures
        match test_position(tests, id) {
            Some(at) => 0 <= at < tests.len() && tests[at].test.id == id,
            None => forall|t: int| 0 <= t < tests.len() ==> (#[trigger] tests[t]).test.id != id,
        },
    decreases tests.len(),
{
    if tests.len() > 0 && tests.last().test.id != id {
        let front = tests.drop_last();
        lemma_test_position(front, id);
        if test_position(front, id) is None {
            assert forall|t: int| 0 <= t < tests.len() implies (#[trigger] tests[t]).test.id != id by {
                if t < front.len() {
                    assert(front[t] == tests[t]);
                }
            }
        }
    }
}

proof fn lemma_with_test_lists(
    tests: Seq<AffectedTestView>,
    test: NodeView,
    path_id: Seq<char>,
    other: Seq<char>,
    other_path: Seq<char>,
)
    requires
        lists(tests, other, other_path) || (other == test.id && other_path == path_id),
    ensures
        lists(with_test(tests, test, path_id), other, other_path),
{
    let after = with_test(tests, test, path_id);
    lemma_test_position(tests, test.id);
    match test_position(tests, test.id) {
        Some(at) => {
            let ids = tests[at].path_ids;
            if other == test.id && other_path == path_id {
                assert(after[at].path_ids[ids.len() as int] == path_id);
                assert(after[at].test.id == other);
            } else {
                let t = choose|t: int|
                    0 <= t < tests.len() && (#[trigger] tests[t]).test.id == other
                        && tests[t].path_ids.contains(other_path);
                if t == at {
                    let k = choose|k: int| 0 <= k < ids.len() && ids[k] == other_path;
                    assert(after[at].path_ids[k] == other_path);
                }
                assert(after[t].test.id == other);
            }
        },
        None => {
            let precedes = relation_of::<AffectedTest, ByTest>(ByTest);
            let added = AffectedTestView { test, path_ids: seq![path_id] };
            lemma_inserted_members(tests, added, precedes);
            let item = if other == test.id && other_path == path_id {
                assert(added.path_ids[0] == path_id);
                added
            } else {
                let t = choose|t: int|
                    0 <= t < tests.len() && (#[trigger] tests[t]).test.id == other
                        && tests[t].path_ids.contains(other_path);
                assert(tests.contains(tests[t]));
                tests[t]
            };
            assert(after.contains(item));
            let u = choose|u: int| 0 <= u < after.len() && after[u] == item;
            assert(after[u].test.id == other && after[u].path_ids.contains(other_path));
        },
    }
}

proof fn lemma_extended_tests(walk: WalkView, trail: TrailView, edge: ImpactEdgeView)
    requires
        tests_sound(walk),
        walk.trails.len() >= 1,
    ensures
        tests_sound(extended(walk, trail, edge)),
{
    let after = extended(walk, trail, edge);
    let next = other_end(edge, trail.node.id);
    let id = next_id(walk);
    let last = walk.trails.len() as int;
    let precedes = relation_of::<AffectedTest, ByTest>(ByTest);
    assert forall|i: int| 0 <= i < walk.trails.len() implies #[trigger] after.trails[i]
        == walk.trails[i] by {}
    assert(after.trails[last].id == id && after.trails[last].node == next);
    assert(leads_to(after, id, next.id));
    assert forall|t: int| 0 <= t < walk.tests.len() implies paths_lead(
        after,
        #[trigger] walk.tests[t],
    ) by {
        let own = walk.tests[t];
        assert(paths_lead(walk, own));
        assert forall|p: int| 0 <= p < own.path_ids.len() implies leads_to(
            after,
            #[trigger] own.path_ids[p],
            own.test.id,
        ) by {
            lemma_leads_kept(walk, after, own.path_ids[p], own.test.id);
        }
    }
    lemma_test_position(walk.tests, next.id);
    if next.is_test {
        match test_position(walk.tests, next.id) {
            Some(at) => {
                let updated = after.tests[at];
                assert(paths_lead(after, updated)) by {
                    assert forall|p: int| 0 <= p < updated.path_ids.len() implies leads_to(
                        after,
                        #[trigger] updated.path_ids[p],
                        updated.test.id,
                    ) by {
                        if p < walk.tests[at].path_ids.len() {
                            assert(paths_lead(after, walk.tests[at]));
                            assert(updated.path_ids[p] == walk.tests[at].path_ids[p]);
                        } else {
                            assert(updated.path_ids[p] == id);
                        }
                    }
                }
                assert forall|t: int| 0 <= t < after.tests.len() implies paths_lead(
                    after,
                    #[trigger] after.tests[t],
                ) by {
                    if t != at {
                        assert(after.tests[t] == walk.tests[t]);
                    }
                }
                assert forall|i: int, j: int| 0 <= i < j < after.tests.len() implies precedes(
                    #[trigger] after.tests[i],
                    #[trigger] after.tests[j],
                ) by {
                    assert(precedes(walk.tests[i], walk.tests[j]));
                    assert(after.tests[i].test == walk.tests[i].test);
                    assert(after.tests[j].test == walk.tests[j].test);
                }
            },
            None => {
                let added = AffectedTestView { test: next, path_ids: seq![id] };
                lemma_id_order();
                assert forall|i: int| 0 <= i < walk.tests.len() implies precedes(
                    added,
                    #[trigger] walk.tests[i],
                ) || precedes(walk.tests[i], added) by {
                    lemma_text_lt_total(next.id, walk.tests[i].test.id);
                }
                insertion_keeps_ascent(walk.tests, added, precedes);
                lemma_inserted_members(walk.tests, added, precedes);
                assert(paths_lead(after, added)) by {
                    assert forall|p: int| 0 <= p < added.path_ids.len() implies leads_to(
                        after,
                        #[trigger] added.path_ids[p],
                        added.test.id,
                    ) by {
                        assert(added.path_ids[p] == id);
                    }
                }
                assert forall|t: int| 0 <= t < after.tests.len() implies paths_lead(
                    after,
                    #[trigger] after.tests[t],
                ) by {
                    assert(after.tests.contains(after.tests[t]));
                    if after.tests[t] != added {
                        let u = choose|u: int|
                            0 <= u < walk.tests.len() && walk.tests[u] == after.tests[t];
                        assert(paths_lead(after, walk.tests[u]));
                    }
                }
            },
        }
    }
    assert forall|i: int|
        1 <= i < after.trails.len() && (#[trigger] after.trails[i]).node.is_test implies lists(
        after.tests,
        after.trails[i].node.id,
        after.trails[i].id,
    ) by {
        if i < walk.trails.len() {
            assert(after.trails[i] == walk.trails[i]);
            assert(lists(walk.tests, walk.trails[i].node.id, walk.trails[i].id));
        }
        if next.is_test {
            lemma_with_test_lists(
                walk.tests,
                next,
                id,
                after.trails[i].node.id,
                after.trails[i].id,
            );
        }
    }
}

// ---------------------------------------------------------------------------
// All edges of a path

/// All that is claimed of a walk but that it is complete.
pub open spec fn sound(
    walk: WalkView,
    edges: Seq<ImpactEdgeView>,
    root: NodeView,
    bounds: ImpactBounds,
) -> bool {
    &&& trails_sound(walk, edges, root, bounds)
    &&& nodes_sound(walk, bounds)
    &&& edges_sound(walk)
    &&& tests_sound(walk)
    &&& boundaries_sound(walk)
}

proof fn lemma_same_trails(
    walk: WalkView,
    after: WalkView,
    edges: Seq<ImpactEdgeView>,
    root: NodeView,
    bounds: ImpactBounds,
)
    requires
        sound(walk, edges, root, bounds),
        after.trails == walk.trails,
        after.walked == walk.walked,
        after.nodes == walk.nodes,
        after.edges == walk.edges,
        after.tests == walk.tests,
        after.boundaries == walk.boundaries,
    ensures
        sound(after, edges, root, bounds),
{
    assert forall|k: int| 0 <= k < after.nodes.len() implies reached(
        after,
        #[trigger] after.nodes[k],
    ) by {
        lemma_reached_kept(walk, after, walk.nodes[k]);
    }
    assert forall|k: int| 0 <= k < after.edges.len() implies taken(
        after,
        #[trigger] after.edges[k],
    ) by {
        lemma_taken_kept(walk, after, walk.edges[k]);
    }
    assert forall|i: int| 0 <= i < after.trails.len() implies edges_known(
        after,
        #[trigger] after.trails[i],
    ) by {
        assert(edges_known(walk, walk.trails[i]));
    }
    assert forall|t: int| 0 <= t < after.tests.len() implies paths_lead(
        after,
        #[trigger] after.tests[t],
    ) by {
        let own = walk.tests[t];
        assert(paths_lead(walk, own));
        assert forall|p: int| 0 <= p < own.path_ids.len() implies leads_to(
            after,
            #[trigger] own.path_ids[p],
            own.test.id,
        ) by {
            lemma_leads_kept(walk, after, own.path_ids[p], own.test.id);
        }
    }
    assert forall|b: int| 0 <= b < after.boundaries.len() implies ends_at(
        after,
        (#[trigger] after.boundaries[b]).path_id,
        after.boundaries[b].source,
    ) by {
        let own = walk.boundaries[b];
        assert(ends_at(walk, own.path_id, own.source));
        let i = choose|i: int|
            0 <= i < walk.walked && (#[trigger] walk.trails[i]).id == own.path_id
                && walk.trails[i].node == own.source;
        assert(after.trails[i].id == own.path_id);
    }
}

proof fn lemma_followed_sound(
    walk: WalkView,
    at: int,
    edge: ImpactEdgeView,
    edges: Seq<ImpactEdgeView>,
    root: NodeView,
    bounds: ImpactBounds,
)
    requires
        sound(walk, edges, root, bounds),
        0 <= at < walk.trails.len(),
        walk.trails[at].edges.len() < bounds.depth,
        edges.contains(edge),
        starts_at(edge, walk.trails[at].node.id, bounds.direction),
    ensures
        sound(followed(walk, walk.trails[at], edge, bounds), edges, root, bounds),
{
    let trail = walk.trails[at];
    let after = followed(walk, trail, edge, bounds);
    let next = other_end(edge, trail.node.id);
    if !admitted(edge, bounds) || trail.node_ids.contains(next.id) {
    } else if after.trails == walk.trails {
        if !has_key(walk.edges, edge_key(edge)) && walk.edges.len() == IMPACT_EDGE_LIMIT {
        } else if !has_id(walk.nodes, next.id) && walk.nodes.len() == bounds.limit {
        } else if walk.trails.len() == IMPACT_EDGE_LIMIT {
        } else {
            assert(after.trails.len() == walk.trails.len() + 1);
        }
        lemma_same_trails(walk, after, edges, root, bounds);
    } else {
        assert(after == extended(walk, trail, edge));
        lemma_extended_trail(walk, at, edge, edges, root, bounds);
        lemma_extended_nodes(walk, trail, edge, bounds);
        lemma_extended_edges(walk, at, edge);
        lemma_extended_tests(walk, trail, edge);
        assert forall|b: int| 0 <= b < after.boundaries.len() implies ends_at(
            after,
            (#[trigger] after.boundaries[b]).path_id,
            after.boundaries[b].source,
        ) by {
            let own = walk.boundaries[b];
            assert(ends_at(walk, own.path_id, own.source));
            let i = choose|i: int|
                0 <= i < walk.walked && (#[trigger] walk.trails[i]).id == own.path_id
                    && walk.trails[i].node == own.source;
            assert(after.trails[i] == walk.trails[i]);
        }
    }
}

proof fn lemma_followed_grows_once(
    walk: WalkView,
    trail: TrailView,
    edge: ImpactEdgeView,
    bounds: ImpactBounds,
)
    requires
        walk.trails.len() <= IMPACT_EDGE_LIMIT,
    ensures
        grows(walk, followed(walk, trail, edge, bounds)),
        followed(walk, trail, edge, bounds).boundaries == walk.boundaries,
        followed(walk, trail, edge, bounds).frontiers.len() >= walk.frontiers.len(),
        followed(walk, trail, edge, bounds).frontiers.len() == 0 ==> goes_on(
            followed(walk, trail, edge, bounds),
            trail,
            edge,
            bounds,
        ),
{
    let after = followed(walk, trail, edge, bounds);
    let next = other_end(edge, trail.node.id);
    if admitted(edge, bounds) && !trail.node_ids.contains(next.id) && after.frontiers.len() == 0 {
        let j = walk.trails.len() as int;
        assert(after == extended(walk, trail, edge));
        assert(after.trails[j].edges == trail.edges.push(edge));
        assert(after.trails[j].node == next);
    }
}

proof fn lemma_goes_on_kept(
    walk: WalkView,
    after: WalkView,
    trail: TrailView,
    edge: ImpactEdgeView,
    bounds: ImpactBounds,
)
    requires
        goes_on(walk, trail, edge, bounds),
        walk.trails.len() <= after.trails.len(),
        forall|i: int|
            0 <= i < walk.trails.len() ==> #[trigger] after.trails[i] == walk.trails[i],
    ensures
        goes_on(after, trail, edge, bounds),
{
    let next = other_end(edge, trail.node.id);
    if admitted(edge, bounds) && !trail.node_ids.contains(next.id) {
        let j = choose|j: int|
            0 <= j < walk.trails.len() && (#[trigger] walk.trails[j]).edges == trail.edges.push(
                edge,
            ) && walk.trails[j].node == next;
        assert(after.trails[j] == walk.trails[j]);
    }
}

proof fn lemma_all_followed(
    walk: WalkView,
    at: int,
    around: Seq<ImpactEdgeView>,
    edges: Seq<ImpactEdgeView>,
    root: NodeView,
    bounds: ImpactBounds,
)
    requires
        sound(walk, edges, root, bounds),
        0 <= at < walk.trails.len(),
        walk.trails[at].edges.len() < bounds.depth,
        forall|k: int|
            0 <= k < around.len() ==> edges.contains(#[trigger] around[k]) && starts_at(
                around[k],
                walk.trails[at].node.id,
                bounds.direction,
            ),
    ensures
        sound(followed_all(walk, walk.trails[at], around, bounds), edges, root, bounds),
        grows(walk, followed_all(walk, walk.trails[at], around, bounds)),
        followed_all(walk, walk.trails[at], around, bounds).boundaries == walk.boundaries,
        followed_all(walk, walk.trails[at], around, bounds).frontiers.len() >= walk.frontiers.len(),
        followed_all(walk, walk.trails[at], around, bounds).frontiers.len() == 0 ==> goes_on_all(
            followed_all(walk, walk.trails[at], around, bounds),
            walk.trails[at],
            around,
            bounds,
        ),
    decreases around.len(),
{
    let trail = walk.trails[at];
    if around.len() > 0 {
        let front = around.drop_last();
        assert forall|k: int| 0 <= k < front.len() implies edges.contains(#[trigger] front[k])
            && starts_at(front[k], trail.node.id, bounds.direction) by {
            assert(front[k] == around[k]);
        }
        lemma_all_followed(walk, at, front, edges, root, bounds);
        let before = followed_all(walk, trail, front, bounds);
        let after = followed_all(walk, trail, around, bounds);
        assert(before.trails[at] == trail);
        assert(around[around.len() - 1] == around.last());
        lemma_followed_sound(before, at, around.last(), edges, root, bounds);
        lemma_followed_grows_once(before, trail, around.last(), bounds);
        assert forall|i: int| 0 <= i < walk.trails.len() implies #[trigger] after.trails[i]
            == walk.trails[i] by {
            assert(before.trails[i] == walk.trails[i]);
        }
        if after.frontiers.len() == 0 {
            assert forall|k: int| 0 <= k < around.len() implies goes_on(
                after,
                trail,
                #[trigger] around[k],
                bounds,
            ) by {
                if k < front.len() {
                    assert(goes_on(before, trail, front[k], bounds));
                    lemma_goes_on_kept(before, after, trail, around[k], bounds);
                }
            }
        }
    }
}

// ---------------------------------------------------------------------------
// All steps

proof fn lemma_boundary_source(
    references: Seq<OpenReferenceView>,
    source: NodeView,
    path_id: Seq<char>,
)
    ensures
        forall|b: int|
            0 <= b < boundaries_of(references, source, path_id).len() ==> (
            #[trigger] boundaries_of(references, source, path_id)[b]).source == source
                && boundaries_of(references, source, path_id)[b].path_id == path_id,
{
    let own = sorted_by(
        references_of(references, source.id),
        relation_of::<OpenReference, ByPosition>(ByPosition),
    );
    let all = boundaries_of(references, source, path_id);
    assert forall|b: int| 0 <= b < all.len() implies (#[trigger] all[b]).source == source
        && all[b].path_id == path_id by {
        assert(all[b] == boundary(own[b], source, path_id));
    }
}

proof fn lemma_noted_sound(
    walk: WalkView,
    references: Seq<OpenReferenceView>,
    edges: Seq<ImpactEdgeView>,
    root: NodeView,
    bounds: ImpactBounds,
)
    requires
        sound(walk, edges, root, bounds),
        0 <= walk.walked < walk.trails.len(),
    ensures
        sound(
            noted(
                (WalkView { walked: walk.walked + 1, ..walk }),
                walk.trails[walk.walked],
                boundaries_of(
                    references,
                    walk.trails[walk.walked].node,
                    walk.trails[walk.walked].id,
                ),
            ),
            edges,
            root,
            bounds,
        ),
{
    let at = walk.walked;
    let trail = walk.trails[at];
    let found = boundaries_of(references, trail.node, trail.id);
    let moved = WalkView { walked: walk.walked + 1, ..walk };
    let after = noted(moved, trail, found);
    lemma_boundary_source(references, trail.node, trail.id);
    assert forall|b: int| 0 <= b < walk.boundaries.len() implies ends_at(
        moved,
        (#[trigger] walk.boundaries[b]).path_id,
        walk.boundaries[b].source,
    ) by {
        let own = walk.boundaries[b];
        assert(ends_at(walk, own.path_id, own.source));
        let i = choose|i: int|
            0 <= i < walk.walked && (#[trigger] walk.trails[i]).id == own.path_id
                && walk.trails[i].node == own.source;
        assert(moved.trails[i] == walk.trails[i]);
    }
    assert forall|k: int| 0 <= k < moved.nodes.len() implies reached(
        moved,
        #[trigger] moved.nodes[k],
    ) by {
        lemma_reached_kept(walk, moved, walk.nodes[k]);
    }
    assert forall|k: int| 0 <= k < moved.edges.len() implies taken(
        moved,
        #[trigger] moved.edges[k],
    ) by {
        lemma_taken_kept(walk, moved, walk.edges[k]);
    }
    assert forall|i: int| 0 <= i < moved.trails.len() implies edges_known(
        moved,
        #[trigger] moved.trails[i],
    ) by {
        assert(edges_known(walk, walk.trails[i]));
    }
    assert forall|t: int| 0 <= t < moved.tests.len() implies paths_lead(
        moved,
        #[trigger] moved.tests[t],
    ) by {
        let own = walk.tests[t];
        assert(paths_lead(walk, own));
        assert forall|p: int| 0 <= p < own.path_ids.len() implies leads_to(
            moved,
            #[trigger] own.path_ids[p],
            own.test.id,
        ) by {
            lemma_leads_kept(walk, moved, own.path_ids[p], own.test.id);
        }
    }
    assert(sound(moved, edges, root, bounds));
    if walk.boundaries.len() + found.len() > IMPACT_EDGE_LIMIT {
        lemma_same_trails(moved, after, edges, root, bounds);
    } else {
        let plain = WalkView { boundaries: moved.boundaries, ..after };
        assert forall|b: int| 0 <= b < after.boundaries.len() implies ends_at(
            after,
            (#[trigger] after.boundaries[b]).path_id,
            after.boundaries[b].source,
        ) by {
            if b < walk.boundaries.len() {
                let own = walk.boundaries[b];
                assert(after.boundaries[b] == own);
                assert(ends_at(moved, own.path_id, own.source));
                let i = choose|i: int|
                    0 <= i < moved.walked && (#[trigger] moved.trails[i]).id == own.path_id
                        && moved.trails[i].node == own.source;
                assert(after.trails[i] == moved.trails[i]);
            } else {
                assert(after.boundaries[b] == found[b - walk.boundaries.len()]);
                assert(after.trails[at].id == trail.id);
            }
        }
        lemma_same_trails(moved, plain, edges, root, bounds);
        assert(plain == moved);
        assert forall|k: int| 0 <= k < after.nodes.len() implies reached(
            after,
            #[trigger] after.nodes[k],
        ) by {
            lemma_reached_kept(moved, after, moved.nodes[k]);
        }
        assert forall|k: int| 0 <= k < after.edges.len() implies taken(
            after,
            #[trigger] after.edges[k],
        ) by {
            lemma_taken_kept(moved, after, moved.edges[k]);
        }
        assert forall|i: int| 0 <= i < after.trails.len() implies edges_known(
            after,
            #[trigger] after.trails[i],
        ) by {
            assert(edges_known(moved, moved.trails[i]));
        }
        assert forall|t: int| 0 <= t < after.tests.len() implies paths_lead(
            after,
            #[trigger] after.tests[t],
        ) by {
            let own = moved.tests[t];
            assert(paths_lead(moved, own));
            assert forall|p: int| 0 <= p < own.path_ids.len() implies leads_to(
                after,
                #[trigger] own.path_ids[p],
                own.test.id,
            ) by {
                lemma_leads_kept(moved, after, own.path_ids[p], own.test.id);
            }
        }
    }
}

proof fn lemma_exhausted_kept(
    walk: WalkView,
    after: WalkView,
    i: int,
    references: Seq<OpenReferenceView>,
    edges: Seq<ImpactEdgeView>,
    bounds: ImpactBounds,
)
    requires
        exhausted(walk, i, references, edges, bounds),
        0 <= i < walk.trails.len() <= after.trails.len(),
        forall|k: int|
            0 <= k < walk.trails.len() ==> #[trigger] after.trails[k] == walk.trails[k],
        forall|b: int|
            0 <= b < walk.boundaries.len() ==> after.boundaries.contains(
                #[trigger] walk.boundaries[b],
            ),
    ensures
        exhausted(after, i, references, edges, bounds),
{
    let trail = walk.trails[i];
    let found = boundaries_of(references, trail.node, trail.id);
    assert(after.trails[i] == trail);
    assert forall|b: int| 0 <= b < found.len() implies after.boundaries.contains(
        #[trigger] found[b],
    ) by {
        assert(walk.boundaries.contains(found[b]));
        let k = choose|k: int|
            0 <= k < walk.boundaries.len() && walk.boundaries[k] == found[b];
        assert(after.boundaries.contains(walk.boundaries[k]));
    }
    if trail.edges.len() < bounds.depth {
        let around = ordered_edges(edges, trail.node.id, bounds.direction);
        assert forall|k: int| 0 <= k < around.len() implies goes_on(
            after,
            trail,
            #[trigger] around[k],
            bounds,
        ) by {
            assert(goes_on(walk, trail, around[k], bounds));
            lemma_goes_on_kept(walk, after, trail, around[k], bounds);
        }
    }
}

proof fn lemma_step(
    walk: WalkView,
    references: Seq<OpenReferenceView>,
    edges: Seq<ImpactEdgeView>,
    root: NodeView,
    bounds: ImpactBounds,
)
    requires
        sound(walk, edges, root, bounds),
        complete(walk, references, edges, bounds),
        0 <= walk.walked < walk.trails.len(),
    ensures
        sound(stepped(walk, references, edges, bounds), edges, root, bounds),
        complete(stepped(walk, references, edges, bounds), references, edges, bounds),
{
    let at = walk.walked;
    let trail = walk.trails[at];
    let found = boundaries_of(references, trail.node, trail.id);
    let noticed = noted(WalkView { walked: walk.walked + 1, ..walk }, trail, found);
    let after = stepped(walk, references, edges, bounds);
    let around = ordered_edges(edges, trail.node.id, bounds.direction);
    lemma_noted_sound(walk, references, edges, root, bounds);
    assert(noticed.trails == walk.trails);
    lemma_step_grows(walk, references, edges, bounds);
    if trail.edges.len() < bounds.depth {
        edges_around_touch(edges, trail.node.id, bounds.direction);
        lemma_all_followed(noticed, at, around, edges, root, bounds);
    }
    assert(after.boundaries == noticed.boundaries);
    assert(after.frontiers.len() >= noticed.frontiers.len());
    if after.frontiers.len() == 0 {
        assert(noticed.frontiers.len() == 0);
        assert(walk.frontiers.len() == 0);
        assert(noticed.boundaries == walk.boundaries + found);
        assert forall|b: int| 0 <= b < walk.boundaries.len() implies after.boundaries.contains(
            #[trigger] walk.boundaries[b],
        ) by {
            assert(after.boundaries[b] == walk.boundaries[b]);
        }
        assert forall|i: int| 0 <= i < after.walked implies #[trigger] exhausted(
            after,
            i,
            references,
            edges,
            bounds,
        ) by {
            if i < walk.walked {
                assert(exhausted(walk, i, references, edges, bounds));
                lemma_exhausted_kept(walk, after, i, references, edges, bounds);
            } else {
                assert(after.trails[i] == trail);
                assert forall|b: int| 0 <= b < found.len() implies after.boundaries.contains(
                    #[trigger] found[b],
                ) by {
                    assert(after.boundaries[walk.boundaries.len() + b] == found[b]);
                }
            }
        }
    }
}

proof fn lemma_continued(
    walk: WalkView,
    references: Seq<OpenReferenceView>,
    edges: Seq<ImpactEdgeView>,
    root: NodeView,
    bounds: ImpactBounds,
    steps: nat,
)
    requires
        sound(walk, edges, root, bounds),
        complete(walk, references, edges, bounds),
        walk.walked + steps >= IMPACT_EDGE_LIMIT,
    ensures
        sound(continued(walk, references, edges, bounds, steps), edges, root, bounds),
        complete(continued(walk, references, edges, bounds, steps), references, edges, bounds),
        continued(walk, references, edges, bounds, steps).walked == continued(
            walk,
            references,
            edges,
            bounds,
            steps,
        ).trails.len(),
    decreases steps,
{
    if steps > 0 && walk.walked < walk.trails.len() {
        lemma_step(walk, references, edges, root, bounds);
        lemma_step_grows(walk, references, edges, bounds);
        lemma_continued(
            stepped(walk, references, edges, bounds),
            references,
            edges,
            root,
            bounds,
            (steps - 1) as nat,
        );
    }
}

/// A walk follows every path that it finds. Each path starts at the root, takes given
/// edges that are worth following, in the direction asked for, visits no symbol twice
/// and is at most `depth` edges long. The symbols, edges and tests are those of the
/// paths, each once and in order, and open ends belong to paths; all stay within their
/// limits.
pub proof fn walks_are_bounded_and_sound(
    references: Seq<OpenReferenceView>,
    edges: Seq<ImpactEdgeView>,
    root: NodeView,
    bounds: ImpactBounds,
)
    ensures
        sound(impact_of(references, edges, root, bounds), edges, root, bounds),
        impact_of(references, edges, root, bounds).walked == impact_of(
            references,
            edges,
            root,
            bounds,
        ).trails.len(),
        complete(impact_of(references, edges, root, bounds), references, edges, bounds),
{
    let start = at_root(root);
    assert(is_trail(start.trails[0], edges, root, bounds));
    assert(edges_known(start, start.trails[0]));
    lemma_continued(start, references, edges, root, bounds, IMPACT_EDGE_LIMIT as nat);
}

/// A walk that reports no frontier has left nothing out: every path that is shorter than
/// `depth` goes on along each edge that it may take, and every open end is reported.
pub proof fn walks_without_frontiers_are_complete(
    references: Seq<OpenReferenceView>,
    edges: Seq<ImpactEdgeView>,
    root: NodeView,
    bounds: ImpactBounds,
    i: int,
)
    requires
        impact_of(references, edges, root, bounds).frontiers.len() == 0,
        0 <= i < impact_of(references, edges, root, bounds).trails.len(),
    ensures
        exhausted(
            impact_of(references, edges, root, bounds),
            i,
            references,
            edges,
            bounds,
        ),
{
    walks_are_bounded_and_sound(references, edges, root, bounds);
}

// ---------------------------------------------------------------------------
// All paths

/// There is one edge for each pair of ends and relation.
pub open spec fn told_apart(edges: Seq<ImpactEdgeView>) -> bool {
    forall|i: int, j: int|
        #![trigger edges[i], edges[j]]
        0 <= i < edges.len() && 0 <= j < edges.len() && edges[i].source.id == edges[j].source.id
            && edges[i].target.id == edges[j].target.id && edges[i].relationship
            == edges[j].relationship ==> edges[i] == edges[j]
}

proof fn lemma_around(
    edges: Seq<ImpactEdgeView>,
    edge: ImpactEdgeView,
    id: Seq<char>,
    direction: ImpactDirection,
)
    requires
        edges.contains(edge),
        starts_at(edge, id, direction),
    ensures
        edges_around(edges, id, direction).contains(edge),
{
    let out = outgoing(edges, id);
    let inc = incoming(edges, id);
    lemma_touching_ends(edges, edge, id);
    if out.contains(edge) && edge.source.id == id && direction != ImpactDirection::Callers {
        let t = choose|t: int| 0 <= t < out.len() && out[t] == edge;
        assert(edges_around(edges, id, direction)[t] == edge);
    } else {
        let t = choose|t: int| 0 <= t < inc.len() && inc[t] == edge;
        if direction == ImpactDirection::Both {
            assert((out + inc)[out.len() + t] == edge);
        }
    }
}

proof fn lemma_touching_ends(edges: Seq<ImpactEdgeView>, edge: ImpactEdgeView, id: Seq<char>)
    requires
        edges.contains(edge),
    ensures
        edge.source.id == id ==> outgoing(edges, id).contains(edge),
        edge.target.id == id ==> incoming(edges, id).contains(edge),
    decreases edges.len(),
{
    let k = choose|k: int| 0 <= k < edges.len() && edges[k] == edge;
    let front = edges.drop_last();
    let out = outgoing(edges, id);
    let inc = incoming(edges, id);
    let out_front = outgoing(front, id);
    let inc_front = incoming(front, id);
    if k < front.len() {
        assert(front[k] == edge);
        lemma_touching_ends(front, edge, id);
        if edge.source.id == id {
            let t = choose|t: int| 0 <= t < out_front.len() && out_front[t] == edge;
            assert(out[t] == edge);
        }
        if edge.target.id == id {
            let t = choose|t: int| 0 <= t < inc_front.len() && inc_front[t] == edge;
            assert(inc[t] == edge);
        }
    } else {
        if edge.source.id == id {
            assert(out[out_front.len() as int] == edge);
        }
        if edge.target.id == id {
            assert(inc[inc_front.len() as int] == edge);
        }
    }
}

proof fn lemma_ordered_hold(
    edges: Seq<ImpactEdgeView>,
    edge: ImpactEdgeView,
    id: Seq<char>,
    direction: ImpactDirection,
)
    requires
        told_apart(edges),
        edges.contains(edge),
        starts_at(edge, id, direction),
    ensures
        ordered_edges(edges, id, direction).contains(edge),
{
    let around = edges_around(edges, id, direction);
    let precedes = relation_of::<ImpactEdge, ByEnds>(ByEnds);
    let alike = sameness_of::<ImpactEdge, ByEnds>(ByEnds);
    let sorted = sorted_by(around, precedes);
    let kept = ordered_edges(edges, id, direction);
    lemma_around(edges, edge, id, direction);
    sorting_keeps_members(around, precedes);
    assert(sorted.contains(edge));
    let k = choose|k: int| 0 <= k < sorted.len() && sorted[k] == edge;
    kept_items_stand_for_all(sorted, alike, k);
    let i = choose|i: int| 0 <= i < kept.len() && alike(sorted[k], #[trigger] kept[i]);
    edges_around_touch(edges, id, direction);
    assert(edges.contains(kept[i]));
    let a = choose|a: int| 0 <= a < edges.len() && edges[a] == edge;
    let b = choose|b: int| 0 <= b < edges.len() && edges[b] == kept[i];
    assert(edges[a] == edges[b]);
    assert(kept[i] == edge);
}

proof fn lemma_edges_fix_the_way(
    left: TrailView,
    right: TrailView,
    edges: Seq<ImpactEdgeView>,
    root: NodeView,
    bounds: ImpactBounds,
    k: int,
)
    requires
        is_trail(left, edges, root, bounds),
        is_trail(right, edges, root, bounds),
        left.edges == right.edges,
        0 <= k <= left.edges.len(),
    ensures
        left.node_ids[k] == right.node_ids[k],
    decreases k,
{
    if k > 0 {
        lemma_edges_fix_the_way(left, right, edges, root, bounds, k - 1);
        assert(edge_fits(left, k - 1, edges, bounds));
        assert(edge_fits(right, k - 1, edges, bounds));
        assert(left.node_ids[k - 1] != left.node_ids[k]);
        assert(right.node_ids[k - 1] != right.node_ids[k]);
    }
}

pub proof fn lemma_first_path_stays(
    walk: WalkView,
    references: Seq<OpenReferenceView>,
    edges: Seq<ImpactEdgeView>,
    bounds: ImpactBounds,
    steps: nat,
)
    requires
        0 <= walk.walked <= walk.trails.len() <= IMPACT_EDGE_LIMIT,
        walk.trails.len() > 0,
    ensures
        continued(walk, references, edges, bounds, steps).trails.len() > 0,
        continued(walk, references, edges, bounds, steps).trails[0] == walk.trails[0],
    decreases steps,
{
    if steps > 0 && walk.walked < walk.trails.len() {
        lemma_step_grows(walk, references, edges, bounds);
        let after = stepped(walk, references, edges, bounds);
        assert(after.trails[0] == walk.trails[0]);
        lemma_first_path_stays(after, references, edges, bounds, (steps - 1) as nat);
    }
}

/// Every path but the first takes an edge.
pub open spec fn later_ones_take_edges(walk: WalkView) -> bool {
    forall|i: int| 1 <= i < walk.trails.len() ==> (#[trigger] walk.trails[i]).edges.len() > 0
}

proof fn lemma_followed_later(
    walk: WalkView,
    trail: TrailView,
    edges: Seq<ImpactEdgeView>,
    bounds: ImpactBounds,
)
    requires
        later_ones_take_edges(walk),
    ensures
        later_ones_take_edges(followed_all(walk, trail, edges, bounds)),
    decreases edges.len(),
{
    if edges.len() > 0 {
        lemma_followed_later(walk, trail, edges.drop_last(), bounds);
    }
}

pub proof fn lemma_later_paths(
    walk: WalkView,
    references: Seq<OpenReferenceView>,
    edges: Seq<ImpactEdgeView>,
    bounds: ImpactBounds,
    steps: nat,
)
    requires
        later_ones_take_edges(walk),
    ensures
        later_ones_take_edges(continued(walk, references, edges, bounds, steps)),
    decreases steps,
{
    if steps > 0 && walk.walked < walk.trails.len() {
        let trail = walk.trails[walk.walked];
        let noticed = noted(
            WalkView { walked: walk.walked + 1, ..walk },
            trail,
            boundaries_of(references, trail.node, trail.id),
        );
        lemma_followed_later(
            noticed,
            trail,
            ordered_edges(edges, trail.node.id, bounds.direction),
            bounds,
        );
        lemma_later_paths(
            stepped(walk, references, edges, bounds),
            references,
            edges,
            bounds,
            (steps - 1) as nat,
        );
    }
}

/// A path is reported: one with its edges and symbols is among those of the walk.
pub open spec fn reported(walk: WalkView, trail: TrailView) -> bool {
    exists|i: int|
        0 <= i < walk.trails.len() && (#[trigger] walk.trails[i]).edges == trail.edges
            && walk.trails[i].node_ids == trail.node_ids
}

/// A walk that reports no frontier has found every path there is: each way from the root
/// along edges worth following, in the direction asked for, that visits no symbol twice
/// and takes at most `depth` edges is one of its paths.
pub proof fn walks_without_frontiers_find_all_paths(
    references: Seq<OpenReferenceView>,
    edges: Seq<ImpactEdgeView>,
    root: NodeView,
    bounds: ImpactBounds,
    trail: TrailView,
)
    requires
        told_apart(edges),
        impact_of(references, edges, root, bounds).frontiers.len() == 0,
        is_trail(trail, edges, root, bounds),
    ensures
        reported(impact_of(references, edges, root, bounds), trail),
    decreases trail.edges.len(),
{
    let walk = impact_of(references, edges, root, bounds);
    walks_are_bounded_and_sound(references, edges, root, bounds);
    if trail.edges.len() == 0 {
        lemma_first_path_stays(
            at_root(root),
            references,
            edges,
            bounds,
            IMPACT_EDGE_LIMIT as nat,
        );
        assert(walk.trails[0].edges =~= trail.edges);
        assert(walk.trails[0].node_ids =~= trail.node_ids);
    } else {
        let last = trail.edges.len() - 1;
        let edge = trail.edges[last];
        let from = trail.node_ids[last];
        assert(edge_fits(trail, last, edges, bounds));
        let shorter = TrailView {
            id: trail.id,
            node: if edge.source.id == from {
                edge.source
            } else {
                edge.target
            },
            node_ids: trail.node_ids.drop_last(),
            edges: trail.edges.drop_last(),
        };
        assert forall|k: int| 0 <= k < shorter.edges.len() implies #[trigger] edge_fits(
            shorter,
            k,
            edges,
            bounds,
        ) by {
            assert(edge_fits(trail, k, edges, bounds));
        }
        assert(is_trail(shorter, edges, root, bounds));
        walks_without_frontiers_find_all_paths(references, edges, root, bounds, shorter);
        let i = choose|i: int|
            0 <= i < walk.trails.len() && (#[trigger] walk.trails[i]).edges == shorter.edges
                && walk.trails[i].node_ids == shorter.node_ids;
        let before = walk.trails[i];
        assert(is_trail(before, edges, root, bounds));
        assert(before.node.id == from);
        walks_without_frontiers_are_complete(references, edges, root, bounds, i);
        lemma_ordered_hold(edges, edge, from, bounds.direction);
        let around = ordered_edges(edges, from, bounds.direction);
        let k = choose|k: int| 0 <= k < around.len() && around[k] == edge;
        assert(goes_on(walk, before, around[k], bounds));
        let to = trail.node_ids[last + 1];
        assert(from != to);
        assert(other_end(edge, from).id == to);
        assert(!before.node_ids.contains(to)) by {
            if before.node_ids.contains(to) {
                let t = choose|t: int| 0 <= t < before.node_ids.len() && before.node_ids[t] == to;
                assert(trail.node_ids[t] == to);
            }
        }
        let j = choose|j: int|
            0 <= j < walk.trails.len() && (#[trigger] walk.trails[j]).edges
                == before.edges.push(edge) && walk.trails[j].node == other_end(
                edge,
                before.node.id,
            );
        let found = walk.trails[j];
        assert(found.edges =~= trail.edges);
        assert(is_trail(found, edges, root, bounds));
        assert forall|t: int| 0 <= t < trail.node_ids.len() implies found.node_ids[t]
            == trail.node_ids[t] by {
            lemma_edges_fix_the_way(found, trail, edges, root, bounds, t);
        }
        assert(found.node_ids =~= trail.node_ids);
    }
}

/// A result that is not truncated holds every path there is.
pub proof fn whole_results_hold_all_paths(
    references: Seq<OpenReferenceView>,
    edges: Seq<ImpactEdgeView>,
    root: NodeView,
    bounds: ImpactBounds,
    trail: TrailView,
)
    requires
        told_apart(edges),
        !result_of(impact_of(references, edges, root, bounds)).truncated,
        is_trail(trail, edges, root, bounds),
    ensures
        ({
            let paths = result_of(impact_of(references, edges, root, bounds)).paths;
            exists|i: int| 0 <= i < paths.len() && (#[trigger] paths[i]).edges == trail.edges
        }),
{
    let walk = impact_of(references, edges, root, bounds);
    walks_without_frontiers_find_all_paths(references, edges, root, bounds, trail);
    let i = choose|i: int|
        0 <= i < walk.trails.len() && (#[trigger] walk.trails[i]).edges == trail.edges
            && walk.trails[i].node_ids == trail.node_ids;
    assert(result_of(walk).paths[i].edges == trail.edges);
}

/// No two paths of a walk have the same id.
pub proof fn path_ids_are_distinct(
    references: Seq<OpenReferenceView>,
    edges: Seq<ImpactEdgeView>,
    root: NodeView,
    bounds: ImpactBounds,
    i: int,
    j: int,
)
    requires
        0 <= i < j < impact_of(references, edges, root, bounds).trails.len(),
    ensures
        impact_of(references, edges, root, bounds).trails[i].id != impact_of(
            references,
            edges,
            root,
            bounds,
        ).trails[j].id,
{
    let walk = impact_of(references, edges, root, bounds);
    walks_are_bounded_and_sound(references, edges, root, bounds);
    assert(walk.trails[i].id == path_name(i) && walk.trails[j].id == path_name(j));
    reveal_strlit("root");
    reveal_strlit("p");
    assert(path_name(j).skip(1) =~= decimal(j));
    assert(path_name(j)[0] == 'p');
    written_numbers_are_read_back(j);
    if i == 0 {
        assert(path_name(i)[0] == 'r');
    } else {
        assert(path_name(i).skip(1) =~= decimal(i));
        written_numbers_are_read_back(i);
    }
}

} // verus!

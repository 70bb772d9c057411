//! What holds of every walk over a tree that carries a state from each node to those below
//! it.

use vstd::prelude::*;
use crate::db::{NodeView, RawCallView};
use crate::parser::common::ExtractionView;
use crate::parser::syntax::{
    end_from, end_of, lemma_end_from, subtree_end, SyntaxNodeView, TreeView,
};

verus! {

/// The last node before `before` whose subtree holds the node at `at`.
pub open spec fn holder_before(tree: TreeView, at: int, before: int) -> Option<int>
    decreases before,
{
    if before <= 0 {
        None
    } else if end_of(tree, before - 1) > at {
        Some(before - 1)
    } else {
        holder_before(tree, at, before - 1)
    }
}

/// The node right above the node at `at`: the last before it whose subtree holds it.
pub open spec fn holder(tree: TreeView, at: int) -> Option<int> {
    holder_before(tree, at, at)
}

/// A node above another stands before it and holds it, and none between the two does.
pub proof fn holders_hold(tree: TreeView, at: int, before: int)
    requires
        before <= at,
    ensures
        match holder_before(tree, at, before) {
            Some(above) => 0 <= above < before && above < at < end_of(tree, above) && forall|k: int|
                above < k < before ==> #[trigger] end_of(tree, k) <= at,
            None => forall|k: int| 0 <= k < before ==> #[trigger] end_of(tree, k) <= at,
        },
    decreases before,
{
    if before > 0 && end_of(tree, before - 1) <= at {
        holders_hold(tree, at, before - 1);
    }
}

/// A walk over the subtrees from `from` up to `limit`: each node adds to what was found and
/// hands a state on to the nodes below it.
pub open spec fn walk<S>(
    tree: TreeView,
    from: int,
    limit: int,
    state: S,
    below: spec_fn(int, S) -> S,
    adds: spec_fn(int, S, ExtractionView) -> ExtractionView,
    out: ExtractionView,
) -> ExtractionView
    decreases limit - from,
{
    if from >= limit {
        out
    } else {
        let end = subtree_end(tree, from, limit);
        if end <= from || end > limit {
            out
        } else {
            let inside = walk(
                tree,
                from + 1,
                end,
                below(from, state),
                below,
                adds,
                adds(from, state, out),
            );
            walk(tree, end, limit, state, below, adds, inside)
        }
    }
}

/// The state in which a walk reaches the node at `at`: the one that the node above hands
/// on.
pub open spec fn reached<S>(tree: TreeView, at: int, first: S, below: spec_fn(int, S) -> S) -> S
    decreases at,
{
    match holder(tree, at) {
        Some(above) => if 0 <= above < at {
            below(above, reached(tree, above, first, below))
        } else {
            first
        },
        None => first,
    }
}

/// The nodes from `from` up to `limit` are whole subtrees, next to one another below one
/// node.
pub open spec fn is_row(tree: TreeView, from: int, limit: int) -> bool {
    &&& 0 <= from <= limit <= tree.nodes.len()
    &&& limit < tree.nodes.len() ==> forall|k: int|
        from <= k < limit ==> (#[trigger] tree.nodes[k]).depth >= tree.nodes[limit].depth
    &&& forall|k: int| 0 <= k < from && #[trigger] end_of(tree, k) > from ==> end_of(tree, k) >= limit
}

proof fn lemma_deeper(nodes: Seq<SyntaxNodeView>, depth: int, from: int, limit: int)
    requires
        from <= limit,
    ensures
        from <= end_from(nodes, depth, from, limit) <= limit,
        forall|k: int|
            from <= k < end_from(nodes, depth, from, limit) ==> (#[trigger] nodes[k]).depth > depth,
        end_from(nodes, depth, from, limit) < limit ==> nodes[end_from(
            nodes,
            depth,
            from,
            limit,
        )].depth <= depth,
    decreases limit - from,
{
    if from < limit && nodes[from].depth > depth {
        lemma_deeper(nodes, depth, from + 1, limit);
    }
}

proof fn lemma_ends_at(nodes: Seq<SyntaxNodeView>, depth: int, from: int, stop: int, limit: int)
    requires
        from <= stop <= limit,
        stop < limit ==> nodes[stop].depth <= depth,
    ensures
        end_from(nodes, depth, from, limit) <= stop,
        end_from(nodes, depth, from, limit) == end_from(nodes, depth, from, stop),
    decreases stop - from,
{
    if from < stop && nodes[from].depth > depth {
        lemma_ends_at(nodes, depth, from + 1, stop, limit);
    }
}

pub proof fn lemma_row(tree: TreeView, from: int, limit: int)
    requires
        is_row(tree, from, limit),
        from < limit,
    ensures
        subtree_end(tree, from, limit) == end_of(tree, from),
        from < end_of(tree, from) <= limit,
        is_row(tree, from + 1, end_of(tree, from)),
        is_row(tree, end_of(tree, from), limit),
        from + 1 < end_of(tree, from) ==> holder(tree, from + 1) == Some(from),
        end_of(tree, from) < limit ==> holder(tree, end_of(tree, from)) == holder(tree, from),
{
    let nodes = tree.nodes;
    let len = nodes.len() as int;
    let depth = nodes[from].depth;
    lemma_ends_at(nodes, depth, from + 1, limit, len);
    lemma_deeper(nodes, depth, from + 1, len);
    let end = end_of(tree, from);
    assert forall|k: int| from <= k < end implies #[trigger] end_of(tree, k) <= end by {
        if end < len {
            assert(nodes[k].depth >= depth);
            lemma_ends_at(nodes, nodes[k].depth, k + 1, end, len);
        } else {
            lemma_end_from(nodes, nodes[k].depth, k + 1, len);
        }
    }
    assert(is_row(tree, from + 1, end)) by {
        if end < len {
            assert forall|k: int| from + 1 <= k < end implies (#[trigger] nodes[k]).depth
                >= nodes[end].depth by {
            }
        }
        assert forall|k: int| 0 <= k < from + 1 && #[trigger] end_of(tree, k) > from
            + 1 implies end_of(tree, k) >= end by {
        }
    }
    assert(is_row(tree, end, limit)) by {
        assert forall|k: int| 0 <= k < end && #[trigger] end_of(tree, k) > end implies end_of(
            tree,
            k,
        ) >= limit by {
        }
    }
    holders_hold(tree, from, from);
    if from + 1 < end {
        holders_hold(tree, from + 1, from + 1);
    }
    if end < limit {
        holders_hold(tree, end, end);
        match holder(tree, from) {
            Some(above) => {
                assert(end_of(tree, above) >= limit);
                assert(holder(tree, end) is Some) by {
                    if holder(tree, end) is None {
                        assert(end_of(tree, above) <= end);
                    }
                }
                let other = holder(tree, end)->0;
                if other < above {
                    assert(end_of(tree, above) <= end);
                } else if other > above {
                    if other >= from {
                        assert(end_of(tree, other) <= end);
                    } else {
                        assert(end_of(tree, other) <= from);
                    }
                }
            },
            None => {
                if let Some(other) = holder(tree, end) {
                    if other >= from {
                        assert(end_of(tree, other) <= end);
                    } else {
                        assert(end_of(tree, other) <= from);
                    }
                }
            },
        }
    }
}

/// What a node adds in a state: of the call and the symbol, just what it gives and makes.
pub open spec fn adds_just<S>(
    adds: spec_fn(int, S, ExtractionView) -> ExtractionView,
    call: RawCallView,
    gives: spec_fn(int, S) -> bool,
    node: NodeView,
    makes: spec_fn(int, S) -> bool,
) -> bool {
    forall|at: int, state: S, out: ExtractionView|
        {
            let after = #[trigger] adds(at, state, out);
            &&& after.calls.contains(call) <==> out.calls.contains(call) || gives(at, state)
            &&& after.nodes.contains(node) <==> out.nodes.contains(node) || makes(at, state)
        }
}

/// Some node from `from` up to `limit` meets a condition in the state in which it is
/// reached.
pub open spec fn some_reached<S>(
    tree: TreeView,
    from: int,
    limit: int,
    first: S,
    below: spec_fn(int, S) -> S,
    meets: spec_fn(int, S) -> bool,
) -> bool {
    exists|at: int| from <= at < limit && meets(at, #[trigger] reached(tree, at, first, below))
}

proof fn lemma_some_reached<S>(
    tree: TreeView,
    from: int,
    end: int,
    limit: int,
    first: S,
    below: spec_fn(int, S) -> S,
    meets: spec_fn(int, S) -> bool,
)
    requires
        from < end <= limit,
    ensures
        some_reached(tree, from, limit, first, below, meets) <==> meets(
            from,
            reached(tree, from, first, below),
        ) || some_reached(tree, from + 1, end, first, below, meets) || some_reached(
            tree,
            end,
            limit,
            first,
            below,
            meets,
        ),
{
    if some_reached(tree, from, limit, first, below, meets) {
        let at = choose|at: int|
            from <= at < limit && meets(at, #[trigger] reached(tree, at, first, below));
        if at != from {
            if at < end {
                assert(some_reached(tree, from + 1, end, first, below, meets));
            } else {
                assert(some_reached(tree, end, limit, first, below, meets));
            }
        }
    }
    if some_reached(tree, from + 1, end, first, below, meets) {
        let at = choose|at: int|
            from + 1 <= at < end && meets(at, #[trigger] reached(tree, at, first, below));
        assert(from <= at < limit && meets(at, reached(tree, at, first, below)));
    }
    if some_reached(tree, end, limit, first, below, meets) {
        let at = choose|at: int|
            end <= at < limit && meets(at, #[trigger] reached(tree, at, first, below));
        assert(from <= at < limit && meets(at, reached(tree, at, first, below)));
    }
}

proof fn lemma_walk<S>(
    tree: TreeView,
    from: int,
    limit: int,
    first: S,
    state: S,
    below: spec_fn(int, S) -> S,
    adds: spec_fn(int, S, ExtractionView) -> ExtractionView,
    out: ExtractionView,
    call: RawCallView,
    gives: spec_fn(int, S) -> bool,
    node: NodeView,
    makes: spec_fn(int, S) -> bool,
)
    requires
        is_row(tree, from, limit),
        from < limit ==> state == reached(tree, from, first, below),
        adds_just(adds, call, gives, node, makes),
    ensures
        ({
            let after = walk(tree, from, limit, state, below, adds, out);
            &&& after.calls.contains(call) <==> out.calls.contains(call) || some_reached(
                tree,
                from,
                limit,
                first,
                below,
                gives,
            )
            &&& after.nodes.contains(node) <==> out.nodes.contains(node) || some_reached(
                tree,
                from,
                limit,
                first,
                below,
                makes,
            )
        }),
    decreases limit - from,
{
    if from < limit {
        lemma_row(tree, from, limit);
        holders_hold(tree, from, from);
        let end = subtree_end(tree, from, limit);
        if end < limit {
            assert(reached(tree, end, first, below) == reached(tree, from, first, below));
        }
        let here = adds(from, state, out);
        let inner = below(from, state);
        let inside = walk(tree, from + 1, end, inner, below, adds, here);
        lemma_walk(
            tree,
            from + 1,
            end,
            first,
            inner,
            below,
            adds,
            here,
            call,
            gives,
            node,
            makes,
        );
        lemma_walk(
            tree,
            end,
            limit,
            first,
            state,
            below,
            adds,
            inside,
            call,
            gives,
            node,
            makes,
        );
        lemma_some_reached(tree, from, end, limit, first, below, gives);
        lemma_some_reached(tree, from, end, limit, first, below, makes);
    }
}

/// A walk over a whole tree finds what some node adds in the state in which it is reached,
/// and nothing else.
pub proof fn walks_reach_every_node<S>(
    tree: TreeView,
    first: S,
    below: spec_fn(int, S) -> S,
    adds: spec_fn(int, S, ExtractionView) -> ExtractionView,
    out: ExtractionView,
    call: RawCallView,
    gives: spec_fn(int, S) -> bool,
    node: NodeView,
    makes: spec_fn(int, S) -> bool,
)
    requires
        adds_just(adds, call, gives, node, makes),
    ensures
        ({
            let all = tree.nodes.len() as int;
            let after = walk(tree, 0, all, first, below, adds, out);
            &&& after.calls.contains(call) <==> out.calls.contains(call) || some_reached(
                tree,
                0,
                all,
                first,
                below,
                gives,
            )
            &&& after.nodes.contains(node) <==> out.nodes.contains(node) || some_reached(
                tree,
                0,
                all,
                first,
                below,
                makes,
            )
        }),
{
    lemma_walk(
        tree,
        0,
        tree.nodes.len() as int,
        first,
        first,
        below,
        adds,
        out,
        call,
        gives,
        node,
        makes,
    );
}

} // verus!

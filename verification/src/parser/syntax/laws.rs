//! How the nodes of a tree stand to one another.

use vstd::prelude::*;
use crate::parser::syntax::{
    child_in_field, child_of_kind, children, end_from, end_of, first_in_field, first_of_kind,
    last_not_deeper, last_of_kinds, lemma_roots_bounds, lemma_roots_step, next_of_kind, parent_of,
    previous_sibling, roots, subtree_end, SyntaxNodeView, TreeView,
};

verus! {

proof fn lemma_deeper(nodes: Seq<SyntaxNodeView>, depth: int, from: int, limit: int)
    requires
        from <= limit,
    ensures
        from <= end_from(nodes, depth, from, limit) <= limit,
        forall|k: int|
            from <= k < end_from(nodes, depth, from, limit) ==> (#[trigger] nodes[k]).depth > depth,
        end_from(nodes, depth, from, limit) < limit ==> nodes[end_from(
            nodes,
            depth,
            from,
            limit,
        )].depth <= depth,
    decreases limit - from,
{
    if from < limit && nodes[from].depth > depth {
        lemma_deeper(nodes, depth, from + 1, limit);
    }
}

/// The subtree of a node is the run of deeper nodes that follow it.
pub proof fn subtrees_are_runs_of_deeper_nodes(tree: TreeView, at: int, end: int)
    requires
        0 <= at < tree.nodes.len(),
    ensures
        end_of(tree, at) == end <==> {
            &&& at < end <= tree.nodes.len()
            &&& forall|k: int|
                at < k < end ==> (#[trigger] tree.nodes[k]).depth > tree.nodes[at].depth
            &&& end < tree.nodes.len() ==> tree.nodes[end].depth <= tree.nodes[at].depth
        },
{
    let depth = tree.nodes[at].depth;
    lemma_deeper(tree.nodes, depth, at + 1, tree.nodes.len() as int);
    let own = end_of(tree, at);
    if at < end <= tree.nodes.len() && (forall|k: int|
        at < k < end ==> (#[trigger] tree.nodes[k]).depth > depth) && (end < tree.nodes.len()
        ==> tree.nodes[end].depth <= depth) && own != end {
        if own < end {
            assert(tree.nodes[own].depth > depth);
        } else {
            assert(tree.nodes[end].depth > depth);
        }
    }
}

/// The depths of the nodes of a subtree go down by one at a time, as those of a tree do.
pub open spec fn is_even(tree: TreeView) -> bool {
    forall|k: int|
        0 < k < tree.nodes.len() ==> (#[trigger] tree.nodes[k]).depth <= tree.nodes[k - 1].depth + 1
}

proof fn lemma_rows(tree: TreeView, from: int, limit: int, depth: int, child: int)
    requires
        0 <= from <= limit <= tree.nodes.len(),
        from < limit ==> tree.nodes[from].depth == depth,
        forall|k: int| from <= k < limit ==> (#[trigger] tree.nodes[k]).depth >= depth,
    ensures
        roots(tree, from, limit).contains(child) <==> from <= child < limit
            && tree.nodes[child].depth == depth,
    decreases limit - from,
{
    if from < limit {
        lemma_roots_step(tree, from, limit);
        lemma_deeper(tree.nodes, depth, from + 1, limit);
        let next = subtree_end(tree, from, limit);
        lemma_rows(tree, next, limit, depth, child);
        let all = roots(tree, from, limit);
        let rest = roots(tree, next, limit);
        if all.contains(child) {
            let i = choose|i: int| 0 <= i < all.len() && all[i] == child;
            if i > 0 {
                assert(rest[i - 1] == child);
                assert(rest.contains(child));
            }
        }
        if from <= child < limit && tree.nodes[child].depth == depth {
            if child == from {
                assert(all[0] == child);
            } else {
                assert(child >= next);
                let i = choose|i: int| 0 <= i < rest.len() && rest[i] == child;
                assert(all[i + 1] == child);
            }
        }
    }
}

/// The children of a node are the nodes of its subtree that are one deeper.
pub proof fn children_are_one_deeper(tree: TreeView, at: int, child: int)
    requires
        0 <= at < tree.nodes.len(),
        is_even(tree),
    ensures
        children(tree, at).contains(child) <==> at < child < end_of(tree, at)
            && tree.nodes[child].depth == tree.nodes[at].depth + 1,
{
    let end = end_of(tree, at);
    subtrees_are_runs_of_deeper_nodes(tree, at, end);
    if at + 1 < end {
        assert(tree.nodes[at + 1].depth <= tree.nodes[at].depth + 1);
    }
    lemma_rows(tree, at + 1, end, tree.nodes[at].depth + 1, child);
}

proof fn lemma_roots_ascend(tree: TreeView, from: int, limit: int)
    ensures
        forall|i: int, j: int|
            #![trigger roots(tree, from, limit)[i], roots(tree, from, limit)[j]]
            0 <= i < j < roots(tree, from, limit).len() ==> roots(tree, from, limit)[i] < roots(
                tree,
                from,
                limit,
            )[j],
    decreases limit - from,
{
    if from < limit {
        lemma_roots_step(tree, from, limit);
        let next = subtree_end(tree, from, limit);
        lemma_roots_ascend(tree, next, limit);
        lemma_roots_bounds(tree, next, limit);
        let rest = roots(tree, next, limit);
        let all = roots(tree, from, limit);
        assert forall|i: int, j: int|
            #![trigger all[i], all[j]]
            0 <= i < j < all.len() implies all[i] < all[j] by {
            assert(all[j] == rest[j - 1]);
            if i > 0 {
                assert(all[i] == rest[i - 1]);
            }
        }
    }
}

/// The children of a node come in the order of the source.
pub proof fn children_come_in_order(tree: TreeView, at: int)
    ensures
        forall|i: int, j: int|
            #![trigger children(tree, at)[i], children(tree, at)[j]]
            0 <= i < j < children(tree, at).len() ==> children(tree, at)[i] < children(
                tree,
                at,
            )[j],
{
    lemma_roots_ascend(tree, at + 1, end_of(tree, at));
}

/// The first of the nodes that meets a condition stands at `i`.
pub open spec fn is_first(nodes: Seq<int>, i: int, meets: spec_fn(int) -> bool) -> bool {
    &&& 0 <= i < nodes.len()
    &&& meets(nodes[i])
    &&& forall|j: int| 0 <= j < i ==> !meets(#[trigger] nodes[j])
}

/// None of the nodes meets a condition.
pub open spec fn none_meets(nodes: Seq<int>, meets: spec_fn(int) -> bool) -> bool {
    forall|j: int| 0 <= j < nodes.len() ==> !meets(#[trigger] nodes[j])
}

proof fn lemma_first_rest(nodes: Seq<int>, i: int, meets: spec_fn(int) -> bool)
    requires
        nodes.len() > 0,
    ensures
        is_first(nodes, i, meets) && i > 0 ==> !meets(nodes[0]) && is_first(
            nodes.skip(1),
            i - 1,
            meets,
        ) && nodes.skip(1)[i - 1] == nodes[i],
        none_meets(nodes, meets) ==> !meets(nodes[0]) && none_meets(nodes.skip(1), meets),
{
    let rest = nodes.skip(1);
    if is_first(nodes, i, meets) && i > 0 {
        assert(!meets(nodes[0]));
        assert forall|j: int| 0 <= j < i - 1 implies !meets(#[trigger] rest[j]) by {
            assert(rest[j] == nodes[j + 1]);
        }
    }
    if none_meets(nodes, meets) {
        assert(!meets(nodes[0]));
        assert forall|j: int| 0 <= j < rest.len() implies !meets(#[trigger] rest[j]) by {
            assert(rest[j] == nodes[j + 1]);
        }
    }
}

proof fn lemma_first_of_kind(tree: TreeView, nodes: Seq<int>, i: int, kind: Seq<char>)
    ensures
        is_first(nodes, i, |at: int| tree.nodes[at].kind == kind) ==> first_of_kind(
            tree,
            nodes,
            kind,
        ) == Some(nodes[i]),
        none_meets(nodes, |at: int| tree.nodes[at].kind == kind) ==> first_of_kind(
            tree,
            nodes,
            kind,
        ) is None,
    decreases nodes.len(),
{
    if nodes.len() > 0 {
        lemma_first_rest(nodes, i, |at: int| tree.nodes[at].kind == kind);
        lemma_first_of_kind(tree, nodes.skip(1), i - 1, kind);
    }
}

proof fn lemma_first_in_field(tree: TreeView, nodes: Seq<int>, i: int, field: Seq<char>)
    ensures
        is_first(nodes, i, |at: int| tree.nodes[at].field == Some(field)) ==> first_in_field(
            tree,
            nodes,
            field,
        ) == Some(nodes[i]),
        none_meets(nodes, |at: int| tree.nodes[at].field == Some(field)) ==> first_in_field(
            tree,
            nodes,
            field,
        ) is None,
    decreases nodes.len(),
{
    if nodes.len() > 0 {
        lemma_first_rest(nodes, i, |at: int| tree.nodes[at].field == Some(field));
        lemma_first_in_field(tree, nodes.skip(1), i - 1, field);
    }
}

/// A child is found by its kind, and by the field that it fills: the first one, and none
/// where no child is of the kind or fills the field.
pub proof fn the_first_child_is_found(
    tree: TreeView,
    at: int,
    i: int,
    kind: Seq<char>,
    field: Seq<char>,
)
    ensures
        ({
            let all = children(tree, at);
            let of_kind = |child: int| tree.nodes[child].kind == kind;
            let in_field = |child: int| tree.nodes[child].field == Some(field);
            &&& is_first(all, i, of_kind) ==> child_of_kind(tree, at, kind) == Some(all[i])
            &&& none_meets(all, of_kind) ==> child_of_kind(tree, at, kind) is None
            &&& is_first(all, i, in_field) ==> child_in_field(tree, at, field) == Some(all[i])
            &&& none_meets(all, in_field) ==> child_in_field(tree, at, field) is None
        }),
{
    lemma_first_of_kind(tree, children(tree, at), i, kind);
    lemma_first_in_field(tree, children(tree, at), i, field);
}

proof fn lemma_last_not_deeper(nodes: Seq<SyntaxNodeView>, depth: int, before: int, found: int)
    ensures
        last_not_deeper(nodes, depth, before) == Some(found) <==> {
            &&& 0 <= found < before
            &&& nodes[found].depth <= depth
            &&& forall|k: int| found < k < before ==> (#[trigger] nodes[k]).depth > depth
        },
        last_not_deeper(nodes, depth, before) is None <==> forall|k: int|
            0 <= k < before ==> (#[trigger] nodes[k]).depth > depth,
    decreases before,
{
    if before > 0 {
        lemma_last_not_deeper(nodes, depth, before - 1, found);
        assert(nodes[before - 1].depth <= depth || nodes[before - 1].depth > depth);
    }
}

/// The parent of a node is the last before it that is less deep. The sibling before it is
/// the last before it that is as deep, where only deeper ones stand between.
pub proof fn parents_and_siblings_stand_before(tree: TreeView, at: int, other: int)
    requires
        0 <= at < tree.nodes.len(),
    ensures
        parent_of(tree, at) == Some(other) <==> {
            &&& 0 <= other < at
            &&& tree.nodes[other].depth < tree.nodes[at].depth
            &&& forall|k: int|
                other < k < at ==> (#[trigger] tree.nodes[k]).depth >= tree.nodes[at].depth
        },
        previous_sibling(tree, at) == Some(other) <==> {
            &&& 0 <= other < at
            &&& tree.nodes[other].depth == tree.nodes[at].depth
            &&& forall|k: int|
                other < k < at ==> (#[trigger] tree.nodes[k]).depth > tree.nodes[at].depth
        },
{
    let depth = tree.nodes[at].depth;
    lemma_last_not_deeper(tree.nodes, depth, at, other);
    lemma_last_not_deeper(tree.nodes, depth - 1, at, other);
}

/// A search forward finds the first node of a kind, and a search backward the last of some
/// kinds.
pub proof fn searches_find_the_nearest(
    tree: TreeView,
    from: int,
    to: int,
    kind: Seq<char>,
    kinds: Seq<Seq<char>>,
    found: int,
)
    ensures
        next_of_kind(tree, from, to, kind) == Some(found) <==> {
            &&& from <= found < to
            &&& tree.nodes[found].kind == kind
            &&& forall|k: int| from <= k < found ==> (#[trigger] tree.nodes[k]).kind != kind
        },
        last_of_kinds(tree, from, to, kinds) == Some(found) <==> {
            &&& from <= found < to
            &&& kinds.contains(tree.nodes[found].kind)
            &&& forall|k: int|
                found < k < to ==> !kinds.contains((#[trigger] tree.nodes[k]).kind)
        },
{
    lemma_next(tree, from, to, kind, found);
    lemma_last(tree, from, to, kinds, found);
}

proof fn lemma_next(tree: TreeView, from: int, to: int, kind: Seq<char>, found: int)
    ensures
        next_of_kind(tree, from, to, kind) == Some(found) <==> {
            &&& from <= found < to
            &&& tree.nodes[found].kind == kind
            &&& forall|k: int| from <= k < found ==> (#[trigger] tree.nodes[k]).kind != kind
        },
    decreases to - from,
{
    if from < to {
        lemma_next(tree, from + 1, to, kind, found);
        assert(tree.nodes[from].kind == kind || tree.nodes[from].kind != kind);
    }
}

proof fn lemma_last(tree: TreeView, from: int, to: int, kinds: Seq<Seq<char>>, found: int)
    ensures
        last_of_kinds(tree, from, to, kinds) == Some(found) <==> {
            &&& from <= found < to
            &&& kinds.contains(tree.nodes[found].kind)
            &&& forall|k: int|
                found < k < to ==> !kinds.contains((#[trigger] tree.nodes[k]).kind)
        },
    decreases to - from,
{
    if from < to {
        lemma_last(tree, from, to - 1, kinds, found);
        assert(kinds.contains(tree.nodes[to - 1].kind) || !kinds.contains(
            tree.nodes[to - 1].kind,
        ));
    }
}

} // verus!

//! Bringing edges into their canonical order: ascending by source, target and
//! kind, with one edge for each such triple, at its highest resolution kind.

use vstd::prelude::*;
use crate::db::{Edge, EdgeView};
use crate::text::{
    lemma_text_lt_irreflexive, lemma_text_lt_total, lemma_text_lt_transitive, lemma_views_push,
    less, same, text_lt, views,
};

verus! {

/// What identifies an edge: its source, its target and its kind.
#[verifier::ext_equal]
pub struct EdgeKey {
    pub source_id: Seq<char>,
    pub target_id: Seq<char>,
    pub kind: Seq<char>,
}

/// The key of an edge.
pub open spec fn key_of(edge: EdgeView) -> EdgeKey {
    EdgeKey { source_id: edge.source_id, target_id: edge.target_id, kind: edge.kind }
}

/// The order of keys: by source, then by target, then by kind.
pub open spec fn key_lt(left: EdgeKey, right: EdgeKey) -> bool {
    if left.source_id != right.source_id {
        text_lt(left.source_id, right.source_id)
    } else if left.target_id != right.target_id {
        text_lt(left.target_id, right.target_id)
    } else {
        text_lt(left.kind, right.kind)
    }
}

/// The keys of the edges ascend strictly, so that none occurs twice.
pub open spec fn ascending(edges: Seq<EdgeView>) -> bool {
    forall|i: int, j: int|
        #![trigger edges[i], edges[j]]
        0 <= i < j < edges.len() ==> key_lt(key_of(edges[i]), key_of(edges[j]))
}

/// The highest resolution kind under each key.
pub open spec fn best_kinds(edges: Seq<EdgeView>) -> Map<EdgeKey, int>
    decreases edges.len(),
{
    if edges.len() == 0 {
        Map::empty()
    } else {
        let rest = best_kinds(edges.drop_last());
        let last = edges.last();
        let key = key_of(last);
        if rest.dom().contains(key) && rest[key] >= last.resolution_kind {
            rest
        } else {
            rest.insert(key, last.resolution_kind)
        }
    }
}

/// `merged` is the canonical form of `edges`: strictly ascending, with the same keys,
/// each at the highest resolution kind that it has among `edges`.
pub open spec fn is_canonical(merged: Seq<EdgeView>, edges: Seq<EdgeView>) -> bool {
    ascending(merged) && best_kinds(merged) == best_kinds(edges)
}

pub proof fn lemma_key_lt_irreflexive(key: EdgeKey)
    ensures
        !key_lt(key, key),
{
    lemma_text_lt_irreflexive(key.kind);
}

pub proof fn lemma_key_lt_transitive(a: EdgeKey, b: EdgeKey, c: EdgeKey)
    requires
        key_lt(a, b),
        key_lt(b, c),
    ensures
        key_lt(a, c),
{
    lemma_text_lt_irreflexive(a.source_id);
    lemma_text_lt_irreflexive(a.target_id);
    if a.source_id != b.source_id && b.source_id != c.source_id {
        lemma_text_lt_transitive(a.source_id, b.source_id, c.source_id);
    } else if a.source_id == b.source_id && b.source_id == c.source_id {
        if a.target_id != b.target_id && b.target_id != c.target_id {
            lemma_text_lt_transitive(a.target_id, b.target_id, c.target_id);
        } else if a.target_id == b.target_id && b.target_id == c.target_id {
            lemma_text_lt_transitive(a.kind, b.kind, c.kind);
        }
    }
}

pub proof fn lemma_key_lt_total(left: EdgeKey, right: EdgeKey)
    ensures
        left == right || key_lt(left, right) || key_lt(right, left),
{
    lemma_text_lt_total(left.source_id, right.source_id);
    lemma_text_lt_total(left.target_id, right.target_id);
    lemma_text_lt_total(left.kind, right.kind);
}

/// In ascending edges the kind under a key is that of the one edge that has it.
pub proof fn lemma_ascending_kinds(edges: Seq<EdgeView>)
    requires
        ascending(edges),
    ensures
        forall|i: int|
            0 <= i < edges.len() ==> best_kinds(edges).dom().contains(key_of(#[trigger] edges[i]))
                && best_kinds(edges)[key_of(edges[i])] == edges[i].resolution_kind,
        forall|key: EdgeKey| #[trigger]
            best_kinds(edges).dom().contains(key) ==> exists|i: int|
                0 <= i < edges.len() && key_of(#[trigger] edges[i]) == key,
    decreases edges.len(),
{
    if edges.len() > 0 {
        let front = edges.drop_last();
        let last = edges.last();
        assert forall|i: int, j: int| 0 <= i < j < front.len() implies key_lt(
            key_of(#[trigger] front[i]),
            key_of(#[trigger] front[j]),
        ) by {
            assert(edges[i] == front[i] && edges[j] == front[j]);
        }
        lemma_ascending_kinds(front);
        if best_kinds(front).dom().contains(key_of(last)) {
            let i = choose|i: int| 0 <= i < front.len() && key_of(#[trigger] front[i]) == key_of(last);
            assert(edges[i] == front[i]);
            assert(edges[edges.len() - 1] == last);
            lemma_key_lt_irreflexive(key_of(last));
        }
        assert forall|i: int| 0 <= i < edges.len() implies best_kinds(edges).dom().contains(
            key_of(#[trigger] edges[i]),
        ) && best_kinds(edges)[key_of(edges[i])] == edges[i].resolution_kind by {
            if i < front.len() {
                assert(edges[i] == front[i]);
                assert(edges[edges.len() - 1] == last);
                if key_of(edges[i]) == key_of(last) {
                    lemma_key_lt_irreflexive(key_of(last));
                }
            }
        }
        assert forall|key: EdgeKey| #[trigger] best_kinds(edges).dom().contains(key) implies exists|
            i: int,
        |
            0 <= i < edges.len() && key_of(#[trigger] edges[i]) == key by {
            if key == key_of(last) {
                assert(key_of(edges[edges.len() - 1]) == key);
            } else {
                let i = choose|i: int| 0 <= i < front.len() && key_of(#[trigger] front[i]) == key;
                assert(edges[i] == front[i]);
            }
        }
    }
}

/// The canonical form of a list of edges is unique.
pub proof fn canonical_form_is_unique(
    left: Seq<EdgeView>,
    right: Seq<EdgeView>,
    edges: Seq<EdgeView>,
)
    requires
        is_canonical(left, edges),
        is_canonical(right, edges),
    ensures
        left == right,
{
    lemma_ascending_equal(left, right);
}

proof fn lemma_ascending_equal(left: Seq<EdgeView>, right: Seq<EdgeView>)
    requires
        ascending(left),
        ascending(right),
        best_kinds(left) == best_kinds(right),
    ensures
        left == right,
    decreases left.len(),
{
    lemma_ascending_kinds(left);
    lemma_ascending_kinds(right);
    if left.len() == 0 {
        if right.len() > 0 {
            assert(best_kinds(right).dom().contains(key_of(right[0])));
        }
        assert(left =~= right);
    } else if right.len() == 0 {
        assert(best_kinds(left).dom().contains(key_of(left[0])));
    } else {
        let l = left.last();
        let r = right.last();
        let kl = key_of(l);
        let kr = key_of(r);
        assert(left[left.len() - 1] == l && right[right.len() - 1] == r);
        assert(best_kinds(right).dom().contains(kl));
        assert(best_kinds(left).dom().contains(kr));
        let i = choose|i: int| 0 <= i < right.len() && key_of(#[trigger] right[i]) == kl;
        let j = choose|j: int| 0 <= j < left.len() && key_of(#[trigger] left[j]) == kr;
        if i < right.len() - 1 && j < left.len() - 1 {
            assert(key_lt(key_of(right[i]), key_of(right[right.len() - 1])));
            assert(key_lt(key_of(left[j]), key_of(left[left.len() - 1])));
            lemma_key_lt_transitive(kl, kr, kl);
            lemma_key_lt_irreflexive(kl);
        }
        assert(kl == kr);
        assert(l.resolution_kind == best_kinds(left)[kl]);
        assert(r.resolution_kind == best_kinds(right)[kr]);
        assert(l =~= r);
        let lf = left.drop_last();
        let rf = right.drop_last();
        lemma_ascending_front(left);
        lemma_ascending_front(right);
        assert(best_kinds(lf) =~= best_kinds(left).remove(kl));
        assert(best_kinds(rf) =~= best_kinds(right).remove(kl));
        lemma_ascending_equal(lf, rf);
        assert(left =~= lf.push(l));
        assert(right =~= rf.push(r));
    }
}

proof fn lemma_ascending_front(edges: Seq<EdgeView>)
    requires
        ascending(edges),
        edges.len() > 0,
    ensures
        ascending(edges.drop_last()),
        !best_kinds(edges.drop_last()).dom().contains(key_of(edges.last())),
{
    let front = edges.drop_last();
    assert forall|i: int, j: int| 0 <= i < j < front.len() implies key_lt(
        key_of(#[trigger] front[i]),
        key_of(#[trigger] front[j]),
    ) by {
        assert(edges[i] == front[i] && edges[j] == front[j]);
    }
    lemma_ascending_kinds(front);
    if best_kinds(front).dom().contains(key_of(edges.last())) {
        let i = choose|i: int|
            0 <= i < front.len() && key_of(#[trigger] front[i]) == key_of(edges.last());
        assert(edges[i] == front[i]);
        assert(edges[edges.len() - 1] == edges.last());
        lemma_key_lt_irreflexive(key_of(edges.last()));
    }
}

/// The higher of the kinds under each key of either map.
pub open spec fn higher(left: Map<EdgeKey, int>, right: Map<EdgeKey, int>) -> Map<EdgeKey, int> {
    Map::new(
        |key: EdgeKey| left.dom().contains(key) || right.dom().contains(key),
        |key: EdgeKey|
            if left.dom().contains(key) && (!right.dom().contains(key) || left[key]
                >= right[key]) {
                left[key]
            } else {
                right[key]
            },
    )
}

/// The kinds of two lists of edges one after the other.
pub proof fn lemma_kinds_of_both(left: Seq<EdgeView>, right: Seq<EdgeView>)
    ensures
        best_kinds(left + right) == higher(best_kinds(left), best_kinds(right)),
    decreases right.len(),
{
    if right.len() == 0 {
        assert(left + right =~= left);
        assert(higher(best_kinds(left), best_kinds(right)) =~= best_kinds(left));
    } else {
        let front = right.drop_last();
        assert((left + right).drop_last() =~= left + front);
        assert((left + right).last() == right.last());
        lemma_kinds_of_both(left, front);
        assert(best_kinds(left + right) =~= higher(best_kinds(left), best_kinds(right)));
    }
}

// ---------------------------------------------------------------------------
// Sorting

/// How two keys compare.
#[derive(Debug, Clone, Copy, PartialEq, Eq)]
pub enum KeyOrder {
    Before,
    Equal,
    After,
}

fn compare_keys(left: &Edge, right: &Edge) -> (order: KeyOrder)
    ensures
        match order {
            KeyOrder::Before => key_lt(key_of(left@), key_of(right@)),
            KeyOrder::Equal => key_of(left@) == key_of(right@),
            KeyOrder::After => key_lt(key_of(right@), key_of(left@)),
        },
{
    proof {
        lemma_key_lt_total(key_of(left@), key_of(right@));
    }
    if !same(left.source_id.as_str(), right.source_id.as_str()) {
        if less(left.source_id.as_str(), right.source_id.as_str()) {
            KeyOrder::Before
        } else {
            KeyOrder::After
        }
    } else if !same(left.target_id.as_str(), right.target_id.as_str()) {
        if less(left.target_id.as_str(), right.target_id.as_str()) {
            KeyOrder::Before
        } else {
            KeyOrder::After
        }
    } else if !same(left.kind.as_str(), right.kind.as_str()) {
        if less(left.kind.as_str(), right.kind.as_str()) {
            KeyOrder::Before
        } else {
            KeyOrder::After
        }
    } else {
        KeyOrder::Equal
    }
}

/// The edges at the given positions.
spec fn picked(edges: Seq<Edge>, order: Seq<usize>) -> Seq<EdgeView> {
    Seq::new(order.len(), |i: int| edges[order[i] as int]@)
}

spec fn positions_below(order: Seq<usize>, count: int) -> bool {
    forall|i: int| 0 <= i < order.len() ==> (#[trigger] order[i]) < count
}

proof fn lemma_picked_push(edges: Seq<Edge>, order: Seq<usize>, at: usize)
    ensures
        picked(edges, order.push(at)) == picked(edges, order).push(edges[at as int]@),
{
    assert(picked(edges, order.push(at)) =~= picked(edges, order).push(edges[at as int]@));
}

/// Appending an edge whose key is above all others.
proof fn lemma_push_above(edges: Seq<EdgeView>, edge: EdgeView)
    requires
        ascending(edges),
        edges.len() > 0 ==> key_lt(key_of(edges.last()), key_of(edge)),
    ensures
        ascending(edges.push(edge)),
        best_kinds(edges.push(edge)) == best_kinds(edges).insert(
            key_of(edge),
            edge.resolution_kind,
        ),
{
    let all = edges.push(edge);
    assert forall|i: int, j: int| 0 <= i < j < all.len() implies key_lt(
        key_of(#[trigger] all[i]),
        key_of(#[trigger] all[j]),
    ) by {
        if j == edges.len() {
            assert(all[i] == edges[i]);
            if i < edges.len() - 1 {
                assert(key_lt(key_of(edges[i]), key_of(edges[edges.len() - 1])));
                lemma_key_lt_transitive(key_of(edges[i]), key_of(edges.last()), key_of(edge));
            }
        } else {
            assert(all[i] == edges[i] && all[j] == edges[j]);
        }
    }
    assert(all.drop_last() =~= edges);
    lemma_ascending_front(all);
}

/// Taking one more edge from a list whose keys ascend.
proof fn lemma_take_next(edges: Seq<EdgeView>, i: int)
    requires
        ascending(edges),
        0 <= i < edges.len(),
    ensures
        ascending(edges.take(i)),
        best_kinds(edges.take(i + 1)) == best_kinds(edges.take(i)).insert(
            key_of(edges[i]),
            edges[i].resolution_kind,
        ),
        !best_kinds(edges.take(i)).dom().contains(key_of(edges[i])),
{
    let upto = edges.take(i + 1);
    assert(upto.drop_last() =~= edges.take(i));
    assert forall|a: int, b: int| 0 <= a < b < upto.len() implies key_lt(
        key_of(#[trigger] upto[a]),
        key_of(#[trigger] upto[b]),
    ) by {
        assert(upto[a] == edges[a] && upto[b] == edges[b]);
    }
    lemma_ascending_front(upto);
}

/// A key below the next one of an ascending list is not among those before it, unless
/// it is one of them.
proof fn lemma_absent(edges: Seq<EdgeView>, i: int, key: EdgeKey)
    requires
        ascending(edges),
        0 <= i <= edges.len(),
        forall|a: int| 0 <= a < i ==> key_of(#[trigger] edges[a]) != key,
    ensures
        !best_kinds(edges.take(i)).dom().contains(key),
{
    let upto = edges.take(i);
    assert forall|a: int, b: int| 0 <= a < b < upto.len() implies key_lt(
        key_of(#[trigger] upto[a]),
        key_of(#[trigger] upto[b]),
    ) by {
        assert(upto[a] == edges[a] && upto[b] == edges[b]);
    }
    lemma_ascending_kinds(upto);
    if best_kinds(upto).dom().contains(key) {
        let a = choose|a: int| 0 <= a < upto.len() && key_of(#[trigger] upto[a]) == key;
        assert(edges[a] == upto[a]);
    }
}

/// Every edge up to `i` is below the edge at `at`.
spec fn all_below(edges: Seq<EdgeView>, i: int, bound: EdgeKey) -> bool {
    forall|a: int| 0 <= a < i ==> key_lt(key_of(#[trigger] edges[a]), bound)
}

/// Merges two ascending selections into one.
#[verifier::rlimit(40)]
fn merge(edges: &Vec<Edge>, left: &Vec<usize>, right: &Vec<usize>) -> (order: Vec<usize>)
    requires
        positions_below(left@, edges@.len() as int),
        positions_below(right@, edges@.len() as int),
        ascending(picked(edges@, left@)),
        ascending(picked(edges@, right@)),
    ensures
        positions_below(order@, edges@.len() as int),
        ascending(picked(edges@, order@)),
        best_kinds(picked(edges@, order@)) == higher(
            best_kinds(picked(edges@, left@)),
            best_kinds(picked(edges@, right@)),
        ),
{
    let ghost ls = picked(edges@, left@);
    let ghost rs = picked(edges@, right@);
    let mut order: Vec<usize> = Vec::new();
    let mut i: usize = 0;
    let mut j: usize = 0;
    proof {
        assert(ls.take(0) =~= seq![]);
        assert(rs.take(0) =~= seq![]);
        assert(picked(edges@, order@) =~= seq![]);
        assert(best_kinds(picked(edges@, order@)) =~= higher(
            best_kinds(ls.take(0)),
            best_kinds(rs.take(0)),
        ));
    }
    while i < left.len() || j < right.len()
        invariant
            ls == picked(edges@, left@),
            rs == picked(edges@, right@),
            i <= left@.len(),
            j <= right@.len(),
            ls.len() == left@.len(),
            rs.len() == right@.len(),
            positions_below(left@, edges@.len() as int),
            positions_below(right@, edges@.len() as int),
            positions_below(order@, edges@.len() as int),
            ascending(ls),
            ascending(rs),
            ascending(picked(edges@, order@)),
            best_kinds(picked(edges@, order@)) == higher(
                best_kinds(ls.take(i as int)),
                best_kinds(rs.take(j as int)),
            ),
            i < ls.len() ==> all_below(picked(edges@, order@), order@.len() as int, key_of(ls[i as int])),
            j < rs.len() ==> all_below(picked(edges@, order@), order@.len() as int, key_of(rs[j as int])),
            i < ls.len() ==> all_below(rs, j as int, key_of(ls[i as int])),
            j < rs.len() ==> all_below(ls, i as int, key_of(rs[j as int])),
        decreases left@.len() - i + right@.len() - j,
    {
        let step: KeyOrder = if i == left.len() {
            KeyOrder::After
        } else if j == right.len() {
            KeyOrder::Before
        } else {
            compare_keys(&edges[left[i]], &edges[right[j]])
        };
        let ghost out = picked(edges@, order@);
        let ghost order_before = order@;
        match step {
            KeyOrder::Before => {
                order.push(left[i]);
                proof {
                    let edge = ls[i as int];
                    lemma_picked_push(edges@, order_before, left@[i as int]);
                    lemma_push_above(out, edge);
                    lemma_take_next(ls, i as int);
                    lemma_absent_below(rs, j as int, key_of(edge));
                    assert(best_kinds(picked(edges@, order@)) =~= higher(
                        best_kinds(ls.take(i + 1)),
                        best_kinds(rs.take(j as int)),
                    ));
                    lemma_below_next(ls, out, i as int);
                    if j < rs.len() {
                        lemma_below_push(out, edge, key_of(rs[j as int]));
                    }
                    if i + 1 < ls.len() {
                        lemma_all_below_up(rs, j as int, key_of(ls[i as int]), key_of(ls[i + 1]));
                    }
                }
                i = i + 1;
            },
            KeyOrder::After => {
                order.push(right[j]);
                proof {
                    let edge = rs[j as int];
                    lemma_picked_push(edges@, order_before, right@[j as int]);
                    lemma_push_above(out, edge);
                    lemma_take_next(rs, j as int);
                    lemma_absent_below(ls, i as int, key_of(edge));
                    assert(best_kinds(picked(edges@, order@)) =~= higher(
                        best_kinds(ls.take(i as int)),
                        best_kinds(rs.take(j + 1)),
                    ));
                    lemma_below_next(rs, out, j as int);
                    if i < ls.len() {
                        lemma_below_push(out, edge, key_of(ls[i as int]));
                    }
                    if j + 1 < rs.len() {
                        lemma_all_below_up(ls, i as int, key_of(rs[j as int]), key_of(rs[j + 1]));
                    }
                }
                j = j + 1;
            },
            KeyOrder::Equal => {
                let keep_left = edges[left[i]].resolution_kind >= edges[right[j]].resolution_kind;
                let kept: usize = if keep_left {
                    left[i]
                } else {
                    right[j]
                };
                order.push(kept);
                proof {
                    let edge = edges@[kept as int]@;
                    lemma_picked_push(edges@, order_before, kept);
                    lemma_push_above(out, edge);
                    lemma_take_next(ls, i as int);
                    lemma_take_next(rs, j as int);
                    assert(best_kinds(picked(edges@, order@)) =~= higher(
                        best_kinds(ls.take(i + 1)),
                        best_kinds(rs.take(j + 1)),
                    ));
                    assert(key_of(edge) == key_of(ls[i as int]));
                    assert(key_of(edge) == key_of(rs[j as int]));
                    if i + 1 < ls.len() {
                        assert(key_lt(key_of(ls[i as int]), key_of(ls[i + 1])));
                        lemma_all_below_up(out, out.len() as int, key_of(edge), key_of(ls[i + 1]));
                        lemma_below_push(out, edge, key_of(ls[i + 1]));
                        lemma_all_below_up(rs, j as int, key_of(edge), key_of(ls[i + 1]));
                    }
                    if j + 1 < rs.len() {
                        assert(key_lt(key_of(rs[j as int]), key_of(rs[j + 1])));
                        lemma_all_below_up(out, out.len() as int, key_of(edge), key_of(rs[j + 1]));
                        lemma_below_push(out, edge, key_of(rs[j + 1]));
                        lemma_all_below_up(ls, i as int, key_of(edge), key_of(rs[j + 1]));
                    }
                }
                i = i + 1;
                j = j + 1;
            },
        }
    }
    proof {
        assert(ls.take(i as int) =~= ls);
        assert(rs.take(j as int) =~= rs);
    }
    order
}

proof fn lemma_absent_below(edges: Seq<EdgeView>, i: int, key: EdgeKey)
    requires
        ascending(edges),
        0 <= i <= edges.len(),
        all_below(edges, i, key),
    ensures
        !best_kinds(edges.take(i)).dom().contains(key),
{
    assert forall|a: int| 0 <= a < i implies key_of(#[trigger] edges[a]) != key by {
        lemma_key_lt_irreflexive(key);
    }
    lemma_absent(edges, i, key);
}

proof fn lemma_all_below_up(edges: Seq<EdgeView>, i: int, bound: EdgeKey, above: EdgeKey)
    requires
        0 <= i <= edges.len(),
        all_below(edges, i, bound),
        key_lt(bound, above),
    ensures
        all_below(edges, i, above),
{
    assert forall|a: int| 0 <= a < i implies key_lt(key_of(#[trigger] edges[a]), above) by {
        lemma_key_lt_transitive(key_of(edges[a]), bound, above);
    }
}

proof fn lemma_below_push(edges: Seq<EdgeView>, edge: EdgeView, bound: EdgeKey)
    requires
        all_below(edges, edges.len() as int, bound),
        key_lt(key_of(edge), bound),
    ensures
        all_below(edges.push(edge), edges.len() as int + 1, bound),
{
    let all = edges.push(edge);
    assert forall|a: int| 0 <= a < all.len() implies key_lt(key_of(#[trigger] all[a]), bound) by {
        if a < edges.len() {
            assert(all[a] == edges[a]);
        }
    }
}

proof fn lemma_below_next(source: Seq<EdgeView>, out: Seq<EdgeView>, i: int)
    requires
        ascending(source),
        0 <= i < source.len(),
        all_below(out, out.len() as int, key_of(source[i])),
    ensures
        i + 1 < source.len() ==> all_below(
            out.push(source[i]),
            out.len() as int + 1,
            key_of(source[i + 1]),
        ),
{
    if i + 1 < source.len() {
        assert(key_lt(key_of(source[i]), key_of(source[i + 1])));
        lemma_all_below_up(out, out.len() as int, key_of(source[i]), key_of(source[i + 1]));
        lemma_below_push(out, source[i], key_of(source[i + 1]));
    }
}

/// An ascending selection of the edges from `from` up to `to`.
fn select(edges: &Vec<Edge>, from: usize, to: usize) -> (order: Vec<usize>)
    requires
        from <= to <= edges@.len(),
    ensures
        positions_below(order@, edges@.len() as int),
        is_canonical(picked(edges@, order@), views(edges@).subrange(from as int, to as int)),
    decreases to - from,
{
    let ghost all = views(edges@);
    if to - from <= 1 {
        let mut order: Vec<usize> = Vec::new();
        if from < to {
            order.push(from);
        }
        assert(picked(edges@, order@) =~= all.subrange(from as int, to as int));
        return order;
    }
    let middle: usize = from + (to - from) / 2;
    let left = select(edges, from, middle);
    let right = select(edges, middle, to);
    proof {
        assert(all.subrange(from as int, to as int) =~= all.subrange(from as int, middle as int)
            + all.subrange(middle as int, to as int));
        lemma_kinds_of_both(
            all.subrange(from as int, middle as int),
            all.subrange(middle as int, to as int),
        );
    }
    merge(edges, &left, &right)
}

/// The canonical form of the edges.
pub fn canonical_edges(edges: &Vec<Edge>) -> (merged: Vec<Edge>)
    ensures
        is_canonical(views(merged@), views(edges@)),
{
    let order = select(edges, 0, edges.len());
    let mut merged: Vec<Edge> = Vec::new();
    let mut i: usize = 0;
    while i < order.len()
        invariant
            i <= order@.len(),
            positions_below(order@, edges@.len() as int),
            views(merged@) == picked(edges@, order@).take(i as int),
        decreases order@.len() - i,
    {
        let ghost before = merged@;
        let edge = edges[order[i]].clone();
        merged.push(edge);
        proof {
            lemma_views_push(before, edge);
            assert(picked(edges@, order@).take(i + 1) =~= picked(edges@, order@).take(
                i as int,
            ).push(edge@));
        }
        i = i + 1;
    }
    assert(views(edges@).subrange(0, edges@.len() as int) =~= views(edges@));
    assert(picked(edges@, order@).take(i as int) =~= picked(edges@, order@));
    merged
}

/// Each edge is there under its source, target and kind at the highest tier that it was
/// found at: at least that of every such edge, and that of one of them.
pub proof fn the_highest_tier_is_kept(edges: Seq<EdgeView>, key: EdgeKey, i: int)
    ensures
        best_kinds(edges).dom().contains(key) <==> exists|j: int|
            0 <= j < edges.len() && is_under(#[trigger] edges[j], key),
        0 <= i < edges.len() && is_under(edges[i], key) ==> best_kinds(edges)[key]
            >= edges[i].resolution_kind,
        best_kinds(edges).dom().contains(key) ==> exists|j: int|
            0 <= j < edges.len() && is_under(#[trigger] edges[j], key) && edges[j].resolution_kind
                == best_kinds(edges)[key],
    decreases edges.len(),
{
    if edges.len() > 0 {
        let rest = edges.drop_last();
        the_highest_tier_is_kept(rest, key, i);
        let last = edges[edges.len() - 1];
        assert(last == edges.last());
        if exists|j: int| 0 <= j < edges.len() && is_under(#[trigger] edges[j], key) {
            let j = choose|j: int| 0 <= j < edges.len() && is_under(#[trigger] edges[j], key);
            if j < rest.len() {
                assert(is_under(rest[j], key));
            }
        }
        if best_kinds(rest).dom().contains(key) {
            let j = choose|j: int|
                0 <= j < rest.len() && is_under(#[trigger] rest[j], key) && rest[j].resolution_kind
                    == best_kinds(rest)[key];
            assert(is_under(edges[j], key) && edges[j].resolution_kind == best_kinds(rest)[key]);
        }
        if 0 <= i < rest.len() {
            assert(rest[i] == edges[i]);
        }
        if is_under(last, key) {
            assert(is_under(edges[edges.len() - 1], key));
        }
    }
}

/// The edge has the source, the target and the kind.
pub open spec fn is_under(edge: EdgeView, key: EdgeKey) -> bool {
    edge.source_id == key.source_id && edge.target_id == key.target_id && edge.kind == key.kind
}

} // verus!

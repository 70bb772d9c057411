//! Sorting by an order of one's choice, and removing neighbours that are alike.

pub mod laws;

use vstd::prelude::*;
use crate::text::{
    lemma_not_less_chain, lemma_text_lt_irreflexive, lemma_text_lt_transitive, lemma_views_push,
    lemma_text_lt_total, lemma_text_order, less, same, text_lt, views,
};

verus! {

/// An order on values of a type.
pub trait Order<T: View> {
    /// `left` comes strictly before `right`.
    spec fn precedes(&self, left: T::V, right: T::V) -> bool;

    /// Whether `left` comes strictly before `right`.
    fn before(&self, left: &T, right: &T) -> (found: bool)
        ensures
            found == self.precedes(left@, right@),
    ;

    /// The order is one: it is strict, and what is not before stays so along a chain.
    proof fn is_order(&self)
        ensures
            is_weak_order(|left: T::V, right: T::V| self.precedes(left, right)),
    ;
}

/// The order of texts, character by character.
pub struct ByText;

impl Order<String> for ByText {
    open spec fn precedes(&self, left: Seq<char>, right: Seq<char>) -> bool {
        text_lt(left, right)
    }

    fn before(&self, left: &String, right: &String) -> (found: bool) {
        less(left.as_str(), right.as_str())
    }

    proof fn is_order(&self) {
        text_keys_order(
            |left: Seq<char>, right: Seq<char>| self.precedes(left, right),
            |text: Seq<char>| text,
        );
    }
}

impl Sameness<String> for ByText {
    open spec fn alike(&self, left: Seq<char>, right: Seq<char>) -> bool {
        left == right
    }

    fn equal(&self, left: &String, right: &String) -> (found: bool) {
        same(left.as_str(), right.as_str())
    }
}

/// The order as a relation.
pub open spec fn relation_of<T: View, O: Order<T>>(order: O) -> spec_fn(T::V, T::V) -> bool {
    |left: T::V, right: T::V| order.precedes(left, right)
}

/// `sorted` with `item` after everything at its end that does not come after it.
pub open spec fn inserted<V>(sorted: Seq<V>, item: V, precedes: spec_fn(V, V) -> bool) -> Seq<V>
    decreases sorted.len(),
{
    if sorted.len() > 0 && precedes(item, sorted.last()) {
        inserted(sorted.drop_last(), item, precedes).push(sorted.last())
    } else {
        sorted.push(item)
    }
}

/// The items in order; those of which neither comes before the other stay as they are.
pub open spec fn sorted_by<V>(items: Seq<V>, precedes: spec_fn(V, V) -> bool) -> Seq<V>
    decreases items.len(),
{
    if items.len() == 0 {
        seq![]
    } else {
        inserted(sorted_by(items.drop_last(), precedes), items.last(), precedes)
    }
}

/// Puts an item after everything at the end that does not come after it.
pub fn insert_in_order<T: View, O: Order<T>>(sorted: &mut Vec<T>, item: T, order: &O)
    ensures
        views(final(sorted)@) == inserted(views(old(sorted)@), item@, relation_of::<T, O>(*order)),
{
    let ghost start = sorted@;
    let ghost precedes = relation_of::<T, O>(*order);
    let mut at: usize = sorted.len();
    let ghost mut tail: Seq<T::V> = seq![];
    assert(views(start).take(at as int) =~= views(start));
    assert(inserted(views(start), item@, precedes) + tail =~= inserted(
        views(start),
        item@,
        precedes,
    ));
    assert(views(start).skip(at as int) =~= tail);
    while at > 0 && order.before(&item, &sorted[at - 1])
        invariant
            sorted@ == start,
            at <= start.len(),
            precedes == relation_of::<T, O>(*order),
            tail == views(start).skip(at as int),
            inserted(views(start), item@, precedes) == inserted(
                views(start).take(at as int),
                item@,
                precedes,
            ) + tail,
        decreases at,
    {
        proof {
            let front = views(start).take(at as int);
            assert(front.drop_last() =~= views(start).take(at - 1));
            assert(front.last() == start[at - 1]@);
            assert(inserted(front.drop_last(), item@, precedes).push(front.last()) + tail
                =~= inserted(front.drop_last(), item@, precedes) + views(start).skip(at - 1));
            tail = views(start).skip(at - 1);
        }
        at = at - 1;
    }
    sorted.insert(at, item);
    proof {
        let front = views(start).take(at as int);
        assert(inserted(front, item@, precedes) == front.push(item@)) by {
            if at > 0 {
                assert(front.last() == start[at - 1]@);
            }
        }
        assert(views(sorted@) =~= front.push(item@) + tail);
    }
}

/// Two sequences as one, each time the last that does not come before the other's; of
/// items of which neither comes before the other, those of `right` stand last.
pub open spec fn merged<V>(left: Seq<V>, right: Seq<V>, precedes: spec_fn(V, V) -> bool) -> Seq<V>
    decreases left.len() + right.len(),
{
    if left.len() == 0 {
        right
    } else if right.len() == 0 {
        left
    } else if precedes(right.last(), left.last()) {
        merged(left.drop_last(), right, precedes).push(left.last())
    } else {
        merged(left, right.drop_last(), precedes).push(right.last())
    }
}

proof fn lemma_merged_insert<V>(
    left: Seq<V>,
    right: Seq<V>,
    item: V,
    precedes: spec_fn(V, V) -> bool,
)
    requires
        is_weak_order(precedes),
    ensures
        inserted(merged(left, right, precedes), item, precedes) == merged(
            left,
            inserted(right, item, precedes),
            precedes,
        ),
    decreases left.len() + right.len(),
{
    let more = inserted(right, item, precedes);
    if left.len() == 0 {
    } else if right.len() == 0 {
        let front = left.drop_last();
        assert(more =~= seq![item]);
        assert(more.last() == item);
        assert(more.drop_last() =~= right);
        if precedes(item, left.last()) {
            lemma_merged_insert(front, right, item, precedes);
            assert(merged(front, right, precedes) =~= front);
        } else {
            assert(merged(left, more.drop_last(), precedes) =~= left);
        }
    } else {
        let a = left.last();
        let b = right.last();
        let all = merged(left, right, precedes);
        if precedes(b, a) {
            let rest = merged(left.drop_last(), right, precedes);
            assert(all.drop_last() =~= rest && all.last() == a);
            if precedes(item, a) {
                lemma_merged_insert(left.drop_last(), right, item, precedes);
                if precedes(item, b) {
                    assert(more.last() == b);
                } else {
                    assert(more.last() == item);
                }
            } else {
                lemma_weak(precedes, item, b, a);
                assert(!precedes(item, b));
                assert(more == right.push(item));
                assert(more.drop_last() =~= right);
            }
        } else {
            let rest = merged(left, right.drop_last(), precedes);
            assert(all.drop_last() =~= rest && all.last() == b);
            if precedes(item, b) {
                lemma_merged_insert(left, right.drop_last(), item, precedes);
                assert(more.drop_last() =~= inserted(right.drop_last(), item, precedes));
            } else {
                lemma_weak(precedes, item, b, a);
                assert(more == right.push(item));
                assert(more.drop_last() =~= right);
            }
        }
    }
}

/// The relation of an order is a weak order.
pub proof fn relations_are_orders<T: View, O: Order<T>>(order: O)
    ensures
        is_weak_order(relation_of::<T, O>(order)),
{
    order.is_order();
    assert(relation_of::<T, O>(order) =~= (|left: T::V, right: T::V| order.precedes(left, right)));
}

/// Sorting two sequences one by one and merging them is sorting them as one.
pub proof fn merging_sorts<V>(left: Seq<V>, right: Seq<V>, precedes: spec_fn(V, V) -> bool)
    requires
        is_weak_order(precedes),
    ensures
        sorted_by(left + right, precedes) == merged(
            sorted_by(left, precedes),
            sorted_by(right, precedes),
            precedes,
        ),
    decreases right.len(),
{
    if right.len() == 0 {
        assert(left + right =~= left);
        assert(sorted_by(right, precedes) =~= seq![]);
        if sorted_by(left, precedes).len() == 0 {
            assert(sorted_by(left, precedes) =~= seq![]);
        }
    } else {
        let front = right.drop_last();
        merging_sorts(left, front, precedes);
        assert((left + right).drop_last() =~= left + front);
        assert((left + right).last() == right.last());
        lemma_merged_insert(
            sorted_by(left, precedes),
            sorted_by(front, precedes),
            right.last(),
            precedes,
        );
    }
}

fn merge<T: View, O: Order<T>>(left: Vec<T>, right: Vec<T>, order: &O) -> (all: Vec<T>)
    ensures
        views(all@) == merged(views(left@), views(right@), relation_of::<T, O>(*order)),
{
    let ghost precedes = relation_of::<T, O>(*order);
    let ghost wanted = merged(views(left@), views(right@), precedes);
    let mut left = left;
    let mut right = right;
    let mut last_first: Vec<T> = Vec::new();
    let ghost mut tail: Seq<T::V> = seq![];
    assert(views(last_first@).reverse() =~= tail);
    assert(wanted + tail =~= wanted);
    while left.len() > 0 || right.len() > 0
        invariant
            precedes == relation_of::<T, O>(*order),
            tail == views(last_first@).reverse(),
            wanted == merged(views(left@), views(right@), precedes) + tail,
        decreases left@.len() + right@.len(),
    {
        let from_left = right.len() == 0 || (left.len() > 0 && order.before(
            &right[right.len() - 1],
            &left[left.len() - 1],
        ));
        let ghost old_left = views(left@);
        let ghost old_right = views(right@);
        let ghost before = last_first@;
        proof {
            if right@.len() > 0 {
                assert(old_right.last() == right@[right@.len() - 1]@);
            }
            if left@.len() > 0 {
                assert(old_left.last() == left@[left@.len() - 1]@);
            }
        }
        let taken = if from_left {
            left.pop()
        } else {
            right.pop()
        };
        if let Some(item) = taken {
            last_first.push(item);
            proof {
                lemma_views_push(before, item);
                let rest = merged(views(left@), views(right@), precedes);
                if from_left {
                    assert(views(left@) =~= old_left.drop_last());
                    assert(old_left.last() == item@);
                    if old_right.len() == 0 {
                        assert(rest =~= views(left@));
                        assert(merged(old_left, old_right, precedes) =~= rest.push(item@));
                    }
                } else {
                    assert(views(right@) =~= old_right.drop_last());
                    assert(old_right.last() == item@);
                    if old_left.len() == 0 {
                        assert(rest =~= views(right@));
                        assert(merged(old_left, old_right, precedes) =~= rest.push(item@));
                    }
                }
                assert(merged(old_left, old_right, precedes) =~= rest.push(item@));
                assert(views(last_first@).reverse() =~= seq![item@] + tail);
                assert(rest.push(item@) + tail =~= rest + (seq![item@] + tail));
                tail = seq![item@] + tail;
            }
        }
    }
    assert(merged(views(left@), views(right@), precedes) =~= seq![]);
    assert(wanted =~= tail);
    let ghost turned = last_first@;
    let all = reversed(last_first);
    assert(views(all@) =~= views(turned).reverse());
    all
}

/// The items in order; those of which neither comes before the other stay as they are.
pub fn sort_by<T: View, O: Order<T>>(items: Vec<T>, order: &O) -> (sorted: Vec<T>)
    ensures
        views(sorted@) == sorted_by(views(items@), relation_of::<T, O>(*order)),
    decreases items@.len(),
{
    let ghost all = views(items@);
    let ghost precedes = relation_of::<T, O>(*order);
    if items.len() <= 1 {
        proof {
            if items@.len() == 0 {
                assert(all =~= seq![]);
                assert(sorted_by(all, precedes) =~= all);
            } else {
                assert(all.drop_last() =~= seq![]);
                assert(sorted_by(all.drop_last(), precedes) =~= seq![]);
                assert(sorted_by(all, precedes) =~= seq![all[0]]);
                assert(all =~= seq![all[0]]);
            }
        }
        return items;
    }
    let mut left = items;
    let middle = left.len() / 2;
    let right = left.split_off(middle);
    proof {
        assert(all =~= views(left@) + views(right@));
        relations_are_orders::<T, O>(*order);
        merging_sorts(views(left@), views(right@), precedes);
    }
    merge(sort_by(left, order), sort_by(right, order), order)
}

// ---------------------------------------------------------------------------
// Neighbours

/// Values of a type that count as the same.
pub trait Sameness<T: View> {
    spec fn alike(&self, left: T::V, right: T::V) -> bool;

    fn equal(&self, left: &T, right: &T) -> (found: bool)
        ensures
            found == self.alike(left@, right@),
    ;
}

/// The relation of values that count as the same.
pub open spec fn sameness_of<T: View, S: Sameness<T>>(same: S) -> spec_fn(T::V, T::V) -> bool {
    |left: T::V, right: T::V| same.alike(left, right)
}

/// The items without those that are alike to the one kept before them.
pub open spec fn without_repeats<V>(items: Seq<V>, alike: spec_fn(V, V) -> bool) -> Seq<V>
    decreases items.len(),
{
    if items.len() == 0 {
        seq![]
    } else {
        let kept = without_repeats(items.drop_last(), alike);
        if kept.len() > 0 && alike(items.last(), kept.last()) {
            kept
        } else {
            kept.push(items.last())
        }
    }
}

/// The items without those that are alike to the one kept before them.
pub fn dedup_by<T: View, S: Sameness<T>>(items: Vec<T>, same: &S) -> (kept: Vec<T>)
    ensures
        views(kept@) == without_repeats(views(items@), sameness_of::<T, S>(*same)),
{
    let ghost all = views(items@);
    let ghost alike = sameness_of::<T, S>(*same);
    let mut items = items;
    let mut waiting: Vec<T> = Vec::new();
    let count = items.len();
    assert(all.skip(count as int).reverse() =~= views(waiting@));
    assert(views(items@) =~= all.take(count as int));
    while items.len() > 0
        invariant
            count == all.len(),
            items@.len() <= count,
            views(items@) == all.take(items@.len() as int),
            views(waiting@) == all.skip(items@.len() as int).reverse(),
        decreases items@.len(),
    {
        let ghost before = items@;
        let ghost queued = waiting@;
        if let Some(item) = items.pop() {
            waiting.push(item);
            proof {
                lemma_views_push(queued, item);
                assert(views(before).last() == item@);
                assert(views(items@) =~= all.take(items@.len() as int));
                assert(all.skip(items@.len() as int).reverse() =~= all.skip(
                    items@.len() as int + 1,
                ).reverse().push(item@));
            }
        }
    }
    assert(all.skip(0) =~= all);
    let mut kept: Vec<T> = Vec::new();
    let ghost mut done: int = 0;
    assert(all.take(0) =~= seq![]);
    assert(views(kept@) =~= seq![]);
    while waiting.len() > 0
        invariant
            alike == sameness_of::<T, S>(*same),
            0 <= done <= all.len(),
            waiting@.len() == all.len() - done,
            views(waiting@) == all.skip(done).reverse(),
            views(kept@) == without_repeats(all.take(done), alike),
        decreases waiting@.len(),
    {
        let ghost before = waiting@;
        if let Some(item) = waiting.pop() {
            proof {
                assert(views(before).last() == item@);
                assert(views(before).last() == all.skip(done)[0]);
                assert(all.take(done + 1).drop_last() =~= all.take(done));
                assert(all.take(done + 1).last() == item@);
                assert(views(waiting@) =~= views(before).drop_last());
                assert(all.skip(done).reverse().drop_last() =~= all.skip(done + 1).reverse());
            }
            let ghost kept_before = kept@;
            assert(views(kept@).len() == kept@.len());
            let repeated = if kept.len() > 0 {
                assert(views(kept@).last() == kept@[kept@.len() - 1]@);
                same.equal(&item, &kept[kept.len() - 1])
            } else {
                false
            };
            if !repeated {
                kept.push(item);
                proof {
                    lemma_views_push(kept_before, item);
                }
            }
            proof {
                done = done + 1;
            }
        }
    }
    assert(all.take(done) =~= all);
    kept
}

// ---------------------------------------------------------------------------
// Choosing

/// A choice among values of a type.
pub trait Choice<T: View> {
    spec fn picks(&self, item: T::V) -> bool;

    fn pick(&self, item: &T) -> (picked: bool)
        ensures
            picked == self.picks(item@),
    ;
}

/// The choice as a predicate.
pub open spec fn choice_of<T: View, C: Choice<T>>(choice: C) -> spec_fn(T::V) -> bool {
    |item: T::V| choice.picks(item)
}

/// The items that a predicate picks, as they stand.
pub open spec fn chosen<V>(items: Seq<V>, picks: spec_fn(V) -> bool) -> Seq<V>
    decreases items.len(),
{
    if items.len() == 0 {
        seq![]
    } else if picks(items.last()) {
        chosen(items.drop_last(), picks).push(items.last())
    } else {
        chosen(items.drop_last(), picks)
    }
}

/// Keeps the items that are picked, as they stand.
pub fn choose_by<T: View, C: Choice<T>>(items: Vec<T>, choice: &C) -> (kept: Vec<T>)
    ensures
        views(kept@) == chosen(views(items@), choice_of::<T, C>(*choice)),
{
    let ghost all = views(items@);
    let ghost picks = choice_of::<T, C>(*choice);
    let mut waiting = reversed(items);
    let mut kept: Vec<T> = Vec::new();
    let ghost mut done: int = 0;
    assert(all.take(0) =~= seq![]);
    assert(all.skip(0) =~= all);
    assert(views(waiting@) =~= all.reverse());
    assert(views(kept@) =~= seq![]);
    while waiting.len() > 0
        invariant
            picks == choice_of::<T, C>(*choice),
            0 <= done <= all.len(),
            waiting@.len() == all.len() - done,
            views(waiting@) == all.skip(done).reverse(),
            views(kept@) == chosen(all.take(done), picks),
        decreases waiting@.len(),
    {
        let ghost before = waiting@;
        if let Some(item) = waiting.pop() {
            proof {
                assert(views(before).last() == item@);
                assert(views(before).last() == all.skip(done)[0]);
                assert(all.take(done + 1).drop_last() =~= all.take(done));
                assert(all.take(done + 1).last() == item@);
                assert(views(waiting@) =~= views(before).drop_last());
                assert(all.skip(done).reverse().drop_last() =~= all.skip(done + 1).reverse());
            }
            if choice.pick(&item) {
                proof {
                    lemma_views_push(kept@, item);
                }
                kept.push(item);
            }
            proof {
                done = done + 1;
            }
        }
    }
    assert(all.take(done) =~= all);
    kept
}

/// Just the picked items are kept.
pub proof fn chosen_members<V>(items: Seq<V>, picks: spec_fn(V) -> bool)
    ensures
        chosen(items, picks).len() <= items.len(),
        forall|x: V|
            #[trigger] chosen(items, picks).contains(x) <==> items.contains(x) && picks(x),
        forall|i: int|
            0 <= i < chosen(items, picks).len() ==> picks(#[trigger] chosen(items, picks)[i]),
    decreases items.len(),
{
    if items.len() > 0 {
        let front = items.drop_last();
        let last = items.last();
        let inner = chosen(front, picks);
        chosen_members(front, picks);
        assert forall|x: V| #[trigger] chosen(items, picks).contains(x) <==> items.contains(x)
            && picks(x) by {
            assert(items =~= front.push(last));
            lemma_push_members(front, last, x);
            lemma_push_members(inner, last, x);
            assert(inner.contains(x) <==> front.contains(x) && picks(x));
        }
    }
}

/// What is chosen of items one after the other is what is chosen of the one and then of the
/// other.
pub proof fn choosing_adds_up<V>(items: Seq<V>, more: Seq<V>, picks: spec_fn(V) -> bool)
    ensures
        chosen(items + more, picks) == chosen(items, picks) + chosen(more, picks),
    decreases more.len(),
{
    if more.len() == 0 {
        assert(items + more =~= items);
        assert(chosen(items, picks) + chosen(more, picks) =~= chosen(items, picks));
    } else {
        let front = more.drop_last();
        assert((items + more).drop_last() =~= items + front);
        assert((items + more).last() == more.last());
        choosing_adds_up(items, front, picks);
        assert(chosen(items + more, picks) =~= chosen(items, picks) + chosen(more, picks));
    }
}

/// Of items none of which is picked nothing is chosen.
pub proof fn nothing_is_chosen<V>(items: Seq<V>, picks: spec_fn(V) -> bool)
    requires
        forall|i: int| 0 <= i < items.len() ==> !picks(#[trigger] items[i]),
    ensures
        chosen(items, picks) == Seq::<V>::empty(),
    decreases items.len(),
{
    if items.len() > 0 {
        let front = items.drop_last();
        assert forall|i: int| 0 <= i < front.len() implies !picks(#[trigger] front[i]) by {
            assert(front[i] == items[i]);
        }
        nothing_is_chosen(front, picks);
        assert(!picks(items[items.len() - 1]));
    }
}

/// What is chosen of chosen items is what is chosen of all, where whatever is picked then is
/// picked first.
pub proof fn choosing_twice_is_choosing_once<V>(
    items: Seq<V>,
    kept: spec_fn(V) -> bool,
    picks: spec_fn(V) -> bool,
)
    requires
        forall|x: V| #[trigger] picks(x) ==> kept(x),
    ensures
        chosen(chosen(items, kept), picks) == chosen(items, picks),
    decreases items.len(),
{
    if items.len() > 0 {
        choosing_twice_is_choosing_once(items.drop_last(), kept, picks);
        if kept(items.last()) {
            assert(chosen(items, kept).drop_last() =~= chosen(items.drop_last(), kept));
        } else {
            assert(!picks(items.last()));
        }
    }
}

/// Choosing twice is choosing once.
pub proof fn choosing_is_idempotent<V>(items: Seq<V>, picks: spec_fn(V) -> bool)
    ensures
        chosen(chosen(items, picks), picks) == chosen(items, picks),
    decreases items.len(),
{
    if items.len() > 0 {
        let inner = chosen(items.drop_last(), picks);
        choosing_is_idempotent(items.drop_last(), picks);
        if picks(items.last()) {
            assert(chosen(items, picks).drop_last() =~= inner);
        }
    }
}

// ---------------------------------------------------------------------------
// Laws

/// The relation never puts two items before each other, and what is not before stays
/// so along a chain.
#[verifier::opaque]
pub open spec fn is_weak_order<V>(precedes: spec_fn(V, V) -> bool) -> bool {
    &&& forall|a: V| !#[trigger] precedes(a, a)
    &&& forall|a: V, b: V, c: V| #[trigger] precedes(a, b) && #[trigger] precedes(b, c) ==> precedes(a, c)
    &&& forall|a: V, b: V, c: V|
        !#[trigger] precedes(a, b) && !#[trigger] precedes(b, c) ==> !precedes(a, c)
}

/// No item stands before one that precedes it.
pub open spec fn in_order<V>(items: Seq<V>, precedes: spec_fn(V, V) -> bool) -> bool {
    forall|i: int, j: int|
        #![trigger items[i], items[j]]
        0 <= i < j < items.len() ==> !precedes(items[j], items[i])
}

proof fn lemma_inserted_in_order<V>(sorted: Seq<V>, item: V, precedes: spec_fn(V, V) -> bool)
    requires
        is_weak_order(precedes),
        in_order(sorted, precedes),
    ensures
        in_order(inserted(sorted, item, precedes), precedes),
        inserted(sorted, item, precedes).to_multiset() == sorted.to_multiset().insert(item),
        inserted(sorted, item, precedes).len() == sorted.len() + 1,
    decreases sorted.len(),
{
    broadcast use vstd::seq_lib::group_to_multiset_ensures;

    let all = inserted(sorted, item, precedes);
    if sorted.len() > 0 && precedes(item, sorted.last()) {
        let front = sorted.drop_last();
        let last = sorted.last();
        assert forall|i: int, j: int| 0 <= i < j < front.len() implies !precedes(
            #[trigger] front[j],
            #[trigger] front[i],
        ) by {
            assert(front[i] == sorted[i] && front[j] == sorted[j]);
        }
        lemma_inserted_in_order(front, item, precedes);
        let inner = inserted(front, item, precedes);
        assert(sorted =~= front.push(last));
        assert(all.to_multiset() =~= sorted.to_multiset().insert(item));
        assert forall|i: int, j: int| 0 <= i < j < all.len() implies !precedes(
            #[trigger] all[j],
            #[trigger] all[i],
        ) by {
            if j < inner.len() {
                assert(all[i] == inner[i] && all[j] == inner[j]);
            } else {
                assert(all[j] == last && all[i] == inner[i]);
                assert(inner.to_multiset().count(inner[i]) > 0) by {
                    assert(inner.contains(inner[i]));
                }
                if inner[i] == item {
                    lemma_weak(precedes, item, last, item);
                } else {
                    assert(front.to_multiset().count(inner[i]) > 0);
                    assert(front.contains(inner[i]));
                    let k = choose|k: int| 0 <= k < front.len() && front[k] == inner[i];
                    assert(sorted[k] == front[k] && sorted[sorted.len() - 1] == last);
                }
            }
        }
    } else {
        assert forall|i: int, j: int| 0 <= i < j < all.len() implies !precedes(
            #[trigger] all[j],
            #[trigger] all[i],
        ) by {
            if j == sorted.len() {
                assert(all[i] == sorted[i]);
                if i < sorted.len() - 1 {
                    assert(!precedes(sorted[sorted.len() - 1], sorted[i]));
                    assert(!precedes(item, sorted[sorted.len() - 1]));
                    lemma_weak(precedes, item, sorted[sorted.len() - 1], sorted[i]);
                }
            } else {
                assert(all[i] == sorted[i] && all[j] == sorted[j]);
            }
        }
    }
}

/// Sorting by a weak order brings the items into that order and loses none of them.
pub proof fn sorting_orders_and_keeps<V>(items: Seq<V>, precedes: spec_fn(V, V) -> bool)
    requires
        is_weak_order(precedes),
    ensures
        in_order(sorted_by(items, precedes), precedes),
        sorted_by(items, precedes).to_multiset() == items.to_multiset(),
        sorted_by(items, precedes).len() == items.len(),
    decreases items.len(),
{
    broadcast use vstd::seq_lib::group_to_multiset_ensures;

    if items.len() > 0 {
        sorting_orders_and_keeps(items.drop_last(), precedes);
        lemma_inserted_in_order(
            sorted_by(items.drop_last(), precedes),
            items.last(),
            precedes,
        );
        assert(items =~= items.drop_last().push(items.last()));
    }
}

/// Every item precedes all items after it.
pub open spec fn strictly_ascending<V>(items: Seq<V>, precedes: spec_fn(V, V) -> bool) -> bool {
    forall|i: int, j: int|
        #![trigger items[i], items[j]]
        0 <= i < j < items.len() ==> precedes(items[i], items[j])
}

/// Two items are alike exactly if neither comes before the other.
#[verifier::opaque]
pub open spec fn tells_apart<V>(
    precedes: spec_fn(V, V) -> bool,
    alike: spec_fn(V, V) -> bool,
) -> bool {
    forall|a: V, b: V|
        #[trigger] alike(a, b) == (!precedes(a, b) && !precedes(b, a))
}

proof fn lemma_alike<V>(
    precedes: spec_fn(V, V) -> bool,
    alike: spec_fn(V, V) -> bool,
    a: V,
    b: V,
)
    requires
        tells_apart(precedes, alike),
    ensures
        alike(a, b) == (!precedes(a, b) && !precedes(b, a)),
{
    reveal(tells_apart);
}

proof fn lemma_weak<V>(precedes: spec_fn(V, V) -> bool, a: V, b: V, c: V)
    requires
        is_weak_order(precedes),
    ensures
        !precedes(a, a),
        precedes(a, b) && precedes(b, c) ==> precedes(a, c),
        !precedes(a, b) && !precedes(b, c) ==> !precedes(a, c),
{
    reveal(is_weak_order);
}

proof fn lemma_kept_contained<V>(items: Seq<V>, alike: spec_fn(V, V) -> bool)
    ensures
        forall|i: int|
            0 <= i < without_repeats(items, alike).len() ==> items.contains(
                #[trigger] without_repeats(items, alike)[i],
            ),
        items.len() > 0 ==> without_repeats(items, alike).len() > 0,
    decreases items.len(),
{
    if items.len() > 0 {
        let front = items.drop_last();
        let inner = without_repeats(front, alike);
        let kept = without_repeats(items, alike);
        lemma_kept_contained(front, alike);
        assert forall|i: int| 0 <= i < kept.len() implies items.contains(#[trigger] kept[i]) by {
            if i < inner.len() {
                assert(kept[i] == inner[i]);
                let k = choose|k: int| 0 <= k < front.len() && front[k] == inner[i];
                assert(items[k] == kept[i]);
            } else {
                assert(items[items.len() - 1] == kept[i]);
            }
        }
    }
}

proof fn lemma_kept_ascend<V>(
    items: Seq<V>,
    precedes: spec_fn(V, V) -> bool,
    alike: spec_fn(V, V) -> bool,
)
    requires
        is_weak_order(precedes),
        tells_apart(precedes, alike),
        in_order(items, precedes),
    ensures
        strictly_ascending(without_repeats(items, alike), precedes),
    decreases items.len(),
{
    if items.len() > 0 {
        let kept = without_repeats(items, alike);
        let front = items.drop_last();
        let last = items.last();
        let inner = without_repeats(front, alike);
        assert forall|i: int, j: int| 0 <= i < j < front.len() implies !precedes(
            #[trigger] front[j],
            #[trigger] front[i],
        ) by {
            assert(front[i] == items[i] && front[j] == items[j]);
        }
        lemma_kept_ascend(front, precedes, alike);
        lemma_kept_contained(front, alike);
        if !(inner.len() > 0 && alike(last, inner.last())) {
            assert(kept == inner.push(last));
            assert forall|i: int, j: int| 0 <= i < j < kept.len() implies precedes(
                #[trigger] kept[i],
                #[trigger] kept[j],
            ) by {
                assert(kept[i] == inner[i]);
                if j == inner.len() {
                    let top = inner.last();
                    assert(front.contains(inner[inner.len() - 1]));
                    let t = choose|t: int| 0 <= t < front.len() && front[t] == top;
                    assert(items[t] == top && items[items.len() - 1] == last);
                    assert(!precedes(last, top));
                    lemma_alike(precedes, alike, last, top);
                    assert(precedes(top, last));
                    if i < inner.len() - 1 {
                        assert(precedes(inner[i], inner[inner.len() - 1]));
                        lemma_weak(precedes, inner[i], top, last);
                    }
                } else {
                    assert(kept[j] == inner[j]);
                }
            }
        }
    }
}

proof fn lemma_kept_cover<V>(
    items: Seq<V>,
    precedes: spec_fn(V, V) -> bool,
    alike: spec_fn(V, V) -> bool,
    k: int,
)
    requires
        is_weak_order(precedes),
        tells_apart(precedes, alike),
        0 <= k < items.len(),
    ensures
        exists|i: int|
            0 <= i < without_repeats(items, alike).len() && alike(
                items[k],
                #[trigger] without_repeats(items, alike)[i],
            ),
    decreases items.len(),
{
    let kept = without_repeats(items, alike);
    let front = items.drop_last();
    let last = items.last();
    let inner = without_repeats(front, alike);
    if k < front.len() {
        lemma_kept_cover(front, precedes, alike, k);
        let i = choose|i: int| 0 <= i < inner.len() && alike(front[k], #[trigger] inner[i]);
        assert(kept[i] == inner[i]);
    } else if inner.len() > 0 && alike(last, inner.last()) {
        assert(alike(items[k], kept[kept.len() - 1]));
    } else {
        lemma_alike(precedes, alike, last, last);
        lemma_weak(precedes, last, last, last);
        assert(alike(items[k], kept[inner.len() as int]));
    }
}

/// Items in order, of which those that are alike are kept once, ascend strictly; each
/// is one of the items, and each item is alike to one of them.
pub proof fn distinct_items_ascend<V>(
    items: Seq<V>,
    precedes: spec_fn(V, V) -> bool,
    alike: spec_fn(V, V) -> bool,
)
    requires
        is_weak_order(precedes),
        tells_apart(precedes, alike),
        in_order(items, precedes),
    ensures
        strictly_ascending(without_repeats(items, alike), precedes),
        forall|i: int|
            0 <= i < without_repeats(items, alike).len() ==> items.contains(
                #[trigger] without_repeats(items, alike)[i],
            ),
        forall|k: int|
            0 <= k < items.len() ==> exists|i: int|
                0 <= i < without_repeats(items, alike).len() && alike(
                    #[trigger] items[k],
                    #[trigger] without_repeats(items, alike)[i],
                ),
{
    lemma_kept_contained(items, alike);
    lemma_kept_ascend(items, precedes, alike);
    assert forall|k: int| 0 <= k < items.len() implies exists|i: int|
        0 <= i < without_repeats(items, alike).len() && alike(
            #[trigger] items[k],
            #[trigger] without_repeats(items, alike)[i],
        ) by {
        lemma_kept_cover(items, precedes, alike, k);
    }
}

/// Of items that are alike one after the other one is kept, so that each item is alike to
/// one that is.
pub proof fn kept_items_stand_for_all<V>(items: Seq<V>, alike: spec_fn(V, V) -> bool, k: int)
    requires
        0 <= k < items.len(),
        forall|x: V| #[trigger] alike(x, x),
    ensures
        exists|i: int|
            0 <= i < without_repeats(items, alike).len() && alike(
                items[k],
                #[trigger] without_repeats(items, alike)[i],
            ),
    decreases items.len(),
{
    let front = items.drop_last();
    let inner = without_repeats(front, alike);
    let kept = without_repeats(items, alike);
    if k < front.len() {
        kept_items_stand_for_all(front, alike, k);
        let i = choose|i: int| 0 <= i < inner.len() && alike(front[k], #[trigger] inner[i]);
        assert(kept[i] == inner[i]);
    } else if inner.len() > 0 && alike(items.last(), inner.last()) {
        assert(kept[inner.len() - 1] == inner.last());
    } else {
        assert(kept[inner.len() as int] == items.last());
        assert(alike(items[k], kept[inner.len() as int]));
    }
}

pub proof fn lemma_inserted_members<V>(sorted: Seq<V>, item: V, precedes: spec_fn(V, V) -> bool)
    ensures
        inserted(sorted, item, precedes).len() == sorted.len() + 1,
        forall|x: V|
            #[trigger] inserted(sorted, item, precedes).contains(x) <==> sorted.contains(x) || x
                == item,
    decreases sorted.len(),
{
    let all = inserted(sorted, item, precedes);
    if sorted.len() > 0 && precedes(item, sorted.last()) {
        let front = sorted.drop_last();
        let inner = inserted(front, item, precedes);
        lemma_inserted_members(front, item, precedes);
        assert forall|x: V| #[trigger] all.contains(x) <==> sorted.contains(x) || x == item by {
            lemma_push_members(inner, sorted.last(), x);
            lemma_push_members(front, sorted.last(), x);
            assert(sorted =~= front.push(sorted.last()));
        }
    } else {
        assert forall|x: V| #[trigger] all.contains(x) <==> sorted.contains(x) || x == item by {
            lemma_push_members(sorted, item, x);
        }
    }
}

pub proof fn lemma_push_members<V>(items: Seq<V>, item: V, x: V)
    ensures
        items.push(item).contains(x) <==> items.contains(x) || x == item,
{
    if items.contains(x) {
        let k = choose|k: int| 0 <= k < items.len() && items[k] == x;
        assert(items.push(item)[k] == x);
    }
    assert(items.push(item)[items.len() as int] == item);
    if items.push(item).contains(x) && x != item {
        let k = choose|k: int| 0 <= k < items.push(item).len() && items.push(item)[k] == x;
        assert(items[k] == x);
    }
}

/// Sorting keeps the items that are there, and brings in no others.
pub proof fn sorting_keeps_members<V>(items: Seq<V>, precedes: spec_fn(V, V) -> bool)
    ensures
        sorted_by(items, precedes).len() == items.len(),
        forall|x: V| #[trigger] sorted_by(items, precedes).contains(x) <==> items.contains(x),
    decreases items.len(),
{
    if items.len() > 0 {
        let front = items.drop_last();
        sorting_keeps_members(front, precedes);
        lemma_inserted_members(sorted_by(front, precedes), items.last(), precedes);
        assert forall|x: V| #[trigger] sorted_by(items, precedes).contains(x) <==> items.contains(
            x,
        ) by {
            lemma_push_members(front, items.last(), x);
            assert(items =~= front.push(items.last()));
            assert(sorted_by(front, precedes).contains(x) <==> front.contains(x));
        }
    }
}

/// What is kept of items is among them.
pub proof fn kept_items_are_items<V>(items: Seq<V>, alike: spec_fn(V, V) -> bool)
    ensures
        forall|i: int|
            0 <= i < without_repeats(items, alike).len() ==> items.contains(
                #[trigger] without_repeats(items, alike)[i],
            ),
{
    lemma_kept_contained(items, alike);
}

/// Putting an item in its place among items that ascend strictly keeps them so, where
/// it is alike to none of them.
pub proof fn insertion_keeps_ascent<V>(sorted: Seq<V>, item: V, precedes: spec_fn(V, V) -> bool)
    requires
        is_weak_order(precedes),
        strictly_ascending(sorted, precedes),
        forall|i: int|
            0 <= i < sorted.len() ==> precedes(item, #[trigger] sorted[i]) || precedes(
                sorted[i],
                item,
            ),
    ensures
        strictly_ascending(inserted(sorted, item, precedes), precedes),
    decreases sorted.len(),
{
    let all = inserted(sorted, item, precedes);
    if sorted.len() > 0 && precedes(item, sorted.last()) {
        let front = sorted.drop_last();
        let last = sorted.last();
        let inner = inserted(front, item, precedes);
        assert forall|i: int, j: int| 0 <= i < j < front.len() implies precedes(
            #[trigger] front[i],
            #[trigger] front[j],
        ) by {
            assert(front[i] == sorted[i] && front[j] == sorted[j]);
        }
        assert forall|i: int| 0 <= i < front.len() implies precedes(item, #[trigger] front[i])
            || precedes(front[i], item) by {
            assert(front[i] == sorted[i]);
        }
        insertion_keeps_ascent(front, item, precedes);
        lemma_inserted_members(front, item, precedes);
        assert forall|i: int, j: int| 0 <= i < j < all.len() implies precedes(
            #[trigger] all[i],
            #[trigger] all[j],
        ) by {
            assert(all[i] == inner[i]);
            if j < inner.len() {
                assert(all[j] == inner[j]);
            } else {
                assert(all[j] == last);
                assert(inner.contains(inner[i]));
                if inner[i] != item {
                    let k = choose|k: int| 0 <= k < front.len() && front[k] == inner[i];
                    assert(sorted[k] == front[k] && sorted[sorted.len() - 1] == last);
                }
            }
        }
    } else {
        assert forall|i: int, j: int| 0 <= i < j < all.len() implies precedes(
            #[trigger] all[i],
            #[trigger] all[j],
        ) by {
            assert(all[i] == sorted[i]);
            if j < sorted.len() {
                assert(all[j] == sorted[j]);
            } else {
                let last = sorted[sorted.len() - 1];
                assert(precedes(last, item));
                if i < sorted.len() - 1 {
                    assert(precedes(sorted[i], last));
                    lemma_weak(precedes, sorted[i], last, item);
                }
            }
        }
    }
}

/// What one relation puts in order, the other does too.
#[verifier::opaque]
pub open spec fn refines<V>(fine: spec_fn(V, V) -> bool, coarse: spec_fn(V, V) -> bool) -> bool {
    forall|a: V, b: V| #[trigger] coarse(a, b) ==> fine(a, b)
}

proof fn lemma_refined_order<V>(
    items: Seq<V>,
    fine: spec_fn(V, V) -> bool,
    coarse: spec_fn(V, V) -> bool,
)
    requires
        refines(fine, coarse),
        in_order(items, fine),
    ensures
        in_order(items, coarse),
{
    reveal(refines);
    assert forall|i: int, j: int| 0 <= i < j < items.len() implies !coarse(
        #[trigger] items[j],
        #[trigger] items[i],
    ) by {
        assert(!fine(items[j], items[i]));
    }
}

proof fn lemma_front_order<V>(items: Seq<V>, precedes: spec_fn(V, V) -> bool)
    requires
        in_order(items, precedes),
        items.len() > 0,
    ensures
        in_order(items.drop_last(), precedes),
{
    let front = items.drop_last();
    assert forall|i: int, j: int| 0 <= i < j < front.len() implies !precedes(
        #[trigger] front[j],
        #[trigger] front[i],
    ) by {
        assert(front[i] == items[i] && front[j] == items[j]);
    }
}

proof fn lemma_new_kept<V>(
    items: Seq<V>,
    coarse: spec_fn(V, V) -> bool,
    alike: spec_fn(V, V) -> bool,
    j: int,
)
    requires
        is_weak_order(coarse),
        tells_apart(coarse, alike),
        in_order(items, coarse),
        0 <= j < items.len() - 1,
        alike(items[j], items.last()),
    ensures
        without_repeats(items.drop_last(), alike).len() > 0,
        alike(items.last(), without_repeats(items.drop_last(), alike).last()),
{
    let front = items.drop_last();
    let last = items.last();
    let inner = without_repeats(front, alike);
    lemma_front_order(items, coarse);
    lemma_kept_ascend(front, coarse, alike);
    lemma_kept_contained(front, alike);
    lemma_kept_cover(front, coarse, alike, j);
    let item = front[j];
    let i = choose|i: int| 0 <= i < inner.len() && alike(front[j], #[trigger] inner[i]);
    let near = inner[i];
    let top = inner[inner.len() - 1];
    assert(front.contains(top));
    let t = choose|t: int| 0 <= t < front.len() && front[t] == top;
    assert(items[t] == top && items[items.len() - 1] == last && items[j] == item);
    assert(!coarse(last, top));
    lemma_alike(coarse, alike, item, near);
    lemma_alike(coarse, alike, item, last);
    lemma_alike(coarse, alike, last, top);
    assert(!coarse(top, near)) by {
        if i < inner.len() - 1 {
            assert(coarse(near, top));
            lemma_weak(coarse, near, top, near);
        } else {
            lemma_weak(coarse, near, near, near);
        }
    }
    lemma_weak(coarse, top, near, item);
    lemma_weak(coarse, top, item, last);
}

/// Of items that are alike, the one kept is one that no other precedes.
pub proof fn kept_items_come_first<V>(
    items: Seq<V>,
    fine: spec_fn(V, V) -> bool,
    coarse: spec_fn(V, V) -> bool,
    alike: spec_fn(V, V) -> bool,
    j: int,
    k: int,
)
    requires
        is_weak_order(coarse),
        tells_apart(coarse, alike),
        refines(fine, coarse),
        in_order(items, fine),
        0 <= j < items.len(),
        0 <= k < without_repeats(items, alike).len(),
        alike(items[j], without_repeats(items, alike)[k]),
    ensures
        items[j] == without_repeats(items, alike)[k] || !fine(
            items[j],
            without_repeats(items, alike)[k],
        ),
    decreases items.len(),
{
    let kept = without_repeats(items, alike);
    let front = items.drop_last();
    let last = items.last();
    let inner = without_repeats(front, alike);
    lemma_front_order(items, fine);
    lemma_refined_order(items, fine, coarse);
    if k < inner.len() {
        assert(kept[k] == inner[k]);
        if j == front.len() {
            lemma_kept_contained(front, alike);
            assert(front.contains(inner[k]));
            let t = choose|t: int| 0 <= t < front.len() && front[t] == inner[k];
            assert(items[t] == front[t]);
            assert(!fine(items[j], items[t]));
        } else {
            assert(front[j] == items[j]);
            kept_items_come_first(front, fine, coarse, alike, j, k);
        }
    } else {
        assert(kept[k] == last);
        if j < front.len() {
            lemma_new_kept(items, coarse, alike, j);
        }
    }
}

/// The order by a number that each item has is a weak order.
pub proof fn number_keys_order<V>(precedes: spec_fn(V, V) -> bool, key: spec_fn(V) -> int)
    requires
        forall|a: V, b: V| #[trigger] precedes(a, b) == (key(a) < key(b)),
    ensures
        is_weak_order(precedes),
{
    reveal(is_weak_order);
}

/// The order by a text and then by another order is a weak order.
pub proof fn text_first_order<V>(
    precedes: spec_fn(V, V) -> bool,
    key: spec_fn(V) -> Seq<char>,
    rest: spec_fn(V, V) -> bool,
)
    requires
        is_weak_order(rest),
        forall|a: V, b: V| #[trigger]
            precedes(a, b) == if key(a) != key(b) {
                text_lt(key(a), key(b))
            } else {
                rest(a, b)
            },
    ensures
        is_weak_order(precedes),
{
    assert forall|a: V| !#[trigger] precedes(a, a) by {
        lemma_weak(rest, a, a, a);
    }
    assert forall|a: V, b: V, c: V| #[trigger] precedes(a, b) && #[trigger] precedes(b, c) implies precedes(
        a,
        c,
    ) by {
        lemma_text_order(key(a), key(b), key(c));
        lemma_weak(rest, a, b, c);
    }
    assert forall|a: V, b: V, c: V| !#[trigger] precedes(a, b) && !#[trigger] precedes(
        b,
        c,
    ) implies !precedes(a, c) by {
        lemma_text_order(key(a), key(b), key(c));
        lemma_text_order(key(c), key(b), key(a));
        lemma_text_order(key(a), key(c), key(b));
        lemma_weak(rest, a, b, c);
    }
    reveal(is_weak_order);
}

/// The order by a number and then by another order is a weak order.
pub proof fn number_first_order<V>(
    precedes: spec_fn(V, V) -> bool,
    key: spec_fn(V) -> int,
    rest: spec_fn(V, V) -> bool,
)
    requires
        is_weak_order(rest),
        forall|a: V, b: V| #[trigger]
            precedes(a, b) == if key(a) != key(b) {
                key(a) < key(b)
            } else {
                rest(a, b)
            },
    ensures
        is_weak_order(precedes),
{
    assert forall|a: V| !#[trigger] precedes(a, a) by {
        lemma_weak(rest, a, a, a);
    }
    assert forall|a: V, b: V, c: V| #[trigger] precedes(a, b) && #[trigger] precedes(b, c) implies precedes(
        a,
        c,
    ) by {
        lemma_weak(rest, a, b, c);
    }
    assert forall|a: V, b: V, c: V| !#[trigger] precedes(a, b) && !#[trigger] precedes(
        b,
        c,
    ) implies !precedes(a, c) by {
        lemma_weak(rest, a, b, c);
    }
    reveal(is_weak_order);
}

/// The order by a text that each item has is a weak order.
pub proof fn text_keys_order<V>(precedes: spec_fn(V, V) -> bool, key: spec_fn(V) -> Seq<char>)
    requires
        forall|a: V, b: V| #[trigger] precedes(a, b) == text_lt(key(a), key(b)),
    ensures
        is_weak_order(precedes),
{
    reveal(is_weak_order);
    assert forall|a: V| !#[trigger] precedes(a, a) by {
        lemma_text_lt_irreflexive(key(a));
    }
    assert forall|a: V, b: V, c: V| #[trigger] precedes(a, b) && #[trigger] precedes(b, c) implies precedes(
        a,
        c,
    ) by {
        lemma_text_lt_transitive(key(a), key(b), key(c));
    }
    assert forall|a: V, b: V, c: V| !#[trigger] precedes(a, b) && !#[trigger] precedes(
        b,
        c,
    ) implies !precedes(a, c) by {
        lemma_not_less_chain(key(a), key(b), key(c));
    }
}

/// Texts in order, each once.
pub open spec fn distinct_texts(texts: Seq<Seq<char>>) -> Seq<Seq<char>> {
    without_repeats(
        sorted_by(texts, relation_of::<String, ByText>(ByText)),
        sameness_of::<String, ByText>(ByText),
    )
}

/// Texts in order, each once: they ascend strictly, and just the given ones are there.
pub proof fn distinct_texts_ascend(texts: Seq<Seq<char>>)
    ensures
        forall|i: int, j: int|
            #![trigger distinct_texts(texts)[i], distinct_texts(texts)[j]]
            0 <= i < j < distinct_texts(texts).len() ==> text_lt(
                distinct_texts(texts)[i],
                distinct_texts(texts)[j],
            ),
        forall|text: Seq<char>|
            #[trigger] distinct_texts(texts).contains(text) <==> texts.contains(text),
{
    let precedes = relation_of::<String, ByText>(ByText);
    let alike = sameness_of::<String, ByText>(ByText);
    relations_are_orders::<String, ByText>(ByText);
    assert(tells_apart(precedes, alike)) by {
        reveal(tells_apart);
        assert forall|a: Seq<char>, b: Seq<char>| #[trigger] alike(a, b) == (!precedes(a, b)
            && !precedes(b, a)) by {
            lemma_text_lt_total(a, b);
            lemma_text_lt_irreflexive(a);
        }
    }
    let sorted = sorted_by(texts, precedes);
    let kept = distinct_texts(texts);
    sorting_orders_and_keeps(texts, precedes);
    sorting_keeps_members(texts, precedes);
    distinct_items_ascend(sorted, precedes, alike);
    assert forall|i: int, j: int| 0 <= i < j < kept.len() implies text_lt(
        #[trigger] kept[i],
        #[trigger] kept[j],
    ) by {
        assert(precedes(kept[i], kept[j]));
    }
    assert forall|text: Seq<char>| #[trigger] kept.contains(text) <==> texts.contains(text) by {
        if kept.contains(text) {
            let i = choose|i: int| 0 <= i < kept.len() && kept[i] == text;
            assert(sorted.contains(kept[i]));
        }
        if texts.contains(text) {
            assert(sorted.contains(text));
            let k = choose|k: int| 0 <= k < sorted.len() && sorted[k] == text;
            let i = choose|i: int|
                0 <= i < kept.len() && alike(#[trigger] sorted[k], #[trigger] kept[i]);
            assert(kept[i] == text);
        }
    }
}

/// The items in reverse.
pub fn reversed<T: View>(items: Vec<T>) -> (turned: Vec<T>)
    ensures
        turned@ == items@.reverse(),
{
    let ghost all = items@;
    let mut items = items;
    let mut turned: Vec<T> = Vec::new();
    assert(all.skip(all.len() as int).reverse() =~= turned@);
    assert(all.take(all.len() as int) =~= items@);
    while items.len() > 0
        invariant
            items@.len() <= all.len(),
            items@ == all.take(items@.len() as int),
            turned@ == all.skip(items@.len() as int).reverse(),
        decreases items@.len(),
    {
        let ghost count = items@.len();
        if let Some(item) = items.pop() {
            turned.push(item);
            proof {
                assert(items@ =~= all.take(count - 1));
                assert(all.skip(count - 1).reverse() =~= all.skip(count as int).reverse().push(
                    item,
                ));
            }
        }
    }
    assert(all.skip(0) =~= all);
    turned
}

/// Each text comes before those behind it.
pub open spec fn texts_ascend(texts: Seq<Seq<char>>) -> bool {
    forall|i: int, j: int|
        #![trigger texts[i], texts[j]]
        0 <= i < j < texts.len() ==> text_lt(texts[i], texts[j])
}

/// Where a text stands among ascending ones, if it is there.
pub fn position_of(texts: &Vec<String>, text: &str) -> (found: Option<usize>)
    requires
        texts_ascend(views(texts@)),
    ensures
        match found {
            Some(at) => at < texts@.len() && views(texts@)[at as int] == text@,
            None => !views(texts@).contains(text@),
        },
{
    let ghost all = views(texts@);
    let mut from: usize = 0;
    let mut to: usize = texts.len();
    while from < to
        invariant
            from <= to <= texts@.len(),
            all == views(texts@),
            texts_ascend(all),
            forall|i: int| 0 <= i < from ==> #[trigger] all[i] != text@,
            forall|i: int| to <= i < all.len() ==> #[trigger] all[i] != text@,
        decreases to - from,
    {
        let middle: usize = from + (to - from) / 2;
        let here = texts[middle].as_str();
        assert(all[middle as int] == here@);
        if same(here, text) {
            return Some(middle);
        }
        if less(here, text) {
            assert forall|i: int| 0 <= i < middle + 1 implies #[trigger] all[i] != text@ by {
                if i < middle && all[i] == text@ {
                    assert(text_lt(all[i], all[middle as int]));
                    lemma_text_lt_transitive(text@, here@, text@);
                    lemma_text_lt_irreflexive(text@);
                }
            }
            from = middle + 1;
        } else {
            assert forall|i: int| middle <= i < all.len() implies #[trigger] all[i] != text@ by {
                if i > middle && all[i] == text@ {
                    assert(text_lt(all[middle as int], all[i]));
                }
            }
            to = middle;
        }
    }
    None
}

} // verus!

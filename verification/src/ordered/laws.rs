//! What sorting and leaving out repeats make of items that are alike.

use vstd::prelude::*;
use crate::ordered::{chosen, inserted, kept_items_are_items, sorted_by, without_repeats};

verus! {

proof fn lemma_inserted_chosen<V>(
    sorted: Seq<V>,
    item: V,
    precedes: spec_fn(V, V) -> bool,
    picks: spec_fn(V) -> bool,
)
    requires
        forall|a: V, b: V| picks(a) && picks(b) ==> !#[trigger] precedes(a, b),
    ensures
        chosen(inserted(sorted, item, precedes), picks) == if picks(item) {
            chosen(sorted, picks).push(item)
        } else {
            chosen(sorted, picks)
        },
    decreases sorted.len(),
{
    let after = inserted(sorted, item, precedes);
    if sorted.len() > 0 && precedes(item, sorted.last()) {
        lemma_inserted_chosen(sorted.drop_last(), item, precedes, picks);
        assert(after.drop_last() =~= inserted(sorted.drop_last(), item, precedes));
        assert(after.last() == sorted.last());
    } else {
        assert(after.drop_last() =~= sorted);
        assert(after.last() == item);
    }
}

/// Sorting leaves items of which none precedes another in the order in which they stood.
pub proof fn sorting_keeps_equals_in_order<V>(
    items: Seq<V>,
    precedes: spec_fn(V, V) -> bool,
    picks: spec_fn(V) -> bool,
)
    requires
        forall|a: V, b: V| picks(a) && picks(b) ==> !#[trigger] precedes(a, b),
    ensures
        chosen(sorted_by(items, precedes), picks) == chosen(items, picks),
    decreases items.len(),
{
    if items.len() > 0 {
        sorting_keeps_equals_in_order(items.drop_last(), precedes, picks);
        lemma_inserted_chosen(
            sorted_by(items.drop_last(), precedes),
            items.last(),
            precedes,
            picks,
        );
    }
}

/// Of items that are picked, the first one stands first among the picked ones.
pub proof fn the_first_is_chosen_first<V>(items: Seq<V>, picks: spec_fn(V) -> bool, k: int)
    requires
        0 <= k < items.len(),
        picks(items[k]),
        forall|j: int| 0 <= j < k ==> !picks(#[trigger] items[j]),
    ensures
        chosen(items, picks).len() > 0,
        chosen(items, picks)[0] == items[k],
    decreases items.len(),
{
    let front = items.drop_last();
    if k < front.len() {
        assert(front[k] == items[k]);
        assert forall|j: int| 0 <= j < k implies !picks(#[trigger] front[j]) by {
            assert(front[j] == items[j]);
        }
        the_first_is_chosen_first(front, picks, k);
    } else {
        lemma_none_chosen(front, items, picks);
    }
}

proof fn lemma_none_chosen<V>(front: Seq<V>, items: Seq<V>, picks: spec_fn(V) -> bool)
    requires
        items.len() >= front.len(),
        forall|j: int| 0 <= j < front.len() ==> front[j] == items[j] && !picks(#[trigger] items[j]),
    ensures
        chosen(front, picks).len() == 0,
    decreases front.len(),
{
    if front.len() > 0 {
        assert(!picks(items[front.len() - 1]));
        lemma_none_chosen(front.drop_last(), items, picks);
    }
}

proof fn lemma_chosen_some<V>(items: Seq<V>, picks: spec_fn(V) -> bool, item: V)
    requires
        items.contains(item),
        picks(item),
    ensures
        chosen(items, picks).len() > 0,
    decreases items.len(),
{
    let i = choose|i: int| 0 <= i < items.len() && items[i] == item;
    if i < items.len() - 1 {
        assert(items.drop_last()[i] == item);
        lemma_chosen_some(items.drop_last(), picks, item);
    }
}

proof fn lemma_chosen_from<V>(items: Seq<V>, picks: spec_fn(V) -> bool)
    ensures
        forall|i: int|
            0 <= i < chosen(items, picks).len() ==> picks(#[trigger] chosen(items, picks)[i])
                && items.contains(chosen(items, picks)[i]),
    decreases items.len(),
{
    if items.len() > 0 {
        let front = items.drop_last();
        lemma_chosen_from(front, picks);
        let found = chosen(items, picks);
        assert forall|i: int| 0 <= i < found.len() implies picks(#[trigger] found[i])
            && items.contains(found[i]) by {
            if i < chosen(front, picks).len() {
                assert(found[i] == chosen(front, picks)[i]);
                let k = choose|k: int| 0 <= k < front.len() && front[k] == found[i];
                assert(items[k] == found[i]);
            } else {
                assert(items[items.len() - 1] == found[i]);
            }
        }
    }
}

/// Of items that are alike, the first one is kept.
pub proof fn the_first_of_each_is_kept<V>(
    items: Seq<V>,
    alike: spec_fn(V, V) -> bool,
    picks: spec_fn(V) -> bool,
)
    requires
        forall|x: V| #[trigger] alike(x, x),
        forall|a: V, b: V| #[trigger] alike(a, b) ==> picks(a) == picks(b),
        chosen(items, picks).len() > 0,
    ensures
        chosen(without_repeats(items, alike), picks).len() > 0,
        chosen(without_repeats(items, alike), picks)[0] == chosen(items, picks)[0],
    decreases items.len(),
{
    let front = items.drop_last();
    let inner = without_repeats(front, alike);
    let kept = without_repeats(items, alike);
    lemma_chosen_from(front, picks);
    lemma_chosen_from(inner, picks);
    if chosen(front, picks).len() > 0 {
        the_first_of_each_is_kept(front, alike, picks);
        if kept != inner {
            assert(kept.drop_last() =~= inner);
        }
    } else {
        assert(picks(items.last()));
        kept_items_are_items(front, alike);
        assert(chosen(inner, picks).len() == 0) by {
            if chosen(inner, picks).len() > 0 {
                let one = chosen(inner, picks)[0];
                assert(picks(one) && inner.contains(one));
                let k = choose|k: int| 0 <= k < inner.len() && inner[k] == one;
                assert(front.contains(inner[k]));
                lemma_chosen_some(front, picks, one);
            }
        }
        if inner.len() > 0 && alike(items.last(), inner.last()) {
            assert(picks(inner.last()));
            assert(inner.contains(inner[inner.len() - 1]));
            lemma_chosen_some(inner, picks, inner.last());
        } else {
            assert(kept.drop_last() =~= inner);
            assert(kept.last() == items.last());
        }
    }
}

/// What is picked is among the items.
pub proof fn the_chosen_are_items<V>(items: Seq<V>, picks: spec_fn(V) -> bool)
    ensures
        forall|i: int|
            0 <= i < chosen(items, picks).len() ==> picks(#[trigger] chosen(items, picks)[i])
                && items.contains(chosen(items, picks)[i]),
{
    lemma_chosen_from(items, picks);
}

} // verus!

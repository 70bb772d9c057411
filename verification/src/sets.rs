//! Sets of texts.

use rustc_hash::FxHashSet;
use vstd::prelude::*;
use crate::text::views;

verus! {

/// A set of texts.
#[verifier::external_body]
pub struct TextSet {
    set: FxHashSet<String>,
}

/// The texts in a set.
pub uninterp spec fn texts_in(set: TextSet) -> Set<Seq<char>>;

impl TextSet {
    /// `FxHashSet::default` is the empty set.
    #[verifier::external_body]
    pub(crate) fn new() -> (set: Self)
        ensures
            (texts_in(set) == Set::<Seq<char>>::empty()),
    {
        TextSet { set: FxHashSet::default() }
    }

    /// `FxHashSet::insert` adds a text, and says whether it was not there before.
    #[verifier::external_body]
    pub(crate) fn insert(&mut self, text: String) -> (added: bool)
        ensures
            texts_in(*final(self)) == texts_in(*old(self)).insert(text@),
            added == !texts_in(*old(self)).contains(text@),
    {
        self.set.insert(text)
    }

    /// `FxHashSet::contains` says whether an equal text is in the set.
    #[verifier::external_body]
    pub(crate) fn contains(&self, text: &str) -> (found: bool)
        ensures
            found == texts_in(*self).contains(text@),
    {
        self.set.contains(text)
    }
}

/// The set of some texts.
pub(crate) fn text_set(texts: &Vec<String>) -> (set: TextSet)
    ensures
        forall|text: Seq<char>|
            #[trigger] texts_in(set).contains(text) <==> views(texts@).contains(text),
{
    let ghost all = views(texts@);
    let mut set = TextSet::new();
    let mut i: usize = 0;
    while i < texts.len()
        invariant
            i <= texts@.len(),
            all == views(texts@),
            forall|text: Seq<char>| #[trigger]
                texts_in(set).contains(text) <==> all.take(i as int).contains(text),
        decreases texts@.len() - i,
    {
        let text = texts[i].clone();
        let ghost before = texts_in(set);
        set.insert(text);
        proof {
            assert(all.take(i + 1) =~= all.take(i as int).push(text@));
            assert forall|x: Seq<char>| #[trigger] texts_in(set).contains(x) <==> all.take(
                i + 1,
            ).contains(x) by {
                crate::ordered::lemma_push_members(all.take(i as int), text@, x);
                assert(before.contains(x) <==> all.take(i as int).contains(x));
            }
        }
        i = i + 1;
    }
    assert(all.take(i as int) =~= all);
    set
}

} // verus!

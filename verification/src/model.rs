//! The mathematical model of a deck: two sequences of token values, and the
//! operations of the deck as functions and relations on them.

use vstd::prelude::*;

verus! {

/// The test that keeps every value but `token`.
pub open spec fn other_than<V>(token: V) -> spec_fn(V) -> bool {
    |v: V| v != token
}

/// The test that keeps the values that do not occur in `tokens`.
pub open spec fn none_of<V>(tokens: Seq<V>) -> spec_fn(V) -> bool {
    |v: V| !tokens.contains(v)
}

/// A test that every element passes keeps the sequence as it is.
pub proof fn lemma_filter_keeps_all<V>(s: Seq<V>, test: spec_fn(V) -> bool)
    requires
        forall|i: int| 0 <= i < s.len() ==> test(#[trigger] s[i]),
    ensures
        s.filter(test) == s,
    decreases s.len(),
{
    reveal(Seq::filter);
    if s.len() > 0 {
        lemma_filter_keeps_all(s.drop_last(), test);
    }
}

/// Filtering twice keeps what passes both tests.
pub proof fn lemma_filter_twice<V>(
    s: Seq<V>,
    first: spec_fn(V) -> bool,
    second: spec_fn(V) -> bool,
    both: spec_fn(V) -> bool,
)
    requires
        forall|v: V| #[trigger] both(v) == (first(v) && second(v)),
    ensures
        s.filter(first).filter(second) == s.filter(both),
    decreases s.len(),
{
    reveal(Seq::filter);
    if s.len() > 0 {
        lemma_filter_twice(s.drop_last(), first, second, both);
        if first(s.last()) {
            s.drop_last().filter(first).lemma_filter_push(s.last(), second);
        }
    }
}

/// What a deck holds, as two sequences of token values.
pub struct DeckView<V> {
    /// The tokens that can still be drawn before the next shuffle. The last
    /// one is drawn first.
    pub active: Seq<V>,
    /// The tokens that were drawn or added since the last shuffle.
    pub used: Seq<V>,
}

impl<V> DeckView<V> {
    /// The deck with nothing in it.
    pub open spec fn empty() -> Self {
        DeckView { active: Seq::empty(), used: Seq::empty() }
    }

    /// Every token of the deck: the active pile followed by the used pile.
    pub open spec fn all(self) -> Seq<V> {
        self.active + self.used
    }

    /// How many tokens the deck holds.
    pub open spec fn len(self) -> nat {
        self.active.len() + self.used.len()
    }

    /// Whether `token` lies on one of the two piles.
    pub open spec fn contains(self, token: V) -> bool {
        self.active.contains(token) || self.used.contains(token)
    }

    /// No token occurs twice in the deck.
    pub open spec fn distinct(self) -> bool {
        self.all().no_duplicates()
    }

    /// The deck after `token` was put on the used pile.
    pub open spec fn discard(self, token: V) -> Self {
        DeckView { active: self.active, used: self.used.push(token) }
    }

    /// The deck after every occurrence of `token` was taken off both piles.
    pub open spec fn remove(self, token: V) -> Self {
        DeckView {
            active: self.active.filter(other_than(token)),
            used: self.used.filter(other_than(token)),
        }
    }

    /// The deck after every token that occurs in `tokens` was taken off both
    /// piles.
    pub open spec fn remove_all(self, tokens: Seq<V>) -> Self {
        DeckView {
            active: self.active.filter(none_of(tokens)),
            used: self.used.filter(none_of(tokens)),
        }
    }

    /// The deck after `token` was made known to it: put on the used pile,
    /// unless the deck holds it already.
    pub open spec fn register(self, token: V) -> Self {
        if self.contains(token) {
            self
        } else {
            self.discard(token)
        }
    }

    /// The deck after the tokens were made known to it one after the other,
    /// the first one first.
    pub open spec fn register_all(self, tokens: Seq<V>) -> Self
        decreases tokens.len(),
    {
        if tokens.len() == 0 {
            self
        } else {
            self.register_all(tokens.drop_last()).register(tokens.last())
        }
    }

    /// The deck after the used pile was laid on top of the active pile.
    pub open spec fn turn_over(self) -> Self {
        DeckView { active: self.active + self.used, used: Seq::empty() }
    }

    /// A draw that finds this deck, hands out `out` and leaves `next`.
    ///
    /// While the active pile holds a token, its last one is handed out and
    /// nothing else changes. When it is empty, the used pile is shuffled and
    /// becomes the active pile: `next.active` followed by the token handed out
    /// is then some rearrangement of the old used pile. From a deck with two
    /// empty piles nothing is handed out.
    pub open spec fn draws(self, out: Option<V>, next: Self) -> bool {
        if self.active.len() > 0 {
            &&& out == Some(self.active.last())
            &&& next.active == self.active.drop_last()
            &&& next.used == self.used
        } else if self.used.len() > 0 {
            &&& out is Some
            &&& next.active.push(out->0).to_multiset() == self.used.to_multiset()
            &&& next.used == Seq::<V>::empty()
        } else {
            &&& out is None
            &&& next == self
        }
    }

    /// A draw that finds this deck and hands out `out`, which is put back on
    /// the used pile at once, leaving `next`.
    pub open spec fn rotates(self, out: V, next: Self) -> bool {
        exists|drawn: Self| #[trigger] self.draws(Some(out), drawn) && next == drawn.discard(out)
    }
}

} // verus!

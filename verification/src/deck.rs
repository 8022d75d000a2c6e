//! The deck itself: two vectors of tokens and the generator that shuffles them.

use crate::laws::{
    lemma_discard_distinct, lemma_draw_keeps_tokens, lemma_remove_distinct, lemma_remove_gone,
};
use crate::model::{other_than, DeckView};
use rand::rngs::StdRng;
use rand::seq::SliceRandom;
use rand::SeedableRng;
use vstd::prelude::*;

verus! {

/// The generator of `rand` that shuffles a deck. Nothing is known of its
/// state.
#[verifier::external_type_specification]
#[verifier::external_body]
pub struct ExStdRng(StdRng);

/// Calls `StdRng::from_entropy` of `rand`, which seeds a new generator from the
/// operating system. Nothing is claimed of the generator. The call panics
/// where the system cannot supply the seed.
#[verifier::external_body]
fn seeded_rng() -> StdRng {
    StdRng::from_entropy()
}

/// Calls `SliceRandom::shuffle` of `rand` on the pile. That function only
/// swaps elements of the slice, so the pile holds the same tokens afterwards,
/// each as often as before; their order is left open.
#[verifier::external_body]
fn shuffle<T>(pile: &mut Vec<T>, rng: &mut StdRng)
    ensures
        final(pile)@.to_multiset() == old(pile)@.to_multiset(),
{
    pile.shuffle(rng);
}

/// The values that a sequence of tokens stands for.
pub open spec fn views<T: View>(tokens: Seq<T>) -> Seq<T::V> {
    tokens.map_values(|t: T| t@)
}

/// The value that a drawn token stands for.
pub open spec fn view_of<T: View>(token: Option<T>) -> Option<T::V> {
    match token {
        Some(t) => Some(t@),
        None => None,
    }
}

/// Rearranging tokens rearranges the values they stand for.
pub proof fn lemma_views_rearranged<T: View>(a: Seq<T>, b: Seq<T>)
    requires
        a.to_multiset() == b.to_multiset(),
    ensures
        views(a).to_multiset() == views(b).to_multiset(),
    decreases a.len(),
{
    broadcast use vstd::seq_lib::group_to_multiset_ensures;

    vstd::seq_lib::to_multiset_len(a);
    vstd::seq_lib::to_multiset_len(b);
    if a.len() == 0 {
        assert(views(a) =~= views(b));
    } else {
        let x = a.last();
        assert(a.contains(x));
        assert(b.to_multiset().count(x) > 0);
        let j = choose|j: int| 0 <= j < b.len() && b[j] == x;
        let a1 = a.drop_last();
        let b1 = b.remove(j);
        assert(a1 =~= a.remove(a.len() - 1));
        lemma_views_rearranged(a1, b1);
        assert(views(a) =~= views(a1).push(x@));
        assert(views(b) =~= views(b1).insert(j, x@));
    }
}

/// A deck of tokens of type `T`, shuffled by a generator of type `R`.
pub struct Deck<T, R> {
    deck: Vec<T>,
    discard: Vec<T>,
    rng: R,
}

impl<T: View, R> View for Deck<T, R> {
    type V = DeckView<T::V>;

    closed spec fn view(&self) -> DeckView<T::V> {
        DeckView { active: views(self.deck@), used: views(self.discard@) }
    }
}

impl<T: View, R> Deck<T, R> {
    /// Puts `t` on the used pile. Nothing is compared: a caller that wants
    /// the tokens to stay unique asks `contains` first.
    pub fn discard(&mut self, t: T)
        ensures
            final(self)@ == old(self)@.discard(t@),
            old(self)@.distinct() && !old(self)@.contains(t@) ==> final(self)@.distinct(),
    {
        self.discard.push(t);
        assert(views(self.discard@) =~= views(old(self).discard@).push(t@));
        proof {
            if old(self)@.distinct() && !old(self)@.contains(t@) {
                lemma_discard_distinct(old(self)@, t@);
            }
        }
    }

    /// The two piles as they lie: the active pile, then the used pile.
    pub fn entries(&self) -> (r: (&[T], &[T]))
        ensures
            views(r.0@) == self@.active,
            views(r.1@) == self@.used,
    {
        (self.deck.as_slice(), self.discard.as_slice())
    }

    /// Lays the used pile, as it lies, on top of the active pile.
    pub fn turn_over(&mut self)
        ensures
            final(self)@ == old(self)@.turn_over(),
    {
        self.deck.append(&mut self.discard);
        assert(views(self.deck@) =~= views(old(self).deck@) + views(old(self).discard@));
        assert(views(self.discard@) =~= Seq::<T::V>::empty());
    }
}

impl<T: View> Deck<T, StdRng> {
    /// A deck that holds `active` and `used` as its piles, with a newly seeded
    /// generator.
    pub fn with_piles(active: Vec<T>, used: Vec<T>) -> (r: Self)
        ensures
            r@.active == views(active@),
            r@.used == views(used@),
    {
        Deck { deck: active, discard: used, rng: seeded_rng() }
    }

    /// Hands out the next token.
    ///
    /// The last token of the active pile is taken. If that pile is empty, the
    /// used pile is shuffled and turned over first. `None` means that the deck
    /// holds no token at all.
    pub fn draw(&mut self) -> (r: Option<T>)
        ensures
            old(self)@.draws(view_of(r), final(self)@),
            r is None <==> old(self)@.len() == 0,
            old(self)@.distinct() ==> final(self)@.distinct(),
    {
        let next = self.deck.pop();
        let r = if next.is_none() {
            shuffle(&mut self.discard, &mut self.rng);
            proof {
                lemma_views_rearranged(self.discard@, old(self).discard@);
                vstd::seq_lib::to_multiset_len(self.discard@);
                vstd::seq_lib::to_multiset_len(old(self).discard@);
            }
            let ghost shuffled = self.discard@;
            self.turn_over();
            let top = self.deck.pop();
            proof {
                if shuffled.len() > 0 {
                    assert(views(self.deck@).push(top->0@) =~= views(shuffled));
                } else {
                    assert(self@.used =~= old(self)@.used);
                }
            }
            top
        } else {
            assert(views(self.deck@) =~= views(old(self).deck@).drop_last());
            next
        };
        proof {
            if r is Some {
                lemma_draw_keeps_tokens(old(self)@, r->0@, self@);
            }
        }
        r
    }
}

/// Whether `==` on `T` compares what the tokens stand for: two tokens are
/// equal to it exactly when their values are the same. This holds of
/// strings and of integers.
pub open spec fn compares_values<T: View + PartialEq>() -> bool {
    forall|a: T, b: T, r: bool| #[trigger]
        call_ensures(<T as PartialEq>::eq, (&a, &b), r) ==> r == (a@ == b@)
}

/// Whether some token of the pile equals `t`.
fn holds<T: View + PartialEq>(pile: &Vec<T>, t: &T) -> (r: bool)
    requires
        compares_values::<T>(),
    ensures
        r == views(pile@).contains(t@),
{
    let mut i: usize = 0;
    while i < pile.len()
        invariant
            i <= pile.len(),
            compares_values::<T>(),
            forall|j: int| 0 <= j < i ==> views(pile@)[j] != t@,
        decreases pile.len() - i,
    {
        if pile[i].eq(t) {
            assert(views(pile@)[i as int] == t@);
            return true;
        }
        i += 1;
    }
    false
}

/// Takes every token that equals `t` off the pile. The others keep their
/// order.
fn retain_others<T: View + PartialEq>(pile: &mut Vec<T>, t: &T)
    requires
        compares_values::<T>(),
    ensures
        views(final(pile)@) == views(old(pile)@).filter(other_than(t@)),
{
    let mut before: Vec<T> = Vec::new();
    core::mem::swap(pile, &mut before);
    assert(views(pile@).filter(other_than(t@)) =~= Seq::<T::V>::empty()) by {
        reveal(Seq::filter);
    }
    for token in it: before
        invariant
            compares_values::<T>(),
            it.seq() == old(pile)@,
            views(pile@) == views(it.seq().take(it.index() as int)).filter(other_than(t@)),
    {
        let ghost i = it.index() as int;
        proof {
            let seen = views(it.seq().take(i));
            assert(views(it.seq().take(i + 1)) =~= seen.push(token@));
            seen.lemma_filter_push(token@, other_than(t@));
        }
        if !token.eq(t) {
            pile.push(token);
        }
    }
    assert(old(pile)@.take(old(pile)@.len() as int) =~= old(pile)@);
}

impl<T: View + PartialEq, R> Deck<T, R> {
    /// Whether the deck holds a token equal to `t`, on either pile.
    pub fn contains(&self, t: &T) -> (r: bool)
        requires
            compares_values::<T>(),
        ensures
            r == self@.contains(t@),
    {
        holds(&self.deck, t) || holds(&self.discard, t)
    }

    /// Takes every token equal to `t` off both piles. The other tokens keep
    /// their places. Where the deck holds no such token, nothing changes.
    pub fn remove(&mut self, t: T)
        requires
            compares_values::<T>(),
        ensures
            final(self)@ == old(self)@.remove(t@),
            !final(self)@.contains(t@),
            old(self)@.distinct() ==> final(self)@.distinct(),
    {
        retain_others(&mut self.deck, &t);
        retain_others(&mut self.discard, &t);
        proof {
            lemma_remove_gone(old(self)@, t@);
            if old(self)@.distinct() {
                lemma_remove_distinct(old(self)@, t@);
            }
        }
    }
}

impl<T: View> Default for Deck<T, StdRng> {
    /// The empty deck, with a newly seeded generator.
    fn default() -> (r: Self)
        ensures
            r@ == DeckView::<T::V>::empty(),
            r@.distinct(),
    {
        let r = Deck { deck: Vec::new(), discard: Vec::new(), rng: seeded_rng() };
        assert(views(r.deck@) =~= Seq::<T::V>::empty());
        r
    }
}

} // verus!

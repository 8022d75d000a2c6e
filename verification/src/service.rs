//! What can be asked of a deck of strings from outside: to make tokens known
//! to it, to take tokens out, to list what it holds, and to hand out the next
//! token.

use crate::deck::{lemma_views_rearranged, views, Deck};
use crate::error::DrawError;
use crate::laws::{lemma_register_all, lemma_remove_all_gone, lemma_rotate_keeps_tokens};
use crate::model::{lemma_filter_keeps_all, lemma_filter_twice, none_of, other_than};
use rand::rngs::StdRng;
use vstd::prelude::*;

verus! {

/// Whether `a` comes before `b`, or equals it, in the order of strings:
/// decided by the first place at which they differ, the character with the
/// smaller code first, and a string before those that continue it.
pub open spec fn precedes(a: Seq<char>, b: Seq<char>) -> bool
    decreases a.len(),
{
    if a.len() == 0 {
        true
    } else if b.len() == 0 {
        false
    } else if a.first() != b.first() {
        (a.first() as u32) < (b.first() as u32)
    } else {
        precedes(a.drop_first(), b.drop_first())
    }
}

/// Every string of the list precedes those behind it.
pub open spec fn sorted(list: Seq<Seq<char>>) -> bool {
    forall|i: int, j: int| 0 <= i < j < list.len() ==> precedes(list[i], list[j])
}

/// Calls `sort` of std on the strings. It rearranges them into ascending
/// order, and the order of `String` is that of `precedes`: by the codes of
/// the characters, place by place.
#[verifier::external_body]
fn sort_strings(list: &mut Vec<String>)
    ensures
        final(list)@.to_multiset() == old(list)@.to_multiset(),
        sorted(views(final(list)@)),
{
    list.sort();
}

/// Makes each of `entries` known to the deck, in their order: one that the
/// deck does not hold yet goes on the used pile, one that it holds is passed
/// over.
pub fn register<R>(deck: &mut Deck<String, R>, entries: &[String])
    ensures
        final(deck)@ == old(deck)@.register_all(views(entries@)),
        forall|i: int| 0 <= i < entries@.len() ==> final(deck)@.contains(#[trigger] entries@[i]@),
        old(deck)@.distinct() ==> final(deck)@.distinct(),
{
    let mut i: usize = 0;
    while i < entries.len()
        invariant
            i <= entries.len(),
            deck@ == old(deck)@.register_all(views(entries@).take(i as int)),
        decreases entries.len() - i,
    {
        let entry = &entries[i];
        proof {
            let tokens = views(entries@);
            assert(tokens.take(i + 1).drop_last() =~= tokens.take(i as int));
        }
        if !deck.contains(entry) {
            deck.discard(entry.clone());
        }
        i += 1;
    }
    assert(views(entries@).take(entries@.len() as int) =~= views(entries@));
    proof {
        lemma_register_all(old(deck)@, views(entries@));
        assert forall|i: int| 0 <= i < entries@.len() implies deck@.contains(
            #[trigger] entries@[i]@,
        ) by {
            assert(views(entries@)[i] == entries@[i]@);
        }
    }
}

/// Takes each of `entries` out of the deck, wherever it lies. The tokens that
/// stay keep their places.
pub fn remove<R>(deck: &mut Deck<String, R>, entries: &[String])
    ensures
        final(deck)@ == old(deck)@.remove_all(views(entries@)),
        forall|i: int| 0 <= i < entries@.len() ==> !final(deck)@.contains(#[trigger] entries@[i]@),
        old(deck)@.distinct() ==> final(deck)@.distinct(),
{
    let mut i: usize = 0;
    proof {
        let nothing = views(entries@).take(0);
        lemma_filter_keeps_all(deck@.active, none_of(nothing));
        lemma_filter_keeps_all(deck@.used, none_of(nothing));
    }
    while i < entries.len()
        invariant
            i <= entries.len(),
            deck@ == old(deck)@.remove_all(views(entries@).take(i as int)),
            old(deck)@.distinct() ==> deck@.distinct(),
        decreases entries.len() - i,
    {
        let entry = &entries[i];
        proof {
            let tokens = views(entries@);
            let seen = tokens.take(i as int);
            let next = tokens.take(i + 1);
            assert(next =~= seen.push(entry@));
            assert forall|v: Seq<char>| #[trigger] none_of(next)(v) == (none_of(seen)(v)
                && other_than(entry@)(v)) by {
                if seen.contains(v) {
                    let j = choose|j: int| 0 <= j < seen.len() && seen[j] == v;
                    assert(next[j] == v);
                }
                if next.contains(v) && v != entry@ {
                    let j = choose|j: int| 0 <= j < next.len() && next[j] == v;
                    assert(seen[j] == v);
                }
                assert(next[i as int] == entry@);
            }
            lemma_filter_twice(old(deck)@.active, none_of(seen), other_than(entry@), none_of(next));
            lemma_filter_twice(old(deck)@.used, none_of(seen), other_than(entry@), none_of(next));
        }
        deck.remove(entry.clone());
        i += 1;
    }
    assert(views(entries@).take(entries@.len() as int) =~= views(entries@));
    proof {
        lemma_remove_all_gone(old(deck)@, views(entries@));
        assert forall|i: int| 0 <= i < entries@.len() implies !deck@.contains(
            #[trigger] entries@[i]@,
        ) by {
            assert(views(entries@)[i] == entries@[i]@);
        }
    }
}

/// Every token of the deck, from both piles, in the order of strings.
pub fn registered<R>(deck: &Deck<String, R>) -> (r: Vec<String>)
    ensures
        views(r@).to_multiset() == deck@.all().to_multiset(),
        sorted(views(r@)),
{
    let (active, used) = deck.entries();
    let mut result: Vec<String> = Vec::new();
    let mut i: usize = 0;
    while i < active.len()
        invariant
            i <= active.len(),
            views(result@) == views(active@).take(i as int),
        decreases active.len() - i,
    {
        let ghost gathered = views(result@);
        result.push(active[i].clone());
        assert(views(result@) =~= gathered.push(active@[i as int]@));
        i += 1;
    }
    let mut j: usize = 0;
    while j < used.len()
        invariant
            i == active.len(),
            j <= used.len(),
            views(result@) == views(active@) + views(used@).take(j as int),
        decreases used.len() - j,
    {
        let ghost gathered = views(result@);
        result.push(used[j].clone());
        assert(views(result@) =~= gathered.push(used@[j as int]@));
        j += 1;
    }
    assert(views(result@) =~= deck@.all());
    let ghost gathered = result@;
    sort_strings(&mut result);
    proof {
        lemma_views_rearranged(result@, gathered);
    }
    result
}

/// Hands out the next token of the deck and puts it back on the used pile at
/// once, so that it comes again only after the next shuffle.
pub fn draw(deck: &mut Deck<String, StdRng>) -> (r: Result<String, DrawError>)
    ensures
        match r {
            Ok(token) => old(deck)@.rotates(token@, final(deck)@),
            Err(error) => error == DrawError::Exhausted && final(deck)@ == old(deck)@,
        },
        r is Err <==> old(deck)@.len() == 0,
        old(deck)@.distinct() ==> final(deck)@.distinct(),
{
    match deck.draw() {
        Some(token) => {
            deck.discard(token.clone());
            proof {
                lemma_rotate_keeps_tokens(old(deck)@, token@, deck@);
            }
            Ok(token)
        },
        None => Err(DrawError::Exhausted),
    }
}

} // verus!

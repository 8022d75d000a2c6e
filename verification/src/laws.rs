//! What holds of a deck whatever the shuffles bring: what removing and
//! registering leave behind, that drawing never loses or invents a token, and
//! that no token comes twice within one turn of the deck.

use crate::model::{lemma_filter_keeps_all, other_than, DeckView};
use vstd::prelude::*;

verus! {

/// A value that the sequence lacks can be added without making a duplicate.
proof fn lemma_push_distinct<V>(s: Seq<V>, v: V)
    requires
        s.no_duplicates(),
        !s.contains(v),
    ensures
        s.push(v).no_duplicates(),
{
}

/// Without duplicates, the last value occurs nowhere before.
proof fn lemma_last_is_new<V>(s: Seq<V>)
    requires
        s.no_duplicates(),
        s.len() > 0,
    ensures
        s.drop_last().no_duplicates(),
        !s.drop_last().contains(s.last()),
{
}

/// Filtering makes no duplicates.
proof fn lemma_filter_distinct<V>(s: Seq<V>, test: spec_fn(V) -> bool)
    requires
        s.no_duplicates(),
    ensures
        s.filter(test).no_duplicates(),
    decreases s.len(),
{
    reveal(Seq::filter);
    if s.len() > 0 {
        let rest = s.drop_last();
        lemma_last_is_new(s);
        lemma_filter_distinct(rest, test);
        if test(s.last()) {
            if rest.filter(test).contains(s.last()) {
                rest.lemma_filter_contains_rev(test, s.last());
            }
            lemma_push_distinct(rest.filter(test), s.last());
        }
    }
}

/// A rearrangement of a sequence without duplicates has none either.
proof fn lemma_rearranged_distinct<V>(a: Seq<V>, b: Seq<V>)
    requires
        a.no_duplicates(),
        a.to_multiset() == b.to_multiset(),
    ensures
        b.no_duplicates(),
{
    a.lemma_multiset_has_no_duplicates();
    b.lemma_multiset_has_no_duplicates_conv();
}

/// A rearrangement of a sequence holds the same values.
proof fn lemma_rearranged_contains<V>(a: Seq<V>, b: Seq<V>, v: V)
    requires
        a.to_multiset() == b.to_multiset(),
    ensures
        a.contains(v) == b.contains(v),
{
    vstd::seq_lib::to_multiset_contains(a, v);
    vstd::seq_lib::to_multiset_contains(b, v);
}

/// Both piles of a deck without duplicates are without duplicates, and no
/// token lies on both.
proof fn lemma_distinct_piles<V>(deck: DeckView<V>)
    requires
        deck.distinct(),
    ensures
        deck.active.no_duplicates(),
        deck.used.no_duplicates(),
        forall|i: int, j: int|
            0 <= i < deck.active.len() && 0 <= j < deck.used.len() ==> deck.active[i]
                != deck.used[j],
{
    let all = deck.all();
    let n = deck.active.len() as int;
    assert forall|i: int, j: int|
        0 <= i < deck.active.len() && 0 <= j < deck.active.len() && i != j implies deck.active[i]
        != deck.active[j] by {
        assert(all[i] != all[j]);
    }
    assert forall|i: int, j: int|
        0 <= i < deck.used.len() && 0 <= j < deck.used.len() && i != j implies deck.used[i]
        != deck.used[j] by {
        assert(all[n + i] != all[n + j]);
    }
    assert forall|i: int, j: int|
        0 <= i < deck.active.len() && 0 <= j < deck.used.len() implies deck.active[i]
        != deck.used[j] by {
        assert(all[i] != all[n + j]);
    }
}

/// A token is in the deck exactly when it is among all its tokens.
proof fn lemma_contains_all<V>(deck: DeckView<V>, token: V)
    ensures
        deck.contains(token) == deck.all().contains(token),
{
    let all = deck.all();
    let n = deck.active.len() as int;
    if deck.active.contains(token) {
        let i = choose|i: int| 0 <= i < deck.active.len() && deck.active[i] == token;
        assert(all[i] == token);
    }
    if deck.used.contains(token) {
        let i = choose|i: int| 0 <= i < deck.used.len() && deck.used[i] == token;
        assert(all[n + i] == token);
    }
    if all.contains(token) {
        let i = choose|i: int| 0 <= i < all.len() && all[i] == token;
        if i < n {
            assert(deck.active[i] == token);
        } else {
            assert(deck.used[i - n] == token);
        }
    }
}

/// A token that was removed is no longer in the deck, whatever the deck held
/// before.
pub proof fn lemma_remove_gone<V>(deck: DeckView<V>, token: V)
    ensures
        !deck.remove(token).contains(token),
{
}

/// Removing a token a second time changes nothing.
pub proof fn lemma_remove_twice<V>(deck: DeckView<V>, token: V)
    ensures
        deck.remove(token).remove(token) == deck.remove(token),
{
    broadcast use vstd::seq_lib::group_filter_ensures;

    let next = deck.remove(token);
    lemma_filter_keeps_all(next.active, other_than(token));
    lemma_filter_keeps_all(next.used, other_than(token));
}

/// Removing a token that the deck does not hold changes nothing.
pub proof fn lemma_remove_unknown<V>(deck: DeckView<V>, token: V)
    requires
        !deck.contains(token),
    ensures
        deck.remove(token) == deck,
{
    lemma_filter_keeps_all(deck.active, other_than(token));
    lemma_filter_keeps_all(deck.used, other_than(token));
}

/// Removing a token touches no other: every other token is in the deck
/// afterwards exactly when it was before.
pub proof fn lemma_remove_others<V>(deck: DeckView<V>, token: V, other: V)
    requires
        other != token,
    ensures
        deck.remove(token).contains(other) == deck.contains(other),
{
    broadcast use vstd::seq_lib::group_filter_ensures;

    let next = deck.remove(token);
    if deck.active.contains(other) {
        let i = choose|i: int| 0 <= i < deck.active.len() && deck.active[i] == other;
        assert(other_than(token)(deck.active[i]));
    }
    if deck.used.contains(other) {
        let i = choose|i: int| 0 <= i < deck.used.len() && deck.used[i] == other;
        assert(other_than(token)(deck.used[i]));
    }
    if next.active.contains(other) {
        deck.active.lemma_filter_contains_rev(other_than(token), other);
    }
    if next.used.contains(other) {
        deck.used.lemma_filter_contains_rev(other_than(token), other);
    }
}

/// Removing a token makes no duplicates.
pub proof fn lemma_remove_distinct<V>(deck: DeckView<V>, token: V)
    requires
        deck.distinct(),
    ensures
        deck.remove(token).distinct(),
{
    Seq::filter_distributes_over_add(deck.active, deck.used, other_than(token));
    lemma_filter_distinct(deck.all(), other_than(token));
}

/// None of the tokens that were removed is in the deck afterwards.
pub proof fn lemma_remove_all_gone<V>(deck: DeckView<V>, tokens: Seq<V>)
    ensures
        forall|i: int| 0 <= i < tokens.len() ==> !deck.remove_all(tokens).contains(#[trigger] tokens[i]),
{
}

/// Putting a token on the used pile that the deck does not hold makes no
/// duplicates.
pub proof fn lemma_discard_distinct<V>(deck: DeckView<V>, token: V)
    requires
        deck.distinct(),
        !deck.contains(token),
    ensures
        deck.discard(token).distinct(),
{
    lemma_contains_all(deck, token);
    lemma_push_distinct(deck.all(), token);
}

/// What registering leaves behind: the active pile as it was, the used pile
/// grown at its end, in the deck exactly the tokens that were there or were
/// registered, and no duplicates where there were none.
pub proof fn lemma_register_all<V>(deck: DeckView<V>, tokens: Seq<V>)
    ensures
        deck.register_all(tokens).active == deck.active,
        deck.used.is_prefix_of(deck.register_all(tokens).used),
        forall|v: V|
            #[trigger] deck.register_all(tokens).contains(v) <==> deck.contains(v)
                || tokens.contains(v),
        deck.distinct() ==> deck.register_all(tokens).distinct(),
    decreases tokens.len(),
{
    let next = deck.register_all(tokens);
    if tokens.len() > 0 {
        let rest = tokens.drop_last();
        let last = tokens.last();
        let before = deck.register_all(rest);
        lemma_register_all(deck, rest);
        assert forall|v: V| #[trigger] next.contains(v) <==> deck.contains(v) || tokens.contains(
            v,
        ) by {
            assert(before.contains(v) <==> deck.contains(v) || rest.contains(v));
            if rest.contains(v) {
                let i = choose|i: int| 0 <= i < rest.len() && rest[i] == v;
                assert(tokens[i] == v);
            }
            if tokens.contains(v) && v != last {
                let i = choose|i: int| 0 <= i < tokens.len() && tokens[i] == v;
                assert(rest[i] == v);
            }
            if !before.contains(last) {
                assert(next.used[before.used.len() as int] == last);
                if before.used.contains(v) {
                    let i = choose|i: int| 0 <= i < before.used.len() && before.used[i] == v;
                    assert(next.used[i] == v);
                }
                if next.used.contains(v) && v != last {
                    let i = choose|i: int| 0 <= i < next.used.len() && next.used[i] == v;
                    assert(before.used[i] == v);
                }
            }
        }
        if deck.distinct() && !before.contains(last) {
            lemma_discard_distinct(before, last);
        }
    }
}

/// Registering tokens that are all different, none of which the deck holds,
/// puts them on the used pile in their order. Each of them is in the deck
/// afterwards, and the deck has grown by their number: a deck that was empty
/// holds exactly as many tokens as were registered.
pub proof fn lemma_register_fresh<V>(deck: DeckView<V>, tokens: Seq<V>)
    requires
        tokens.no_duplicates(),
        forall|i: int| 0 <= i < tokens.len() ==> !deck.contains(#[trigger] tokens[i]),
    ensures
        deck.register_all(tokens) == (DeckView { active: deck.active, used: deck.used + tokens }),
        forall|i: int|
            0 <= i < tokens.len() ==> deck.register_all(tokens).contains(#[trigger] tokens[i]),
        deck.register_all(tokens).len() == deck.len() + tokens.len(),
    decreases tokens.len(),
{
    let next = deck.register_all(tokens);
    if tokens.len() == 0 {
        assert(deck.used + tokens =~= deck.used);
    } else {
        let rest = tokens.drop_last();
        let last = tokens.last();
        let before = deck.register_all(rest);
        lemma_last_is_new(tokens);
        assert forall|i: int| 0 <= i < rest.len() implies !deck.contains(#[trigger] rest[i]) by {
            assert(rest[i] == tokens[i]);
        }
        lemma_register_fresh(deck, rest);
        lemma_register_all(deck, rest);
        assert(!before.contains(last)) by {
            assert(tokens[tokens.len() - 1] == last);
        }
        assert(next.used =~= deck.used + tokens);
        lemma_register_all(deck, tokens);
    }
}

/// A draw hands out a token exactly when the deck holds one. From a deck with
/// two empty piles nothing comes, and the deck stays as it is.
pub proof fn lemma_draw_exhausted<V>(deck: DeckView<V>, out: Option<V>, next: DeckView<V>)
    requires
        deck.draws(out, next),
    ensures
        out is None <==> deck.len() == 0,
        out is None ==> next == deck,
{
}

/// A draw neither loses nor invents a token: what it leaves, together with
/// the token it hands out, is a rearrangement of what it found. So the token
/// came from the deck, and where no token occurred twice none does afterwards,
/// nor is the token that was handed out still in the deck.
pub proof fn lemma_draw_keeps_tokens<V>(deck: DeckView<V>, out: V, next: DeckView<V>)
    requires
        deck.draws(Some(out), next),
    ensures
        next.all().push(out).to_multiset() == deck.all().to_multiset(),
        next.len() + 1 == deck.len(),
        deck.contains(out),
        deck.distinct() ==> next.distinct() && !next.contains(out),
{
    if deck.active.len() > 0 {
        let rest = deck.active.drop_last();
        assert(deck.all() =~= (rest + seq![out]) + deck.used);
        assert(next.all().push(out) =~= (rest + deck.used) + seq![out]);
        vstd::seq_lib::lemma_multiset_commutative(rest + seq![out], deck.used);
        vstd::seq_lib::lemma_multiset_commutative(rest, seq![out]);
        vstd::seq_lib::lemma_multiset_commutative(rest + deck.used, seq![out]);
        vstd::seq_lib::lemma_multiset_commutative(rest, deck.used);
        assert(rest.to_multiset().add(seq![out].to_multiset()).add(deck.used.to_multiset())
            =~= rest.to_multiset().add(deck.used.to_multiset()).add(seq![out].to_multiset()));
    } else {
        assert(next.all() =~= next.active);
    }
    vstd::seq_lib::to_multiset_len(next.all().push(out));
    vstd::seq_lib::to_multiset_len(deck.all());
    lemma_rearranged_contains(next.all().push(out), deck.all(), out);
    lemma_contains_all(deck, out);
    if deck.distinct() {
        lemma_rearranged_distinct(deck.all(), next.all().push(out));
        lemma_last_is_new(next.all().push(out));
        assert(next.all().push(out).drop_last() =~= next.all());
        lemma_contains_all(next, out);
    }
}

/// A draw that puts its token back leaves the deck with the tokens it had:
/// all of them, each as often as before.
pub proof fn lemma_rotate_keeps_tokens<V>(deck: DeckView<V>, out: V, next: DeckView<V>)
    requires
        deck.rotates(out, next),
    ensures
        next.all().to_multiset() == deck.all().to_multiset(),
        next.len() == deck.len(),
        deck.contains(out),
        deck.distinct() ==> next.distinct(),
{
    let drawn = choose|drawn: DeckView<V>| #[trigger]
        deck.draws(Some(out), drawn) && next == drawn.discard(out);
    lemma_draw_keeps_tokens(deck, out, drawn);
    if deck.distinct() {
        lemma_rearranged_distinct(deck.all(), next.all());
    }
}

/// A row of draws, each of which puts its token back at once: `states` are
/// the decks before, between and after the draws, `outs` the tokens that were
/// handed out, in their order.
pub open spec fn dealt<V>(states: Seq<DeckView<V>>, outs: Seq<V>) -> bool {
    &&& states.len() == outs.len() + 1
    &&& forall|i: int|
        0 <= i < outs.len() ==> states[i].rotates(#[trigger] outs[i], states[i + 1])
}

/// As long as the active pile lasts, the draws take it down from its end, and
/// the tokens gather on the used pile.
proof fn lemma_popping<V>(states: Seq<DeckView<V>>, outs: Seq<V>, n: int)
    requires
        dealt(states, outs),
        0 <= n <= outs.len(),
        n <= states[0].active.len(),
    ensures
        states[n].active == states[0].active.take(states[0].active.len() - n),
        states[n].used == states[0].used + outs.take(n),
        forall|j: int|
            0 <= j < n ==> #[trigger] outs[j] == states[0].active[states[0].active.len() - 1 - j],
    decreases n,
{
    if n == 0 {
        assert(states[0].used + outs.take(0) =~= states[0].used);
    } else {
        lemma_popping(states, outs, n - 1);
        assert(states[n - 1].rotates(outs[n - 1], states[n]));
    }
}

/// One turn of the deck, from the shuffle on: the draws hand out the shuffled
/// pile from its end. The shuffled pile is returned.
proof fn lemma_turn<V>(states: Seq<DeckView<V>>, outs: Seq<V>) -> (shuffled: Seq<V>)
    requires
        dealt(states, outs),
        states[0].active.len() == 0,
        1 <= outs.len() <= states[0].used.len(),
    ensures
        shuffled.to_multiset() == states[0].used.to_multiset(),
        shuffled.len() == states[0].used.len(),
        forall|j: int| 0 <= j < outs.len() ==> #[trigger] outs[j] == shuffled[shuffled.len() - 1 - j],
        states[outs.len() as int].active == shuffled.take(shuffled.len() - outs.len()),
        states[outs.len() as int].used == outs,
{
    let k = outs.len() as int;
    let first = outs[0];
    assert(states[0].rotates(first, states[1]));
    let drawn = choose|drawn: DeckView<V>| #[trigger]
        states[0].draws(Some(first), drawn) && states[1] == drawn.discard(first);
    let shuffled = drawn.active.push(first);
    vstd::seq_lib::to_multiset_len(shuffled);
    vstd::seq_lib::to_multiset_len(states[0].used);
    let later = states.skip(1);
    let rest = outs.skip(1);
    assert(dealt(later, rest)) by {
        assert forall|i: int| 0 <= i < rest.len() implies later[i].rotates(
            #[trigger] rest[i],
            later[i + 1],
        ) by {
            assert(states[i + 1].rotates(outs[i + 1], states[i + 2]));
        }
    }
    lemma_popping(later, rest, k - 1);
    assert forall|j: int| 0 <= j < k implies #[trigger] outs[j] == shuffled[shuffled.len() - 1
        - j] by {
        if j > 0 {
            assert(rest[j - 1] == outs[j]);
        }
    }
    assert(states[k].used =~= outs) by {
        assert(seq![first] + rest.take(k - 1) =~= outs);
    }
    shuffled
}

/// No token comes twice before the deck has been gone through.
///
/// The draws start from a deck without duplicates, and each puts its token
/// back at once. Either they are no more than the active pile holds, or the
/// active pile is empty, so that the first draw shuffles, and they are no more
/// than the deck holds. Then all the tokens handed out are different.
/// Where the draws start in the middle of a turn and go on past its end,
/// the shuffle may bring back a token of that turn at once.
pub proof fn lemma_no_repeat<V>(states: Seq<DeckView<V>>, outs: Seq<V>)
    requires
        dealt(states, outs),
        states[0].distinct(),
        outs.len() <= states[0].active.len() || (states[0].active.len() == 0 && outs.len()
            <= states[0].used.len()),
    ensures
        outs.no_duplicates(),
{
    lemma_distinct_piles(states[0]);
    if outs.len() <= states[0].active.len() {
        let pile = states[0].active;
        lemma_popping(states, outs, outs.len() as int);
        assert forall|i: int, j: int| 0 <= i < outs.len() && 0 <= j < outs.len() && i != j implies outs[i]
            != outs[j] by {
            assert(pile[pile.len() - 1 - i] != pile[pile.len() - 1 - j]);
        }
    } else {
        let shuffled = lemma_turn(states, outs);
        lemma_rearranged_distinct(states[0].used, shuffled);
        assert forall|i: int, j: int| 0 <= i < outs.len() && 0 <= j < outs.len() && i != j implies outs[i]
            != outs[j] by {
            assert(shuffled[shuffled.len() - 1 - i] != shuffled[shuffled.len() - 1 - j]);
        }
    }
}

/// A whole turn hands out every token of the deck exactly as often as the
/// deck holds it, and ends as it began: with an empty active pile, and all
/// the tokens on the used pile, in the order in which they came.
pub proof fn lemma_whole_turn<V>(states: Seq<DeckView<V>>, outs: Seq<V>)
    requires
        dealt(states, outs),
        states[0].active.len() == 0,
        outs.len() == states[0].used.len(),
    ensures
        outs.to_multiset() == states[0].used.to_multiset(),
        states.last().active.len() == 0,
        states.last().used == outs,
{
    if outs.len() == 0 {
        assert(outs =~= states[0].used);
    } else {
        let shuffled = lemma_turn(states, outs);
        assert(outs =~= shuffled.reverse());
        shuffled.lemma_reverse_to_multiset();
    }
}

} // verus!

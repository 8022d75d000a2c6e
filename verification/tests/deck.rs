use card_deck::deck::Deck;
use rand::rngs::StdRng;

fn deck_strings(items: &[&str]) -> Vec<String> {
    items.iter().map(|s| s.to_string()).collect()
}

fn deck_of(active: &[&str], used: &[&str]) -> Deck<String, StdRng> {
    Deck::with_piles(deck_strings(active), deck_strings(used))
}

#[test]
fn default_deck_is_empty() {
    let deck: Deck<String, StdRng> = Deck::default();
    let (active, used) = deck.entries();
    assert!(active.is_empty());
    assert!(used.is_empty());
}

#[test]
fn draw_from_empty_deck_gives_nothing() {
    let mut deck: Deck<String, StdRng> = Deck::default();
    assert_eq!(deck.draw(), None);
    assert_eq!(deck.draw(), None);
    let (active, used) = deck.entries();
    assert!(active.is_empty());
    assert!(used.is_empty());
}

#[test]
fn with_piles_keeps_both_piles() {
    let deck = deck_of(&["c", "a"], &["b"]);
    let (active, used) = deck.entries();
    assert_eq!(active, deck_strings(&["c", "a"]).as_slice());
    assert_eq!(used, deck_strings(&["b"]).as_slice());
}

#[test]
fn discard_appends_to_used() {
    let mut deck = deck_of(&["x"], &["a"]);
    deck.discard("b".to_string());
    let (active, used) = deck.entries();
    assert_eq!(active, deck_strings(&["x"]).as_slice());
    assert_eq!(used, deck_strings(&["a", "b"]).as_slice());
}

#[test]
fn discard_does_not_check_for_duplicates() {
    let mut deck: Deck<String, StdRng> = Deck::default();
    deck.discard("a".to_string());
    deck.discard("a".to_string());
    let (active, used) = deck.entries();
    assert!(active.is_empty());
    assert_eq!(used, deck_strings(&["a", "a"]).as_slice());
}

#[test]
fn draw_takes_last_of_active() {
    let mut deck = deck_of(&["c", "a", "b"], &[]);
    assert_eq!(deck.draw(), Some("b".to_string()));
    {
        let (active, used) = deck.entries();
        assert_eq!(active, deck_strings(&["c", "a"]).as_slice());
        assert!(used.is_empty());
    }
    assert_eq!(deck.draw(), Some("a".to_string()));
    assert_eq!(deck.draw(), Some("c".to_string()));
    assert_eq!(deck.draw(), None);
}

#[test]
fn draw_leaves_used_alone_while_active_lasts() {
    let mut deck = deck_of(&["x", "y"], &["u", "v"]);
    assert_eq!(deck.draw(), Some("y".to_string()));
    let (active, used) = deck.entries();
    assert_eq!(active, deck_strings(&["x"]).as_slice());
    assert_eq!(used, deck_strings(&["u", "v"]).as_slice());
}

#[test]
fn draw_turns_used_over_when_active_is_empty() {
    let mut deck = deck_of(&[], &["a", "b", "c"]);
    let first = deck.draw().expect("the deck holds three tokens");
    let (active, used) = deck.entries();
    assert!(used.is_empty());
    assert_eq!(active.len(), 2);
    let mut all: Vec<String> = active.to_vec();
    all.push(first);
    all.sort();
    assert_eq!(all, deck_strings(&["a", "b", "c"]));
}

#[test]
fn draw_of_single_used_token() {
    let mut deck = deck_of(&[], &["only"]);
    assert_eq!(deck.draw(), Some("only".to_string()));
    let (active, used) = deck.entries();
    assert!(active.is_empty());
    assert!(used.is_empty());
    assert_eq!(deck.draw(), None);
}

#[test]
fn turn_over_lays_used_on_active() {
    let mut deck = deck_of(&["a", "b"], &["c", "d"]);
    deck.turn_over();
    let (active, used) = deck.entries();
    assert_eq!(active, deck_strings(&["a", "b", "c", "d"]).as_slice());
    assert!(used.is_empty());
}

#[test]
fn contains_looks_at_both_piles() {
    let deck = deck_of(&["a"], &["b"]);
    assert!(deck.contains(&"a".to_string()));
    assert!(deck.contains(&"b".to_string()));
    assert!(!deck.contains(&"c".to_string()));
    assert!(!deck.contains(&"".to_string()));
    assert!(!deck.contains(&"A".to_string()));
}

#[test]
fn contains_on_empty_deck_is_false() {
    let deck: Deck<String, StdRng> = Deck::default();
    assert!(!deck.contains(&"a".to_string()));
}

#[test]
fn remove_takes_token_from_both_piles() {
    let mut deck = deck_of(&["a", "b", "a"], &["c", "a", "d"]);
    deck.remove("a".to_string());
    let (active, used) = deck.entries();
    assert_eq!(active, deck_strings(&["b"]).as_slice());
    assert_eq!(used, deck_strings(&["c", "d"]).as_slice());
    assert!(!deck.contains(&"a".to_string()));
}

#[test]
fn remove_from_used_only() {
    let mut deck = deck_of(&["a", "c"], &["b", "d"]);
    deck.remove("b".to_string());
    let (active, used) = deck.entries();
    assert_eq!(active, deck_strings(&["a", "c"]).as_slice());
    assert_eq!(used, deck_strings(&["d"]).as_slice());
    assert!(!deck.contains(&"b".to_string()));
}

#[test]
fn remove_of_unknown_token_changes_nothing() {
    let mut deck = deck_of(&["a"], &["b"]);
    deck.remove("zzz".to_string());
    let (active, used) = deck.entries();
    assert_eq!(active, deck_strings(&["a"]).as_slice());
    assert_eq!(used, deck_strings(&["b"]).as_slice());
}

#[test]
fn remove_twice_is_as_once() {
    let mut once = deck_of(&["a", "b"], &["c", "b"]);
    once.remove("b".to_string());
    let mut twice = deck_of(&["a", "b"], &["c", "b"]);
    twice.remove("b".to_string());
    twice.remove("b".to_string());
    assert_eq!(once.entries(), twice.entries());
    assert!(!twice.contains(&"b".to_string()));
}

#[test]
fn remove_on_empty_deck() {
    let mut deck: Deck<String, StdRng> = Deck::default();
    deck.remove("a".to_string());
    assert!(!deck.contains(&"a".to_string()));
    let (active, used) = deck.entries();
    assert!(active.is_empty());
    assert!(used.is_empty());
}

#[test]
fn deck_of_numbers_draws_without_repeat() {
    let mut deck: Deck<u64, StdRng> = Deck::default();
    for n in 0..10u64 {
        deck.discard(n);
    }
    let mut seen: Vec<u64> = Vec::new();
    while let Some(n) = deck.draw() {
        assert!(!seen.contains(&n));
        seen.push(n);
    }
    seen.sort();
    assert_eq!(seen, (0..10u64).collect::<Vec<u64>>());
}

#[test]
fn shuffle_rearranges_a_large_pile() {
    let tokens: Vec<u64> = (0..40).collect();
    let mut deck: Deck<u64, StdRng> = Deck::with_piles(Vec::new(), tokens.clone());
    let mut drawn: Vec<u64> = Vec::new();
    while let Some(n) = deck.draw() {
        drawn.push(n);
    }
    assert_eq!(drawn.len(), 40);
    let mut unshuffled = tokens.clone();
    unshuffled.reverse();
    assert_ne!(drawn, unshuffled);
    drawn.sort();
    assert_eq!(drawn, tokens);
}

#[test]
fn deck_of_numbers_contains_and_removes() {
    let mut deck: Deck<u64, StdRng> = Deck::with_piles(vec![1, 2, 3, 2], vec![4, 2, 5]);
    assert!(deck.contains(&2));
    assert!(deck.contains(&5));
    assert!(!deck.contains(&6));
    deck.remove(2);
    assert!(!deck.contains(&2));
    let (active, used) = deck.entries();
    assert_eq!(active, [1u64, 3].as_slice());
    assert_eq!(used, [4u64, 5].as_slice());
}

use card_deck::deck::Deck;
use card_deck::store::{frame, load, Field, StoreError};
use rand::rngs::StdRng;

fn store_strings(items: &[&str]) -> Vec<String> {
    items.iter().map(|s| s.to_string()).collect()
}

fn store_deck(active: &[&str], used: &[&str]) -> Deck<String, StdRng> {
    Deck::with_piles(store_strings(active), store_strings(used))
}

fn read(text: &str) -> Result<Deck<String, StdRng>, StoreError> {
    Deck::deserialize(text)
}

#[test]
fn serialize_writes_both_fields() {
    let deck = store_deck(&["c", "a"], &["b"]);
    assert_eq!(
        deck.serialize().expect("strings can be written"),
        r#"{"deck":["c","a"],"discard":["b"]}"#
    );
}

#[test]
fn serialize_of_empty_deck() {
    let deck: Deck<String, StdRng> = Deck::default();
    assert_eq!(
        deck.serialize().expect("strings can be written"),
        r#"{"deck":[],"discard":[]}"#
    );
}

#[test]
fn serialize_escapes_what_json_requires() {
    let deck = store_deck(&["a\"b", "back\\slash"], &["line\nbreak", "\u{e9}t\u{e9}"]);
    assert_eq!(
        deck.serialize().expect("strings can be written"),
        "{\"deck\":[\"a\\\"b\",\"back\\\\slash\"],\"discard\":[\"line\\nbreak\",\"\u{e9}t\u{e9}\"]}"
    );
}

#[test]
fn frame_puts_the_lists_in_place() {
    assert_eq!(frame("[1]", "[2]"), r#"{"deck":[1],"discard":[2]}"#);
    assert_eq!(frame("", ""), r#"{"deck":,"discard":}"#);
}

#[test]
fn deserialize_reads_both_piles() {
    let deck = read(r#"{"deck":["c","a"],"discard":["b"]}"#).expect("the record is sound");
    let (active, used) = deck.entries();
    assert_eq!(active, store_strings(&["c", "a"]).as_slice());
    assert_eq!(used, store_strings(&["b"]).as_slice());
}

#[test]
fn deserialize_takes_fields_in_any_order_and_white_space() {
    let deck = read(" {\n  \"discard\" : [ \"x\" , \"y\" ],\n  \"deck\" : [ ]\n}\n")
        .expect("the record is sound");
    let (active, used) = deck.entries();
    assert!(active.is_empty());
    assert_eq!(used, store_strings(&["x", "y"]).as_slice());
}

#[test]
fn deserialize_keeps_duplicates_and_order() {
    let deck = read(r#"{"deck":["b","a","b"],"discard":["a"]}"#).expect("the record is sound");
    let (active, used) = deck.entries();
    assert_eq!(active, store_strings(&["b", "a", "b"]).as_slice());
    assert_eq!(used, store_strings(&["a"]).as_slice());
}

#[test]
fn deserialize_takes_the_last_of_a_repeated_field() {
    let deck = read(r#"{"deck":["old"],"discard":[],"deck":["new"]}"#)
        .expect("the record is sound");
    let (active, used) = deck.entries();
    assert_eq!(active, store_strings(&["new"]).as_slice());
    assert!(used.is_empty());
}

#[test]
fn deserialize_refuses_unknown_field() {
    let result = read(r#"{"deck":[],"discard":[],"extra":[]}"#);
    assert!(matches!(result, Err(StoreError::InvalidKey { ref key }) if key == "extra"));
}

#[test]
fn deserialize_refuses_unknown_field_even_alone() {
    let result = read(r#"{"decks":["a"]}"#);
    assert!(matches!(result, Err(StoreError::InvalidKey { ref key }) if key == "decks"));
}

#[test]
fn deserialize_refuses_unknown_field_of_any_kind() {
    assert!(read(r#"{"deck":[],"discard":[],"extra":1}"#).is_err());
    assert!(read(r#"{"deck":[],"discard":[],"extra":null}"#).is_err());
}

#[test]
fn deserialize_misses_deck() {
    let result = read(r#"{"discard":["a"]}"#);
    assert!(matches!(result, Err(StoreError::MissingField { field: Field::Deck })));
}

#[test]
fn deserialize_misses_discard() {
    let result = read(r#"{"deck":["a"]}"#);
    assert!(matches!(result, Err(StoreError::MissingField { field: Field::Discard })));
}

#[test]
fn deserialize_of_empty_record_misses_deck_first() {
    let result = read("{}");
    assert!(matches!(result, Err(StoreError::MissingField { field: Field::Deck })));
}

#[test]
fn deserialize_refuses_what_is_no_record() {
    assert!(matches!(read(""), Err(StoreError::Json(_))));
    assert!(matches!(read("{"), Err(StoreError::Json(_))));
    assert!(matches!(read("[]"), Err(StoreError::Json(_))));
    assert!(matches!(read("null"), Err(StoreError::Json(_))));
    assert!(matches!(read(r#"[["a"],["b"]]"#), Err(StoreError::Json(_))));
    assert!(matches!(read(r#"{"deck":[],"discard":[]} x"#), Err(StoreError::Json(_))));
}

#[test]
fn deserialize_refuses_lists_of_other_things() {
    assert!(matches!(read(r#"{"deck":[1],"discard":[]}"#), Err(StoreError::Json(_))));
    assert!(matches!(read(r#"{"deck":"a","discard":[]}"#), Err(StoreError::Json(_))));
    assert!(matches!(read(r#"{"deck":[],"discard":[["a"]]}"#), Err(StoreError::Json(_))));
    assert!(matches!(read(r#"{"deck":[],"discard":null}"#), Err(StoreError::Json(_))));
}

#[test]
fn written_deck_is_read_back() {
    let deck = store_deck(
        &["c", "a", "", "with \"quotes\"", "tab\there"],
        &["b", "\u{1f0a1}", "{\"deck\":[]}", "\u{0}\u{1f}"],
    );
    let text = deck.serialize().expect("strings can be written");
    let back = read(&text).expect("what was written can be read");
    assert_eq!(deck.entries(), back.entries());
}

#[test]
fn written_empty_deck_is_read_back() {
    let deck: Deck<String, StdRng> = Deck::default();
    let text = deck.serialize().expect("strings can be written");
    let back = read(&text).expect("what was written can be read");
    let (active, used) = back.entries();
    assert!(active.is_empty());
    assert!(used.is_empty());
}

#[test]
fn deck_read_back_after_draws() {
    let mut deck = store_deck(&[], &["a", "b", "c", "d"]);
    let token = deck.draw().expect("the deck holds tokens");
    deck.discard(token);
    let text = deck.serialize().expect("strings can be written");
    let back = read(&text).expect("what was written can be read");
    assert_eq!(deck.entries(), back.entries());
}

#[test]
fn load_without_contents_gives_empty_deck() {
    let deck = load(None).expect("nothing can be wrong with nothing");
    let (active, used) = deck.entries();
    assert!(active.is_empty());
    assert!(used.is_empty());
}

#[test]
fn load_with_contents_reads_them() {
    let deck = load(Some(r#"{"deck":["a"],"discard":["b","c"]}"#)).expect("the record is sound");
    let (active, used) = deck.entries();
    assert_eq!(active, store_strings(&["a"]).as_slice());
    assert_eq!(used, store_strings(&["b", "c"]).as_slice());
}

#[test]
fn load_passes_faults_on() {
    assert!(matches!(load(Some("")), Err(StoreError::Json(_))));
    assert!(matches!(
        load(Some(r#"{"deck":[]}"#)),
        Err(StoreError::MissingField { field: Field::Discard })
    ));
}

#[test]
fn from_fields_takes_entries_in_the_order_given() {
    let fields = vec![
        ("discard".to_string(), store_strings(&["u"])),
        ("deck".to_string(), store_strings(&["first"])),
        ("deck".to_string(), store_strings(&["second"])),
    ];
    let deck = Deck::from_fields(fields).expect("both fields are there");
    let (active, used) = deck.entries();
    assert_eq!(active, store_strings(&["second"]).as_slice());
    assert_eq!(used, store_strings(&["u"]).as_slice());
}

#[test]
fn from_fields_reports_the_first_stray_key() {
    let fields = vec![
        ("deck".to_string(), Vec::new()),
        ("one".to_string(), Vec::new()),
        ("two".to_string(), Vec::new()),
    ];
    let result = Deck::from_fields(fields);
    assert!(matches!(result, Err(StoreError::InvalidKey { ref key }) if key == "one"));
}

#[test]
fn from_fields_of_nothing_misses_deck() {
    let result = Deck::from_fields(Vec::new());
    assert!(matches!(result, Err(StoreError::MissingField { field: Field::Deck })));
}

#[test]
fn field_names_and_keys() {
    assert_eq!(Field::Deck.name(), "deck");
    assert_eq!(Field::Discard.name(), "discard");
    assert_eq!(Field::from_key("deck"), Some(Field::Deck));
    assert_eq!(Field::from_key("discard"), Some(Field::Discard));
    assert_eq!(Field::from_key("Deck"), None);
    assert_eq!(Field::from_key(""), None);
    assert_eq!(Field::from_key("deck "), None);
}

#[test]
fn store_errors_in_words() {
    let stray = StoreError::InvalidKey { key: "foo".to_string() };
    assert_eq!(stray.message(), "Invalid key: foo");
    let deck = StoreError::MissingField { field: Field::Deck };
    assert_eq!(deck.message(), "Missing field deck");
    let discard = StoreError::MissingField { field: Field::Discard };
    assert_eq!(discard.message(), "Missing field discard");
    match read("{") {
        Err(error) => assert!(!error.message().is_empty()),
        Ok(_) => panic!("an open brace is no record"),
    }
}

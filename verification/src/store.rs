//! The deck as a JSON record, to be kept on disk between runs.
//!
//! The record is an object with exactly two fields, `deck` for the active pile
//! and `discard` for the used pile, each a list of strings. `serde_json` reads
//! and writes the lists and the strings in them; which fields the record must
//! and may have is decided here.

use crate::deck::{views, Deck};
use crate::model::DeckView;
use rand::rngs::StdRng;
use std::collections::BTreeMap;
use vstd::prelude::*;
use vstd::string::*;

verus! {

/// The error of `serde_json`. Nothing is known of what it holds.
#[verifier::external_type_specification]
#[verifier::external_body]
pub struct ExJsonError(serde_json::Error);

/// What `serde_json::from_str` makes of a text that is read as a map from
/// strings to lists of strings: the entries of the map in ascending order of
/// their keys, or `None` where the text is refused.
pub uninterp spec fn json_fields(text: Seq<char>) -> Option<Seq<(Seq<char>, Seq<Seq<char>>)>>;

/// The text that `serde_json::to_string` writes for a list of strings.
pub uninterp spec fn json_list(items: Seq<Seq<char>>) -> Seq<char>;

/// Calls `serde_json::from_str` for a `BTreeMap<String, Vec<String>>` and
/// hands out the entries of the map in the order in which the map yields
/// them. The result is `json_fields` of the text.
#[verifier::external_body]
fn parse_fields(text: &str) -> (r: Result<Vec<(String, Vec<String>)>, serde_json::Error>)
    ensures
        match r {
            Ok(fields) => json_fields(text@) == Some(fields.deep_view()),
            Err(_) => json_fields(text@) is None,
        },
{
    let map: BTreeMap<String, Vec<String>> = serde_json::from_str(text)?;
    Ok(map.into_iter().collect())
}

/// Calls `serde_json::to_string` on the list. That function fails only where
/// the value refuses to be written or holds a map whose keys are no strings,
/// and a list of strings does neither: the call succeeds, and the text is
/// `json_list` of the strings.
#[verifier::external_body]
fn encode_list(items: &[String]) -> (r: Result<String, serde_json::Error>)
    ensures
        r is Ok,
        r matches Ok(text) ==> text@ == json_list(views(items@)),
{
    serde_json::to_string(items)
}

/// Calls `to_string` on the error of `serde_json`, which gives its message
/// and the place in the text. Nothing is claimed of the result.
#[verifier::external_body]
fn describe(error: &serde_json::Error) -> String {
    error.to_string()
}

/// Compares two string slices with `==` of `str`, which holds exactly when
/// they consist of the same characters.
#[verifier::external_body]
fn same_text(a: &str, b: &str) -> (r: bool)
    ensures
        r == (a@ == b@),
{
    a == b
}

/// A field of the record.
#[derive(Clone, Copy, Debug, PartialEq, Eq)]
pub enum Field {
    /// The active pile.
    Deck,
    /// The used pile.
    Discard,
}

impl Field {
    /// The key under which the record holds this field.
    pub open spec fn key(self) -> Seq<char> {
        match self {
            Field::Deck => "deck"@,
            Field::Discard => "discard"@,
        }
    }

    /// The field that `key` names, if it names one.
    pub open spec fn of(key: Seq<char>) -> Option<Field> {
        if key == "deck"@ {
            Some(Field::Deck)
        } else if key == "discard"@ {
            Some(Field::Discard)
        } else {
            None
        }
    }

    /// The key under which the record holds this field.
    pub fn name(&self) -> (r: &'static str)
        ensures
            r@ == self.key(),
    {
        match self {
            Field::Deck => "deck",
            Field::Discard => "discard",
        }
    }

    /// The field that `key` names, if it names one.
    pub fn from_key(key: &str) -> (r: Option<Field>)
        ensures
            r == Field::of(key@),
    {
        if same_text(key, "deck") {
            Some(Field::Deck)
        } else if same_text(key, "discard") {
            Some(Field::Discard)
        } else {
            None
        }
    }
}

/// The two keys differ, so a key names at most one field.
pub proof fn lemma_keys_differ()
    ensures
        Field::Deck.key() != Field::Discard.key(),
        Field::of(Field::Deck.key()) == Some(Field::Deck),
        Field::of(Field::Discard.key()) == Some(Field::Discard),
{
    reveal_strlit("deck");
    reveal_strlit("discard");
    assert("deck"@.len() != "discard"@.len());
}

/// What can be wrong with a record.
pub enum Fault {
    /// `serde_json` refused the text, or could not write it.
    Json,
    /// The record has a field that is neither `deck` nor `discard`.
    InvalidKey { key: Seq<char> },
    /// The record lacks `deck` or `discard`.
    MissingField { field: Field },
}

/// Why a deck could not be read or written.
#[derive(Debug)]
pub enum StoreError {
    /// `serde_json` refused the text, or could not write it.
    Json(serde_json::Error),
    /// The record has a field that is neither `deck` nor `discard`.
    InvalidKey { key: String },
    /// The record lacks `deck` or `discard`.
    MissingField { field: Field },
}

impl View for StoreError {
    type V = Fault;

    open spec fn view(&self) -> Fault {
        match self {
            StoreError::Json(_) => Fault::Json,
            StoreError::InvalidKey { key } => Fault::InvalidKey { key: key@ },
            StoreError::MissingField { field } => Fault::MissingField { field: *field },
        }
    }
}

impl StoreError {
    /// The error in words. For a fault of the record itself the words are
    /// fixed; for an error of `serde_json` they are its own.
    pub fn message(&self) -> (r: String)
        ensures
            self@ matches Fault::InvalidKey { key } ==> r@ == "Invalid key: "@ + key,
            self@ matches Fault::MissingField { field } ==> r@ == "Missing field "@ + field.key(),
    {
        match self {
            StoreError::Json(error) => describe(error),
            StoreError::InvalidKey { key } => {
                let mut text = "Invalid key: ".to_owned();
                text.append(key.as_str());
                text
            },
            StoreError::MissingField { field } => {
                let mut text = "Missing field ".to_owned();
                text.append(field.name());
                text
            },
        }
    }
}

/// The first key of the entries that names no field.
pub open spec fn stray_key(fields: Seq<(Seq<char>, Seq<Seq<char>>)>) -> Option<Seq<char>>
    decreases fields.len(),
{
    if fields.len() == 0 {
        None
    } else if Field::of(fields.first().0) is None {
        Some(fields.first().0)
    } else {
        stray_key(fields.drop_first())
    }
}

/// The list that the entries give for `field`: that of the last entry under
/// its key.
pub open spec fn value_of(fields: Seq<(Seq<char>, Seq<Seq<char>>)>, field: Field) -> Option<
    Seq<Seq<char>>,
>
    decreases fields.len(),
{
    if fields.len() == 0 {
        None
    } else if fields.last().0 == field.key() {
        Some(fields.last().1)
    } else {
        value_of(fields.drop_last(), field)
    }
}

/// The deck that the entries of a record describe.
///
/// A key that names no field is a fault, whatever else the record holds; the
/// first such key is reported. Otherwise both fields must be there, and `deck`
/// is looked for first.
pub open spec fn read_fields(fields: Seq<(Seq<char>, Seq<Seq<char>>)>) -> Result<
    DeckView<Seq<char>>,
    Fault,
> {
    if let Some(key) = stray_key(fields) {
        Err(Fault::InvalidKey { key })
    } else if value_of(fields, Field::Deck) is None {
        Err(Fault::MissingField { field: Field::Deck })
    } else if value_of(fields, Field::Discard) is None {
        Err(Fault::MissingField { field: Field::Discard })
    } else {
        Ok(
            DeckView {
                active: value_of(fields, Field::Deck)->0,
                used: value_of(fields, Field::Discard)->0,
            },
        )
    }
}

/// The entries of the record of a deck: its two fields, `deck` first.
pub open spec fn fields_of(piles: DeckView<Seq<char>>) -> Seq<(Seq<char>, Seq<Seq<char>>)> {
    seq![(Field::Deck.key(), piles.active), (Field::Discard.key(), piles.used)]
}

/// The entries of the record of a deck are read as that deck: both piles
/// come back token for token, in their order. This is the part of writing a
/// deck and reading it again that is decided here; that `serde_json` reads
/// from the text it wrote the entries it was given is not part of it.
pub proof fn lemma_fields_read_back(piles: DeckView<Seq<char>>)
    ensures
        read_fields(fields_of(piles)) == Ok::<DeckView<Seq<char>>, Fault>(piles),
{
    lemma_keys_differ();
    reveal_with_fuel(stray_key, 3);
    reveal_with_fuel(value_of, 3);
}

/// The deck that a text describes.
pub open spec fn decode(text: Seq<char>) -> Result<DeckView<Seq<char>>, Fault> {
    match json_fields(text) {
        Some(fields) => read_fields(fields),
        None => Err(Fault::Json),
    }
}

/// The record with the two lists in place, without any white space.
pub open spec fn record_text(deck: Seq<char>, discard: Seq<char>) -> Seq<char> {
    "{\"deck\":"@ + deck + ",\"discard\":"@ + discard + "}"@
}

/// The text that describes a deck.
pub open spec fn encode(piles: DeckView<Seq<char>>) -> Seq<char> {
    record_text(json_list(piles.active), json_list(piles.used))
}

/// What came of reading a deck, in terms of the model.
pub open spec fn outcome<R>(r: Result<Deck<String, R>, StoreError>) -> Result<
    DeckView<Seq<char>>,
    Fault,
> {
    match r {
        Ok(deck) => Ok(deck@),
        Err(error) => Err(error@),
    }
}

/// As long as every key so far names a field, a stray key can only come
/// later.
proof fn lemma_stray_key_skip(fields: Seq<(Seq<char>, Seq<Seq<char>>)>, n: int)
    requires
        0 <= n <= fields.len(),
        forall|j: int| 0 <= j < n ==> Field::of(#[trigger] fields[j].0) is Some,
    ensures
        stray_key(fields) == stray_key(fields.skip(n)),
    decreases n,
{
    if n == 0 {
        assert(fields.skip(0) =~= fields);
    } else {
        let rest = fields.drop_first();
        assert forall|j: int| 0 <= j < n - 1 implies Field::of(#[trigger] rest[j].0) is Some by {
            assert(rest[j] == fields[j + 1]);
        }
        lemma_stray_key_skip(rest, n - 1);
        assert(rest.skip(n - 1) =~= fields.skip(n));
    }
}

/// Puts the two lists into the record.
pub fn frame(deck: &str, discard: &str) -> (r: String)
    ensures
        r@ == record_text(deck@, discard@),
{
    let mut text = "{\"deck\":".to_owned();
    text.append(deck);
    text.append(",\"discard\":");
    text.append(discard);
    text.append("}");
    text
}

impl<R> Deck<String, R> {
    /// Writes the deck as a record. The generator is not part of it.
    ///
    /// `serde_json` writes the two lists, and does not fail on lists of
    /// strings: the result is always the text `encode` of the deck.
    pub fn serialize(&self) -> (r: Result<String, StoreError>)
        ensures
            r is Ok,
            r matches Ok(text) ==> text@ == encode(self@),
    {
        let (deck, discard) = self.entries();
        let deck_text = match encode_list(deck) {
            Ok(text) => text,
            Err(error) => { return Err(StoreError::Json(error)); },
        };
        let discard_text = match encode_list(discard) {
            Ok(text) => text,
            Err(error) => { return Err(StoreError::Json(error)); },
        };
        Ok(frame(deck_text.as_str(), discard_text.as_str()))
    }
}

impl Deck<String, StdRng> {
    /// Builds the deck from the entries of a record, which are taken in the
    /// order given. The deck gets a newly seeded generator.
    pub fn from_fields(fields: Vec<(String, Vec<String>)>) -> (r: Result<Self, StoreError>)
        ensures
            outcome(r) == read_fields(fields.deep_view()),
    {
        let ghost entries = fields.deep_view();
        let mut deck: Option<Vec<String>> = None;
        let mut discard: Option<Vec<String>> = None;
        for entry in it: fields
            invariant
                entries == fields.deep_view(),
                it.seq() == fields@,
                forall|j: int| 0 <= j < it.index() ==> Field::of(#[trigger] entries[j].0) is Some,
                match deck {
                    Some(list) => value_of(entries.take(it.index() as int), Field::Deck) == Some(
                        list.deep_view(),
                    ),
                    None => value_of(entries.take(it.index() as int), Field::Deck) is None,
                },
                match discard {
                    Some(list) => value_of(entries.take(it.index() as int), Field::Discard)
                        == Some(list.deep_view()),
                    None => value_of(entries.take(it.index() as int), Field::Discard) is None,
                },
        {
            let ghost i = it.index() as int;
            let (key, value) = entry;
            proof {
                lemma_keys_differ();
                assert(entries.take(i + 1).drop_last() =~= entries.take(i));
            }
            match Field::from_key(key.as_str()) {
                Some(Field::Deck) => {
                    deck = Some(value);
                },
                Some(Field::Discard) => {
                    discard = Some(value);
                },
                None => {
                    proof {
                        lemma_stray_key_skip(entries, i);
                    }
                    return Err(StoreError::InvalidKey { key });
                },
            }
        }
        proof {
            lemma_stray_key_skip(entries, entries.len() as int);
            assert(entries.take(entries.len() as int) =~= entries);
        }
        match deck {
            None => Err(StoreError::MissingField { field: Field::Deck }),
            Some(deck) => match discard {
                None => Err(StoreError::MissingField { field: Field::Discard }),
                Some(discard) => {
                    assert(views(deck@) =~= deck.deep_view());
                    assert(views(discard@) =~= discard.deep_view());
                    Ok(Deck::with_piles(deck, discard))
                },
            },
        }
    }

    /// Reads a deck from the text of a record. The deck gets a newly seeded
    /// generator.
    pub fn deserialize(text: &str) -> (r: Result<Self, StoreError>)
        ensures
            outcome(r) == decode(text@),
    {
        match parse_fields(text) {
            Ok(fields) => Deck::from_fields(fields),
            Err(error) => Err(StoreError::Json(error)),
        }
    }
}

/// The deck to start with: the one that `contents` describes, or the empty
/// deck where nothing has been kept yet.
pub fn load(contents: Option<&str>) -> (r: Result<Deck<String, StdRng>, StoreError>)
    ensures
        outcome(r) == match contents {
            Some(text) => decode(text@),
            None => Ok(DeckView::empty()),
        },
{
    match contents {
        Some(text) => Deck::deserialize(text),
        None => Ok(Deck::default()),
    }
}

} // verus!

//! A deck of unique tokens that are handed out without repetition.
//!
//! The deck keeps two piles. Tokens are drawn from the top of the active
//! pile; tokens that were drawn, or that are new to the deck, wait on the used
//! pile. Only when the active pile runs empty is the used pile shuffled and
//! turned over to become the new active pile.

pub mod deck;
pub mod error;
pub mod laws;
pub mod model;
pub mod service;
pub mod store;

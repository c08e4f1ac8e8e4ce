//! A flashcard study library: a deck of cards built from plain-text notes,
//! a seeded shuffle, and a review-session state machine with scoring.

pub mod deck;
pub mod session;
pub mod viewmodel;

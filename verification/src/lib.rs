//! Simulation core for estimating how well various card-shuffling
//! techniques randomize a deck.
//!
//! A deck is an ordered sequence of distinct card values, conventionally
//! `1..=N`.  The crate provides a permuted-congruential random engine,
//! three shuffle operators (pile, riffle, weave), a circular-displacement
//! histogram that underlies the Shannon-entropy randomness score, and a
//! trial driver that runs repeated shuffles of fresh decks.  Every shuffle
//! operator is proved to permute the deck: no card is created, dropped or
//! duplicated.

pub mod entropy;
pub mod helpers;
pub mod pcg;
pub mod pile;
pub mod riffle;
pub mod stats;
pub mod weave;

pub use pcg::PCG;

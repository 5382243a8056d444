//! An in-memory record store of named picture collections ("decks").
//!
//! The store serves uniformly random picks from a deck under normalized
//! (case- and diacritic-insensitive) name matching, remembers the single
//! most recent successful draw for one-step undo, and renders and parses
//! its full state as a structured text document for persistence.

pub mod album;
pub mod chars;
pub mod codec;
pub mod names;
pub mod normalize;

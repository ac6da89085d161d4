//! A personal dictionary from key chords to words.
//!
//! A [`Chord`] is a set of keys kept in one canonical spelling: upper-case
//! keys in ascending order, joined by `+`. A [`Chords`] dictionary maps chords
//! to words in ascending order of that spelling and reads and writes a flat
//! text form, one `CHORD: word` line per entry.
pub mod browser;
pub mod chord;
pub mod dictionary;
pub mod text;

pub use browser::{Browser, KeyInput, Listing};
pub use chord::{Chord, ChordError};
pub use dictionary::Chords;

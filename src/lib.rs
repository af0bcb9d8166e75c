//! A constructed-language authoring library: grapheme inventories, a
//! sum-of-products syllable grammar with weighted random word synthesis, a
//! lexicon, and tree-shaped find/replace grammar patterns with deterministic
//! labels and capture references that become unresolved when their target
//! is deleted.
pub mod util;
pub mod grammar;
pub mod grapheme;
pub mod synthesis;
pub mod lexicon;
pub mod translate;
pub mod language;

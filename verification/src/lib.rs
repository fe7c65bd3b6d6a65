//! Keyboard layout switching between QWERTY and JCUKEN: the reversible key
//! mapping, the character n-gram counts that score the two readings of a token,
//! the register dictionaries of context words, and the bookkeeping of measuring
//! switch decisions on corpora.

pub mod collisions;
pub mod context_corpus;
pub mod counting;
pub mod eval;
pub mod layout;
pub mod ngram;
pub mod register;
pub mod text;

//! Spell checking against Hunspell-style dictionaries.
//!
//! The [`spellcheck`] module compiles an affix document, a word list and a
//! personal dictionary into sets of accepted and forbidden spellings and
//! answers membership queries against them.

pub mod spellcheck;

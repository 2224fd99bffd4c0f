//! Affix rules, dictionary compilation and word queries.

pub mod affix;
pub mod compile;
pub mod dictionary;
pub mod document;
pub mod entries;
pub mod error;
pub mod flag;
pub mod order;
pub mod rule;
pub mod text;
pub mod wordsets;

pub use affix::Affix;
pub use dictionary::Dictionary;
pub use error::{AffixParseError, CompileError};
pub use flag::{Flag, FlagStyle};
pub use rule::{AffixKind, AffixRule, CharClass};

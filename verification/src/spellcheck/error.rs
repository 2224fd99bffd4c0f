//! What can go wrong while a dictionary is loaded and compiled.

use vstd::prelude::*;
use vstd::string::*;

verus! {

/// Why an affix document was refused. Each variant names the line, counted
/// from one, at which reading stopped.
#[derive(Clone, Copy, Debug, PartialEq, Eq, Structural)]
pub enum AffixParseError {
    /// The line starts with a word that is no directive.
    UnknownDirective { line: usize },
    /// A directive, or the header of a group of rules, lacks a field or has
    /// one that cannot be read.
    MalformedDirective { line: usize },
    /// A rule lacks a field, or its condition has a bracket that does not
    /// pair up.
    MalformedRule { line: usize },
    /// A header announced more rules than follow it, or fewer.
    RuleCountMismatch { line: usize },
}

impl AffixParseError {
    /// The line at which reading stopped.
    pub open spec fn at(self) -> usize {
        match self {
            AffixParseError::UnknownDirective { line } => line,
            AffixParseError::MalformedDirective { line } => line,
            AffixParseError::MalformedRule { line } => line,
            AffixParseError::RuleCountMismatch { line } => line,
        }
    }

    /// The line at which reading stopped.
    pub fn line(&self) -> (n: usize)
        ensures
            n == self.at(),
    {
        match self {
            AffixParseError::UnknownDirective { line } => *line,
            AffixParseError::MalformedDirective { line } => *line,
            AffixParseError::MalformedRule { line } => *line,
            AffixParseError::RuleCountMismatch { line } => *line,
        }
    }

    /// What went wrong, in words.
    pub open spec fn message(self) -> Seq<char> {
        match self {
            AffixParseError::UnknownDirective { .. } => "unknown directive"@,
            AffixParseError::MalformedDirective { .. } => "malformed directive"@,
            AffixParseError::MalformedRule { .. } => "malformed rule"@,
            AffixParseError::RuleCountMismatch { .. } => "rule count of the header does not match"@,
        }
    }

    /// What went wrong, in words.
    pub fn describe(&self) -> (s: String)
        ensures
            s@ == self.message(),
    {
        match self {
            AffixParseError::UnknownDirective { .. } => String::from_str("unknown directive"),
            AffixParseError::MalformedDirective { .. } => String::from_str("malformed directive"),
            AffixParseError::MalformedRule { .. } => String::from_str("malformed rule"),
            AffixParseError::RuleCountMismatch { .. } => String::from_str(
                "rule count of the header does not match",
            ),
        }
    }
}

/// Why a dictionary could not be compiled.
#[derive(Clone, Debug, PartialEq, Eq)]
pub enum CompileError {
    /// An entry of the personal dictionary refers to the named root, and the
    /// word list has no entry with that root.
    RootWordNotFound(String),
}

impl CompileError {
    /// What went wrong, in words.
    pub open spec fn message(self) -> Seq<char> {
        match self {
            CompileError::RootWordNotFound(word) => "Root word not found: "@ + word@,
        }
    }

    /// What went wrong, in words.
    pub fn describe(&self) -> (s: String)
        ensures
            s@ == self.message(),
    {
        match self {
            CompileError::RootWordNotFound(word) => {
                String::from_str("Root word not found: ").concat(word.as_str())
            },
        }
    }
}

} // verus!

//! The three sets of spellings of a compiled dictionary.

use vstd::hash_set::StringHashSet;
use vstd::prelude::*;
use vstd::string::*;
use crate::spellcheck::order::{ascending, sorted_distinct, str_views};
use crate::spellcheck::text::string_views;

verus! {

/// The set that a spelling goes to.
#[derive(Clone, Copy, PartialEq, Eq, Debug, Structural)]
pub enum Target {
    /// Accepted, and offered as a suggestion.
    Suggest,
    /// Accepted, and never offered as a suggestion.
    NoSuggest,
    /// Rejected, wherever else the spelling stands.
    Forbidden,
}

/// The spellings of a dictionary, one set for each [`Target`].
pub struct WordSets {
    wordlist: StringHashSet,
    wordlist_nosuggest: StringHashSet,
    wordlist_forbidden: StringHashSet,
    /// The members of `wordlist`, in the order in which they came, for
    /// enumeration.
    listing: Vec<String>,
}

impl WordSets {
    /// The listing holds the members of the word list and nothing else.
    #[verifier::type_invariant]
    spec fn listed(self) -> bool {
        string_views(self.listing@).to_set() == self.wordlist@
    }

    /// The spellings of one set.
    pub closed spec fn of(self, target: Target) -> Set<Seq<char>> {
        match target {
            Target::Suggest => self.wordlist@,
            Target::NoSuggest => self.wordlist_nosuggest@,
            Target::Forbidden => self.wordlist_forbidden@,
        }
    }

    /// Whether a word is spelled correctly: it is not forbidden, and it is
    /// accepted with or without being suggested.
    pub open spec fn accepts(self, word: Seq<char>) -> bool {
        &&& !self.of(Target::Forbidden).contains(word)
        &&& self.of(Target::Suggest).contains(word) || self.of(Target::NoSuggest).contains(word)
    }

    /// Three empty sets.
    pub fn new() -> (sets: WordSets)
        ensures
            forall|target: Target| sets.of(target) == Set::<Seq<char>>::empty(),
    {
        let listing: Vec<String> = Vec::new();
        assert(string_views(listing@).to_set() =~= Set::<Seq<char>>::empty());
        WordSets {
            wordlist: StringHashSet::new(),
            wordlist_nosuggest: StringHashSet::new(),
            wordlist_forbidden: StringHashSet::new(),
            listing,
        }
    }

    /// These sets with one more spelling in one of them.
    pub fn with(self, target: Target, word: String) -> (sets: WordSets)
        ensures
            forall|other: Target|
                sets.of(other) == if other == target {
                    self.of(other).insert(word@)
                } else {
                    self.of(other)
                },
    {
        proof {
            use_type_invariant(&self);
        }
        let WordSets {
            mut wordlist,
            mut wordlist_nosuggest,
            mut wordlist_forbidden,
            mut listing,
        } = self;
        match target {
            Target::Suggest => {
                if !wordlist.contains(word.as_str()) {
                    let entry = word.clone();
                    proof {
                        string_views(listing@).lemma_push_to_set_commute(entry@);
                        assert(string_views(listing@.push(entry)) =~= string_views(listing@).push(
                            entry@,
                        ));
                    }
                    listing.push(entry);
                    wordlist.insert(word);
                } else {
                    assert(wordlist@.insert(word@) =~= wordlist@);
                }
            },
            Target::NoSuggest => {
                wordlist_nosuggest.insert(word);
            },
            Target::Forbidden => {
                wordlist_forbidden.insert(word);
            },
        }
        WordSets { wordlist, wordlist_nosuggest, wordlist_forbidden, listing }
    }

    /// Whether a word is spelled correctly.
    pub fn check(&self, word: &str) -> (r: bool)
        ensures
            r == self.accepts(word@),
    {
        !self.wordlist_forbidden.contains(word) && (self.wordlist.contains(word)
            || self.wordlist_nosuggest.contains(word))
    }

    /// The spellings that are accepted and suggested, in ascending order
    /// and each once.
    pub fn items(&self) -> (out: Vec<&str>)
        ensures
            ascending(str_views(out@)),
            str_views(out@).no_duplicates(),
            str_views(out@).to_set() == self.of(Target::Suggest),
    {
        proof {
            use_type_invariant(self);
        }
        let mut all: Vec<&str> = Vec::new();
        let mut i: usize = 0;
        while i < self.listing.len()
            invariant
                i <= self.listing.len(),
                str_views(all@) == string_views(self.listing@).take(i as int),
            decreases self.listing.len() - i,
        {
            let word = self.listing[i].as_str();
            assert(str_views(all@.push(word)) =~= str_views(all@).push(word@));
            assert(string_views(self.listing@).take(i + 1) =~= string_views(self.listing@).take(
                i as int,
            ).push(self.listing@[i as int]@));
            all.push(word);
            i += 1;
        }
        assert(string_views(self.listing@).take(self.listing@.len() as int) =~= string_views(
            self.listing@,
        ));
        sorted_distinct(&all)
    }
}

} // verus!

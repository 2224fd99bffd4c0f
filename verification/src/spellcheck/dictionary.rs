//! The dictionary: raw documents are loaded into it, compiled into sets of
//! spellings, and queried.

use vstd::prelude::*;
use vstd::string::*;
use crate::spellcheck::affix::{affixed_words, Affix, AffixView};
use crate::spellcheck::compile::{
    compile_words,
    compiled_words,
    inherited_flags,
    personal_gives,
    raw_gives,
};
use crate::spellcheck::document::parse_affix;
use crate::spellcheck::entries::{
    entry_flags,
    entry_root,
    lemma_missing_root,
    missing_root,
    personal_entry,
    unresolved,
};
use crate::spellcheck::error::{AffixParseError, CompileError};
use crate::spellcheck::flag::FlagStyle;
use crate::spellcheck::order::{ascending, str_views};
use crate::spellcheck::rule::AffixRuleView;
use crate::spellcheck::text::{chars_of, lines, lines_of, views};
use crate::spellcheck::wordsets::{Target, WordSets};

verus! {

/// The main object used for spell checking.
///
/// A dictionary holds an affix configuration, the lines of a word list and
/// of a personal dictionary as they were loaded, and the sets of spellings
/// that the last successful compilation made of them. Loading anything
/// makes the dictionary uncompiled; only a compiled dictionary is queried.
pub struct Dictionary {
    /// The dictionary's configuration.
    affix: Affix,
    /// The sets of spellings made by the last compilation.
    words: WordSets,
    /// The lines of the word list, without its first.
    raw_wordlist: Vec<Vec<char>>,
    /// The lines of the personal dictionary.
    raw_wordlist_personal: Vec<Vec<char>>,
    /// Whether the sets were made of what is loaded now.
    compiled: bool,
}

/// The mathematical model of a [`Dictionary`].
pub struct DictionaryView {
    /// The affix configuration.
    pub affix: AffixView,
    /// The entries of the word list.
    pub raw_wordlist: Seq<Seq<char>>,
    /// The entries of the personal dictionary.
    pub raw_personal: Seq<Seq<char>>,
    /// The spellings accepted and suggested.
    pub wordlist: Set<Seq<char>>,
    /// The spellings accepted and never suggested.
    pub nosuggest: Set<Seq<char>>,
    /// The spellings rejected wherever else they stand.
    pub forbidden: Set<Seq<char>>,
    /// Whether the dictionary may be queried.
    pub compiled: bool,
}

impl DictionaryView {
    /// Whether a word is spelled correctly: it is not forbidden, and it is
    /// accepted with or without being suggested.
    pub open spec fn accepts(self, word: Seq<char>) -> bool {
        &&& !self.forbidden.contains(word)
        &&& self.wordlist.contains(word) || self.nosuggest.contains(word)
    }

    /// The root that keeps the dictionary from being compiled: the one
    /// that the first unresolved reference of the personal dictionary
    /// names. `None` where the dictionary can be compiled.
    pub open spec fn missing(self) -> Option<Seq<char>> {
        missing_root(self.raw_wordlist, self.raw_personal)
    }

    /// The dictionary after it was compiled: the three sets are made anew
    /// of what is loaded, and nothing else changes.
    pub open spec fn compile(self) -> DictionaryView {
        DictionaryView {
            affix: self.affix,
            raw_wordlist: self.raw_wordlist,
            raw_personal: self.raw_personal,
            wordlist: compiled_words(
                self.affix,
                self.raw_wordlist,
                self.raw_personal,
                Target::Suggest,
            ),
            nosuggest: compiled_words(
                self.affix,
                self.raw_wordlist,
                self.raw_personal,
                Target::NoSuggest,
            ),
            forbidden: compiled_words(
                self.affix,
                self.raw_wordlist,
                self.raw_personal,
                Target::Forbidden,
            ),
            compiled: true,
        }
    }
}

/// The entries of a word list document: its lines without the first, which
/// holds a count that is not read.
pub open spec fn wordlist_entries(text: Seq<char>) -> Seq<Seq<char>> {
    if lines(text).len() == 0 {
        Seq::empty()
    } else {
        lines(text).skip(1)
    }
}

/// Compiling a second time, with nothing loaded in between, succeeds and
/// changes nothing: every query has the answer that it had before.
pub proof fn lemma_compile_idempotent(d: DictionaryView)
    requires
        d.missing() is None,
    ensures
        d.compile().missing() is None,
        d.compile().compile() == d.compile(),
        forall|word: Seq<char>| d.compile().compile().accepts(word) == d.compile().accepts(word),
{
}

/// A spelling that is forbidden is rejected, also where it stands in one
/// of the accepted sets.
pub proof fn lemma_forbidden_wins(d: DictionaryView, word: Seq<char>)
    requires
        d.forbidden.contains(word),
    ensures
        !d.accepts(word),
{
}

/// The dictionary cannot be compiled exactly where some entry of the
/// personal dictionary refers to a root that the word list does not have.
pub proof fn lemma_missing_reference(d: DictionaryView)
    ensures
        d.missing() is Some <==> exists|j: int|
            0 <= j < d.raw_personal.len() && unresolved(
                d.raw_wordlist,
                #[trigger] d.raw_personal[j],
            ) is Some,
{
    lemma_missing_root(d.raw_wordlist, d.raw_personal);
}

/// After compiling, every spelling of every entry of the word list is in
/// one of the two accepted sets.
pub proof fn lemma_entry_is_accepted(d: DictionaryView, i: int, word: Seq<char>)
    requires
        0 <= i < d.raw_wordlist.len(),
        affixed_words(d.affix, entry_root(d.raw_wordlist[i]), entry_flags(d.raw_wordlist[i])).contains(
            word,
        ),
    ensures
        d.compile().wordlist.contains(word) || d.compile().nosuggest.contains(word),
{
    assert(raw_gives(d.affix, d.raw_wordlist, i, Target::Suggest, word) || raw_gives(
        d.affix,
        d.raw_wordlist,
        i,
        Target::NoSuggest,
        word,
    ));
}

/// After compiling, the word of an entry of the personal dictionary that
/// forbids nothing is in one of the two accepted sets, and so is every
/// spelling that the flags of the root it refers to derive from it.
pub proof fn lemma_personal_entry_is_accepted(d: DictionaryView, j: int, word: Seq<char>)
    requires
        0 <= j < d.raw_personal.len(),
        !personal_entry(d.raw_personal[j]).forbidden,
        affixed_words(
            d.affix,
            personal_entry(d.raw_personal[j]).word,
            inherited_flags(d.raw_wordlist, personal_entry(d.raw_personal[j])),
        ).contains(word),
    ensures
        d.compile().wordlist.contains(word) || d.compile().nosuggest.contains(word),
{
    assert(personal_gives(d.affix, d.raw_wordlist, d.raw_personal, j, Target::Suggest, word)
        || personal_gives(d.affix, d.raw_wordlist, d.raw_personal, j, Target::NoSuggest, word));
}

/// After compiling, the word of an entry of the personal dictionary that
/// forbids it is rejected, whether or not the word list has it.
pub proof fn lemma_forbidden_entry_is_rejected(d: DictionaryView, j: int)
    requires
        0 <= j < d.raw_personal.len(),
        personal_entry(d.raw_personal[j]).forbidden,
    ensures
        !d.compile().accepts(personal_entry(d.raw_personal[j]).word),
{
    let word = personal_entry(d.raw_personal[j]).word;
    assert(seq![word][0] == word);
    assert(personal_gives(d.affix, d.raw_wordlist, d.raw_personal, j, Target::Forbidden, word));
}

impl View for Dictionary {
    type V = DictionaryView;

    closed spec fn view(&self) -> DictionaryView {
        DictionaryView {
            affix: self.affix@,
            raw_wordlist: views(self.raw_wordlist@),
            raw_personal: views(self.raw_wordlist_personal@),
            wordlist: self.words.of(Target::Suggest),
            nosuggest: self.words.of(Target::NoSuggest),
            forbidden: self.words.of(Target::Forbidden),
            compiled: self.compiled,
        }
    }
}

impl Dictionary {
    /// A dictionary with nothing loaded and nothing compiled.
    pub fn new() -> (d: Dictionary)
        ensures
            d@.affix.rules == Seq::<AffixRuleView>::empty(),
            d@.affix.nosuggest is None,
            d@.affix.style == FlagStyle::Single,
            d@.raw_wordlist == Seq::<Seq<char>>::empty(),
            d@.raw_personal == Seq::<Seq<char>>::empty(),
            d@.wordlist == Set::<Seq<char>>::empty(),
            d@.nosuggest == Set::<Seq<char>>::empty(),
            d@.forbidden == Set::<Seq<char>>::empty(),
            !d@.compiled,
    {
        let d = Dictionary {
            affix: Affix::new(),
            words: WordSets::new(),
            raw_wordlist: Vec::new(),
            raw_wordlist_personal: Vec::new(),
            compiled: false,
        };
        assert(d@.affix.rules =~= Seq::<AffixRuleView>::empty());
        assert(d@.raw_wordlist =~= Seq::<Seq<char>>::empty());
        assert(d@.raw_personal =~= Seq::<Seq<char>>::empty());
        d
    }

    /// Loads an affix document. The dictionary is uncompiled afterwards.
    /// Where the document can be read, the configuration that it writes
    /// takes the place of the one loaded before; where it cannot, the
    /// configuration stays as it was and the first error is returned.
    pub fn load_affix_from_str(&mut self, s: &str) -> (r: Result<(), AffixParseError>)
        ensures
            !final(self)@.compiled,
            final(self)@.raw_wordlist == old(self)@.raw_wordlist,
            final(self)@.raw_personal == old(self)@.raw_personal,
            final(self)@.wordlist == old(self)@.wordlist,
            final(self)@.nosuggest == old(self)@.nosuggest,
            final(self)@.forbidden == old(self)@.forbidden,
            match parse_affix(s@) {
                Ok(affix) => r is Ok && final(self)@.affix == affix,
                Err(e) => r == Err::<(), AffixParseError>(e) && final(self)@.affix == old(
                    self,
                )@.affix,
            },
    {
        self.compiled = false;
        self.affix.load_from_str(s)
    }

    /// Loads a word list document: its first line is a count and is not
    /// read, and every line after it is an entry. The dictionary is
    /// uncompiled afterwards.
    pub fn load_dictionar_from_str(&mut self, s: &str)
        ensures
            !final(self)@.compiled,
            final(self)@.raw_wordlist == wordlist_entries(s@),
            final(self)@.affix == old(self)@.affix,
            final(self)@.raw_personal == old(self)@.raw_personal,
            final(self)@.wordlist == old(self)@.wordlist,
            final(self)@.nosuggest == old(self)@.nosuggest,
            final(self)@.forbidden == old(self)@.forbidden,
    {
        self.compiled = false;
        let text = chars_of(s);
        let mut all = lines_of(&text);
        if all.len() > 0 {
            let ghost before = all@;
            all.remove(0);
            assert(views(all@) =~= views(before).skip(1));
        } else {
            assert(views(all@) =~= Seq::<Seq<char>>::empty());
        }
        self.raw_wordlist = all;
    }

    /// Loads a personal dictionary document: every line is an entry. The
    /// dictionary is uncompiled afterwards.
    pub fn load_personal_dict_from_str(&mut self, s: &str)
        ensures
            !final(self)@.compiled,
            final(self)@.raw_personal == lines(s@),
            final(self)@.affix == old(self)@.affix,
            final(self)@.raw_wordlist == old(self)@.raw_wordlist,
            final(self)@.wordlist == old(self)@.wordlist,
            final(self)@.nosuggest == old(self)@.nosuggest,
            final(self)@.forbidden == old(self)@.forbidden,
    {
        self.compiled = false;
        let text = chars_of(s);
        self.raw_wordlist_personal = lines_of(&text);
    }

    /// Compiles what is loaded: matches affixes, personal dictionary and
    /// word list, and makes the three sets of spellings anew.
    ///
    /// The compilation fails exactly where an entry of the personal
    /// dictionary refers to a root that no entry of the word list has; the
    /// error names the root of the first such entry, and the dictionary
    /// stays as it was, with the sets of an earlier compilation if there
    /// was one. Where it succeeds the dictionary is compiled.
    pub fn compile(&mut self) -> (r: Result<(), CompileError>)
        ensures
            match old(self)@.missing() {
                Some(root) => r matches Err(CompileError::RootWordNotFound(word)) && word@ == root
                    && final(self)@ == old(self)@,
                None => r is Ok && final(self)@ == old(self)@.compile(),
            },
    {
        match compile_words(&self.affix, &self.raw_wordlist, &self.raw_wordlist_personal) {
            Ok(sets) => {
                self.words = sets;
                self.compiled = true;
                assert(self@.wordlist == old(self)@.compile().wordlist);
                Ok(())
            },
            Err(e) => Err(e),
        }
    }

    /// Whether the dictionary may be queried: it was compiled, and nothing
    /// was loaded since.
    pub fn is_compiled(&self) -> (r: bool)
        ensures
            r == self@.compiled,
    {
        self.compiled
    }

    /// The dictionary's configuration.
    pub fn affix(&self) -> (affix: &Affix)
        ensures
            affix@ == self@.affix,
    {
        &self.affix
    }

    /// Checks that a word is spelled correctly. Returns true if so.
    ///
    /// This is the main spell checking feature. It checks a single word for
    /// validity according to the compiled dictionary: a forbidden word is
    /// rejected even where it is also accepted. The word is taken as it
    /// is, without folding case or normalizing.
    pub fn check(&self, s: &str) -> (r: bool)
        requires
            self@.compiled,
        ensures
            r == self@.accepts(s@),
            self@.forbidden.contains(s@) ==> !r,
    {
        self.check_no_break(s)
    }

    /// Checks a single word as [`Dictionary::check`] does, whether or not
    /// the dictionary is compiled.
    fn check_no_break(&self, s: &str) -> (r: bool)
        ensures
            r == self@.accepts(s@),
    {
        self.words.check(s)
    }

    /// The words that are accepted and suggested, in ascending order and
    /// each once.
    ///
    /// Note that this is relatively slow: it sorts the whole word list.
    /// Prefer [`Dictionary::check`] for validating that a word exists.
    pub fn wordlist_items(&self) -> (items: Vec<&str>)
        requires
            self@.compiled,
        ensures
            ascending(str_views(items@)),
            str_views(items@).no_duplicates(),
            str_views(items@).to_set() == self@.wordlist,
    {
        self.words.items()
    }
}

} // verus!

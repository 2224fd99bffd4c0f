//! What compiling makes of the raw documents: the spellings that each entry
//! contributes, and the set that they go to.

use vstd::hash_map::StringHashMap;
use vstd::prelude::*;
use vstd::string::*;
use crate::spellcheck::affix::{affixed_words, Affix, AffixView};
use crate::spellcheck::entries::{
    entry_flags,
    entry_root,
    index_roots,
    lemma_root_index,
    missing_root,
    personal_entry,
    read_entries,
    read_personals,
    referenced_flags,
    root_index,
    roots_of,
    roots_read,
    Entry,
    Personal,
    PersonalEntry,
};
use crate::spellcheck::error::CompileError;
use crate::spellcheck::flag::Flag;
use crate::spellcheck::text::{copy_of, string_of, views};
use crate::spellcheck::wordsets::{Target, WordSets};

verus! {

/// What one entry contributes: spellings, and the set that they go to.
pub struct Contribution {
    pub target: Target,
    pub words: Seq<Seq<char>>,
}

impl Contribution {
    /// What the entry contributes to one set.
    pub open spec fn share(self, target: Target) -> Set<Seq<char>> {
        if self.target == target {
            self.words.to_set()
        } else {
            Set::empty()
        }
    }
}

/// The set that the spellings of an accepted entry with the given flags go
/// to: never suggested where the flags hold the flag that says so.
pub open spec fn accepted_as(affix: AffixView, flags: Seq<char>) -> Target {
    if affix.nosuggest is Some && affix.style.tokens(flags).contains(affix.nosuggest->0) {
        Target::NoSuggest
    } else {
        Target::Suggest
    }
}

/// What an entry of the word list contributes: the spellings of its root
/// with its flags.
pub open spec fn raw_contribution(affix: AffixView, line: Seq<char>) -> Contribution {
    Contribution {
        target: accepted_as(affix, entry_flags(line)),
        words: affixed_words(affix, entry_root(line), entry_flags(line)),
    }
}

/// The flags that an entry of the personal dictionary takes over from the
/// root it refers to; none where it refers to no root, or to one that the
/// word list does not have.
pub open spec fn inherited_flags(raw: Seq<Seq<char>>, entry: PersonalEntry) -> Seq<char> {
    match entry.reference {
        Some(root) => match referenced_flags(raw, root) {
            Some(flags) => flags,
            None => Seq::empty(),
        },
        None => Seq::empty(),
    }
}

/// What an entry of the personal dictionary contributes: its word alone to
/// the forbidden set where the entry forbids it, and otherwise the
/// spellings of its word with the flags that it takes over.
pub open spec fn personal_contribution(
    affix: AffixView,
    raw: Seq<Seq<char>>,
    line: Seq<char>,
) -> Contribution {
    let entry = personal_entry(line);
    if entry.forbidden {
        Contribution { target: Target::Forbidden, words: seq![entry.word] }
    } else {
        Contribution {
            target: accepted_as(affix, inherited_flags(raw, entry)),
            words: affixed_words(affix, entry.word, inherited_flags(raw, entry)),
        }
    }
}

/// Whether the `i`-th entry of the word list contributes `word` to a set.
pub open spec fn raw_gives(
    affix: AffixView,
    raw: Seq<Seq<char>>,
    i: int,
    target: Target,
    word: Seq<char>,
) -> bool {
    raw_contribution(affix, raw[i]).share(target).contains(word)
}

/// Whether the `i`-th entry of the personal dictionary contributes `word`
/// to a set.
pub open spec fn personal_gives(
    affix: AffixView,
    raw: Seq<Seq<char>>,
    personal: Seq<Seq<char>>,
    i: int,
    target: Target,
    word: Seq<char>,
) -> bool {
    personal_contribution(affix, raw, personal[i]).share(target).contains(word)
}

/// What the first `k` entries of the word list and the first `j` entries of
/// the personal dictionary contribute to a set.
pub open spec fn gathered(
    affix: AffixView,
    raw: Seq<Seq<char>>,
    personal: Seq<Seq<char>>,
    k: int,
    j: int,
    target: Target,
) -> Set<Seq<char>> {
    Set::new(
        |word: Seq<char>|
            (exists|i: int| 0 <= i < k && raw_gives(affix, raw, i, target, word)) || (exists|i: int|
                0 <= i < j && personal_gives(affix, raw, personal, i, target, word)),
    )
}

/// The spellings of one set of the compiled dictionary: what the entries
/// of the word list and of the personal dictionary contribute to it.
pub open spec fn compiled_words(
    affix: AffixView,
    raw: Seq<Seq<char>>,
    personal: Seq<Seq<char>>,
    target: Target,
) -> Set<Seq<char>> {
    gathered(affix, raw, personal, raw.len() as int, personal.len() as int, target)
}

/// One more entry of the word list adds its share.
pub proof fn lemma_gathered_more_raw(
    affix: AffixView,
    raw: Seq<Seq<char>>,
    personal: Seq<Seq<char>>,
    k: int,
    j: int,
    target: Target,
)
    requires
        0 <= k,
    ensures
        gathered(affix, raw, personal, k + 1, j, target) == gathered(
            affix,
            raw,
            personal,
            k,
            j,
            target,
        ).union(raw_contribution(affix, raw[k]).share(target)),
{
    let more = gathered(affix, raw, personal, k + 1, j, target);
    let less = gathered(affix, raw, personal, k, j, target);
    let share = raw_contribution(affix, raw[k]).share(target);
    assert forall|word: Seq<char>| more.contains(word) <==> less.union(share).contains(word) by {
        if more.contains(word) {
            if exists|i: int| 0 <= i < k + 1 && raw_gives(affix, raw, i, target, word) {
                let i = choose|i: int| 0 <= i < k + 1 && raw_gives(affix, raw, i, target, word);
                if i < k {
                    assert(less.contains(word));
                }
            } else {
                assert(less.contains(word));
            }
        }
        if share.contains(word) {
            assert(raw_gives(affix, raw, k, target, word));
        }
    }
    assert(more =~= less.union(share));
}

/// One more entry of the personal dictionary adds its share.
pub proof fn lemma_gathered_more_personal(
    affix: AffixView,
    raw: Seq<Seq<char>>,
    personal: Seq<Seq<char>>,
    k: int,
    j: int,
    target: Target,
)
    requires
        0 <= j,
    ensures
        gathered(affix, raw, personal, k, j + 1, target) == gathered(
            affix,
            raw,
            personal,
            k,
            j,
            target,
        ).union(personal_contribution(affix, raw, personal[j]).share(target)),
{
    let more = gathered(affix, raw, personal, k, j + 1, target);
    let less = gathered(affix, raw, personal, k, j, target);
    let share = personal_contribution(affix, raw, personal[j]).share(target);
    assert forall|word: Seq<char>| more.contains(word) <==> less.union(share).contains(word) by {
        if more.contains(word) {
            if exists|i: int| 0 <= i < j + 1 && personal_gives(affix, raw, personal, i, target, word) {
                let i = choose|i: int|
                    0 <= i < j + 1 && personal_gives(affix, raw, personal, i, target, word);
                if i < j {
                    assert(less.contains(word));
                }
            } else {
                assert(less.contains(word));
            }
        }
        if share.contains(word) {
            assert(personal_gives(affix, raw, personal, j, target, word));
        }
    }
    assert(more =~= less.union(share));
}

/// The set that the spellings of an accepted entry with the given flags go
/// to.
fn target_of(affix: &Affix, flags: &Vec<Flag>) -> (target: Target)
    ensures
        target == if affix@.nosuggest is Some && flags@.contains(affix@.nosuggest->0) {
            Target::NoSuggest
        } else {
            Target::Suggest
        },
{
    match affix.nosuggest_flag {
        Some(flag) => {
            let mut i: usize = 0;
            while i < flags.len()
                invariant
                    i <= flags.len(),
                    affix@.nosuggest == Some(flag),
                    forall|k: int| 0 <= k < i ==> flags@[k] != flag,
                decreases flags.len() - i,
            {
                if flags[i] == flag {
                    return Target::NoSuggest;
                }
                i += 1;
            }
            Target::Suggest
        },
        None => Target::Suggest,
    }
}

/// Puts every one of `words` into one of the sets.
fn put_all(sets: WordSets, target: Target, words: &Vec<Vec<char>>) -> (out: WordSets)
    ensures
        forall|other: Target|
            #[trigger] out.of(other) == sets.of(other).union(
                (Contribution { target, words: views(words@) }).share(other),
            ),
{
    let ghost all = views(words@);
    let mut out = sets;
    let mut i: usize = 0;
    assert(all.take(0).to_set() =~= Set::<Seq<char>>::empty());
    assert forall|other: Target| #[trigger] out.of(other) == sets.of(other).union(
        (Contribution { target, words: all.take(0) }).share(other),
    ) by {
        assert(sets.of(other).union(Set::<Seq<char>>::empty()) =~= sets.of(other));
    }
    while i < words.len()
        invariant
            i <= words.len(),
            all == views(words@),
            forall|other: Target|
                #[trigger] out.of(other) == sets.of(other).union(
                    (Contribution { target, words: all.take(i as int) }).share(other),
                ),
        decreases words.len() - i,
    {
        let ghost before = out;
        let word = string_of(&words[i]);
        out = out.with(target, word);
        proof {
            assert(all.take(i + 1) =~= all.take(i as int).push(word@));
            all.take(i as int).lemma_push_to_set_commute(word@);
            assert forall|other: Target| #[trigger] out.of(other) == sets.of(other).union(
                (Contribution { target, words: all.take(i + 1) }).share(other),
            ) by {
                assert(before.of(other) == sets.of(other).union(
                    (Contribution { target, words: all.take(i as int) }).share(other),
                ));
                if other == target {
                    assert(sets.of(other).union(all.take(i as int).to_set()).insert(word@)
                        =~= sets.of(other).union(all.take(i as int).to_set().insert(word@)));
                }
            }
        }
        i += 1;
    }
    assert(all.take(all.len() as int) =~= all);
    out
}

/// Gathers the three sets of a compiled dictionary from the entries of the
/// word list and of the personal dictionary.
fn gather(
    affix: &Affix,
    entries: &Vec<Entry>,
    personals: &Vec<Personal>,
    index: &StringHashMap<usize>,
    Ghost(raw): Ghost<Seq<Seq<char>>>,
    Ghost(personal): Ghost<Seq<Seq<char>>>,
) -> (sets: WordSets)
    requires
        entries@.len() == raw.len(),
        forall|i: int| 0 <= i < raw.len() ==> (#[trigger] entries@[i]).reads(raw[i]),
        personals@.len() == personal.len(),
        forall|i: int|
            0 <= i < personal.len() ==> (#[trigger] personals@[i])@ == personal_entry(personal[i]),
        index@ == root_index(roots_of(raw)),
    ensures
        forall|target: Target|
            #[trigger] sets.of(target) == compiled_words(affix@, raw, personal, target),
{
    let mut sets = WordSets::new();
    let mut k: usize = 0;
    assert forall|target: Target| #[trigger]
        sets.of(target) == gathered(affix@, raw, personal, 0, 0, target) by {
        assert(gathered(affix@, raw, personal, 0, 0, target) =~= Set::<Seq<char>>::empty());
    }
    while k < entries.len()
        invariant
            k <= entries.len(),
            entries@.len() == raw.len(),
            forall|i: int| 0 <= i < raw.len() ==> (#[trigger] entries@[i]).reads(raw[i]),
            forall|target: Target|
                #[trigger] sets.of(target) == gathered(affix@, raw, personal, k as int, 0, target),
        decreases entries.len() - k,
    {
        let entry = &entries[k];
        assert(entry.reads(raw[k as int]));
        let flags = affix.flag_style.tokens_of(&entry.flags);
        let words = affix.expand_tokens(&entry.root, &flags);
        let target = target_of(affix, &flags);
        let ghost before = sets;
        sets = put_all(sets, target, &words);
        proof {
            assert forall|other: Target| #[trigger]
                sets.of(other) == gathered(affix@, raw, personal, k + 1, 0, other) by {
                lemma_gathered_more_raw(affix@, raw, personal, k as int, 0, other);
                assert(before.of(other) == gathered(affix@, raw, personal, k as int, 0, other));
            }
        }
        k += 1;
    }
    let none: Vec<char> = Vec::new();
    let mut j: usize = 0;
    while j < personals.len()
        invariant
            j <= personals.len(),
            k == raw.len(),
            none@ == Seq::<char>::empty(),
            entries@.len() == raw.len(),
            forall|i: int| 0 <= i < raw.len() ==> (#[trigger] entries@[i]).reads(raw[i]),
            personals@.len() == personal.len(),
            forall|i: int|
                0 <= i < personal.len() ==> (#[trigger] personals@[i])@ == personal_entry(
                    personal[i],
                ),
            index@ == root_index(roots_of(raw)),
            forall|target: Target|
                #[trigger] sets.of(target) == gathered(
                    affix@,
                    raw,
                    personal,
                    k as int,
                    j as int,
                    target,
                ),
        decreases personals.len() - j,
    {
        let entry = &personals[j];
        assert(entry@ == personal_entry(personal[j as int]));
        let ghost before = sets;
        if entry.forbidden {
            let mut words: Vec<Vec<char>> = Vec::new();
            words.push(copy_of(&entry.word));
            assert(views(words@) =~= seq![entry.word@]);
            sets = put_all(sets, Target::Forbidden, &words);
        } else {
            let flags: &Vec<char> = match &entry.reference {
                Some(root) => {
                    let key = string_of(root);
                    proof {
                        lemma_root_index(roots_of(raw), root@);
                    }
                    match index.get(key.as_str()) {
                        Some(i) => {
                            assert(entries@[*i as int].reads(raw[*i as int]));
                            &entries[*i].flags
                        },
                        None => &none,
                    }
                },
                None => &none,
            };
            assert(flags@ == inherited_flags(raw, entry@));
            let flags = affix.flag_style.tokens_of(flags);
            let words = affix.expand_tokens(&entry.word, &flags);
            let target = target_of(affix, &flags);
            sets = put_all(sets, target, &words);
        }
        proof {
            assert forall|other: Target| #[trigger]
                sets.of(other) == gathered(affix@, raw, personal, k as int, j + 1, other) by {
                lemma_gathered_more_personal(affix@, raw, personal, k as int, j as int, other);
                assert(before.of(other) == gathered(
                    affix@,
                    raw,
                    personal,
                    k as int,
                    j as int,
                    other,
                ));
            }
        }
        j += 1;
    }
    sets
}

/// A root that is missing after some entries of the personal dictionary is
/// missing after all of them.
proof fn lemma_missing_root_stays(raw: Seq<Seq<char>>, personal: Seq<Seq<char>>, n: int)
    requires
        0 <= n <= personal.len(),
        missing_root(raw, personal.take(n)) is Some,
    ensures
        missing_root(raw, personal) == missing_root(raw, personal.take(n)),
    decreases personal.len(),
{
    if n == personal.len() {
        assert(personal.take(n) =~= personal);
    } else {
        assert(personal.drop_last().take(n) =~= personal.take(n));
        lemma_missing_root_stays(raw, personal.drop_last(), n);
    }
}

/// Looks for the first reference of the personal dictionary that the word
/// list does not resolve.
fn first_missing(
    personals: &Vec<Personal>,
    index: &StringHashMap<usize>,
    Ghost(raw): Ghost<Seq<Seq<char>>>,
    Ghost(personal): Ghost<Seq<Seq<char>>>,
) -> (r: Option<String>)
    requires
        personals@.len() == personal.len(),
        forall|i: int|
            0 <= i < personal.len() ==> (#[trigger] personals@[i])@ == personal_entry(personal[i]),
        index@ == root_index(roots_of(raw)),
    ensures
        match r {
            Some(root) => missing_root(raw, personal) == Some(root@),
            None => missing_root(raw, personal) is None,
        },
{
    let mut j: usize = 0;
    assert(personal.take(0) =~= Seq::<Seq<char>>::empty());
    while j < personals.len()
        invariant
            j <= personals.len(),
            personals@.len() == personal.len(),
            forall|i: int|
                0 <= i < personal.len() ==> (#[trigger] personals@[i])@ == personal_entry(
                    personal[i],
                ),
            index@ == root_index(roots_of(raw)),
            missing_root(raw, personal.take(j as int)) is None,
        decreases personals.len() - j,
    {
        let entry = &personals[j];
        proof {
            assert(entry@ == personal_entry(personal[j as int]));
            assert(personal.take(j + 1).drop_last() =~= personal.take(j as int));
            assert(personal.take(j + 1).last() == personal[j as int]);
        }
        match &entry.reference {
            Some(root) => {
                let key = string_of(root);
                if !index.contains_key(key.as_str()) {
                    proof {
                        lemma_missing_root_stays(raw, personal, j + 1);
                    }
                    return Some(key);
                }
            },
            None => {},
        }
        j += 1;
    }
    assert(personal.take(personal.len() as int) =~= personal);
    None
}

/// Compiles the raw documents into the three sets of spellings. The
/// references of the personal dictionary are resolved first: the first one
/// that names a root which no entry of the word list has ends the
/// compilation with an error that names that root.
pub fn compile_words(affix: &Affix, raw: &Vec<Vec<char>>, personal: &Vec<Vec<char>>) -> (r: Result<
    WordSets,
    CompileError,
>)
    ensures
        match missing_root(views(raw@), views(personal@)) {
            Some(root) => r matches Err(CompileError::RootWordNotFound(word)) && word@ == root,
            None => r matches Ok(sets) && forall|target: Target|
                #[trigger] sets.of(target) == compiled_words(
                    affix@,
                    views(raw@),
                    views(personal@),
                    target,
                ),
        },
{
    let entries = read_entries(raw);
    let personals = read_personals(personal);
    let index = index_roots(&entries);
    assert(roots_read(entries@) =~= roots_of(views(raw@))) by {
        assert forall|i: int| 0 <= i < raw@.len() implies roots_read(entries@)[i] == roots_of(
            views(raw@),
        )[i] by {
            assert(entries@[i].reads(raw@[i]@));
        }
    }
    match first_missing(&personals, &index, Ghost(views(raw@)), Ghost(views(personal@))) {
        Some(root) => Err(CompileError::RootWordNotFound(root)),
        None => Ok(
            gather(affix, &entries, &personals, &index, Ghost(views(raw@)), Ghost(views(personal@))),
        ),
    }
}

} // verus!

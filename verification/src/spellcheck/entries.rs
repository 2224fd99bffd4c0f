//! The entries of the word list and of the personal dictionary.
//!
//! An entry of the word list is a line `root[/flags]`, and an entry of the
//! personal dictionary a line `[*]word[/root]`. Every line is an entry,
//! also an empty one. What follows a second slash is not read.

use vstd::hash_map::StringHashMap;
use vstd::prelude::*;
use vstd::string::*;
use crate::spellcheck::text::{lemma_split_first, split, split_on, string_of, views, Separator};

verus! {

/// The root word of an entry of the word list: what stands before the
/// first slash.
pub open spec fn entry_root(line: Seq<char>) -> Seq<char> {
    split(line, Separator::Slash)[0]
}

/// The flags of an entry of the word list: what stands between the first
/// slash and the second; nothing where the entry has no slash.
pub open spec fn entry_flags(line: Seq<char>) -> Seq<char> {
    let pieces = split(line, Separator::Slash);
    if pieces.len() >= 2 {
        pieces[1]
    } else {
        Seq::empty()
    }
}

/// An entry of the personal dictionary.
pub struct PersonalEntry {
    /// Whether the entry forbids its word.
    pub forbidden: bool,
    /// The word that the entry adds or forbids.
    pub word: Seq<char>,
    /// The root whose flags the word takes over, where the entry names one.
    pub reference: Option<Seq<char>>,
}

/// The entry that a line of the personal dictionary writes. A leading `*`
/// forbids the word and does not belong to it; what stands between the
/// first slash and the second names the root referred to.
pub open spec fn personal_entry(line: Seq<char>) -> PersonalEntry {
    let pieces = split(line, Separator::Slash);
    let forbidden = pieces[0].len() > 0 && pieces[0][0] == '*';
    PersonalEntry {
        forbidden,
        word: if forbidden {
            pieces[0].skip(1)
        } else {
            pieces[0]
        },
        reference: if pieces.len() >= 2 {
            Some(pieces[1])
        } else {
            None
        },
    }
}

/// The roots of the entries of a word list.
pub open spec fn roots_of(raw: Seq<Seq<char>>) -> Seq<Seq<char>> {
    raw.map_values(|line: Seq<char>| entry_root(line))
}

/// For each root of a word list, the position of the first entry that has
/// it.
pub open spec fn root_index(roots: Seq<Seq<char>>) -> Map<Seq<char>, usize>
    decreases roots.len(),
{
    if roots.len() == 0 {
        Map::empty()
    } else {
        let before = root_index(roots.drop_last());
        if before.contains_key(roots.last()) {
            before
        } else {
            before.insert(roots.last(), (roots.len() - 1) as usize)
        }
    }
}

/// The index knows a root exactly where some entry has it, and then holds
/// the position of the first such entry.
pub proof fn lemma_root_index(roots: Seq<Seq<char>>, root: Seq<char>)
    requires
        roots.len() <= usize::MAX,
    ensures
        root_index(roots).contains_key(root) <==> roots.contains(root),
        root_index(roots).contains_key(root) ==> {
            let i = root_index(roots)[root];
            &&& i < roots.len()
            &&& roots[i as int] == root
            &&& forall|k: int| 0 <= k < i ==> roots[k] != root
        },
    decreases roots.len(),
{
    if roots.len() > 0 {
        let front = roots.drop_last();
        lemma_root_index(front, root);
        if front.contains(root) {
            let k = choose|k: int| 0 <= k < front.len() && front[k] == root;
            assert(roots[k] == root);
        }
        if roots.contains(root) && !front.contains(root) {
            let k = choose|k: int| 0 <= k < roots.len() && roots[k] == root;
            if k < front.len() {
                assert(front[k] == root);
            }
            assert(roots.last() == root);
        }
        if roots.last() == root {
            assert(roots[roots.len() - 1] == root);
        }
        if root_index(roots).contains_key(root) {
            let i = root_index(roots)[root];
            assert forall|k: int| 0 <= k < i implies roots[k] != root by {
                if k < front.len() {
                    assert(front[k] == roots[k]);
                }
            }
        }
    }
}

/// The flags of the first entry of the word list whose root is exactly
/// `root`; `None` where no entry has that root.
pub open spec fn referenced_flags(raw: Seq<Seq<char>>, root: Seq<char>) -> Option<Seq<char>> {
    let index = root_index(roots_of(raw));
    if index.contains_key(root) {
        Some(entry_flags(raw[index[root] as int]))
    } else {
        None
    }
}

/// The root that a line of the personal dictionary refers to without the
/// word list having it.
pub open spec fn unresolved(raw: Seq<Seq<char>>, line: Seq<char>) -> Option<Seq<char>> {
    match personal_entry(line).reference {
        Some(root) => if root_index(roots_of(raw)).contains_key(root) {
            None
        } else {
            Some(root)
        },
        None => None,
    }
}

/// The root that the first line of the personal dictionary with an
/// unresolved reference refers to; `None` where every reference resolves.
pub open spec fn missing_root(raw: Seq<Seq<char>>, personal: Seq<Seq<char>>) -> Option<Seq<char>>
    decreases personal.len(),
{
    if personal.len() == 0 {
        None
    } else {
        match missing_root(raw, personal.drop_last()) {
            Some(root) => Some(root),
            None => unresolved(raw, personal.last()),
        }
    }
}

/// No root is missing exactly where every reference of the personal
/// dictionary resolves.
pub proof fn lemma_missing_root(raw: Seq<Seq<char>>, personal: Seq<Seq<char>>)
    ensures
        missing_root(raw, personal) is None <==> forall|j: int|
            0 <= j < personal.len() ==> unresolved(raw, #[trigger] personal[j]) is None,
    decreases personal.len(),
{
    if personal.len() > 0 {
        let front = personal.drop_last();
        lemma_missing_root(raw, front);
        if missing_root(raw, personal) is None {
            assert forall|j: int| 0 <= j < personal.len() implies unresolved(
                raw,
                #[trigger] personal[j],
            ) is None by {
                if j < front.len() {
                    assert(front[j] == personal[j]);
                }
            }
        } else if missing_root(raw, front) is Some {
            let j = choose|j: int| 0 <= j < front.len() && unresolved(raw, #[trigger] front[j]) is Some;
            assert(front[j] == personal[j]);
        }
    }
}

/// An entry of the word list, read.
pub struct Entry {
    pub root: Vec<char>,
    pub flags: Vec<char>,
}

impl Entry {
    /// Whether this is what `line` writes.
    pub open spec fn reads(self, line: Seq<char>) -> bool {
        self.root@ == entry_root(line) && self.flags@ == entry_flags(line)
    }
}

/// An entry of the personal dictionary, read.
pub struct Personal {
    pub forbidden: bool,
    pub word: Vec<char>,
    pub reference: Option<Vec<char>>,
}

impl View for Personal {
    type V = PersonalEntry;

    open spec fn view(&self) -> PersonalEntry {
        PersonalEntry {
            forbidden: self.forbidden,
            word: self.word@,
            reference: match self.reference {
                Some(root) => Some(root@),
                None => None,
            },
        }
    }
}

/// The first piece of a line split at the slash, and the second where
/// there is one.
fn cut(line: &Vec<char>) -> (r: (Vec<char>, Option<Vec<char>>))
    ensures
        r.0@ == split(line@, Separator::Slash)[0],
        match r.1 {
            Some(second) => split(line@, Separator::Slash).len() >= 2 && second@ == split(
                line@,
                Separator::Slash,
            )[1],
            None => split(line@, Separator::Slash).len() == 1,
        },
{
    let mut pieces = split_on(line, Separator::Slash);
    proof {
        lemma_split_first(line@, Separator::Slash);
    }
    let ghost all = pieces@;
    pieces.truncate(2);
    let second = if pieces.len() == 2 {
        pieces.pop()
    } else {
        None
    };
    assert(views(all)[0] == all[0]@);
    let first = pieces.pop().unwrap();
    (first, second)
}

/// Reads an entry of the word list.
pub fn read_entry(line: &Vec<char>) -> (entry: Entry)
    ensures
        entry.reads(line@),
{
    let (root, flags) = cut(line);
    match flags {
        Some(flags) => Entry { root, flags },
        None => Entry { root, flags: Vec::new() },
    }
}

/// Reads an entry of the personal dictionary.
pub fn read_personal(line: &Vec<char>) -> (entry: Personal)
    ensures
        entry@ == personal_entry(line@),
{
    let (mut word, reference) = cut(line);
    let forbidden = word.len() > 0 && word[0] == '*';
    if forbidden {
        let ghost head = word@;
        word.remove(0);
        assert(word@ =~= head.skip(1));
    }
    Personal { forbidden, word, reference }
}

/// Reads every entry of a word list.
pub fn read_entries(raw: &Vec<Vec<char>>) -> (entries: Vec<Entry>)
    ensures
        entries@.len() == raw@.len(),
        forall|i: int| 0 <= i < raw@.len() ==> (#[trigger] entries@[i]).reads(raw@[i]@),
{
    let mut entries: Vec<Entry> = Vec::new();
    let mut i: usize = 0;
    while i < raw.len()
        invariant
            i <= raw.len(),
            entries@.len() == i,
            forall|k: int| 0 <= k < i ==> (#[trigger] entries@[k]).reads(raw@[k]@),
        decreases raw.len() - i,
    {
        entries.push(read_entry(&raw[i]));
        i += 1;
    }
    entries
}

/// Reads every entry of a personal dictionary.
pub fn read_personals(raw: &Vec<Vec<char>>) -> (entries: Vec<Personal>)
    ensures
        entries@.len() == raw@.len(),
        forall|i: int| 0 <= i < raw@.len() ==> (#[trigger] entries@[i])@ == personal_entry(raw@[i]@),
{
    let mut entries: Vec<Personal> = Vec::new();
    let mut i: usize = 0;
    while i < raw.len()
        invariant
            i <= raw.len(),
            entries@.len() == i,
            forall|k: int| 0 <= k < i ==> (#[trigger] entries@[k])@ == personal_entry(raw@[k]@),
        decreases raw.len() - i,
    {
        entries.push(read_personal(&raw[i]));
        i += 1;
    }
    entries
}

/// The roots of a sequence of entries that were read.
pub open spec fn roots_read(entries: Seq<Entry>) -> Seq<Seq<char>> {
    entries.map_values(|entry: Entry| entry.root@)
}

/// Builds the index from each root to the first entry that has it.
pub fn index_roots(entries: &Vec<Entry>) -> (index: StringHashMap<usize>)
    ensures
        index@ == root_index(roots_read(entries@)),
{
    let ghost roots = roots_read(entries@);
    let mut index: StringHashMap<usize> = StringHashMap::new();
    let mut i: usize = 0;
    assert(roots.take(0) =~= Seq::<Seq<char>>::empty());
    while i < entries.len()
        invariant
            i <= entries.len(),
            roots == roots_read(entries@),
            index@ == root_index(roots.take(i as int)),
        decreases entries.len() - i,
    {
        let root = string_of(&entries[i].root);
        proof {
            assert(roots.take(i + 1).drop_last() =~= roots.take(i as int));
            assert(roots.take(i + 1).last() == root@);
        }
        if !index.contains_key(root.as_str()) {
            index.insert(root, i);
        }
        i += 1;
    }
    assert(roots.take(roots.len() as int) =~= roots);
    index
}

} // verus!

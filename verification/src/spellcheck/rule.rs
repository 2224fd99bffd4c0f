//! Affix rules: the condition under which a rule fires, and the spelling
//! that it derives from a word.

use vstd::prelude::*;
use crate::spellcheck::flag::Flag;
use crate::spellcheck::text::{lemma_reach_is, push_range, reach, Separator};

verus! {

/// The end of a word that a rule works on.
#[derive(Clone, Copy, PartialEq, Eq, Debug, Structural)]
pub enum AffixKind {
    /// The rule changes the beginning of the word.
    Prefix,
    /// The rule changes the end of the word.
    Suffix,
}

/// One position of a condition: the characters that a word may, or may not,
/// have there.
#[derive(Clone, Debug, PartialEq, Eq)]
pub struct CharClass {
    /// Whether the members are the characters refused, not those admitted.
    pub negated: bool,
    /// The characters named by the class.
    pub members: Vec<char>,
}

/// The mathematical model of a [`CharClass`].
pub struct CharClassView {
    pub negated: bool,
    pub members: Seq<char>,
}

impl View for CharClass {
    type V = CharClassView;

    open spec fn view(&self) -> CharClassView {
        CharClassView { negated: self.negated, members: self.members@ }
    }
}

impl CharClassView {
    /// Whether the class lets `c` stand at its position.
    pub open spec fn admits(self, c: char) -> bool {
        self.members.contains(c) != self.negated
    }
}

impl CharClass {
    /// Whether the class lets `c` stand at its position.
    pub fn admits(&self, c: char) -> (r: bool)
        ensures
            r == self@.admits(c),
    {
        let mut i: usize = 0;
        while i < self.members.len()
            invariant
                i <= self.members.len(),
                forall|k: int| 0 <= k < i ==> self.members@[k] != c,
            decreases self.members.len() - i,
        {
            if self.members[i] == c {
                return !self.negated;
            }
            i += 1;
        }
        self.negated
    }
}

/// The models of a sequence of character classes.
pub open spec fn class_views(v: Seq<CharClass>) -> Seq<CharClassView> {
    v.map_values(|c: CharClass| c@)
}

/// The class that admits every character.
pub open spec fn any_char() -> CharClassView {
    CharClassView { negated: true, members: Seq::empty() }
}

/// The class that admits `c` and nothing else.
pub open spec fn only(c: char) -> CharClassView {
    CharClassView { negated: false, members: seq![c] }
}

/// The class written between brackets as `body`: the characters of `body`,
/// or every character but those after a leading `^`.
pub open spec fn bracketed(body: Seq<char>) -> CharClassView {
    if body.len() > 0 && body[0] == '^' {
        CharClassView { negated: true, members: body.skip(1) }
    } else {
        CharClassView { negated: false, members: body }
    }
}

/// The classes that a pattern writes from left to right: `.` for any
/// character, `[...]` for a class, and any other character for itself.
/// `None` where a bracket is not closed or closes nothing.
pub open spec fn items_of(p: Seq<char>) -> Option<Seq<CharClassView>>
    decreases p.len(),
{
    if p.len() == 0 {
        Some(Seq::empty())
    } else if p[0] == '[' {
        let n = reach(p, Separator::Bracket);
        if n >= p.len() {
            None
        } else {
            match items_of(p.skip(n as int + 1)) {
                Some(rest) => Some(seq![bracketed(p.subrange(1, n as int))] + rest),
                None => None,
            }
        }
    } else if p[0] == ']' {
        None
    } else {
        match items_of(p.skip(1)) {
            Some(rest) => Some(
                seq![if p[0] == '.' {
                    any_char()
                } else {
                    only(p[0])
                }] + rest,
            ),
            None => None,
        }
    }
}

/// The condition that a pattern writes. A pattern that is a single `.` asks
/// nothing of the word; every other pattern asks one character of the word
/// for each of its classes.
pub open spec fn condition_of(p: Seq<char>) -> Option<Seq<CharClassView>> {
    if p == seq!['.'] {
        Some(Seq::empty())
    } else {
        items_of(p)
    }
}

/// Reads the condition that a pattern writes.
pub fn parse_condition(p: &Vec<char>) -> (r: Option<Vec<CharClass>>)
    ensures
        match r {
            Some(v) => condition_of(p@) == Some(class_views(v@)),
            None => condition_of(p@) is None,
        },
{
    let mut out: Vec<CharClass> = Vec::new();
    if p.len() == 1 && p[0] == '.' {
        assert(p@ =~= seq!['.']);
        assert(class_views(out@) =~= Seq::<CharClassView>::empty());
        return Some(out);
    }
    assert(p@ != seq!['.']) by {
        if p@ == seq!['.'] {
            assert(p@.len() == 1 && p@[0] == '.');
        }
    }
    let mut i: usize = 0;
    assert(p@.skip(0) =~= p@);
    assert(class_views(out@) =~= Seq::<CharClassView>::empty());
    while i < p.len()
        invariant
            i <= p.len(),
            items_of(p@) == match items_of(p@.skip(i as int)) {
                Some(rest) => Some(class_views(out@) + rest),
                None => None,
            },
        decreases p.len() - i,
    {
        let c = p[i];
        let ghost here = p@.skip(i as int);
        let ghost before = class_views(out@);
        if c == '[' {
            let mut j: usize = i + 1;
            while j < p.len() && p[j] != ']'
                invariant
                    i < j <= p.len(),
                    p@[i as int] == '[',
                    forall|k: int| i < k < j ==> p@[k] != ']',
                decreases p.len() - j,
            {
                j += 1;
            }
            proof {
                lemma_reach_is(here, Separator::Bracket, j - i);
            }
            if j >= p.len() {
                return None;
            }
            let negated = i + 1 < j && p[i + 1] == '^';
            let from: usize = if negated {
                i + 2
            } else {
                i + 1
            };
            let mut members: Vec<char> = Vec::new();
            let mut k: usize = from;
            while k < j
                invariant
                    from <= k <= j <= p.len(),
                    members@ == p@.subrange(from as int, k as int),
                decreases j - k,
            {
                members.push(p[k]);
                assert(members@ =~= p@.subrange(from as int, k + 1));
                k += 1;
            }
            let class = CharClass { negated, members };
            proof {
                let body = here.subrange(1, j - i);
                assert(body =~= p@.subrange(i + 1, j as int));
                if negated {
                    assert(body.skip(1) =~= p@.subrange(from as int, j as int));
                } else {
                    assert(body =~= p@.subrange(from as int, j as int));
                }
                assert(class@ == bracketed(body));
                assert(here.skip(j - i + 1) =~= p@.skip(j + 1));
                assert(class_views(out@.push(class)) =~= before.push(class@));
                assert forall|rest: Seq<CharClassView>|
                    before + (seq![class@] + rest) == #[trigger] (before.push(class@) + rest) by {
                    assert(before + (seq![class@] + rest) =~= before.push(class@) + rest);
                }
            }
            out.push(class);
            i = j + 1;
        } else if c == ']' {
            return None;
        } else {
            let mut members: Vec<char> = Vec::new();
            let negated = c == '.';
            if !negated {
                members.push(c);
            }
            let class = CharClass { negated, members };
            proof {
                if negated {
                    assert(class@.members =~= any_char().members);
                } else {
                    assert(class@.members =~= only(c).members);
                }
                assert(here.skip(1) =~= p@.skip(i + 1));
                assert(class_views(out@.push(class)) =~= before.push(class@));
                assert forall|rest: Seq<CharClassView>|
                    before + (seq![class@] + rest) == #[trigger] (before.push(class@) + rest) by {
                    assert(before + (seq![class@] + rest) =~= before.push(class@) + rest);
                }
            }
            out.push(class);
            i += 1;
        }
    }
    assert(p@.skip(p@.len() as int) =~= Seq::<char>::empty());
    assert(class_views(out@) + Seq::<CharClassView>::empty() =~= class_views(out@));
    Some(out)
}

/// A rule that derives a spelling from a word: where the word has `strip` at
/// the affected end and meets `condition` there, `strip` is taken away and
/// `add` is put in its place.
#[derive(Clone, Debug, PartialEq, Eq)]
pub struct AffixRule {
    /// The flag under which the rule is registered.
    pub flag: Flag,
    /// The end of the word that the rule changes.
    pub kind: AffixKind,
    /// Whether the rule may be joined with a rule for the other end.
    pub combinable: bool,
    /// What the rule takes away.
    pub strip: Vec<char>,
    /// What the rule puts in its place.
    pub add: Vec<char>,
    /// What the word must look like at the affected end, one class for each
    /// character.
    pub condition: Vec<CharClass>,
}

/// The mathematical model of an [`AffixRule`].
pub struct AffixRuleView {
    pub flag: Flag,
    pub kind: AffixKind,
    pub combinable: bool,
    pub strip: Seq<char>,
    pub add: Seq<char>,
    pub condition: Seq<CharClassView>,
}

impl View for AffixRule {
    type V = AffixRuleView;

    open spec fn view(&self) -> AffixRuleView {
        AffixRuleView {
            flag: self.flag,
            kind: self.kind,
            combinable: self.combinable,
            strip: self.strip@,
            add: self.add@,
            condition: class_views(self.condition@),
        }
    }
}

impl AffixRuleView {
    /// Where in a word of length `len` something of length `n` at the
    /// affected end begins.
    pub open spec fn begin(self, len: int, n: int) -> int {
        match self.kind {
            AffixKind::Prefix => 0,
            AffixKind::Suffix => len - n,
        }
    }

    /// Whether `w` has `strip` at the affected end.
    pub open spec fn strip_present(self, w: Seq<char>) -> bool {
        let at = self.begin(w.len() as int, self.strip.len() as int);
        &&& self.strip.len() <= w.len()
        &&& w.subrange(at, at + self.strip.len()) == self.strip
    }

    /// Whether `w` has, at the affected end, one character that each class
    /// of the condition admits. A word shorter than the condition does not
    /// meet it.
    pub open spec fn condition_holds(self, w: Seq<char>) -> bool {
        let at = self.begin(w.len() as int, self.condition.len() as int);
        &&& self.condition.len() <= w.len()
        &&& forall|i: int|
            0 <= i < self.condition.len() ==> (#[trigger] self.condition[i]).admits(w[at + i])
    }

    /// Whether the rule derives a spelling from `w`.
    pub open spec fn fires(self, w: Seq<char>) -> bool {
        self.strip_present(w) && self.condition_holds(w)
    }

    /// The spelling that the rule derives from `w`: `w` without as many
    /// characters at the affected end as `strip` has, and with `add` there.
    pub open spec fn apply(self, w: Seq<char>) -> Seq<char> {
        match self.kind {
            AffixKind::Prefix => self.add + w.skip(self.strip.len() as int),
            AffixKind::Suffix => w.take(w.len() - self.strip.len()) + self.add,
        }
    }

    /// Whether this rule and `other` together derive a spelling from `w`:
    /// they work on different ends, both may be joined, each fires on `w`
    /// by itself, and what they take away does not overlap.
    pub open spec fn combines_with(self, other: AffixRuleView, w: Seq<char>) -> bool {
        &&& self.kind != other.kind
        &&& self.combinable
        &&& other.combinable
        &&& self.fires(w)
        &&& other.fires(w)
        &&& self.strip.len() + other.strip.len() <= w.len()
    }
}

/// The spelling that two rules derive together: what `second` makes of what
/// `first` makes of `w`.
pub open spec fn compound(first: AffixRuleView, second: AffixRuleView, w: Seq<char>) -> Seq<char> {
    second.apply(first.apply(w))
}

/// Two rules that combine give the same spelling in either order: the
/// prefix rule's addition, the part of the word that neither rule takes
/// away, and the suffix rule's addition.
pub proof fn lemma_compound_either_order(a: AffixRuleView, b: AffixRuleView, w: Seq<char>)
    requires
        a.combines_with(b, w),
    ensures
        b.combines_with(a, w),
        compound(a, b, w) == compound(b, a, w),
        a.kind == AffixKind::Prefix ==> compound(a, b, w) == a.add + w.subrange(
            a.strip.len() as int,
            w.len() - b.strip.len(),
        ) + b.add,
        a.kind == AffixKind::Suffix ==> compound(a, b, w) == b.add + w.subrange(
            b.strip.len() as int,
            w.len() - a.strip.len(),
        ) + a.add,
{
    let (p, s) = if a.kind == AffixKind::Prefix {
        (a, b)
    } else {
        (b, a)
    };
    let middle = w.subrange(p.strip.len() as int, w.len() - s.strip.len());
    assert(compound(p, s, w) =~= p.add + middle + s.add);
    assert(compound(s, p, w) =~= p.add + middle + s.add);
}

impl AffixRule {
    /// Whether the rule derives a spelling from `w`.
    pub fn fires(&self, w: &Vec<char>) -> (r: bool)
        ensures
            r == self@.fires(w@),
    {
        let n = w.len();
        let s = self.strip.len();
        let c = self.condition.len();
        if s > n || c > n {
            return false;
        }
        let strip_at: usize = match self.kind {
            AffixKind::Prefix => 0,
            AffixKind::Suffix => n - s,
        };
        let mut i: usize = 0;
        while i < s
            invariant
                i <= s,
                s == self.strip@.len(),
                strip_at + s <= n,
                strip_at == self@.begin(n as int, s as int),
                n == w@.len(),
                forall|k: int| 0 <= k < i ==> w@[strip_at + k] == self.strip@[k],
            decreases s - i,
        {
            if w[strip_at + i] != self.strip[i] {
                assert(strip_at == self@.begin(n as int, s as int));
                assert(w@.subrange(strip_at as int, strip_at + s)[i as int] == w@[strip_at + i]);
                assert(!self@.strip_present(w@));
                return false;
            }
            i += 1;
        }
        assert(w@.subrange(strip_at as int, strip_at + s) =~= self.strip@);
        let cond_at: usize = match self.kind {
            AffixKind::Prefix => 0,
            AffixKind::Suffix => n - c,
        };
        let mut i: usize = 0;
        while i < c
            invariant
                i <= c,
                c == self.condition@.len(),
                cond_at + c <= n,
                cond_at == self@.begin(n as int, c as int),
                n == w@.len(),
                forall|k: int| 0 <= k < i ==> (#[trigger] self@.condition[k]).admits(w@[cond_at + k]),
            decreases c - i,
        {
            if !self.condition[i].admits(w[cond_at + i]) {
                assert(cond_at == self@.begin(n as int, c as int));
                assert(self@.condition[i as int] == self.condition@[i as int]@);
                assert(!self@.condition[i as int].admits(w@[cond_at + i]));
                assert(!self@.condition_holds(w@));
                return false;
            }
            assert(self@.condition[i as int] == self.condition@[i as int]@);
            i += 1;
        }
        true
    }

    /// The spelling that the rule derives from `w`.
    pub fn apply(&self, w: &Vec<char>) -> (out: Vec<char>)
        requires
            self@.strip.len() <= w@.len(),
        ensures
            out@ == self@.apply(w@),
    {
        let mut out: Vec<char> = Vec::new();
        let n = w.len();
        let s = self.strip.len();
        match self.kind {
            AffixKind::Prefix => {
                push_range(&mut out, &self.add, 0, self.add.len());
                push_range(&mut out, w, s, n);
                assert(out@ =~= self@.apply(w@));
            },
            AffixKind::Suffix => {
                push_range(&mut out, w, 0, n - s);
                push_range(&mut out, &self.add, 0, self.add.len());
                assert(out@ =~= self@.apply(w@));
            },
        }
        out
    }
}

/// The models of a sequence of rules.
pub open spec fn rule_views(v: Seq<AffixRule>) -> Seq<AffixRuleView> {
    v.map_values(|r: AffixRule| r@)
}

} // verus!

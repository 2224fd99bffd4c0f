//! The affix configuration: the rules read from an affix document, and the
//! spellings that they derive from a root word.

use vstd::prelude::*;
use vstd::string::*;
use crate::spellcheck::document::{parse_affix, read_affix};
use crate::spellcheck::error::AffixParseError;
use crate::spellcheck::flag::{Flag, FlagStyle};
use crate::spellcheck::rule::{compound, rule_views, AffixRule, AffixRuleView};
use crate::spellcheck::text::{chars_of, copy_of, string_of, string_views, views};

verus! {

/// The affix configuration: every rule in the order in which the document
/// registered it, the flag that marks an entry as not to be suggested, and
/// the style in which flags are written.
#[derive(Clone, Debug, PartialEq, Eq)]
pub struct Affix {
    /// The rules, in the order of their registration.
    pub affix_rules: Vec<AffixRule>,
    /// The flag of the entries that are accepted but never suggested.
    pub nosuggest_flag: Option<Flag>,
    /// How the flags of a flag string are told apart.
    pub flag_style: FlagStyle,
}

/// The mathematical model of an [`Affix`].
pub struct AffixView {
    pub rules: Seq<AffixRuleView>,
    pub nosuggest: Option<Flag>,
    pub style: FlagStyle,
}

impl View for Affix {
    type V = AffixView;

    open spec fn view(&self) -> AffixView {
        AffixView {
            rules: rule_views(self.affix_rules@),
            nosuggest: self.nosuggest_flag,
            style: self.flag_style,
        }
    }
}

/// What one rule derives from `root` under one flag: a single spelling where
/// the rule is registered under the flag and fires, and nothing otherwise.
pub open spec fn single(rule: AffixRuleView, root: Seq<char>, flag: Flag) -> Seq<Seq<char>> {
    if rule.flag == flag && rule.fires(root) {
        seq![rule.apply(root)]
    } else {
        Seq::empty()
    }
}

/// [`single`] as a function of the rule.
pub open spec fn by_rule(root: Seq<char>, flag: Flag) -> spec_fn(AffixRuleView) -> Seq<Seq<char>> {
    |rule: AffixRuleView| single(rule, root, flag)
}

/// What the rules derive from `root` under one flag, in the order of the
/// rules.
pub open spec fn singles_under(rules: Seq<AffixRuleView>, root: Seq<char>, flag: Flag) -> Seq<
    Seq<char>,
> {
    rules.flat_map(by_rule(root, flag))
}

/// [`singles_under`] as a function of the flag.
pub open spec fn by_flag(rules: Seq<AffixRuleView>, root: Seq<char>) -> spec_fn(Flag) -> Seq<
    Seq<char>,
> {
    |flag: Flag| singles_under(rules, root, flag)
}

/// What the rules derive from `root` one at a time, flag by flag in the
/// order of `flags`.
pub open spec fn singles(rules: Seq<AffixRuleView>, root: Seq<char>, flags: Seq<Flag>) -> Seq<
    Seq<char>,
> {
    flags.flat_map(by_flag(rules, root))
}

/// What `first` and `second` derive from `root` together, where `second` is
/// registered under `flag`: a single spelling where they combine, and
/// nothing otherwise.
pub open spec fn pair(
    first: AffixRuleView,
    second: AffixRuleView,
    root: Seq<char>,
    flag: Flag,
) -> Seq<Seq<char>> {
    if second.flag == flag && first.combines_with(second, root) {
        seq![compound(first, second, root)]
    } else {
        Seq::empty()
    }
}

/// [`pair`] as a function of the second rule.
pub open spec fn by_second(first: AffixRuleView, root: Seq<char>, flag: Flag) -> spec_fn(
    AffixRuleView,
) -> Seq<Seq<char>> {
    |second: AffixRuleView| pair(first, second, root, flag)
}

/// What `first` derives from `root` together with the rules under one
/// flag, in the order of the rules.
pub open spec fn pairs_under(
    rules: Seq<AffixRuleView>,
    first: AffixRuleView,
    root: Seq<char>,
    flag: Flag,
) -> Seq<Seq<char>> {
    rules.flat_map(by_second(first, root, flag))
}

/// [`pairs_under`] as a function of the flag.
pub open spec fn by_later_flag(
    rules: Seq<AffixRuleView>,
    first: AffixRuleView,
    root: Seq<char>,
) -> spec_fn(Flag) -> Seq<Seq<char>> {
    |flag: Flag| pairs_under(rules, first, root, flag)
}

/// What `first` derives from `root` together with the rules under the flags
/// `later`, flag by flag.
pub open spec fn pairs_after(
    rules: Seq<AffixRuleView>,
    first: AffixRuleView,
    root: Seq<char>,
    later: Seq<Flag>,
) -> Seq<Seq<char>> {
    later.flat_map(by_later_flag(rules, first, root))
}

/// Whether `rule` can be the first of two joined rules: it is registered
/// under `flag`, may be joined, and fires on `root`.
pub open spec fn leads(rule: AffixRuleView, root: Seq<char>, flag: Flag) -> bool {
    rule.flag == flag && rule.combinable && rule.fires(root)
}

/// What a rule under `flag` derives together with the rules under the flags
/// `later`, as a function of the rule.
pub open spec fn by_first(
    rules: Seq<AffixRuleView>,
    root: Seq<char>,
    flag: Flag,
    later: Seq<Flag>,
) -> spec_fn(AffixRuleView) -> Seq<Seq<char>> {
    |first: AffixRuleView|
        if leads(first, root, flag) {
            pairs_after(rules, first, root, later)
        } else {
            Seq::empty()
        }
}

/// What the rules under `flag` derive from `root` together with the rules
/// under the flags `later`.
pub open spec fn pairs_from(
    rules: Seq<AffixRuleView>,
    root: Seq<char>,
    flag: Flag,
    later: Seq<Flag>,
) -> Seq<Seq<char>> {
    rules.flat_map(by_first(rules, root, flag, later))
}

/// What the rules under the flag at a position derive together with the
/// rules under the flags after it, as a function of the position.
pub open spec fn by_position(rules: Seq<AffixRuleView>, root: Seq<char>, flags: Seq<Flag>) -> spec_fn(
    int,
) -> Seq<Seq<char>> {
    |i: int| pairs_from(rules, root, flags[i], flags.skip(i + 1))
}

/// What the rules under the first `n` flags derive from `root` two at a
/// time, each with the rules under a later flag.
pub open spec fn pairs_upto(
    rules: Seq<AffixRuleView>,
    root: Seq<char>,
    flags: Seq<Flag>,
    n: nat,
) -> Seq<Seq<char>> {
    Seq::new(n, by_position(rules, root, flags)).flatten()
}

/// What the rules derive from `root` two at a time: for each flag in the
/// order of `flags` and each rule under it, for each later flag and each
/// rule under that, the spelling that the two derive together.
pub open spec fn pairs(rules: Seq<AffixRuleView>, root: Seq<char>, flags: Seq<Flag>) -> Seq<
    Seq<char>,
> {
    pairs_upto(rules, root, flags, flags.len())
}

/// The spellings of a root word with the given flags: the root itself, then
/// what the rules derive from it one at a time, then what they derive two
/// at a time. A flag under which no rule is registered adds nothing, and a
/// spelling that is derived twice stands twice.
pub open spec fn spellings(rules: Seq<AffixRuleView>, root: Seq<char>, flags: Seq<Flag>) -> Seq<
    Seq<char>,
> {
    seq![root] + singles(rules, root, flags) + pairs(rules, root, flags)
}

/// The spellings of a root word with the flags that a flag string holds.
pub open spec fn affixed_words(affix: AffixView, root: Seq<char>, flags: Seq<char>) -> Seq<
    Seq<char>,
> {
    spellings(affix.rules, root, affix.style.tokens(flags))
}

/// Without flags a root word has one spelling, itself.
pub proof fn lemma_no_flags_only_root(affix: AffixView, root: Seq<char>)
    ensures
        affixed_words(affix, root, Seq::empty()) == seq![root],
{
    let none = affix.style.tokens(Seq::empty());
    assert(none =~= Seq::<Flag>::empty());
    assert(none.map_values(by_flag(affix.rules, root)) =~= Seq::<Seq<Seq<char>>>::empty());
    assert(Seq::new(0, by_position(affix.rules, root, none)) =~= Seq::<Seq<Seq<char>>>::empty());
    assert(affixed_words(affix, root, Seq::empty()) =~= seq![root]);
}

/// Mapping every member to nothing and joining the results gives nothing.
proof fn lemma_flat_map_nothing<A, B>(s: Seq<A>, f: spec_fn(A) -> Seq<B>)
    requires
        forall|i: int| 0 <= i < s.len() ==> f(#[trigger] s[i]) == Seq::<B>::empty(),
    ensures
        s.flat_map(f) == Seq::<B>::empty(),
    decreases s.len(),
{
    if s.len() == 0 {
        assert(s.map_values(f) =~= Seq::<Seq<B>>::empty());
    } else {
        let front = s.drop_last();
        assert forall|i: int| 0 <= i < front.len() implies f(#[trigger] front[i]) == Seq::<
            B,
        >::empty() by {
            assert(front[i] == s[i]);
        }
        lemma_flat_map_nothing(front, f);
        front.lemma_flat_map_push(f, s.last());
        assert(front.push(s.last()) =~= s);
        assert(f(s[s.len() - 1]) == Seq::<B>::empty());
    }
}

/// Flags under which no rule is registered add nothing: the root word is
/// then its only spelling.
pub proof fn lemma_unknown_flags_add_nothing(affix: AffixView, root: Seq<char>, flags: Seq<char>)
    requires
        forall|i: int, k: int|
            0 <= i < affix.style.count(flags) && 0 <= k < affix.rules.len() ==> (
            #[trigger] affix.rules[k]).flag != #[trigger] affix.style.token(flags, i),
    ensures
        affixed_words(affix, root, flags) == seq![root],
{
    let rules = affix.rules;
    let flags = affix.style.tokens(flags);
    assert forall|i: int| 0 <= i < flags.len() implies by_flag(rules, root)(#[trigger] flags[i])
        == Seq::<Seq<char>>::empty() by {
        assert forall|k: int| 0 <= k < rules.len() implies by_rule(root, flags[i])(
            #[trigger] rules[k],
        ) == Seq::<Seq<char>>::empty() by {
            assert(rules[k].flag != flags[i]);
        }
        lemma_flat_map_nothing(rules, by_rule(root, flags[i]));
    }
    lemma_flat_map_nothing(flags, by_flag(rules, root));
    let positions = Seq::new(flags.len(), |i: int| i);
    let each = by_position(rules, root, flags);
    assert forall|i: int| 0 <= i < positions.len() implies each(#[trigger] positions[i]) == Seq::<
        Seq<char>,
    >::empty() by {
        let later = flags.skip(i + 1);
        assert forall|k: int| 0 <= k < rules.len() implies by_first(rules, root, flags[i], later)(
            #[trigger] rules[k],
        ) == Seq::<Seq<char>>::empty() by {
            assert(rules[k].flag != flags[i]);
        }
        lemma_flat_map_nothing(rules, by_first(rules, root, flags[i], later));
    }
    lemma_flat_map_nothing(positions, each);
    assert(positions.map_values(each) =~= Seq::new(flags.len(), each));
    assert(spellings(rules, root, flags) =~= seq![root]);
}

/// Whether the `i`-th member of `s` gives a result that holds `x`.
spec fn gives<A, B>(s: Seq<A>, f: spec_fn(A) -> Seq<B>, i: int, x: B) -> bool {
    0 <= i < s.len() && f(s[i]).contains(x)
}

/// The joined results hold what the result for some member holds.
proof fn lemma_flat_map_contains<A, B>(s: Seq<A>, f: spec_fn(A) -> Seq<B>, x: B)
    ensures
        s.flat_map(f).contains(x) <==> exists|i: int| gives(s, f, i, x),
    decreases s.len(),
{
    if s.len() == 0 {
        assert(s.map_values(f) =~= Seq::<Seq<B>>::empty());
        assert(s.flat_map(f) =~= Seq::<B>::empty());
    } else {
        let front = s.drop_last();
        lemma_flat_map_contains(front, f, x);
        front.lemma_flat_map_push(f, s.last());
        assert(front.push(s.last()) =~= s);
        let joined = front.flat_map(f);
        let last = f(s.last());
        assert(s.flat_map(f) == joined + last);
        if s.flat_map(f).contains(x) {
            let n = choose|n: int| 0 <= n < (joined + last).len() && (joined + last)[n] == x;
            if n < joined.len() {
                assert(joined[n] == x);
                let i = choose|i: int| gives(front, f, i, x);
                assert(gives(s, f, i, x));
            } else {
                assert(last[n - joined.len()] == x);
                assert(gives(s, f, s.len() - 1, x));
            }
        }
        if exists|i: int| gives(s, f, i, x) {
            let i = choose|i: int| gives(s, f, i, x);
            if i < front.len() {
                assert(gives(front, f, i, x));
                let n = choose|n: int| 0 <= n < joined.len() && joined[n] == x;
                assert((joined + last)[n] == x);
            } else {
                let n = choose|n: int| 0 <= n < last.len() && last[n] == x;
                assert((joined + last)[joined.len() + n] == x);
            }
        }
    }
}

/// Whether the `k`-th rule derives `word` from `root` under the `i`-th
/// flag: it is registered under that flag, it fires, and `word` is what it
/// makes of `root`.
pub open spec fn derives_single(
    rules: Seq<AffixRuleView>,
    root: Seq<char>,
    flags: Seq<Flag>,
    i: int,
    k: int,
    word: Seq<char>,
) -> bool {
    &&& 0 <= i < flags.len()
    &&& 0 <= k < rules.len()
    &&& rules[k].flag == flags[i]
    &&& rules[k].fires(root)
    &&& word == rules[k].apply(root)
}

/// The spellings derived one rule at a time are those that some rule
/// under some flag derives.
pub proof fn lemma_singles_are_derived(
    rules: Seq<AffixRuleView>,
    root: Seq<char>,
    flags: Seq<Flag>,
    word: Seq<char>,
)
    ensures
        singles(rules, root, flags).contains(word) <==> exists|i: int, k: int|
            derives_single(rules, root, flags, i, k, word),
{
    let outer = by_flag(rules, root);
    lemma_flat_map_contains(flags, outer, word);
    if singles(rules, root, flags).contains(word) {
        let i = choose|i: int| gives(flags, outer, i, word);
        let inner = by_rule(root, flags[i]);
        lemma_flat_map_contains(rules, inner, word);
        let k = choose|k: int| gives(rules, inner, k, word);
        assert(single(rules[k], root, flags[i]).contains(word));
        assert(derives_single(rules, root, flags, i, k, word));
    }
    if exists|i: int, k: int| derives_single(rules, root, flags, i, k, word) {
        let (i, k) = choose|i: int, k: int| derives_single(rules, root, flags, i, k, word);
        let inner = by_rule(root, flags[i]);
        lemma_flat_map_contains(rules, inner, word);
        assert(seq![rules[k].apply(root)][0] == word);
        assert(gives(rules, inner, k, word));
        assert(gives(flags, outer, i, word));
    }
}

/// Whether the `k`-th rule under the `i`-th flag and the `m`-th rule under
/// the later `j`-th flag derive `word` from `root` together.
pub open spec fn derives_pair(
    rules: Seq<AffixRuleView>,
    root: Seq<char>,
    flags: Seq<Flag>,
    i: int,
    j: int,
    k: int,
    m: int,
    word: Seq<char>,
) -> bool {
    &&& 0 <= i < j < flags.len()
    &&& 0 <= k < rules.len()
    &&& 0 <= m < rules.len()
    &&& rules[k].flag == flags[i]
    &&& rules[m].flag == flags[j]
    &&& rules[k].combines_with(rules[m], root)
    &&& word == compound(rules[k], rules[m], root)
}

/// The spellings derived two rules at a time are those that a rule under
/// some flag and a rule under a later flag derive together.
pub proof fn lemma_pairs_are_derived(
    rules: Seq<AffixRuleView>,
    root: Seq<char>,
    flags: Seq<Flag>,
    word: Seq<char>,
)
    ensures
        pairs(rules, root, flags).contains(word) <==> exists|i: int, j: int, k: int, m: int|
            derives_pair(rules, root, flags, i, j, k, m, word),
{
    let positions = Seq::new(flags.len(), |i: int| i);
    let each = by_position(rules, root, flags);
    assert(positions.map_values(each) =~= Seq::new(flags.len(), each));
    lemma_flat_map_contains(positions, each, word);
    if pairs(rules, root, flags).contains(word) {
        let i = choose|i: int| gives(positions, each, i, word);
        let later = flags.skip(i + 1);
        let firsts = by_first(rules, root, flags[i], later);
        lemma_flat_map_contains(rules, firsts, word);
        let k = choose|k: int| gives(rules, firsts, k, word);
        assert(leads(rules[k], root, flags[i]));
        let seconds = by_later_flag(rules, rules[k], root);
        lemma_flat_map_contains(later, seconds, word);
        let n = choose|n: int| gives(later, seconds, n, word);
        let under = by_second(rules[k], root, later[n]);
        lemma_flat_map_contains(rules, under, word);
        let m = choose|m: int| gives(rules, under, m, word);
        assert(pair(rules[k], rules[m], root, later[n]).contains(word));
        assert(derives_pair(rules, root, flags, i, i + 1 + n, k, m, word));
    }
    if exists|i: int, j: int, k: int, m: int| derives_pair(rules, root, flags, i, j, k, m, word) {
        let (i, j, k, m) = choose|i: int, j: int, k: int, m: int|
            derives_pair(rules, root, flags, i, j, k, m, word);
        let later = flags.skip(i + 1);
        let n = j - i - 1;
        assert(later[n] == flags[j]);
        let under = by_second(rules[k], root, later[n]);
        lemma_flat_map_contains(rules, under, word);
        assert(seq![compound(rules[k], rules[m], root)][0] == word);
        assert(gives(rules, under, m, word));
        let seconds = by_later_flag(rules, rules[k], root);
        lemma_flat_map_contains(later, seconds, word);
        assert(gives(later, seconds, n, word));
        let firsts = by_first(rules, root, flags[i], later);
        lemma_flat_map_contains(rules, firsts, word);
        assert(gives(rules, firsts, k, word));
        assert(gives(positions, each, i, word));
    }
}

/// The root word is the first of its spellings.
pub proof fn lemma_root_comes_first(affix: AffixView, root: Seq<char>, flags: Seq<char>)
    ensures
        affixed_words(affix, root, flags).len() >= 1,
        affixed_words(affix, root, flags)[0] == root,
{
}

impl Affix {
    /// A configuration without rules.
    pub fn new() -> (affix: Affix)
        ensures
            affix@.rules.len() == 0,
            affix@.nosuggest is None,
            affix@.style == FlagStyle::Single,
    {
        Affix { affix_rules: Vec::new(), nosuggest_flag: None, flag_style: FlagStyle::Single }
    }

    /// Reads an affix document. Where the document can be read, the
    /// configuration that it writes takes the place of this one; where it
    /// cannot, this configuration stays as it was and the first error is
    /// returned.
    pub fn load_from_str(&mut self, s: &str) -> (r: Result<(), AffixParseError>)
        ensures
            match parse_affix(s@) {
                Ok(affix) => r is Ok && final(self)@ == affix,
                Err(e) => r == Err::<(), AffixParseError>(e) && *final(self) == *old(self),
            },
    {
        match read_affix(s) {
            Ok(affix) => {
                *self = affix;
                Ok(())
            },
            Err(e) => Err(e),
        }
    }

    /// Appends what the rules derive from `root` under one flag.
    fn push_singles_under(&self, root: &Vec<char>, flag: Flag, out: &mut Vec<Vec<char>>)
        ensures
            views(final(out)@) == views(old(out)@) + singles_under(self@.rules, root@, flag),
    {
        let ghost rules = self@.rules;
        let ghost f = by_rule(root@, flag);
        let mut k: usize = 0;
        assert(rules.take(0).map_values(f) =~= Seq::<Seq<Seq<char>>>::empty());
        assert(views(out@) =~= views(old(out)@) + rules.take(0).flat_map(f));
        while k < self.affix_rules.len()
            invariant
                k <= self.affix_rules.len(),
                rules == self@.rules,
                f == by_rule(root@, flag),
                views(out@) == views(old(out)@) + rules.take(k as int).flat_map(f),
            decreases self.affix_rules.len() - k,
        {
            let rule = &self.affix_rules[k];
            proof {
                rules.lemma_flat_map_take_append(f, k as int);
                assert(rules[k as int] == rule@);
            }
            if rule.flag == flag && rule.fires(root) {
                let word = rule.apply(root);
                assert(views(out@.push(word)) =~= views(out@).push(word@));
                out.push(word);
            }
            assert(views(out@) =~= views(old(out)@) + rules.take(k + 1).flat_map(f));
            k += 1;
        }
        assert(rules.take(rules.len() as int) =~= rules);
    }

    /// Appends what the rules derive from `root` one at a time.
    fn push_singles(&self, root: &Vec<char>, flags: &Vec<Flag>, out: &mut Vec<Vec<char>>)
        ensures
            views(final(out)@) == views(old(out)@) + singles(self@.rules, root@, flags@),
    {
        let ghost f = by_flag(self@.rules, root@);
        let mut i: usize = 0;
        assert(flags@.take(0).map_values(f) =~= Seq::<Seq<Seq<char>>>::empty());
        assert(views(out@) =~= views(old(out)@) + flags@.take(0).flat_map(f));
        while i < flags.len()
            invariant
                i <= flags.len(),
                f == by_flag(self@.rules, root@),
                views(out@) == views(old(out)@) + flags@.take(i as int).flat_map(f),
            decreases flags.len() - i,
        {
            let ghost before = views(out@);
            proof {
                flags@.lemma_flat_map_take_append(f, i as int);
            }
            self.push_singles_under(root, flags[i], out);
            assert(views(out@) =~= views(old(out)@) + flags@.take(i + 1).flat_map(f));
            i += 1;
        }
        assert(flags@.take(flags@.len() as int) =~= flags@);
    }

    /// Appends what `first`, which makes `middle` of `root`, derives
    /// together with the rules under one flag.
    fn push_pairs_under(
        &self,
        first: &AffixRule,
        middle: &Vec<char>,
        root: &Vec<char>,
        flag: Flag,
        out: &mut Vec<Vec<char>>,
    )
        requires
            first@.combinable,
            first@.fires(root@),
            middle@ == first@.apply(root@),
        ensures
            views(final(out)@) == views(old(out)@) + pairs_under(
                self@.rules,
                first@,
                root@,
                flag,
            ),
    {
        let ghost rules = self@.rules;
        let ghost f = by_second(first@, root@, flag);
        let room: usize = root.len() - first.strip.len();
        let mut k: usize = 0;
        assert(rules.take(0).map_values(f) =~= Seq::<Seq<Seq<char>>>::empty());
        assert(views(out@) =~= views(old(out)@) + rules.take(0).flat_map(f));
        while k < self.affix_rules.len()
            invariant
                k <= self.affix_rules.len(),
                rules == self@.rules,
                f == by_second(first@, root@, flag),
                first@.combinable,
                first@.fires(root@),
                middle@ == first@.apply(root@),
                room == root@.len() - first@.strip.len(),
                views(out@) == views(old(out)@) + rules.take(k as int).flat_map(f),
            decreases self.affix_rules.len() - k,
        {
            let second = &self.affix_rules[k];
            proof {
                rules.lemma_flat_map_take_append(f, k as int);
                assert(rules[k as int] == second@);
            }
            if second.flag == flag && second.combinable && second.kind != first.kind
                && second.strip.len() <= room && second.fires(root) {
                let word = second.apply(middle);
                assert(views(out@.push(word)) =~= views(out@).push(word@));
                out.push(word);
            }
            assert(views(out@) =~= views(old(out)@) + rules.take(k + 1).flat_map(f));
            k += 1;
        }
        assert(rules.take(rules.len() as int) =~= rules);
    }

    /// Appends what `first` derives together with the rules under the flags
    /// from position `from` on.
    fn push_pairs_after(
        &self,
        first: &AffixRule,
        root: &Vec<char>,
        flags: &Vec<Flag>,
        from: usize,
        out: &mut Vec<Vec<char>>,
    )
        requires
            first@.combinable,
            first@.fires(root@),
            from <= flags@.len(),
        ensures
            views(final(out)@) == views(old(out)@) + pairs_after(
                self@.rules,
                first@,
                root@,
                flags@.skip(from as int),
            ),
    {
        let ghost later = flags@.skip(from as int);
        let ghost f = by_later_flag(self@.rules, first@, root@);
        let middle = first.apply(root);
        let mut j: usize = from;
        assert(later.take(0).map_values(f) =~= Seq::<Seq<Seq<char>>>::empty());
        assert(views(out@) =~= views(old(out)@) + later.take(0).flat_map(f));
        while j < flags.len()
            invariant
                from <= j <= flags.len(),
                later == flags@.skip(from as int),
                f == by_later_flag(self@.rules, first@, root@),
                first@.combinable,
                first@.fires(root@),
                middle@ == first@.apply(root@),
                views(out@) == views(old(out)@) + later.take(j - from).flat_map(f),
            decreases flags.len() - j,
        {
            proof {
                later.lemma_flat_map_take_append(f, j - from);
                assert(later[j - from] == flags@[j as int]);
            }
            self.push_pairs_under(first, &middle, root, flags[j], out);
            assert(views(out@) =~= views(old(out)@) + later.take(j + 1 - from).flat_map(f));
            j += 1;
        }
        assert(later.take(later.len() as int) =~= later);
    }

    /// Appends what the rules under the flag at position `i` derive
    /// together with the rules under the flags after it.
    fn push_pairs_from(
        &self,
        root: &Vec<char>,
        flags: &Vec<Flag>,
        i: usize,
        out: &mut Vec<Vec<char>>,
    )
        requires
            i < flags@.len(),
        ensures
            views(final(out)@) == views(old(out)@) + pairs_from(
                self@.rules,
                root@,
                flags@[i as int],
                flags@.skip(i + 1),
            ),
    {
        let ghost rules = self@.rules;
        let ghost later = flags@.skip(i + 1);
        let ghost f = by_first(rules, root@, flags@[i as int], later);
        let flag = flags[i];
        let mut k: usize = 0;
        assert(rules.take(0).map_values(f) =~= Seq::<Seq<Seq<char>>>::empty());
        assert(views(out@) =~= views(old(out)@) + rules.take(0).flat_map(f));
        while k < self.affix_rules.len()
            invariant
                k <= self.affix_rules.len(),
                i < flags.len(),
                flag == flags@[i as int],
                rules == self@.rules,
                later == flags@.skip(i + 1),
                f == by_first(rules, root@, flag, later),
                views(out@) == views(old(out)@) + rules.take(k as int).flat_map(f),
            decreases self.affix_rules.len() - k,
        {
            let first = &self.affix_rules[k];
            proof {
                rules.lemma_flat_map_take_append(f, k as int);
                assert(rules[k as int] == first@);
            }
            if first.flag == flag && first.combinable && first.fires(root) {
                self.push_pairs_after(first, root, flags, i + 1, out);
            }
            assert(views(out@) =~= views(old(out)@) + rules.take(k + 1).flat_map(f));
            k += 1;
        }
        assert(rules.take(rules.len() as int) =~= rules);
    }

    /// Appends what the rules derive from `root` two at a time.
    fn push_pairs(&self, root: &Vec<char>, flags: &Vec<Flag>, out: &mut Vec<Vec<char>>)
        ensures
            views(final(out)@) == views(old(out)@) + pairs(self@.rules, root@, flags@),
    {
        let ghost rules = self@.rules;
        let ghost f = by_position(rules, root@, flags@);
        let mut i: usize = 0;
        assert(Seq::new(0, f) =~= Seq::<Seq<Seq<char>>>::empty());
        assert(views(out@) =~= views(old(out)@) + pairs_upto(rules, root@, flags@, 0));
        while i < flags.len()
            invariant
                i <= flags.len(),
                rules == self@.rules,
                f == by_position(rules, root@, flags@),
                views(out@) == views(old(out)@) + pairs_upto(rules, root@, flags@, i as nat),
            decreases flags.len() - i,
        {
            proof {
                assert(Seq::new((i + 1) as nat, f) =~= Seq::new(i as nat, f).push(f(i as int)));
                Seq::new(i as nat, f).lemma_flatten_push(f(i as int));
            }
            self.push_pairs_from(root, flags, i, out);
            assert(views(out@) =~= views(old(out)@) + pairs_upto(
                rules,
                root@,
                flags@,
                (i + 1) as nat,
            ));
            i += 1;
        }
    }

    /// The spellings of a root word with the given flags, as characters.
    pub fn expand_tokens(&self, root: &Vec<char>, flags: &Vec<Flag>) -> (out: Vec<Vec<char>>)
        ensures
            views(out@) == spellings(self@.rules, root@, flags@),
    {
        let mut out: Vec<Vec<char>> = Vec::new();
        out.push(copy_of(root));
        assert(views(out@) =~= seq![root@]);
        self.push_singles(root, flags, &mut out);
        self.push_pairs(root, flags, &mut out);
        out
    }

    /// The spellings of a root word with the flags that a flag string
    /// holds, as characters.
    pub fn expand(&self, root: &Vec<char>, flags: &Vec<char>) -> (out: Vec<Vec<char>>)
        ensures
            views(out@) == affixed_words(self@, root@, flags@),
    {
        let flags = self.flag_style.tokens_of(flags);
        self.expand_tokens(root, &flags)
    }

    /// The spellings of a root word with the given flags: the root itself,
    /// then what the rules under each flag derive from it, in the order of
    /// the flags and, under one flag, in the order in which the rules were
    /// registered; then what two rules derive from it together.
    pub fn create_affixed_words(&self, root: &str, flags: &str) -> (out: Vec<String>)
        ensures
            string_views(out@) == affixed_words(self@, root@, flags@),
    {
        let root = chars_of(root);
        let flags = chars_of(flags);
        let words = self.expand(&root, &flags);
        let mut out: Vec<String> = Vec::new();
        let mut i: usize = 0;
        while i < words.len()
            invariant
                i <= words.len(),
                string_views(out@) == views(words@).take(i as int),
            decreases words.len() - i,
        {
            let word = string_of(&words[i]);
            assert(string_views(out@.push(word)) =~= string_views(out@).push(word@));
            assert(views(words@).take(i + 1) =~= views(words@).take(i as int).push(words@[i as int]@));
            out.push(word);
            i += 1;
        }
        assert(views(words@).take(words@.len() as int) =~= views(words@));
        out
    }
}

} // verus!

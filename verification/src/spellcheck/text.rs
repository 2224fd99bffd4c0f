//! Text as sequences of characters: conversion from and to strings, and the
//! splitting of documents into lines, of lines into fields and of entries at
//! the slash.

use vstd::prelude::*;
use vstd::std_specs::iter::IteratorSpec;
use vstd::string::*;

verus! {

/// Contract for `String::push` of the standard library, which this crate
/// calls but does not verify: the pushed character is appended to the end of
/// the string and the characters before it stay as they were.
pub assume_specification[ String::push ](s: &mut String, ch: char)
    ensures
        final(s)@ == old(s)@.push(ch),
;

/// The views of a sequence of character vectors.
pub open spec fn views(v: Seq<Vec<char>>) -> Seq<Seq<char>> {
    v.map_values(|w: Vec<char>| w@)
}

/// The views of a sequence of strings.
pub open spec fn string_views(v: Seq<String>) -> Seq<Seq<char>> {
    v.map_values(|w: String| w@)
}

/// The characters of a string, in order.
pub fn chars_of(s: &str) -> (v: Vec<char>)
    ensures
        v@ == s@,
{
    broadcast use vstd::string::group_string_axioms;

    let mut v: Vec<char> = Vec::new();
    for c in it: s.chars()
        invariant
            it.seq() == s@,
            v@ == s@.take(it.index() as int),
    {
        v.push(c);
    }
    assert(s@.take(s@.len() as int) == s@);
    v
}

/// The string made of the given characters, in order.
pub fn string_of(v: &Vec<char>) -> (s: String)
    ensures
        s@ == v@,
{
    let mut s = String::new();
    let mut i: usize = 0;
    while i < v.len()
        invariant
            i <= v.len(),
            s@ == v@.take(i as int),
        decreases v.len() - i,
    {
        s.push(v[i]);
        i += 1;
    }
    assert(v@.take(v@.len() as int) == v@);
    s
}

/// Whether a character vector and a string hold the same characters.
pub fn same_text(v: &Vec<char>, t: &str) -> (r: bool)
    ensures
        r == (v@ == t@),
{
    broadcast use vstd::string::group_string_axioms;

    let mut it = t.chars();
    let mut i: usize = 0;
    loop
        invariant
            i <= v.len(),
            i <= t@.len(),
            it.remaining() == t@.skip(i as int),
            it.decrease() is Some,
            forall|k: int| 0 <= k < i ==> v@[k] == t@[k],
        decreases t@.len() - i,
    {
        match it.next() {
            None => {
                assert(i == t@.len());
                if i == v.len() {
                    assert(v@ =~= t@);
                    return true;
                }
                return false;
            },
            Some(c) => {
                assert(c == t@.skip(i as int)[0]);
                assert(i < t@.len());
                if i >= v.len() {
                    return false;
                }
                if v[i] != c {
                    return false;
                }
                assert(t@.skip(i as int).drop_first() =~= t@.skip(i + 1));
                i += 1;
            },
        }
    }
}

/// Appends the characters of `src` from `from` up to `to` to `out`.
pub fn push_range(out: &mut Vec<char>, src: &Vec<char>, from: usize, to: usize)
    requires
        from <= to <= src@.len(),
    ensures
        final(out)@ == old(out)@ + src@.subrange(from as int, to as int),
{
    let mut i: usize = from;
    assert(out@ =~= old(out)@ + src@.subrange(from as int, i as int));
    while i < to
        invariant
            from <= i <= to <= src@.len(),
            out@ == old(out)@ + src@.subrange(from as int, i as int),
        decreases to - i,
    {
        out.push(src[i]);
        assert(out@ =~= old(out)@ + src@.subrange(from as int, i + 1));
        i += 1;
    }
}

/// A copy of a character vector.
pub fn copy_of(v: &Vec<char>) -> (out: Vec<char>)
    ensures
        out@ == v@,
{
    let mut out: Vec<char> = Vec::new();
    push_range(&mut out, v, 0, v.len());
    assert(out@ =~= v@);
    out
}

/// What a text is split at.
#[derive(Clone, Copy, PartialEq, Eq, Debug, Structural)]
pub enum Separator {
    /// The line feed that ends a line of a document.
    Newline,
    /// The slash between a word and what is attached to it.
    Slash,
    /// A space or a tab between the fields of a line.
    Blank,
    /// The bracket that closes a character class.
    Bracket,
}

impl Separator {
    /// Whether `c` is a character at which this separator splits.
    pub open spec fn cuts(self, c: char) -> bool {
        match self {
            Separator::Newline => c == '\n',
            Separator::Slash => c == '/',
            Separator::Blank => c == ' ' || c == '\t',
            Separator::Bracket => c == ']',
        }
    }

    /// Executable form of [`Separator::cuts`].
    pub fn matches(self, c: char) -> (r: bool)
        ensures
            r == self.cuts(c),
    {
        match self {
            Separator::Newline => c == '\n',
            Separator::Slash => c == '/',
            Separator::Blank => c == ' ' || c == '\t',
            Separator::Bracket => c == ']',
        }
    }
}

/// The number of characters at the start of `s` before the first one that
/// `sep` cuts; the length of `s` where it cuts none.
pub open spec fn reach(s: Seq<char>, sep: Separator) -> nat
    decreases s.len(),
{
    if s.len() == 0 || sep.cuts(s[0]) {
        0
    } else {
        1 + reach(s.drop_first(), sep)
    }
}

/// `reach` is the one index up to which nothing is cut and at which `s` ends
/// or is cut.
pub proof fn lemma_reach_is(s: Seq<char>, sep: Separator, n: int)
    requires
        0 <= n <= s.len(),
        forall|k: int| 0 <= k < n ==> !sep.cuts(s[k]),
        n == s.len() || sep.cuts(s[n]),
    ensures
        reach(s, sep) == n,
    decreases n,
{
    if n > 0 {
        lemma_reach_is(s.drop_first(), sep, n - 1);
    }
}

/// `reach` stays within `s`, and no character before it is cut.
pub proof fn lemma_reach_bounds(s: Seq<char>, sep: Separator)
    ensures
        reach(s, sep) <= s.len(),
        forall|k: int| 0 <= k < reach(s, sep) ==> !sep.cuts(s[k]),
        reach(s, sep) == s.len() || sep.cuts(s[reach(s, sep) as int]),
    decreases s.len(),
{
    if s.len() != 0 && !sep.cuts(s[0]) {
        lemma_reach_bounds(s.drop_first(), sep);
        assert forall|k: int| 0 <= k < reach(s, sep) implies !sep.cuts(s[k]) by {
            if k > 0 {
                assert(s[k] == s.drop_first()[k - 1]);
            }
        }
    }
}

/// The pieces of `s` between the characters that `sep` cuts. There is one
/// piece more than there are such characters, so a text that ends in a
/// separator ends in an empty piece, and the empty text is one empty piece.
pub open spec fn split(s: Seq<char>, sep: Separator) -> Seq<Seq<char>>
    decreases s.len(),
{
    let n = reach(s, sep);
    if n >= s.len() {
        seq![s]
    } else {
        seq![s.take(n as int)] + split(s.skip(n as int + 1), sep)
    }
}

/// A split has at least one piece, and its first piece ends where the
/// separator cuts first.
pub proof fn lemma_split_first(s: Seq<char>, sep: Separator)
    ensures
        split(s, sep).len() >= 1,
        split(s, sep)[0] == s.take(reach(s, sep) as int),
{
    lemma_reach_bounds(s, sep);
    let n = reach(s, sep);
    if n >= s.len() {
        assert(s.take(n as int) =~= s);
    }
}

/// Splits `s` at the characters that `sep` cuts.
pub fn split_on(s: &Vec<char>, sep: Separator) -> (out: Vec<Vec<char>>)
    ensures
        views(out@) == split(s@, sep),
{
    let mut out: Vec<Vec<char>> = Vec::new();
    let mut piece: Vec<char> = Vec::new();
    let mut start: usize = 0;
    let mut i: usize = 0;
    assert(s@.skip(0) =~= s@);
    assert(views(out@) + split(s@, sep) =~= split(s@, sep));
    while i < s.len()
        invariant
            start <= i <= s.len(),
            piece@ == s@.subrange(start as int, i as int),
            forall|k: int| start <= k < i ==> !sep.cuts(s@[k]),
            split(s@, sep) == views(out@) + split(s@.skip(start as int), sep),
        decreases s.len() - i,
    {
        let c = s[i];
        if sep.matches(c) {
            proof {
                let rest = s@.skip(start as int);
                lemma_reach_is(rest, sep, i - start);
                assert(rest.take(i - start) =~= piece@);
                assert(rest.skip(i - start + 1) =~= s@.skip(i + 1));
                assert(views(out@.push(piece)) =~= views(out@).push(piece@));
                assert(views(out@).push(piece@) + split(s@.skip(i + 1), sep) =~= views(out@) + (
                seq![piece@] + split(s@.skip(i + 1), sep)));
            }
            out.push(piece);
            piece = Vec::new();
            start = i + 1;
            assert(piece@ =~= s@.subrange(start as int, i + 1));
        } else {
            piece.push(c);
            assert(piece@ =~= s@.subrange(start as int, i + 1));
        }
        i += 1;
    }
    proof {
        let rest = s@.skip(start as int);
        lemma_reach_is(rest, sep, s@.len() - start);
        assert(rest =~= piece@);
        assert(views(out@.push(piece)) =~= views(out@).push(piece@));
        assert(views(out@).push(piece@) =~= views(out@) + seq![piece@]);
    }
    out.push(piece);
    out
}

/// A line without the carriage return at its end, where it has one.
pub open spec fn chomp(l: Seq<char>) -> Seq<char> {
    if l.len() > 0 && l.last() == '\r' {
        l.drop_last()
    } else {
        l
    }
}

/// The lines of a document. A line ends at a line feed, or at a carriage
/// return followed by a line feed; neither belongs to the line. What follows
/// the last line feed is a line of its own unless it is empty, and keeps a
/// carriage return at its end.
pub open spec fn lines(text: Seq<char>) -> Seq<Seq<char>> {
    let pieces = split(text, Separator::Newline);
    let n = if pieces.last().len() == 0 {
        pieces.len() - 1
    } else {
        pieces.len() as int
    };
    Seq::new(
        n as nat,
        |i: int|
            if i < pieces.len() - 1 {
                chomp(pieces[i])
            } else {
                pieces[i]
            },
    )
}

/// Splits a document into its lines.
pub fn lines_of(text: &Vec<char>) -> (out: Vec<Vec<char>>)
    ensures
        views(out@) == lines(text@),
{
    let mut out = split_on(text, Separator::Newline);
    proof {
        lemma_split_first(text@, Separator::Newline);
    }
    let ghost pieces = views(out@);
    let last = out.pop();
    let mut i: usize = 0;
    while i < out.len()
        invariant
            i <= out.len(),
            out.len() == pieces.len() - 1,
            forall|k: int| 0 <= k < i ==> (#[trigger] out@[k])@ == chomp(pieces[k]),
            forall|k: int| i <= k < out.len() ==> (#[trigger] out@[k])@ == pieces[k],
        decreases out.len() - i,
    {
        let n = out[i].len();
        if n > 0 && out[i][n - 1] == '\r' {
            out[i].pop();
        }
        i += 1;
    }
    match last {
        Some(l) => {
            if l.len() > 0 {
                out.push(l);
            }
        },
        None => {},
    }
    assert(views(out@) =~= lines(text@));
    out
}

/// The test that a piece holds at least one character.
pub open spec fn nonempty() -> spec_fn(Seq<char>) -> bool {
    |p: Seq<char>| p.len() > 0
}

/// The fields of a line: its maximal runs of characters other than spaces
/// and tabs, from left to right.
pub open spec fn fields(line: Seq<char>) -> Seq<Seq<char>> {
    split(line, Separator::Blank).filter(nonempty())
}

/// Splits a line into its fields.
pub fn fields_of(line: &Vec<char>) -> (out: Vec<Vec<char>>)
    ensures
        views(out@) == fields(line@),
{
    let pieces = split_on(line, Separator::Blank);
    let ghost all = pieces@;
    let mut out: Vec<Vec<char>> = Vec::new();
    proof {
        reveal(Seq::filter);
        assert(views(all.take(0)) =~= Seq::<Seq<char>>::empty());
    }
    for p in it: pieces
        invariant
            it.seq() == all,
            views(out@) == views(all.take(it.index() as int)).filter(nonempty()),
    {
        proof {
            let i = it.index() as int;
            assert(all.take(i + 1) =~= all.take(i).push(p));
            assert(views(all.take(i).push(p)) =~= views(all.take(i)).push(p@));
            views(all.take(i)).lemma_filter_push(p@, nonempty());
            assert(views(out@.push(p)) =~= views(out@).push(p@));
        }
        if p.len() > 0 {
            out.push(p);
        }
    }
    assert(all.take(all.len() as int) =~= all);
    out
}

/// The value of a decimal digit.
pub open spec fn digit(c: char) -> Option<nat> {
    if '0' <= c && c <= '9' {
        Some((c as int - '0' as int) as nat)
    } else {
        None
    }
}

/// The number that a text writes in decimal digits; `None` where the text is
/// empty or holds anything but digits.
pub open spec fn decimal(s: Seq<char>) -> Option<nat>
    decreases s.len(),
{
    if s.len() == 0 {
        None
    } else if s.len() == 1 {
        digit(s[0])
    } else {
        match (decimal(s.drop_last()), digit(s.last())) {
            (Some(high), Some(low)) => Some(10 * high + low),
            _ => None,
        }
    }
}

/// Where a text writes a number, each of its nonempty beginnings writes one
/// too, and none that is larger.
pub proof fn lemma_decimal_beginning(s: Seq<char>, i: int)
    requires
        1 <= i <= s.len(),
        decimal(s) is Some,
    ensures
        decimal(s.take(i)) is Some,
        decimal(s.take(i))->0 <= decimal(s)->0,
    decreases s.len(),
{
    if i == s.len() {
        assert(s.take(i) =~= s);
    } else {
        assert(s.drop_last().take(i) =~= s.take(i));
        lemma_decimal_beginning(s.drop_last(), i);
    }
}

/// Reads a number written in decimal digits, if it fits in 32 bits.
pub fn decimal_of(s: &Vec<char>) -> (r: Option<u32>)
    ensures
        r == match decimal(s@) {
            Some(n) => if n <= u32::MAX {
                Some(n as u32)
            } else {
                None
            },
            None => None,
        },
{
    if s.len() == 0 {
        return None;
    }
    let mut acc: u64 = 0;
    let mut i: usize = 0;
    while i < s.len()
        invariant
            i <= s.len(),
            acc <= u32::MAX,
            i == 0 ==> acc == 0,
            i > 0 ==> decimal(s@.take(i as int)) == Some(acc as nat),
        decreases s.len() - i,
    {
        let c = s[i];
        proof {
            assert(s@.take(i + 1).drop_last() =~= s@.take(i as int));
            assert(s@.take(i + 1).last() == c);
            if decimal(s@) is Some {
                lemma_decimal_beginning(s@, i + 1);
            }
        }
        if c < '0' || c > '9' {
            return None;
        }
        let low: u64 = (c as u32 - '0' as u32) as u64;
        let next: u64 = acc * 10 + low;
        if next > u32::MAX as u64 {
            return None;
        }
        acc = next;
        i += 1;
    }
    assert(s@.take(s@.len() as int) =~= s@);
    Some(acc as u32)
}

} // verus!

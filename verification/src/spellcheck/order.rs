//! The order of words: by the first character in which two words differ, a
//! word coming before every longer word that starts with it.

use vstd::prelude::*;
use vstd::seq_lib::*;
use vstd::std_specs::iter::IteratorSpec;
use vstd::string::*;

verus! {

/// Whether `a` and `b` have the same first `k` characters.
pub open spec fn agree_upto(a: Seq<char>, b: Seq<char>, k: int) -> bool {
    &&& 0 <= k <= a.len()
    &&& k <= b.len()
    &&& forall|i: int| 0 <= i < k ==> a[i] == b[i]
}

/// Whether position `k` shows that `a` comes before `b`: up to there the two
/// agree, and there `a` ends while `b` goes on, or `a` has the smaller
/// character.
pub open spec fn precedes_at(a: Seq<char>, b: Seq<char>, k: int) -> bool {
    &&& agree_upto(a, b, k)
    &&& (k == a.len() && k < b.len()) || (k < a.len() && k < b.len() && a[k] < b[k])
}

/// Whether `a` comes before `b` in the order of words.
pub open spec fn precedes(a: Seq<char>, b: Seq<char>) -> bool {
    exists|k: int| precedes_at(a, b, k)
}

/// No word comes before itself.
pub proof fn lemma_precedes_irreflexive(a: Seq<char>)
    ensures
        !precedes(a, a),
{
}

/// Of two words at most one comes before the other.
pub proof fn lemma_precedes_asymmetric(a: Seq<char>, b: Seq<char>)
    requires
        precedes(a, b),
    ensures
        !precedes(b, a),
{
    let k = choose|k: int| precedes_at(a, b, k);
    if precedes(b, a) {
        let m = choose|m: int| precedes_at(b, a, m);
        if k < m {
            assert(b[k] == a[k]);
        } else if m < k {
            assert(a[m] == b[m]);
        }
    }
}

/// What comes before a word comes before everything after that word.
pub proof fn lemma_precedes_transitive(a: Seq<char>, b: Seq<char>, c: Seq<char>)
    requires
        precedes(a, b),
        precedes(b, c),
    ensures
        precedes(a, c),
{
    let k = choose|k: int| precedes_at(a, b, k);
    let m = choose|m: int| precedes_at(b, c, m);
    let n = if k <= m {
        k
    } else {
        m
    };
    assert(agree_upto(a, c, n)) by {
        assert forall|i: int| 0 <= i < n implies a[i] == c[i] by {
            assert(a[i] == b[i]);
            assert(b[i] == c[i]);
        }
    }
    if k < m {
        assert(b[k] == c[k]);
    } else if m < k {
        assert(a[m] == b[m]);
    }
    assert(precedes_at(a, c, n));
}

/// Of two different words one comes before the other.
pub proof fn lemma_precedes_total(a: Seq<char>, b: Seq<char>)
    requires
        a != b,
    ensures
        precedes(a, b) || precedes(b, a),
{
    lemma_first_difference(a, b, 0);
}

/// Two words that agree up to `k` are the same word, or one comes before
/// the other.
proof fn lemma_first_difference(a: Seq<char>, b: Seq<char>, k: int)
    requires
        agree_upto(a, b, k),
    ensures
        a == b || precedes(a, b) || precedes(b, a),
    decreases a.len() - k,
{
    if k == a.len() && k == b.len() {
        assert(a =~= b);
    } else if k == a.len() {
        assert(precedes_at(a, b, k));
    } else if k == b.len() {
        assert(precedes_at(b, a, k));
        assert(agree_upto(b, a, k));
    } else if a[k] < b[k] {
        assert(precedes_at(a, b, k));
    } else if b[k] < a[k] {
        assert(agree_upto(b, a, k));
        assert(precedes_at(b, a, k));
    } else {
        lemma_first_difference(a, b, k + 1);
    }
}

/// Whether each word of `s` comes before all the words after it.
pub open spec fn ascending(s: Seq<Seq<char>>) -> bool {
    forall|i: int, j: int| 0 <= i < j < s.len() ==> precedes(#[trigger] s[i], #[trigger] s[j])
}

/// A sequence in ascending order holds no word twice.
pub proof fn lemma_ascending_no_duplicates(s: Seq<Seq<char>>)
    requires
        ascending(s),
    ensures
        s.no_duplicates(),
{
    assert forall|i: int, j: int| 0 <= i < s.len() && 0 <= j < s.len() && i != j implies s[i]
        != s[j] by {
        lemma_precedes_irreflexive(s[i]);
        if i < j {
            assert(precedes(s[i], s[j]));
        } else {
            assert(precedes(s[j], s[i]));
        }
    }
}

/// Two sequences in ascending order that hold the same words are the same
/// sequence.
pub proof fn lemma_ascending_unique(s: Seq<Seq<char>>, t: Seq<Seq<char>>)
    requires
        ascending(s),
        ascending(t),
        s.to_set() == t.to_set(),
    ensures
        s == t,
    decreases s.len(),
{
    broadcast use vstd::seq_lib::group_seq_properties;

    if s.len() == 0 {
        if t.len() > 0 {
            assert(t.to_set().contains(t[0]));
            assert(s.to_set().contains(t[0]));
        }
        assert(s =~= t);
    } else if t.len() == 0 {
        assert(s.to_set().contains(s[0]));
        assert(t.to_set().contains(s[0]));
    } else {
        // The last word of each is the one that nothing follows.
        let a = s.last();
        let b = t.last();
        assert(t.to_set().contains(a));
        assert(s.to_set().contains(b));
        let i = choose|i: int| 0 <= i < t.len() && t[i] == a;
        let j = choose|j: int| 0 <= j < s.len() && s[j] == b;
        if a != b {
            assert(i < t.len() - 1);
            assert(precedes(t[i], t[t.len() - 1]));
            assert(j < s.len() - 1);
            assert(precedes(s[j], s[s.len() - 1]));
            lemma_precedes_asymmetric(a, b);
        }
        lemma_ascending_no_duplicates(s);
        lemma_ascending_no_duplicates(t);
        assert(s.drop_last().to_set() =~= s.to_set().remove(a)) by {
            assert forall|w: Seq<char>| s.to_set().remove(a).contains(w) implies s.drop_last().to_set().contains(w) by {
                let n = choose|n: int| 0 <= n < s.len() && s[n] == w;
                assert(s.drop_last()[n] == w);
            }
            assert forall|w: Seq<char>| s.drop_last().to_set().contains(w) implies s.to_set().remove(a).contains(w) by {
                let n = choose|n: int| 0 <= n < s.drop_last().len() && s.drop_last()[n] == w;
                assert(s[n] == w);
            }
        }
        assert(t.drop_last().to_set() =~= t.to_set().remove(b)) by {
            assert forall|w: Seq<char>| t.to_set().remove(b).contains(w) implies t.drop_last().to_set().contains(w) by {
                let n = choose|n: int| 0 <= n < t.len() && t[n] == w;
                assert(t.drop_last()[n] == w);
            }
            assert forall|w: Seq<char>| t.drop_last().to_set().contains(w) implies t.to_set().remove(b).contains(w) by {
                let n = choose|n: int| 0 <= n < t.drop_last().len() && t.drop_last()[n] == w;
                assert(t[n] == w);
            }
        }
        assert(ascending(s.drop_last())) by {
            assert forall|x: int, y: int| 0 <= x < y < s.drop_last().len() implies precedes(
                #[trigger] s.drop_last()[x],
                #[trigger] s.drop_last()[y],
            ) by {
                assert(precedes(s[x], s[y]));
            }
        }
        assert(ascending(t.drop_last())) by {
            assert forall|x: int, y: int| 0 <= x < y < t.drop_last().len() implies precedes(
                #[trigger] t.drop_last()[x],
                #[trigger] t.drop_last()[y],
            ) by {
                assert(precedes(t[x], t[y]));
            }
        }
        lemma_ascending_unique(s.drop_last(), t.drop_last());
        assert(s =~= s.drop_last().push(a));
        assert(t =~= t.drop_last().push(b));
    }
}

/// How one word stands to another in the order of words.
#[derive(Clone, Copy, PartialEq, Eq, Debug, Structural)]
pub enum Rank {
    /// The first word comes before the second.
    Before,
    /// The two are the same word.
    Same,
    /// The first word comes after the second.
    After,
}

/// How `a` stands to `b` in the order of words.
pub fn rank(a: &str, b: &str) -> (r: Rank)
    ensures
        r == Rank::Before <==> precedes(a@, b@),
        r == Rank::Same <==> a@ == b@,
        r == Rank::After <==> precedes(b@, a@),
{
    broadcast use vstd::string::group_string_axioms;

    let mut ia = a.chars();
    let mut ib = b.chars();
    let ghost mut k: int = 0;
    loop
        invariant
            agree_upto(a@, b@, k),
            ia.remaining() == a@.skip(k),
            ib.remaining() == b@.skip(k),
            ia.decrease() is Some,
        decreases a@.len() - k,
    {
        let x = ia.next();
        let y = ib.next();
        match (x, y) {
            (None, None) => {
                assert(a@ =~= b@);
                return Rank::Same;
            },
            (None, Some(_)) => {
                assert(precedes_at(a@, b@, k));
                return Rank::Before;
            },
            (Some(_), None) => {
                assert(precedes_at(b@, a@, k));
                return Rank::After;
            },
            (Some(c), Some(d)) => {
                assert(c == a@.skip(k)[0] && d == b@.skip(k)[0]);
                assert(k < a@.len() && k < b@.len());
                if c < d {
                    assert(precedes_at(a@, b@, k));
                    return Rank::Before;
                } else if d < c {
                    assert(precedes_at(b@, a@, k));
                    return Rank::After;
                }
                assert(a@.skip(k).drop_first() =~= a@.skip(k + 1));
                assert(b@.skip(k).drop_first() =~= b@.skip(k + 1));
                proof {
                    k = k + 1;
                }
            },
        }
    }
}

/// The views of a sequence of string slices.
pub open spec fn str_views(v: Seq<&str>) -> Seq<Seq<char>> {
    v.map_values(|s: &str| s@)
}

/// Merges two sequences in ascending order into one, keeping one of each
/// word that both hold.
fn merge<'a>(a: &Vec<&'a str>, b: &Vec<&'a str>) -> (out: Vec<&'a str>)
    requires
        ascending(str_views(a@)),
        ascending(str_views(b@)),
    ensures
        ascending(str_views(out@)),
        str_views(out@).to_set() == str_views(a@).to_set().union(str_views(b@).to_set()),
{
    broadcast use vstd::seq_lib::group_seq_properties;

    let ghost left = str_views(a@);
    let ghost right = str_views(b@);
    let mut out: Vec<&'a str> = Vec::new();
    let mut i: usize = 0;
    let mut j: usize = 0;
    assert(str_views(out@).to_set() =~= left.take(0).to_set().union(right.take(0).to_set()));
    while i < a.len() || j < b.len()
        invariant
            i <= a.len(),
            j <= b.len(),
            left == str_views(a@),
            right == str_views(b@),
            ascending(left),
            ascending(right),
            ascending(str_views(out@)),
            forall|x: int, p: int|
                0 <= x < out@.len() && i <= p < left.len() ==> precedes(
                    #[trigger] str_views(out@)[x],
                    #[trigger] left[p],
                ),
            forall|x: int, q: int|
                0 <= x < out@.len() && j <= q < right.len() ==> precedes(
                    #[trigger] str_views(out@)[x],
                    #[trigger] right[q],
                ),
            str_views(out@).to_set() == left.take(i as int).to_set().union(
                right.take(j as int).to_set(),
            ),
        decreases (a.len() - i) + (b.len() - j),
    {
        let ghost before = str_views(out@);
        let r = if i >= a.len() {
            Rank::After
        } else if j >= b.len() {
            Rank::Before
        } else {
            rank(a[i], b[j])
        };
        let take_left = r != Rank::After;
        let take_right = r != Rank::Before;
        let word: &'a str = if take_left {
            a[i]
        } else {
            b[j]
        };
        proof {
            assert(str_views(out@.push(word)) =~= before.push(word@));
            before.lemma_push_to_set_commute(word@);
            if take_left {
                assert(left.take(i + 1) =~= left.take(i as int).push(left[i as int]));
                left.take(i as int).lemma_push_to_set_commute(left[i as int]);
            }
            if take_right {
                assert(right.take(j + 1) =~= right.take(j as int).push(right[j as int]));
                right.take(j as int).lemma_push_to_set_commute(right[j as int]);
            }
            if take_left && take_right {
                assert(left[i as int] == right[j as int]);
            }
            // The word taken comes before all that is left on either side.
            assert forall|p: int| i + (if take_left { 1int } else { 0int }) <= p < left.len() implies precedes(
                word@,
                #[trigger] left[p],
            ) by {
                if take_left {
                    assert(precedes(left[i as int], left[p]));
                } else {
                    assert(precedes(right[j as int], left[i as int]));
                    if p > i {
                        assert(precedes(left[i as int], left[p]));
                        lemma_precedes_transitive(right[j as int], left[i as int], left[p]);
                    }
                }
            }
            assert forall|q: int| j + (if take_right { 1int } else { 0int }) <= q < right.len() implies precedes(
                word@,
                #[trigger] right[q],
            ) by {
                if take_right && take_left {
                    assert(left[i as int] == right[j as int]);
                    assert(precedes(right[j as int], right[q]));
                } else if take_right {
                    assert(precedes(right[j as int], right[q]));
                } else {
                    assert(precedes(left[i as int], right[j as int]));
                    if q > j {
                        assert(precedes(right[j as int], right[q]));
                        lemma_precedes_transitive(left[i as int], right[j as int], right[q]);
                    }
                }
            }
            assert(ascending(before.push(word@))) by {
                assert forall|x: int, y: int| 0 <= x < y < before.push(word@).len() implies precedes(
                    #[trigger] before.push(word@)[x],
                    #[trigger] before.push(word@)[y],
                ) by {
                    if y < before.len() {
                        assert(precedes(before[x], before[y]));
                    } else if take_left {
                        assert(precedes(before[x], left[i as int]));
                    } else {
                        assert(precedes(before[x], right[j as int]));
                    }
                }
            }
        }
        out.push(word);
        if take_left {
            i += 1;
        }
        if take_right {
            j += 1;
        }
        assert(str_views(out@).to_set() =~= left.take(i as int).to_set().union(
            right.take(j as int).to_set(),
        ));
    }
    assert(left.take(left.len() as int) =~= left);
    assert(right.take(right.len() as int) =~= right);
    out
}

/// The words of `v` from position `lo` up to `hi`, in ascending order and
/// each once.
fn sorted_range<'a>(v: &Vec<&'a str>, lo: usize, hi: usize) -> (out: Vec<&'a str>)
    requires
        lo <= hi <= v@.len(),
    ensures
        ascending(str_views(out@)),
        str_views(out@).to_set() == str_views(v@).subrange(lo as int, hi as int).to_set(),
    decreases hi - lo,
{
    broadcast use vstd::seq_lib::group_seq_properties;

    let ghost all = str_views(v@);
    if hi - lo == 0 {
        let out: Vec<&'a str> = Vec::new();
        assert(str_views(out@) =~= all.subrange(lo as int, hi as int));
        out
    } else if hi - lo == 1 {
        let mut out: Vec<&'a str> = Vec::new();
        out.push(v[lo]);
        assert(str_views(out@) =~= all.subrange(lo as int, hi as int));
        out
    } else {
        let mid: usize = lo + (hi - lo) / 2;
        let left = sorted_range(v, lo, mid);
        let right = sorted_range(v, mid, hi);
        proof {
            assert(all.subrange(lo as int, hi as int) =~= all.subrange(lo as int, mid as int)
                + all.subrange(mid as int, hi as int));
            seq_to_set_distributes_over_add(
                all.subrange(lo as int, mid as int),
                all.subrange(mid as int, hi as int),
            );
        }
        merge(&left, &right)
    }
}

/// The words of `v` in ascending order, each once.
pub fn sorted_distinct<'a>(v: &Vec<&'a str>) -> (out: Vec<&'a str>)
    ensures
        ascending(str_views(out@)),
        str_views(out@).no_duplicates(),
        str_views(out@).to_set() == str_views(v@).to_set(),
{
    let out = sorted_range(v, 0, v.len());
    proof {
        assert(str_views(v@).subrange(0, v@.len() as int) =~= str_views(v@));
        lemma_ascending_no_duplicates(str_views(out@));
    }
    out
}

} // verus!

//! Flags: the tokens that name the groups of rules, and that the entries of
//! a word list carry.
//!
//! A flag is one character, or, in a document that declares `FLAG long`,
//! two. A flag string is a run of flags without anything between them.

use vstd::prelude::*;

verus! {

/// The name of a group of rules.
#[derive(Clone, Copy, PartialEq, Eq, Debug, Structural)]
pub enum Flag {
    /// A flag of one character.
    Short(char),
    /// A flag of two characters.
    Long(char, char),
}

/// How flags are written.
#[derive(Clone, Copy, PartialEq, Eq, Debug, Structural)]
pub enum FlagStyle {
    /// Every character is a flag.
    Single,
    /// Every two characters are a flag.
    Long,
}

impl FlagStyle {
    /// The flag that a field of a directive writes: the field must be as
    /// long as a flag of this style.
    pub open spec fn written(self, field: Seq<char>) -> Option<Flag> {
        match self {
            FlagStyle::Single => if field.len() == 1 {
                Some(Flag::Short(field[0]))
            } else {
                None
            },
            FlagStyle::Long => if field.len() == 2 {
                Some(Flag::Long(field[0], field[1]))
            } else {
                None
            },
        }
    }

    /// How many flags a flag string holds.
    pub open spec fn count(self, flags: Seq<char>) -> nat {
        match self {
            FlagStyle::Single => flags.len(),
            FlagStyle::Long => (flags.len() + 1) / 2,
        }
    }

    /// The `i`-th flag of a flag string. In the long style a character left
    /// over at the end is a flag of its own.
    pub open spec fn token(self, flags: Seq<char>, i: int) -> Flag {
        match self {
            FlagStyle::Single => Flag::Short(flags[i]),
            FlagStyle::Long => if 2 * i + 1 < flags.len() {
                Flag::Long(flags[2 * i], flags[2 * i + 1])
            } else {
                Flag::Short(flags[2 * i])
            },
        }
    }

    /// The flags of a flag string, from left to right.
    pub open spec fn tokens(self, flags: Seq<char>) -> Seq<Flag> {
        Seq::new(self.count(flags), |i: int| self.token(flags, i))
    }

    /// Reads the flag that a field of a directive writes.
    pub fn read(self, field: &Vec<char>) -> (r: Option<Flag>)
        ensures
            r == self.written(field@),
    {
        match self {
            FlagStyle::Single => if field.len() == 1 {
                Some(Flag::Short(field[0]))
            } else {
                None
            },
            FlagStyle::Long => if field.len() == 2 {
                Some(Flag::Long(field[0], field[1]))
            } else {
                None
            },
        }
    }

    /// Reads the flags of a flag string.
    pub fn tokens_of(self, flags: &Vec<char>) -> (out: Vec<Flag>)
        ensures
            out@ == self.tokens(flags@),
    {
        let mut out: Vec<Flag> = Vec::new();
        let n = flags.len();
        let long = match self {
            FlagStyle::Single => false,
            FlagStyle::Long => true,
        };
        let mut i: usize = 0;
        while i < n
            invariant
                i <= n,
                n == flags@.len(),
                long == (self == FlagStyle::Long),
                !long ==> out@.len() == i,
                long ==> (i % 2 == 0 || i == n) && out@.len() == (i + 1) / 2,
                forall|k: int| 0 <= k < out@.len() ==> out@[k] == self.token(flags@, k),
            decreases n - i,
        {
            let ghost before = out@;
            let ghost k = before.len() as int;
            if long && n - i >= 2 {
                assert(i % 2 == 0 && 2 * k == i);
                let flag = Flag::Long(flags[i], flags[i + 1]);
                out.push(flag);
                assert(self.token(flags@, k) == flag);
                i += 2;
            } else {
                assert(long ==> i % 2 == 0 && 2 * k == i && i + 1 == n);
                assert(!long ==> k == i);
                let flag = Flag::Short(flags[i]);
                out.push(flag);
                assert(self.token(flags@, k) == flag);
                i += 1;
            }
            assert(out@ == before.push(out@[k]));
            assert forall|m: int| 0 <= m < out@.len() implies out@[m] == self.token(flags@, m) by {
                if m < k {
                    assert(out@[m] == before[m]);
                }
            }
        }
        assert(out@ =~= self.tokens(flags@));
        out
    }
}

} // verus!

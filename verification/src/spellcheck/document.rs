//! The affix document: its lines, and the configuration that they write.
//!
//! The document is read line by line, and each line field by field; fields
//! are separated by spaces and tabs. A line without fields, or one whose
//! first field starts with `#`, says nothing. Every other line is one of:
//!
//! - `SET <encoding>`: accepted, and without effect on text that is already
//!   decoded.
//! - `FLAG long` or `FLAG UTF-8`: from here on a flag is two characters, or
//!   one. Without the directive a flag is one character.
//! - `NOSUGGEST <flag>`: names the flag of the entries that are accepted
//!   but never suggested.
//! - `PFX <flag> <Y|N> <count>` or `SFX <flag> <Y|N> <count>`: the header of
//!   a group of prefix or suffix rules. `Y` lets the rules of the group be
//!   joined with rules for the other end of the word. Exactly `count` rules
//!   follow the header.
//! - `PFX <flag> <strip> <add> [<condition>]`, and the same with `SFX`: a
//!   rule of the group announced last. `0` for `strip` or `add` stands for
//!   the empty text; a missing condition is `.`.
//!
//! Fields after those named are not read. Any other first field is an
//! unknown directive. Where fewer rules follow a header than it announced,
//! or one more rule of the same group follows the last, the count of the
//! header is wrong. The first line that cannot be read ends the reading.

use vstd::prelude::*;
use vstd::string::*;
use crate::spellcheck::affix::{Affix, AffixView};
use crate::spellcheck::error::AffixParseError;
use crate::spellcheck::flag::{Flag, FlagStyle};
use crate::spellcheck::rule::{
    condition_of,
    parse_condition,
    rule_views,
    AffixKind,
    AffixRule,
    AffixRuleView,
};
use crate::spellcheck::text::{
    chars_of,
    copy_of,
    decimal,
    decimal_of,
    fields,
    fields_of,
    lines,
    lines_of,
    same_text,
    views,
};

verus! {

/// The group of rules that a header announced.
#[derive(Clone, Copy, Debug, PartialEq, Eq, Structural)]
pub struct Group {
    /// The end of the word that the rules change.
    pub kind: AffixKind,
    /// The flag under which the rules are registered.
    pub flag: Flag,
    /// Whether the rules may be joined with rules for the other end.
    pub combinable: bool,
    /// How many rules of the group are still to come.
    pub remaining: u32,
}

/// What has been read of a document: the configuration so far, and the group
/// whose rules are being read.
pub struct Progress {
    pub affix: AffixView,
    pub group: Option<Group>,
}

impl Progress {
    /// Nothing read yet.
    pub open spec fn start() -> Progress {
        Progress {
            affix: AffixView { rules: Seq::empty(), nosuggest: None, style: FlagStyle::Single },
            group: None,
        }
    }

    /// Whether rules of a group are still to come.
    pub open spec fn expects_rule(self) -> bool {
        self.group is Some && self.group->0.remaining > 0
    }

    /// Whether a line with these fields starts as the rules of the group
    /// read last do: with its keyword and its flag.
    pub open spec fn continues_group(self, f: Seq<Seq<char>>) -> bool {
        &&& self.group is Some
        &&& f.len() >= 2
        &&& keyword_kind(f[0]) == Some(self.group->0.kind)
        &&& self.affix.style.written(f[1]) == Some(self.group->0.flag)
    }
}

/// The kind of rule that a keyword introduces.
pub open spec fn keyword_kind(word: Seq<char>) -> Option<AffixKind> {
    if word == "PFX"@ {
        Some(AffixKind::Prefix)
    } else if word == "SFX"@ {
        Some(AffixKind::Suffix)
    } else {
        None
    }
}

/// Whether a line with these fields says nothing: it is blank or a comment.
pub open spec fn says_nothing(f: Seq<Seq<char>>) -> bool {
    f.len() == 0 || (f[0].len() > 0 && f[0][0] == '#')
}

/// The group that a header line of the given kind announces, where flags
/// are written in the given style.
pub open spec fn header_of(style: FlagStyle, kind: AffixKind, f: Seq<Seq<char>>) -> Option<Group> {
    if f.len() >= 4 && style.written(f[1]) is Some && (f[2] == "Y"@ || f[2] == "N"@) && decimal(
        f[3],
    ) is Some && decimal(f[3])->0 <= u32::MAX {
        Some(
            Group {
                kind,
                flag: style.written(f[1])->0,
                combinable: f[2] == "Y"@,
                remaining: decimal(f[3])->0 as u32,
            },
        )
    } else {
        None
    }
}

/// The style that the field of a `FLAG` directive names.
pub open spec fn style_named(field: Seq<char>) -> Option<FlagStyle> {
    if field == "long"@ {
        Some(FlagStyle::Long)
    } else if field == "UTF-8"@ {
        Some(FlagStyle::Single)
    } else {
        None
    }
}

/// The text of a `strip` or `add` field, in which `0` stands for nothing.
pub open spec fn zero_is_empty(t: Seq<char>) -> Seq<char> {
    if t == "0"@ {
        Seq::empty()
    } else {
        t
    }
}

/// The rule that a line of the group `g` writes.
pub open spec fn rule_of(g: Group, f: Seq<Seq<char>>) -> Option<AffixRuleView> {
    if f.len() >= 4 {
        match condition_of(
            if f.len() >= 5 {
                f[4]
            } else {
                "."@
            },
        ) {
            Some(condition) => Some(
                AffixRuleView {
                    flag: g.flag,
                    kind: g.kind,
                    combinable: g.combinable,
                    strip: zero_is_empty(f[2]),
                    add: zero_is_empty(f[3]),
                    condition,
                },
            ),
            None => None,
        }
    } else {
        None
    }
}

/// What one more line makes of what has been read; `number` is the line's
/// number in the document.
pub open spec fn step(p: Progress, line: Seq<char>, number: usize) -> Result<
    Progress,
    AffixParseError,
> {
    let f = fields(line);
    if says_nothing(f) {
        Ok(p)
    } else if p.expects_rule() {
        let g = p.group->0;
        if p.continues_group(f) {
            match rule_of(g, f) {
                Some(rule) => Ok(
                    Progress {
                        affix: AffixView {
                            rules: p.affix.rules.push(rule),
                            nosuggest: p.affix.nosuggest,
                            style: p.affix.style,
                        },
                        group: Some(
                            Group {
                                kind: g.kind,
                                flag: g.flag,
                                combinable: g.combinable,
                                remaining: (g.remaining - 1) as u32,
                            },
                        ),
                    },
                ),
                None => Err(AffixParseError::MalformedRule { line: number }),
            }
        } else {
            Err(AffixParseError::RuleCountMismatch { line: number })
        }
    } else if f[0] == "SET"@ {
        Ok(p)
    } else if f[0] == "FLAG"@ {
        if f.len() >= 2 && style_named(f[1]) is Some {
            Ok(
                Progress {
                    affix: AffixView {
                        rules: p.affix.rules,
                        nosuggest: p.affix.nosuggest,
                        style: style_named(f[1])->0,
                    },
                    group: p.group,
                },
            )
        } else {
            Err(AffixParseError::MalformedDirective { line: number })
        }
    } else if f[0] == "NOSUGGEST"@ {
        if f.len() >= 2 && p.affix.style.written(f[1]) is Some {
            Ok(
                Progress {
                    affix: AffixView {
                        rules: p.affix.rules,
                        nosuggest: p.affix.style.written(f[1]),
                        style: p.affix.style,
                    },
                    group: p.group,
                },
            )
        } else {
            Err(AffixParseError::MalformedDirective { line: number })
        }
    } else if keyword_kind(f[0]) is Some {
        match header_of(p.affix.style, keyword_kind(f[0])->0, f) {
            Some(g) => Ok(Progress { affix: p.affix, group: Some(g) }),
            None => if p.continues_group(f) {
                Err(AffixParseError::RuleCountMismatch { line: number })
            } else {
                Err(AffixParseError::MalformedDirective { line: number })
            },
        }
    } else {
        Err(AffixParseError::UnknownDirective { line: number })
    }
}

/// What the end of a document of `count` lines makes of what has been read.
pub open spec fn finish(p: Progress, count: usize) -> Result<AffixView, AffixParseError> {
    if p.expects_rule() {
        Err(AffixParseError::RuleCountMismatch { line: count })
    } else {
        Ok(p.affix)
    }
}

/// What the lines from the `i`-th on make of what has been read.
pub open spec fn parse_from(lines: Seq<Seq<char>>, i: int, p: Progress) -> Result<
    AffixView,
    AffixParseError,
>
    decreases lines.len() - i,
{
    if i >= lines.len() {
        finish(p, lines.len() as usize)
    } else {
        match step(p, lines[i], (i + 1) as usize) {
            Ok(q) => parse_from(lines, i + 1, q),
            Err(e) => Err(e),
        }
    }
}

/// The configuration that an affix document writes, or the first error in
/// it.
pub open spec fn parse_affix(text: Seq<char>) -> Result<AffixView, AffixParseError> {
    parse_from(lines(text), 0, Progress::start())
}

/// The executable form of [`Progress`].
struct Reading {
    affix: Affix,
    group: Option<Group>,
}

impl View for Reading {
    type V = Progress;

    closed spec fn view(&self) -> Progress {
        Progress { affix: self.affix@, group: self.group }
    }
}

/// Reads the keyword of a group of rules.
fn read_keyword(word: &Vec<char>) -> (r: Option<AffixKind>)
    ensures
        r == keyword_kind(word@),
{
    if same_text(word, "PFX") {
        Some(AffixKind::Prefix)
    } else if same_text(word, "SFX") {
        Some(AffixKind::Suffix)
    } else {
        None
    }
}

/// Reads the header of a group of rules.
fn read_header(style: FlagStyle, kind: AffixKind, f: &Vec<Vec<char>>) -> (r: Option<Group>)
    ensures
        r == header_of(style, kind, views(f@)),
{
    if f.len() < 4 {
        return None;
    }
    let yes = same_text(&f[2], "Y");
    let no = same_text(&f[2], "N");
    if !yes && !no {
        return None;
    }
    match (style.read(&f[1]), decimal_of(&f[3])) {
        (Some(flag), Some(count)) => Some(Group { kind, flag, combinable: yes, remaining: count }),
        _ => None,
    }
}

/// Reads the style that the field of a `FLAG` directive names.
fn read_style(field: &Vec<char>) -> (r: Option<FlagStyle>)
    ensures
        r == style_named(field@),
{
    if same_text(field, "long") {
        Some(FlagStyle::Long)
    } else if same_text(field, "UTF-8") {
        Some(FlagStyle::Single)
    } else {
        None
    }
}

/// Reads a `strip` or `add` field.
fn read_affix_text(t: &Vec<char>) -> (r: Vec<char>)
    ensures
        r@ == zero_is_empty(t@),
{
    if same_text(t, "0") {
        Vec::new()
    } else {
        copy_of(t)
    }
}

/// Reads a rule of the group `g`.
fn read_rule(g: Group, f: &Vec<Vec<char>>) -> (r: Option<AffixRule>)
    ensures
        match r {
            Some(rule) => rule_of(g, views(f@)) == Some(rule@),
            None => rule_of(g, views(f@)) is None,
        },
{
    if f.len() < 4 {
        return None;
    }
    let condition = if f.len() >= 5 {
        parse_condition(&f[4])
    } else {
        let dot = chars_of(".");
        parse_condition(&dot)
    };
    match condition {
        Some(condition) => Some(
            AffixRule {
                flag: g.flag,
                kind: g.kind,
                combinable: g.combinable,
                strip: read_affix_text(&f[2]),
                add: read_affix_text(&f[3]),
                condition,
            },
        ),
        None => None,
    }
}

impl Reading {
    /// Takes one more line in.
    fn absorb(self, line: &Vec<char>, number: usize) -> (r: Result<Reading, AffixParseError>)
        ensures
            match step(self@, line@, number) {
                Ok(q) => r is Ok && r->Ok_0@ == q,
                Err(e) => r is Err && r->Err_0 == e,
            },
    {
        let f = fields_of(line);
        if f.len() == 0 || (f[0].len() > 0 && f[0][0] == '#') {
            return Ok(self);
        }
        let kind = read_keyword(&f[0]);
        let expects_rule = match self.group {
            Some(g) => g.remaining > 0,
            None => false,
        };
        let style = self.affix.flag_style;
        let continues = match self.group {
            Some(g) => kind == Some(g.kind) && f.len() >= 2 && style.read(&f[1]) == Some(g.flag),
            None => false,
        };
        if expects_rule {
            let g = self.group.unwrap();
            if continues {
                match read_rule(g, &f) {
                    Some(rule) => {
                        let Reading { affix, group: _ } = self;
                        let Affix { affix_rules: mut rules, nosuggest_flag, flag_style } = affix;
                        let ghost before = rules@;
                        rules.push(rule);
                        assert(rule_views(before.push(rule)) =~= rule_views(before).push(rule@));
                        Ok(
                            Reading {
                                affix: Affix { affix_rules: rules, nosuggest_flag, flag_style },
                                group: Some(
                                    Group {
                                        kind: g.kind,
                                        flag: g.flag,
                                        combinable: g.combinable,
                                        remaining: g.remaining - 1,
                                    },
                                ),
                            },
                        )
                    },
                    None => Err(AffixParseError::MalformedRule { line: number }),
                }
            } else {
                Err(AffixParseError::RuleCountMismatch { line: number })
            }
        } else if same_text(&f[0], "SET") {
            Ok(self)
        } else if same_text(&f[0], "FLAG") {
            let named = if f.len() >= 2 {
                read_style(&f[1])
            } else {
                None
            };
            match named {
                Some(flag_style) => {
                    let Reading { affix, group } = self;
                    let Affix { affix_rules, nosuggest_flag, flag_style: _ } = affix;
                    Ok(Reading { affix: Affix { affix_rules, nosuggest_flag, flag_style }, group })
                },
                None => Err(AffixParseError::MalformedDirective { line: number }),
            }
        } else if same_text(&f[0], "NOSUGGEST") {
            let flag = if f.len() >= 2 {
                style.read(&f[1])
            } else {
                None
            };
            match flag {
                Some(flag) => {
                    let Reading { affix, group } = self;
                    let Affix { affix_rules, nosuggest_flag: _, flag_style } = affix;
                    Ok(
                        Reading {
                            affix: Affix { affix_rules, nosuggest_flag: Some(flag), flag_style },
                            group,
                        },
                    )
                },
                None => Err(AffixParseError::MalformedDirective { line: number }),
            }
        } else {
            match kind {
                Some(kind) => match read_header(style, kind, &f) {
                    Some(g) => {
                        let Reading { affix, group: _ } = self;
                        Ok(Reading { affix, group: Some(g) })
                    },
                    None => if continues {
                        Err(AffixParseError::RuleCountMismatch { line: number })
                    } else {
                        Err(AffixParseError::MalformedDirective { line: number })
                    },
                },
                None => Err(AffixParseError::UnknownDirective { line: number }),
            }
        }
    }
}

/// Reads an affix document: the configuration that it writes, or the first
/// error in it.
pub fn read_affix(s: &str) -> (r: Result<Affix, AffixParseError>)
    ensures
        match parse_affix(s@) {
            Ok(affix) => r is Ok && r->Ok_0@ == affix,
            Err(e) => r is Err && r->Err_0 == e,
        },
{
    let text = chars_of(s);
    let all = lines_of(&text);
    let mut reading = Reading { affix: Affix::new(), group: None };
    assert(reading@.affix.rules =~= Progress::start().affix.rules);
    assert(reading@ == Progress::start());
    let mut i: usize = 0;
    while i < all.len()
        invariant
            i <= all.len(),
            views(all@) == lines(s@),
            parse_affix(s@) == parse_from(views(all@), i as int, reading@),
        decreases all.len() - i,
    {
        match reading.absorb(&all[i], i + 1) {
            Ok(next) => {
                reading = next;
            },
            Err(e) => {
                return Err(e);
            },
        }
        i += 1;
    }
    let expects_rule = match reading.group {
        Some(g) => g.remaining > 0,
        None => false,
    };
    if expects_rule {
        return Err(AffixParseError::RuleCountMismatch { line: all.len() });
    }
    Ok(reading.affix)
}

} // verus!

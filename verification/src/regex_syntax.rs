//! The syntax of patterns and the strings they denote.
//!
//! A pattern is read by the grammar
//!
//! ```text
//! alt    := concat ('|' concat)*
//! concat := repeat*            (empty before '|', ')' or the end)
//! repeat := atom ('*' | '+' | '?')?
//! atom   := '(' alt ')' | '[' class ']' | '.' | '\' escape | literal
//! ```
//!
//! into a syntax tree, and `lang` says which strings a tree matches.
use crate::regex_nfa::{MatcherV, RegexError};
use vstd::prelude::*;

verus! {

/// A parsed pattern.
pub enum Re {
    /// Matches only the empty string.
    Empty,
    /// Matches one character accepted by the matcher.
    Atom(MatcherV),
    /// The first pattern followed by the second.
    Cat(Box<Re>, Box<Re>),
    /// Either pattern.
    Alt(Box<Re>, Box<Re>),
    /// Zero or more repetitions.
    Star(Box<Re>),
    /// One or more repetitions.
    Plus(Box<Re>),
    /// Zero or one occurrence.
    Opt(Box<Re>),
}

/// `r` matches the whole of `s`.
pub open spec fn lang(r: Re, s: Seq<char>) -> bool
    decreases r, s.len(), 0nat,
{
    match r {
        Re::Empty => s.len() == 0,
        Re::Atom(m) => s.len() == 1 && m.accepts(s[0]),
        Re::Cat(a, b) => exists|k: int|
            0 <= k <= s.len() && lang(*a, s.take(k)) && lang(*b, s.skip(k)),
        Re::Alt(a, b) => lang(*a, s) || lang(*b, s),
        Re::Star(a) => star_lang(*a, s),
        Re::Plus(a) => exists|k: int|
            0 <= k <= s.len() && lang(*a, s.take(k)) && star_lang(*a, s.skip(k)),
        Re::Opt(a) => s.len() == 0 || lang(*a, s),
    }
}

/// `s` splits into zero or more non-empty pieces, each matched by `a`.
pub open spec fn star_lang(a: Re, s: Seq<char>) -> bool
    decreases a, s.len(), 1nat,
{
    s.len() == 0 || exists|k: int|
        1 <= k <= s.len() && lang(a, s.take(k)) && star_lang(a, s.skip(k))
}

/// Where a concatenation ends: at the end of the pattern, `|` or `)`.
pub open spec fn at_concat_end(cs: Seq<char>, pos: int) -> bool {
    pos >= cs.len() || cs[pos] == '|' || cs[pos] == ')'
}

/// The matcher an escaped character stands for.
pub open spec fn escape_of(c: char) -> MatcherV {
    if c == 'd' {
        MatcherV::Class { ranges: seq![('0', '9')], negated: false }
    } else if c == 'w' {
        MatcherV::Class { ranges: seq![('a', 'z'), ('A', 'Z'), ('0', '9'), ('_', '_')], negated: false }
    } else if c == 's' {
        MatcherV::Class { ranges: seq![(' ', ' '), ('\t', '\t'), ('\n', '\n'), ('\r', '\r')], negated: false }
    } else if c == 'n' {
        MatcherV::Char('\n')
    } else if c == 't' {
        MatcherV::Char('\t')
    } else if c == 'r' {
        MatcherV::Char('\r')
    } else {
        MatcherV::Char(c)
    }
}

/// The escape whose letter stands at `pos`.
pub open spec fn p_escape(cs: Seq<char>, pos: int) -> Result<MatcherV, RegexError> {
    if 0 <= pos < cs.len() {
        Ok(escape_of(cs[pos]))
    } else {
        Err(RegexError::UnexpectedEnd)
    }
}

/// The ranges an escape contributes inside a character class.
pub open spec fn class_ranges_of(m: MatcherV) -> Seq<(char, char)> {
    match m {
        MatcherV::Char(c) => seq![(c, c)],
        MatcherV::Class { ranges, .. } => ranges,
        MatcherV::Any => seq![('\u{0}', '\u{10FFFF}')],
    }
}

/// The items of a character class from `pos` up to its closing `]`, after
/// `ranges` were read.
pub open spec fn p_class_items(cs: Seq<char>, pos: int, negated: bool, ranges: Seq<(char, char)>) -> Result<
    (Re, int),
    RegexError,
>
    decreases cs.len() - pos,
{
    if !(0 <= pos < cs.len()) {
        Err(RegexError::UnexpectedEnd)
    } else if cs[pos] == ']' {
        Ok((Re::Atom(MatcherV::Class { ranges, negated }), pos + 1))
    } else if cs[pos] == '\\' {
        match p_escape(cs, pos + 1) {
            Err(e) => Err(e),
            Ok(m) => p_class_items(cs, pos + 2, negated, ranges + class_ranges_of(m)),
        }
    } else {
        let lo = cs[pos];
        let q = pos + 1;
        if q < cs.len() && cs[q] == '-' && !(q + 1 < cs.len() && cs[q + 1] == ']') {
            if q + 1 < cs.len() {
                p_class_items(cs, q + 2, negated, ranges.push((lo, cs[q + 1])))
            } else {
                Err(RegexError::UnexpectedEnd)
            }
        } else {
            p_class_items(cs, q, negated, ranges.push((lo, lo)))
        }
    }
}

/// A character class whose body starts at `pos` (just after its `[`).
pub open spec fn p_class(cs: Seq<char>, pos: int) -> Result<(Re, int), RegexError> {
    if 0 <= pos < cs.len() && cs[pos] == '^' {
        p_class_items(cs, pos + 1, true, Seq::empty())
    } else {
        p_class_items(cs, pos, false, Seq::empty())
    }
}

// In the rules below a position read back from a sub-rule is used only when it
// lies between the current position and the end, which is always the case;
// the test keeps each definition total.

/// `alt` at `pos`: the tree and the position after it, or the error.
pub open spec fn p_alt(cs: Seq<char>, pos: int) -> Result<(Re, int), RegexError>
    decreases cs.len() - pos, 5nat,
{
    match p_concat(cs, pos) {
        Err(e) => Err(e),
        Ok((r, p)) => if pos <= p <= cs.len() {
            p_alt_rest(cs, r, p)
        } else {
            Err(RegexError::UnexpectedEnd)
        },
    }
}

/// The `('|' concat)*` tail of an `alt` whose branches so far form `left`.
pub open spec fn p_alt_rest(cs: Seq<char>, left: Re, pos: int) -> Result<(Re, int), RegexError>
    decreases cs.len() - pos, 4nat,
{
    if 0 <= pos < cs.len() && cs[pos] == '|' {
        match p_concat(cs, pos + 1) {
            Err(e) => Err(e),
            Ok((r, p)) => if pos < p <= cs.len() {
                p_alt_rest(cs, Re::Alt(Box::new(left), Box::new(r)), p)
            } else {
                Err(RegexError::UnexpectedEnd)
            },
        }
    } else {
        Ok((left, pos))
    }
}

/// `concat` at `pos`.
pub open spec fn p_concat(cs: Seq<char>, pos: int) -> Result<(Re, int), RegexError>
    decreases cs.len() - pos, 3nat,
{
    if at_concat_end(cs, pos) {
        Ok((Re::Empty, pos))
    } else {
        match p_repeat(cs, pos) {
            Err(e) => Err(e),
            Ok((r, p)) => if pos < p <= cs.len() {
                p_concat_rest(cs, r, p)
            } else {
                Err(RegexError::UnexpectedEnd)
            },
        }
    }
}

/// The remaining pieces of a `concat` whose pieces so far form `left`.
pub open spec fn p_concat_rest(cs: Seq<char>, left: Re, pos: int) -> Result<(Re, int), RegexError>
    decreases cs.len() - pos, 2nat,
{
    if at_concat_end(cs, pos) {
        Ok((left, pos))
    } else {
        match p_repeat(cs, pos) {
            Err(e) => Err(e),
            Ok((r, p)) => if pos < p <= cs.len() {
                p_concat_rest(cs, Re::Cat(Box::new(left), Box::new(r)), p)
            } else {
                Err(RegexError::UnexpectedEnd)
            },
        }
    }
}

/// `repeat` at `pos`.
pub open spec fn p_repeat(cs: Seq<char>, pos: int) -> Result<(Re, int), RegexError>
    decreases cs.len() - pos, 1nat,
{
    match p_atom(cs, pos) {
        Err(e) => Err(e),
        Ok((a, p)) => if 0 <= p < cs.len() && cs[p] == '*' {
            Ok((Re::Star(Box::new(a)), p + 1))
        } else if 0 <= p < cs.len() && cs[p] == '+' {
            Ok((Re::Plus(Box::new(a)), p + 1))
        } else if 0 <= p < cs.len() && cs[p] == '?' {
            Ok((Re::Opt(Box::new(a)), p + 1))
        } else {
            Ok((a, p))
        },
    }
}

/// `atom` at `pos`.
pub open spec fn p_atom(cs: Seq<char>, pos: int) -> Result<(Re, int), RegexError>
    decreases cs.len() - pos, 0nat,
{
    if !(0 <= pos < cs.len()) {
        Err(RegexError::UnexpectedEnd)
    } else {
        let c = cs[pos];
        if c == '(' {
            match p_alt(cs, pos + 1) {
                Err(e) => Err(e),
                Ok((r, p)) => if 0 <= p < cs.len() && cs[p] == ')' {
                    Ok((r, p + 1))
                } else {
                    Err(RegexError::UnexpectedEnd)
                },
            }
        } else if c == ')' || c == '|' || c == '*' || c == '+' || c == '?' {
            Err(RegexError::NothingToRepeat(pos as usize))
        } else if c == '[' {
            p_class(cs, pos + 1)
        } else if c == '.' {
            Ok((Re::Atom(MatcherV::Any), pos + 1))
        } else if c == '\\' {
            match p_escape(cs, pos + 1) {
                Err(e) => Err(e),
                Ok(m) => Ok((Re::Atom(m), pos + 2)),
            }
        } else {
            Ok((Re::Atom(MatcherV::Char(c)), pos + 1))
        }
    }
}

/// The tree of a whole pattern, or the error compiling it reports. The empty
/// pattern matches the empty string; anything left after the top `alt` is an
/// unexpected character.
pub open spec fn parse_pattern(cs: Seq<char>) -> Result<Re, RegexError> {
    if cs.len() == 0 {
        Ok(Re::Empty)
    } else {
        match p_alt(cs, 0) {
            Err(e) => Err(e),
            Ok((r, p)) => if p == cs.len() {
                Ok(r)
            } else {
                Err(RegexError::Unexpected { ch: cs[p], pos: p as usize })
            },
        }
    }
}

} // verus!

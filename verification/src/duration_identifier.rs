//! The unit lexer: the eight time-granularity tags and their fixed,
//! case-sensitive spelling table.

use vstd::prelude::*;

verus! {

/// ASCII codes of the bytes that the spelling table uses.
pub const UPPER_M: u8 = 77;

pub const UPPER_S: u8 = 83;

pub const LOWER_M: u8 = 109;

pub const LOWER_S: u8 = 115;

pub const UPPER_H: u8 = 72;

pub const UPPER_D: u8 = 68;

pub const UPPER_W: u8 = 87;

pub const UPPER_Y: u8 = 89;


/// One of the eight time-granularity tags.
///
/// `M` (Months) and `m` (Minutes) are deliberately distinct spellings that
/// differ only by case; Milliseconds accepts both `MS` and `ms`.
#[derive(Debug, Clone, Copy, PartialEq, Eq, Structural)]
pub enum Unit {
    Milliseconds,
    Seconds,
    Minutes,
    Hours,
    Days,
    Months,
    Week,
    Year,
}

/// The canonical spelling of a unit, as ASCII bytes; it is the spelling
/// used for rendering, and one of the spellings accepted when parsing.
pub open spec fn spec_spelling(u: Unit) -> Seq<u8> {
    match u {
        Unit::Milliseconds => seq![UPPER_M, UPPER_S],
        Unit::Seconds => seq![UPPER_S],
        Unit::Minutes => seq![LOWER_M],
        Unit::Hours => seq![UPPER_H],
        Unit::Days => seq![UPPER_D],
        Unit::Months => seq![UPPER_M],
        Unit::Week => seq![UPPER_W],
        Unit::Year => seq![UPPER_Y],
    }
}

/// The unit token, if any, that the spelling table matches at position `pos`
/// of `s`, together with the position just past it.
///
/// The two-byte tokens `MS` and `ms` are tried before the one-byte tokens,
/// so that `MS` is never read as Months followed by a stray `S`.
pub open spec fn spec_parse_unit(s: Seq<u8>, pos: int) -> Option<(Unit, int)> {
    if pos + 2 <= s.len() && ((s[pos] == UPPER_M && s[pos + 1] == UPPER_S) || (s[pos] == LOWER_M
        && s[pos + 1] == LOWER_S)) {
        Some((Unit::Milliseconds, pos + 2))
    } else if pos < s.len() && s[pos] == UPPER_S {
        Some((Unit::Seconds, pos + 1))
    } else if pos < s.len() && s[pos] == LOWER_M {
        Some((Unit::Minutes, pos + 1))
    } else if pos < s.len() && s[pos] == UPPER_H {
        Some((Unit::Hours, pos + 1))
    } else if pos < s.len() && s[pos] == UPPER_D {
        Some((Unit::Days, pos + 1))
    } else if pos < s.len() && s[pos] == UPPER_M {
        Some((Unit::Months, pos + 1))
    } else if pos < s.len() && s[pos] == UPPER_W {
        Some((Unit::Week, pos + 1))
    } else if pos < s.len() && s[pos] == UPPER_Y {
        Some((Unit::Year, pos + 1))
    } else {
        None
    }
}

/// Every canonical spelling is one or two ASCII letters; none of its bytes
/// is a decimal digit or a space.
pub proof fn lemma_spelling_bytes(u: Unit)
    ensures
        1 <= spec_spelling(u).len() <= 2,
        forall|k: int| 0 <= k < spec_spelling(u).len() ==> 65 <= #[trigger] spec_spelling(u)[k]
            < 128,
{
    match u {
        Unit::Milliseconds => assert(spec_spelling(u) =~= seq![UPPER_M, UPPER_S]),
        Unit::Seconds => assert(spec_spelling(u) =~= seq![UPPER_S]),
        Unit::Minutes => assert(spec_spelling(u) =~= seq![LOWER_M]),
        Unit::Hours => assert(spec_spelling(u) =~= seq![UPPER_H]),
        Unit::Days => assert(spec_spelling(u) =~= seq![UPPER_D]),
        Unit::Months => assert(spec_spelling(u) =~= seq![UPPER_M]),
        Unit::Week => assert(spec_spelling(u) =~= seq![UPPER_W]),
        Unit::Year => assert(spec_spelling(u) =~= seq![UPPER_Y]),
    }
}

/// Attempt to read one unit token of the spelling table at position `pos`.
/// On success, the token's `Unit` and the position just past the token; on
/// failure nothing, and no input is consumed.
pub fn parse_unit(s: &[u8], pos: usize) -> (r: Option<(Unit, usize)>)
    requires
        pos <= s@.len(),
    ensures
        match r {
            Some(p) => spec_parse_unit(s@, pos as int) == Some((p.0, p.1 as int)),
            None => spec_parse_unit(s@, pos as int) is None,
        },
{
    let len = s.len();
    if len - pos >= 2 && ((s[pos] == UPPER_M && s[pos + 1] == UPPER_S) || (s[pos] == LOWER_M && s[pos + 1]
        == LOWER_S)) {
        Some((Unit::Milliseconds, pos + 2))
    } else if pos < len && s[pos] == UPPER_S {
        Some((Unit::Seconds, pos + 1))
    } else if pos < len && s[pos] == LOWER_M {
        Some((Unit::Minutes, pos + 1))
    } else if pos < len && s[pos] == UPPER_H {
        Some((Unit::Hours, pos + 1))
    } else if pos < len && s[pos] == UPPER_D {
        Some((Unit::Days, pos + 1))
    } else if pos < len && s[pos] == UPPER_M {
        Some((Unit::Months, pos + 1))
    } else if pos < len && s[pos] == UPPER_W {
        Some((Unit::Week, pos + 1))
    } else if pos < len && s[pos] == UPPER_Y {
        Some((Unit::Year, pos + 1))
    } else {
        None
    }
}

} // verus!

//! The term and sequence parsers: an integer literal followed by a unit
//! token makes a term; one or more terms, separated by at most one space,
//! make a sequence.

use vstd::prelude::*;
use crate::duration_identifier::{Unit, spec_parse_unit, parse_unit};

verus! {

/// ASCII code of `0`.
pub const DIGIT_ZERO: u8 = 48;

/// ASCII code of `9`.
pub const DIGIT_NINE: u8 = 57;

/// ASCII code of the space character, the only separator the grammar knows.
pub const SPACE: u8 = 32;

/// A failure of a parse, with the input position at which it occurred.
#[derive(Debug, Clone, Copy, PartialEq, Eq, Structural)]
pub enum ParseError {
    /// No unit token of the spelling table matches at this position.
    LexFailure(usize),
    /// No decimal digit stands at this position where a number is expected,
    /// or the digit run starting here exceeds the representable range.
    NumberFailure(usize),
    /// Zero terms could be parsed at this position, or, for a parse that
    /// must consume its whole input, unconsumed input begins here.
    SequenceFailure(usize),
    /// The aggregated duration exceeds the representable range.
    Overflow,
}

/// A parsed `(value, unit)` term, e.g. `17MS`.
///
/// The grammar has no sign token, so a parse only ever produces a
/// non-negative `value`; the type nevertheless admits negative values.
#[derive(Debug, Clone, Copy, PartialEq, Eq, Structural)]
pub struct SetOfTime {
    pub value: i64,
    pub unit: Unit,
}

pub open spec fn is_digit(b: u8) -> bool {
    DIGIT_ZERO <= b <= DIGIT_NINE
}

pub open spec fn digit_val(b: u8) -> int {
    b - DIGIT_ZERO
}

/// The end of the maximal run of decimal digits that starts at `pos`.
pub open spec fn digit_run_end(s: Seq<u8>, pos: int) -> int
    decreases s.len() - pos,
{
    if pos < s.len() && is_digit(s[pos]) {
        digit_run_end(s, pos + 1)
    } else {
        pos
    }
}

/// The base-10 value of the digits of `s` in the range `[from, to)`.
pub open spec fn digits_value(s: Seq<u8>, from: int, to: int) -> int
    decreases to - from,
{
    if from < to {
        digits_value(s, from, to - 1) * 10 + digit_val(s[to - 1])
    } else {
        0
    }
}

/// What parsing a number at position `pos` yields: the value and the end of
/// the digit run on success; a `NumberFailure` at `pos` if no digit stands
/// there or the run's value does not fit a 64-bit signed integer.
pub open spec fn spec_parse_number(s: Seq<u8>, pos: int) -> Result<(int, int), ParseError> {
    let end = digit_run_end(s, pos);
    if end == pos {
        Err(ParseError::NumberFailure(pos as usize))
    } else if digits_value(s, pos, end) > i64::MAX {
        Err(ParseError::NumberFailure(pos as usize))
    } else {
        Ok((digits_value(s, pos, end), end))
    }
}

pub proof fn lemma_digit_run_end_props(s: Seq<u8>, pos: int)
    requires
        0 <= pos <= s.len(),
    ensures
        pos <= digit_run_end(s, pos) <= s.len(),
        forall|j: int| pos <= j < digit_run_end(s, pos) ==> is_digit(s[j]),
        digit_run_end(s, pos) < s.len() ==> !is_digit(s[digit_run_end(s, pos)]),
    decreases s.len() - pos,
{
    if pos < s.len() && is_digit(s[pos]) {
        lemma_digit_run_end_props(s, pos + 1);
    }
}

pub proof fn lemma_digits_value_nonneg(s: Seq<u8>, from: int, to: int)
    requires
        forall|j: int| from <= j < to ==> is_digit(s[j]),
    ensures
        digits_value(s, from, to) >= 0,
    decreases to - from,
{
    if from < to {
        lemma_digits_value_nonneg(s, from, to - 1);
    }
}

/// Appending further digits to a run never shrinks its value.
pub proof fn lemma_digits_value_extend(s: Seq<u8>, from: int, mid: int, to: int)
    requires
        from <= mid <= to,
        forall|j: int| from <= j < to ==> is_digit(s[j]),
    ensures
        digits_value(s, from, to) >= digits_value(s, from, mid),
    decreases to - mid,
{
    if mid < to {
        lemma_digits_value_extend(s, from, mid, to - 1);
        lemma_digits_value_nonneg(s, from, to - 1);
    }
}

/// Consume the maximal run of decimal digits starting at `pos` (at least
/// one digit) as a base-10 integer.  A run whose value exceeds `i64::MAX`
/// is a reported `NumberFailure`, never a wrap-around.
pub fn parse_number(s: &[u8], pos: usize) -> (r: Result<(i64, usize), ParseError>)
    requires
        pos <= s@.len(),
    ensures
        match r {
            Ok(p) => spec_parse_number(s@, pos as int) == Ok::<(int, int), ParseError>(
                (p.0 as int, p.1 as int),
            ) && p.0 >= 0,
            Err(e) => spec_parse_number(s@, pos as int) == Err::<(int, int), ParseError>(e),
        },
{
    let ghost end = digit_run_end(s@, pos as int);
    proof {
        lemma_digit_run_end_props(s@, pos as int);
    }
    let len = s.len();
    if pos == len || s[pos] < DIGIT_ZERO || s[pos] > DIGIT_NINE {
        return Err(ParseError::NumberFailure(pos));
    }
    let mut i = pos;
    let mut acc: i64 = 0;
    let mut overflow = false;
    while i < len && DIGIT_ZERO <= s[i] && s[i] <= DIGIT_NINE
        invariant
            pos <= i <= end <= len == s@.len(),
            end == digit_run_end(s@, i as int),
            forall|j: int| pos <= j < end ==> is_digit(s@[j]),
            end < s@.len() ==> !is_digit(s@[end]),
            !overflow ==> 0 <= acc && acc == digits_value(s@, pos as int, i as int),
            overflow ==> digits_value(s@, pos as int, i as int) > i64::MAX,
        decreases len - i,
    {
        let d: i64 = (s[i] - DIGIT_ZERO) as i64;
        proof {
            if overflow {
                lemma_digits_value_nonneg(s@, pos as int, i as int);
                assert(digits_value(s@, pos as int, i as int + 1) == digits_value(
                    s@,
                    pos as int,
                    i as int,
                ) * 10 + digit_val(s@[i as int]));
                assert(digits_value(s@, pos as int, i as int) * 10 >= digits_value(
                    s@,
                    pos as int,
                    i as int,
                )) by (nonlinear_arith)
                    requires
                        digits_value(s@, pos as int, i as int) >= 0,
                ;
            }
        }
        if !overflow {
            if acc <= (i64::MAX - d) / 10 {
                proof {
                    vstd::arithmetic::div_mod::lemma_fundamental_div_mod(i64::MAX - d, 10);
                    vstd::arithmetic::div_mod::lemma_mod_division_less_than_divisor(
                        i64::MAX - d,
                        10,
                    );
                    assert(acc * 10 <= ((i64::MAX - d) / 10) * 10) by (nonlinear_arith)
                        requires
                            0 <= acc <= (i64::MAX - d) / 10,
                    ;
                }
                acc = acc * 10 + d;
            } else {
                proof {
                    vstd::arithmetic::div_mod::lemma_fundamental_div_mod(i64::MAX - d, 10);
                    vstd::arithmetic::div_mod::lemma_mod_division_less_than_divisor(
                        i64::MAX - d,
                        10,
                    );
                    assert(acc * 10 >= ((i64::MAX - d) / 10) * 10 + 10) by (nonlinear_arith)
                        requires
                            acc >= (i64::MAX - d) / 10 + 1,
                    ;
                }
                overflow = true;
            }
        }
        i = i + 1;
    }
    assert(i == end);
    if overflow {
        proof {
            lemma_digits_value_extend(s@, pos as int, i as int, end);
        }
        Err(ParseError::NumberFailure(pos))
    } else {
        Ok((acc, i))
    }
}

/// What parsing one term at position `pos` yields: a number immediately
/// followed by a unit token, with no intervening whitespace.  A missing
/// unit token is a `LexFailure` at the end of the digit run.
pub open spec fn spec_parse_term(s: Seq<u8>, pos: int) -> Result<(SetOfTime, int), ParseError> {
    match spec_parse_number(s, pos) {
        Err(e) => Err(e),
        Ok((v, num_end)) => match spec_parse_unit(s, num_end) {
            None => Err(ParseError::LexFailure(num_end as usize)),
            Some((u, end)) => Ok((SetOfTime { value: v as i64, unit: u }, end)),
        },
    }
}

/// A successful term parse consumes at least one byte and stays within the
/// input.
pub proof fn lemma_parse_term_advances(s: Seq<u8>, pos: int)
    requires
        0 <= pos <= s.len(),
        spec_parse_term(s, pos) is Ok,
    ensures
        pos < spec_parse_term(s, pos)->Ok_0.1 <= s.len(),
{
    lemma_digit_run_end_props(s, pos);
}

/// Consume one `(value, unit)` term at position `pos`: a run of digits
/// immediately followed by a unit token.  On failure no partial term is
/// produced, and the error carries the position of the first unmatched
/// character.
pub fn parse_set_of_time(s: &[u8], pos: usize) -> (r: Result<(SetOfTime, usize), ParseError>)
    requires
        pos <= s@.len(),
    ensures
        match r {
            Ok(p) => spec_parse_term(s@, pos as int) == Ok::<(SetOfTime, int), ParseError>(
                (p.0, p.1 as int),
            ) && p.0.value >= 0,
            Err(e) => spec_parse_term(s@, pos as int) == Err::<(SetOfTime, int), ParseError>(e),
        },
{
    proof {
        lemma_digit_run_end_props(s@, pos as int);
    }
    match parse_number(s, pos) {
        Err(e) => Err(e),
        Ok((value, num_end)) => match parse_unit(s, num_end) {
            None => Err(ParseError::LexFailure(num_end)),
            Some((unit, end)) => Ok((SetOfTime { value, unit }, end)),
        },
    }
}

/// The terms that repeated term parsing yields from position `pos` on, and
/// the position at which it stops: after each term at most one space is
/// consumed, and the repetition ends at the first position where no term
/// can be parsed.
pub open spec fn spec_parse_terms(s: Seq<u8>, pos: int) -> (Seq<SetOfTime>, int)
    decreases s.len() - pos,
{
    match spec_parse_term(s, pos) {
        Err(_) => (Seq::<SetOfTime>::empty(), pos),
        Ok((t, end)) => {
            let next = if end < s.len() && s[end] == SPACE {
                end + 1
            } else {
                end
            };
            if pos < next <= s.len() {
                let rest = spec_parse_terms(s, next);
                (seq![t] + rest.0, rest.1)
            } else {
                (seq![t], next)
            }
        },
    }
}

/// What parsing a whole sequence at position `pos` yields: the terms of the
/// repetition, or a `SequenceFailure` at `pos` if not even one term could
/// be parsed there.
pub open spec fn spec_parse_sequence(s: Seq<u8>, pos: int) -> Result<
    (Seq<SetOfTime>, int),
    ParseError,
> {
    let r = spec_parse_terms(s, pos);
    if r.0.len() == 0 {
        Err(ParseError::SequenceFailure(pos as usize))
    } else {
        Ok(r)
    }
}

/// Every value that repeated term parsing yields is non-negative.
pub proof fn lemma_parse_terms_nonneg(s: Seq<u8>, pos: int)
    requires
        0 <= pos <= s.len(),
    ensures
        forall|i: int|
            0 <= i < spec_parse_terms(s, pos).0.len() ==> (#[trigger] spec_parse_terms(
                s,
                pos,
            ).0[i]).value >= 0,
    decreases s.len() - pos,
{
    match spec_parse_term(s, pos) {
        Err(_) => {},
        Ok((t, end)) => {
            lemma_parse_term_advances(s, pos);
            lemma_digit_run_end_props(s, pos);
            lemma_digits_value_nonneg(s, pos, digit_run_end(s, pos));
            let next = if end < s.len() && s[end] == SPACE {
                end + 1
            } else {
                end
            };
            lemma_parse_terms_nonneg(s, next);
        },
    }
}

/// Apply the term parser repeatedly from position `pos`, consuming at most
/// one separating space after each term; at least one term must parse.
/// The parse stops, without failing, at the first position where no term
/// can be parsed; the caller decides whether leftover input is an error.
pub fn parse_repeated_set_of_time(s: &[u8], pos: usize) -> (r: Result<
    (Vec<SetOfTime>, usize),
    ParseError,
>)
    requires
        pos <= s@.len(),
    ensures
        match r {
            Ok(p) => spec_parse_sequence(s@, pos as int) == Ok::<(Seq<SetOfTime>, int), ParseError>(
                (p.0@, p.1 as int),
            ) && pos < p.1 <= s@.len(),
            Err(e) => spec_parse_sequence(s@, pos as int) == Err::<
                (Seq<SetOfTime>, int),
                ParseError,
            >(e),
        },
{
    let len = s.len();
    let mut terms: Vec<SetOfTime> = Vec::new();
    let mut cur = pos;
    loop
        invariant
            pos <= cur <= len == s@.len(),
            spec_parse_terms(s@, pos as int).0 == terms@ + spec_parse_terms(s@, cur as int).0,
            spec_parse_terms(s@, pos as int).1 == spec_parse_terms(s@, cur as int).1,
            terms@.len() > 0 ==> pos < cur,
        ensures
            pos <= cur <= s@.len(),
            spec_parse_term(s@, cur as int) is Err,
            spec_parse_terms(s@, pos as int).0 == terms@ + spec_parse_terms(s@, cur as int).0,
            spec_parse_terms(s@, pos as int).1 == spec_parse_terms(s@, cur as int).1,
            terms@.len() > 0 ==> pos < cur,
        decreases s@.len() - cur,
    {
        match parse_set_of_time(s, cur) {
            Err(_) => {
                break ;
            },
            Ok((t, end)) => {
                proof {
                    lemma_parse_term_advances(s@, cur as int);
                }
                terms.push(t);
                let next = if end < len && s[end] == SPACE {
                    end + 1
                } else {
                    end
                };
                proof {
                    assert(spec_parse_terms(s@, cur as int).0 == seq![t] + spec_parse_terms(
                        s@,
                        next as int,
                    ).0);
                    assert(terms@ + spec_parse_terms(s@, next as int).0 == (terms@.drop_last()
                        + seq![t]) + spec_parse_terms(s@, next as int).0);
                    assert(spec_parse_terms(s@, pos as int).0 == terms@ + spec_parse_terms(
                        s@,
                        next as int,
                    ).0);
                }
                cur = next;
            },
        }
    }
    assert(spec_parse_terms(s@, cur as int).0 == Seq::<SetOfTime>::empty());
    assert(spec_parse_terms(s@, pos as int).0 == terms@);
    assert(spec_parse_terms(s@, pos as int).1 == cur as int);
    if terms.len() == 0 {
        Err(ParseError::SequenceFailure(pos))
    } else {
        Ok((terms, cur))
    }
}

} // verus!

//! The round-trip laws of the codec: text rendered from a term list with
//! non-negative values parses back to exactly that list, so a duration
//! survives decomposition, rendering and re-parsing unchanged.

use vstd::prelude::*;
use vstd::arithmetic::div_mod::{lemma_fundamental_div_mod, lemma_mod_division_less_than_divisor};
use crate::duration_identifier::{Unit, spec_spelling, spec_parse_unit, lemma_spelling_bytes,
    UPPER_M, UPPER_S, LOWER_M, LOWER_S};
use crate::parser::{SetOfTime, ParseError, is_digit, digit_val, digit_run_end, digits_value,
    spec_parse_number, spec_parse_term, spec_parse_terms, SPACE, DIGIT_ZERO};
use crate::render::{spec_digits, spec_render_term, spec_render, lemma_spec_digits_are_digits};
use crate::time::{Duration, spec_decompose, spec_total_millis, spec_deserialize,
    lemma_aggregate_decompose, lemma_decompose_terms};

verus! {

/// A maximal digit run ends exactly where the digits end.
proof fn lemma_digit_run_end_of_range(s: Seq<u8>, pos: int, e: int)
    requires
        0 <= pos <= e <= s.len(),
        forall|j: int| pos <= j < e ==> is_digit(#[trigger] s[j]),
        e == s.len() || !is_digit(s[e]),
    ensures
        digit_run_end(s, pos) == e,
    decreases e - pos,
{
    if pos < e {
        lemma_digit_run_end_of_range(s, pos + 1, e);
    }
}

/// Reading back the decimal rendering of `v` gives `v`.
proof fn lemma_digits_value_of_rendered(s: Seq<u8>, pos: int, v: int)
    requires
        v >= 0,
        0 <= pos,
        pos + spec_digits(v).len() <= s.len(),
        s.subrange(pos, pos + spec_digits(v).len()) == spec_digits(v),
    ensures
        digits_value(s, pos, pos + spec_digits(v).len()) == v,
    decreases v,
{
    let d = spec_digits(v);
    let k = d.len() as int;
    if v <= 9 {
        assert(s[pos] == d[0]);
        assert(digits_value(s, pos, pos) == 0);
        assert(digits_value(s, pos, pos + 1) == digit_val(s[pos]));
    } else {
        let dq = spec_digits(v / 10);
        let kq = dq.len() as int;
        assert(d == dq + seq![(DIGIT_ZERO + v % 10) as u8]);
        assert(k == kq + 1);
        assert(s.subrange(pos, pos + kq) =~= dq);
        lemma_digits_value_of_rendered(s, pos, v / 10);
        assert(s[pos + k - 1] == d[k - 1]);
        assert(d[k - 1] == (DIGIT_ZERO + v % 10) as u8);
        lemma_fundamental_div_mod(v, 10);
        lemma_mod_division_less_than_divisor(v, 10);
        assert(digits_value(s, pos, pos + k) == digits_value(s, pos, pos + k - 1) * 10 + digit_val(
            s[pos + k - 1],
        ));
    }
}

/// A rendered spelling, followed by a digit or the end of the input,
/// lexes back to its unit: no following byte can extend or bend the match.
proof fn lemma_parse_unit_of_rendered(s: Seq<u8>, pos: int, u: Unit)
    requires
        0 <= pos,
        pos + spec_spelling(u).len() <= s.len(),
        s.subrange(pos, pos + spec_spelling(u).len()) == spec_spelling(u),
        pos + spec_spelling(u).len() == s.len() || is_digit(s[pos + spec_spelling(u).len()]),
    ensures
        spec_parse_unit(s, pos) == Some((u, pos + spec_spelling(u).len())),
{
    let sp = spec_spelling(u);
    let k = sp.len() as int;
    lemma_spelling_bytes(u);
    assert forall|j: int| 0 <= j < k implies s[pos + j] == sp[j] by {
        assert(sp[j] == s.subrange(pos, pos + k)[j]);
    }
    assert(s[pos + 0] == sp[0]);
    assert(s[pos] == sp[0]);
    match u {
        Unit::Milliseconds => {
            assert(s[pos] == UPPER_M && s[pos + 1] == UPPER_S);
        },
        Unit::Seconds => {
            assert(s[pos] == UPPER_S);
        },
        Unit::Minutes => {
            // the next byte is a digit or nothing, never a lowercase s,
            // so the two-byte token `ms` cannot match here
            assert(s[pos] == LOWER_M);
            if pos + 2 <= s.len() {
                assert(s[pos + 1] != LOWER_S);
            }
        },
        Unit::Hours => {},
        Unit::Days => {},
        Unit::Months => {
            // the next byte is a digit or nothing, never an uppercase S,
            // so the two-byte token `MS` cannot match here
            assert(s[pos] == UPPER_M);
            if pos + 2 <= s.len() {
                assert(s[pos + 1] != UPPER_S);
            }
        },
        Unit::Week => {},
        Unit::Year => {},
    }
}

/// A rendered term, followed by a digit or the end of the input, parses
/// back to itself.
proof fn lemma_parse_term_of_rendered(s: Seq<u8>, pos: int, t: SetOfTime)
    requires
        t.value >= 0,
        0 <= pos,
        pos + spec_render_term(t).len() <= s.len(),
        s.subrange(pos, pos + spec_render_term(t).len()) == spec_render_term(t),
        pos + spec_render_term(t).len() == s.len() || is_digit(s[pos + spec_render_term(t).len()]),
    ensures
        spec_parse_term(s, pos) == Ok::<(SetOfTime, int), ParseError>(
            (t, pos + spec_render_term(t).len()),
        ),
{
    let d = spec_digits(t.value as int);
    let sp = spec_spelling(t.unit);
    let kd = d.len() as int;
    let ks = sp.len() as int;
    let k = kd + ks;
    lemma_spec_digits_are_digits(t.value as int);
    lemma_spelling_bytes(t.unit);
    assert(spec_render_term(t).len() == k);
    assert forall|j: int| 0 <= j < k implies s[pos + j] == #[trigger] spec_render_term(t)[j] by {
        assert(spec_render_term(t)[j] == s.subrange(pos, pos + k)[j]);
    }
    assert forall|j: int| 0 <= j < kd implies s.subrange(pos, pos + kd)[j] == d[j] by {
        assert(s.subrange(pos, pos + kd)[j] == s[pos + j]);
        assert(spec_render_term(t)[j] == d[j]);
    }
    assert(s.subrange(pos, pos + kd) =~= d);
    assert forall|j: int| 0 <= j < ks implies s.subrange(pos + kd, pos + k)[j] == sp[j] by {
        assert(s.subrange(pos + kd, pos + k)[j] == s[pos + kd + j]);
        assert(spec_render_term(t)[kd + j] == sp[j]);
    }
    assert(s.subrange(pos + kd, pos + k) =~= sp);
    // the digit run ends exactly at the spelling, whose first byte is a letter
    assert forall|j: int| pos <= j < pos + kd implies is_digit(#[trigger] s[j]) by {
        assert(s[j] == d[j - pos]);
    }
    assert(s[pos + kd] == sp[0]);
    assert(!is_digit(s[pos + kd]));
    lemma_digit_run_end_of_range(s, pos, pos + kd);
    lemma_digits_value_of_rendered(s, pos, t.value as int);
    assert(spec_parse_number(s, pos) == Ok::<(int, int), ParseError>((t.value as int, pos + kd)));
    lemma_parse_unit_of_rendered(s, pos + kd, t.unit);
}

/// A rendered term list parses back, term by term, to exactly that list,
/// consuming the whole rendering: the renderer emits no separators, and a
/// term's rendering is always followed by a digit or the end.
proof fn lemma_parse_of_rendered(s: Seq<u8>, pos: int, ts: Seq<SetOfTime>)
    requires
        0 <= pos <= s.len(),
        s.subrange(pos, s.len() as int) == spec_render(ts),
        forall|i: int| 0 <= i < ts.len() ==> (#[trigger] ts[i]).value >= 0,
    ensures
        spec_parse_terms(s, pos) == (ts, s.len() as int),
    decreases ts.len(),
{
    if ts.len() == 0 {
        assert(s.len() - pos == 0);
        assert(digit_run_end(s, pos) == pos);
        assert(spec_parse_term(s, pos) is Err);
        assert(spec_parse_terms(s, pos) == (Seq::<SetOfTime>::empty(), pos));
        assert(ts =~= Seq::<SetOfTime>::empty());
    } else {
        let t0 = ts[0];
        let rt = spec_render_term(t0);
        let rest = spec_render(ts.drop_first());
        let k = rt.len() as int;
        let end = pos + k;
        assert(spec_render(ts) == rt + rest);
        assert(s.len() - pos == rt.len() + rest.len());
        lemma_spec_digits_are_digits(t0.value as int);
        lemma_spelling_bytes(t0.unit);
        assert forall|j: int| 0 <= j < s.len() - pos implies s[pos + j] == #[trigger] spec_render(
            ts,
        )[j] by {
            assert(spec_render(ts)[j] == s.subrange(pos, s.len() as int)[j]);
        }
        assert forall|j: int| 0 <= j < k implies s.subrange(pos, end)[j] == rt[j] by {
            assert(s.subrange(pos, end)[j] == s[pos + j]);
            assert(spec_render(ts)[j] == rt[j]);
        }
        assert(s.subrange(pos, end) =~= rt);
        assert forall|j: int| 0 <= j < rest.len() implies s.subrange(end, s.len() as int)[j]
            == rest[j] by {
            assert(s.subrange(end, s.len() as int)[j] == s[end + j]);
            assert(spec_render(ts)[k + j] == rest[j]);
        }
        assert(s.subrange(end, s.len() as int) =~= rest);
        if ts.len() == 1 {
            assert(ts.drop_first() =~= Seq::<SetOfTime>::empty());
            assert(rest.len() == 0);
            assert(end == s.len());
            lemma_parse_term_of_rendered(s, pos, t0);
            assert(spec_parse_terms(s, end) == (Seq::<SetOfTime>::empty(), end));
            assert(spec_parse_terms(s, pos) == (seq![t0] + Seq::<SetOfTime>::empty(), end));
            assert(seq![t0] + Seq::<SetOfTime>::empty() =~= ts);
        } else {
            let t1 = ts.drop_first()[0];
            assert(rest == spec_render_term(t1) + spec_render(ts.drop_first().drop_first()));
            lemma_spec_digits_are_digits(t1.value as int);
            assert(rest[0] == spec_digits(t1.value as int)[0]);
            assert(is_digit(rest[0]));
            assert(s[end] == rest[0]);
            lemma_parse_term_of_rendered(s, pos, t0);
            // a digit is not a space, so no separator is consumed
            assert(s[end] != SPACE);
            lemma_parse_of_rendered(s, end, ts.drop_first());
            assert(spec_parse_terms(s, pos) == (seq![t0] + ts.drop_first(), s.len() as int));
            assert(seq![t0] + ts.drop_first() =~= ts);
        }
    }
}

/// Rendering a term list with non-negative values and parsing the text
/// back yields exactly that list, with nothing left over.
pub proof fn lemma_render_reparse(ts: Seq<SetOfTime>)
    requires
        forall|i: int| 0 <= i < ts.len() ==> (#[trigger] ts[i]).value >= 0,
    ensures
        spec_parse_terms(spec_render(ts), 0) == (ts, spec_render(ts).len() as int),
{
    let s = spec_render(ts);
    assert(s.subrange(0, s.len() as int) =~= s);
    lemma_parse_of_rendered(s, 0, ts);
}

/// Rendering the decomposition of a positive duration and deserialising
/// that text gives the duration back.  The zero duration is the one
/// exception: it renders as the empty string, which the grammar, asking
/// for at least one term, rejects.
pub proof fn lemma_serialize_deserialize(m: int)
    requires
        1 <= m <= i64::MAX,
    ensures
        spec_deserialize(spec_render(spec_decompose(m))) == Ok::<Duration, ParseError>(
            Duration { millis: m as i64 },
        ),
{
    let ts = spec_decompose(m);
    lemma_decompose_terms(m);
    lemma_aggregate_decompose(m);
    if ts.len() == 0 {
        assert(spec_total_millis(ts) == 0);
    }
    assert(ts.len() > 0);
    lemma_render_reparse(ts);
}

} // verus!

//! The textual codec's rendering half: a canonical term list becomes the
//! concatenation of each term's `<value><canonical spelling>`, with no
//! separators.

use vstd::prelude::*;
use crate::duration_identifier::{Unit, spec_spelling, UPPER_M, UPPER_S, LOWER_M, UPPER_H, UPPER_D,
    UPPER_W, UPPER_Y};
use crate::parser::{SetOfTime, is_digit, DIGIT_ZERO};
use vstd::utf8::encode_utf8;

verus! {

/// The decimal rendering of a non-negative value, most significant digit
/// first, as ASCII bytes.
pub open spec fn spec_digits(v: int) -> Seq<u8>
    decreases v,
{
    if v <= 9 {
        seq![(DIGIT_ZERO + v) as u8]
    } else {
        spec_digits(v / 10) + seq![(DIGIT_ZERO + v % 10) as u8]
    }
}

/// The rendering of one term: its value, then its unit's canonical
/// spelling, with nothing in between.
pub open spec fn spec_render_term(t: SetOfTime) -> Seq<u8> {
    spec_digits(t.value as int) + spec_spelling(t.unit)
}

/// The rendering of a term list: each term's rendering, in the list's
/// order, with no separators.
pub open spec fn spec_render(ts: Seq<SetOfTime>) -> Seq<u8>
    decreases ts.len(),
{
    if ts.len() == 0 {
        Seq::<u8>::empty()
    } else {
        spec_render_term(ts[0]) + spec_render(ts.drop_first())
    }
}

pub proof fn lemma_spec_digits_are_digits(v: int)
    requires
        v >= 0,
    ensures
        spec_digits(v).len() >= 1,
        forall|j: int| 0 <= j < spec_digits(v).len() ==> is_digit(#[trigger] spec_digits(v)[j]),
    decreases v,
{
    if v > 9 {
        lemma_spec_digits_are_digits(v / 10);
    }
}

/// Rendering distributes over concatenation of term lists.
pub proof fn lemma_render_concat(a: Seq<SetOfTime>, b: Seq<SetOfTime>)
    ensures
        spec_render(a + b) == spec_render(a) + spec_render(b),
    decreases a.len(),
{
    if a.len() == 0 {
        assert(a + b =~= b);
        assert(spec_render(a) + spec_render(b) =~= spec_render(b));
    } else {
        assert((a + b).drop_first() =~= a.drop_first() + b);
        lemma_render_concat(a.drop_first(), b);
        assert(spec_render(a + b) =~= spec_render(a) + spec_render(b));
    }
}

/// Append the decimal rendering of `v` to `out`.
fn push_digits(out: &mut Vec<u8>, v: u64)
    requires
        v <= i64::MAX,
    ensures
        final(out)@ == old(out)@ + spec_digits(v as int),
    decreases v,
{
    if v <= 9 {
        out.push(DIGIT_ZERO + v as u8);
        assert(out@ =~= old(out)@ + spec_digits(v as int));
    } else {
        push_digits(out, v / 10);
        out.push(DIGIT_ZERO + (v % 10) as u8);
        assert(out@ =~= old(out)@ + spec_digits(v as int));
    }
}

/// Append the canonical spelling of `u` to `out`.
fn push_spelling(out: &mut Vec<u8>, u: Unit)
    ensures
        final(out)@ == old(out)@ + spec_spelling(u),
{
    match u {
        Unit::Milliseconds => {
            out.push(UPPER_M);
            out.push(UPPER_S);
        },
        Unit::Seconds => out.push(UPPER_S),
        Unit::Minutes => out.push(LOWER_M),
        Unit::Hours => out.push(UPPER_H),
        Unit::Days => out.push(UPPER_D),
        Unit::Months => out.push(UPPER_M),
        Unit::Week => out.push(UPPER_W),
        Unit::Year => out.push(UPPER_Y),
    }
    assert(out@ =~= old(out)@ + spec_spelling(u));
}

/// Render a term list with non-negative values as ASCII bytes.
pub fn render_terms(sets_of_time: &Vec<SetOfTime>) -> (r: Vec<u8>)
    requires
        forall|i: int| 0 <= i < sets_of_time@.len() ==> (#[trigger] sets_of_time@[i]).value >= 0,
    ensures
        r@ == spec_render(sets_of_time@),
{
    let mut out: Vec<u8> = Vec::new();
    let n = sets_of_time.len();
    let mut i: usize = 0;
    while i < n
        invariant
            0 <= i <= n == sets_of_time@.len(),
            forall|k: int| 0 <= k < sets_of_time@.len() ==> (#[trigger] sets_of_time@[k]).value
                >= 0,
            out@ == spec_render(sets_of_time@.take(i as int)),
        decreases n - i,
    {
        let t = sets_of_time[i];
        push_digits(&mut out, t.value as u64);
        push_spelling(&mut out, t.unit);
        proof {
            assert(sets_of_time@.take(i + 1) =~= sets_of_time@.take(i as int) + seq![t]);
            lemma_render_concat(sets_of_time@.take(i as int), seq![t]);
            assert(seq![t].drop_first() =~= Seq::<SetOfTime>::empty());
            assert(spec_render(Seq::<SetOfTime>::empty()) =~= Seq::<u8>::empty());
            assert(spec_render(seq![t]) =~= spec_render_term(t));
        }
        i = i + 1;
    }
    assert(sets_of_time@.take(n as int) =~= sets_of_time@);
    out
}

/// Every byte of a rendering of non-negative terms is ASCII.
pub proof fn lemma_render_ascii(ts: Seq<SetOfTime>)
    requires
        forall|i: int| 0 <= i < ts.len() ==> (#[trigger] ts[i]).value >= 0,
    ensures
        forall|j: int| 0 <= j < spec_render(ts).len() ==> #[trigger] spec_render(ts)[j] < 128,
    decreases ts.len(),
{
    if ts.len() > 0 {
        lemma_spec_digits_are_digits(ts[0].value as int);
        crate::duration_identifier::lemma_spelling_bytes(ts[0].unit);
        lemma_render_ascii(ts.drop_first());
        let d = spec_digits(ts[0].value as int);
        let sp = spec_spelling(ts[0].unit);
        let rest = spec_render(ts.drop_first());
        assert(spec_render(ts) =~= (d + sp) + rest);
        assert forall|j: int| 0 <= j < spec_render(ts).len() implies #[trigger] spec_render(ts)[j]
            < 128 by {
            if j < d.len() {
                assert(spec_render(ts)[j] == d[j]);
                assert(is_digit(d[j]));
            } else if j < d.len() + sp.len() {
                assert(spec_render(ts)[j] == sp[j - d.len()]);
            } else {
                assert(spec_render(ts)[j] == rest[j - d.len() - sp.len()]);
            }
        }
    }
}

impl SetOfTime {
    /// The textual form of one term with a non-negative value:
    /// `<value><canonical spelling>`, e.g. `17MS`.
    pub fn to_text(&self) -> (r: String)
        requires
            self.value >= 0,
        ensures
            encode_utf8(r@) == spec_render_term(*self),
    {
        let mut out: Vec<u8> = Vec::new();
        push_digits(&mut out, self.value as u64);
        push_spelling(&mut out, self.unit);
        proof {
            lemma_spec_digits_are_digits(self.value as int);
            crate::duration_identifier::lemma_spelling_bytes(self.unit);
        }
        utf8_string(out)
    }
}

/// Relies on `alloc::string::String::from_utf8`: a `String` built from
/// valid UTF-8 bytes consists of exactly those bytes.
#[verifier::external_body]
pub fn utf8_string(bytes: Vec<u8>) -> (r: String)
    requires
        forall|i: int| 0 <= i < bytes@.len() ==> bytes@[i] < 128,
    ensures
        encode_utf8(r@) == bytes@,
{
    match String::from_utf8(bytes) {
        Ok(s) => s,
        Err(_) => String::new(),
    }
}

} // verus!

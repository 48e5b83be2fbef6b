//! A compact, human-writable duration notation (`"1ms2S3H"`, `"1MS 2S"`):
//! a hand-written recursive-descent parser for the notation, and a codec
//! that aggregates parsed terms into a scalar duration and decomposes a
//! duration back into its canonical, coarsest-to-finest term list.

use vstd::prelude::*;

mod duration_identifier;
mod parser;
mod render;
mod roundtrip;
mod time;

pub use duration_identifier::Unit;
pub use duration_identifier::parse_unit;
pub use duration_identifier::spec_parse_unit;
pub use duration_identifier::spec_spelling;
pub use parser::{ParseError, SetOfTime, parse_number, spec_parse_number, parse_set_of_time,
    spec_parse_term, parse_repeated_set_of_time, spec_parse_terms, spec_parse_sequence};
pub use render::{render_terms, spec_render, spec_render_term, spec_digits};
pub use time::{Duration, spec_unit_millis, spec_term_millis, spec_total_millis, spec_decompose,
    in_i64_range, unit_millis, lemma_aggregate_decompose, lemma_decompose_terms, serialize,
    deserialize, spec_deserialize, spec_unit_rank, lemma_decompose_ordered, lemma_decompose_zero};
pub use roundtrip::{lemma_render_reparse, lemma_serialize_deserialize};

verus! {

/// A scalar duration type that the codec can aggregate terms into and
/// decompose back into terms.  The type only needs to stand for a whole
/// count of milliseconds.
pub trait DurationType: Sized {
    /// The whole count of milliseconds this value stands for.
    spec fn duration_millis(&self) -> int;

    /// The duration one term contributes: its value times its unit's
    /// length.  The contribution must fit the representation.
    fn from_set_of_time(set_of_time: SetOfTime) -> (r: Self)
        requires
            in_i64_range(spec_term_millis(set_of_time)),
        ensures
            r.duration_millis() == spec_term_millis(set_of_time),
    ;

    /// The sum of the contributions of a term list, in any order and with
    /// duplicate units allowed.  Every contribution and every partial sum
    /// of the summation must fit the representation.
    fn from_sets_of_time(sets_of_time: Vec<SetOfTime>) -> (r: Self)
        requires
            forall|i: int| 0 <= i < sets_of_time@.len() ==> in_i64_range(spec_term_millis(
                #[trigger] sets_of_time@[i],
            )),
            forall|i: int| 0 <= i <= sets_of_time@.len() ==> in_i64_range(spec_total_millis(
                #[trigger] sets_of_time@.take(i),
            )),
        ensures
            r.duration_millis() == spec_total_millis(sets_of_time@),
    ;

    /// The canonical decomposition of a non-negative duration: the whole
    /// count of each of Week, Days, Hours, Minutes, Seconds, Milliseconds,
    /// coarsest first, units with a zero count omitted.
    fn to_units(&self) -> (r: Vec<SetOfTime>)
        requires
            self.duration_millis() >= 0,
        ensures
            r@ == spec_decompose(self.duration_millis()),
    ;

    /// The canonical textual form of a non-negative duration: its
    /// decomposition, rendered term by term with no separators.  The zero
    /// duration renders as the empty string.
    fn to_duration_string(&self) -> (r: String)
        requires
            self.duration_millis() >= 0,
        ensures
            vstd::utf8::encode_utf8(r@) == spec_render(spec_decompose(self.duration_millis())),
    ;
}

} // verus!

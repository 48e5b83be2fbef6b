//! The duration codec: aggregation of a term list into a scalar duration,
//! and decomposition of a non-negative duration back into the canonical,
//! coarsest-to-finest term list.

use vstd::prelude::*;
use vstd::arithmetic::div_mod::{lemma_fundamental_div_mod, lemma_mod_division_less_than_divisor,
    lemma_div_pos_is_pos, lemma_div_nonincreasing};
use crate::duration_identifier::Unit;
use crate::render::spec_render;
use crate::parser::{SetOfTime, ParseError, spec_parse_sequence};
use crate::DurationType;
use vstd::utf8::encode_utf8;
use vstd::string::StringSliceAdditionalSpecFns;

verus! {

pub const MILLIS_PER_SECOND: i64 = 1000;

pub const MILLIS_PER_MINUTE: i64 = 60000;

pub const MILLIS_PER_HOUR: i64 = 3600000;

pub const MILLIS_PER_DAY: i64 = 86400000;

pub const MILLIS_PER_WEEK: i64 = 604800000;

/// A month is a fixed 30 days; the codec is not calendar-aware.
pub const MILLIS_PER_MONTH: i64 = 2592000000;

/// A year is a fixed 365 days; the codec is not calendar-aware.
pub const MILLIS_PER_YEAR: i64 = 31536000000;

/// A scalar duration: a whole (possibly negative) count of milliseconds.
#[derive(Debug, Clone, Copy, PartialEq, Eq, Structural)]
pub struct Duration {
    pub millis: i64,
}

impl Duration {
    /// The zero duration.
    pub fn zero() -> (r: Self)
        ensures
            r.millis == 0,
    {
        Duration { millis: 0 }
    }

    pub fn milliseconds(v: i64) -> (r: Self)
        ensures
            r.millis == v,
    {
        Duration { millis: v }
    }

    pub fn seconds(v: i64) -> (r: Self)
        requires
            in_i64_range(v * MILLIS_PER_SECOND),
        ensures
            r.millis == v * MILLIS_PER_SECOND,
    {
        Duration { millis: v * MILLIS_PER_SECOND }
    }

    pub fn minutes(v: i64) -> (r: Self)
        requires
            in_i64_range(v * MILLIS_PER_MINUTE),
        ensures
            r.millis == v * MILLIS_PER_MINUTE,
    {
        Duration { millis: v * MILLIS_PER_MINUTE }
    }

    pub fn hours(v: i64) -> (r: Self)
        requires
            in_i64_range(v * MILLIS_PER_HOUR),
        ensures
            r.millis == v * MILLIS_PER_HOUR,
    {
        Duration { millis: v * MILLIS_PER_HOUR }
    }

    pub fn days(v: i64) -> (r: Self)
        requires
            in_i64_range(v * MILLIS_PER_DAY),
        ensures
            r.millis == v * MILLIS_PER_DAY,
    {
        Duration { millis: v * MILLIS_PER_DAY }
    }

    pub fn weeks(v: i64) -> (r: Self)
        requires
            in_i64_range(v * MILLIS_PER_WEEK),
        ensures
            r.millis == v * MILLIS_PER_WEEK,
    {
        Duration { millis: v * MILLIS_PER_WEEK }
    }

    /// The sum of two durations.
    pub fn plus(self, other: Self) -> (r: Self)
        requires
            in_i64_range(self.millis + other.millis),
        ensures
            r.millis == self.millis + other.millis,
    {
        Duration { millis: self.millis + other.millis }
    }

    /// The difference of two durations.
    pub fn minus(self, other: Self) -> (r: Self)
        requires
            in_i64_range(self.millis - other.millis),
        ensures
            r.millis == self.millis - other.millis,
    {
        Duration { millis: self.millis - other.millis }
    }
}

/// How many milliseconds one unit is worth.  Months and Year are fixed
/// multiples of days, not calendar-relative.
pub open spec fn spec_unit_millis(u: Unit) -> int {
    match u {
        Unit::Milliseconds => 1,
        Unit::Seconds => MILLIS_PER_SECOND as int,
        Unit::Minutes => MILLIS_PER_MINUTE as int,
        Unit::Hours => MILLIS_PER_HOUR as int,
        Unit::Days => MILLIS_PER_DAY as int,
        Unit::Months => MILLIS_PER_MONTH as int,
        Unit::Week => MILLIS_PER_WEEK as int,
        Unit::Year => MILLIS_PER_YEAR as int,
    }
}

/// How many milliseconds one term contributes.
pub open spec fn spec_term_millis(t: SetOfTime) -> int {
    t.value * spec_unit_millis(t.unit)
}

/// The sum of the contributions of a term list, in list order (the sum is
/// the same in any order).
pub open spec fn spec_total_millis(ts: Seq<SetOfTime>) -> int
    decreases ts.len(),
{
    if ts.len() == 0 {
        0
    } else {
        spec_term_millis(ts[0]) + spec_total_millis(ts.drop_first())
    }
}

pub open spec fn in_i64_range(x: int) -> bool {
    i64::MIN <= x <= i64::MAX
}

pub fn unit_millis(u: Unit) -> (r: i64)
    ensures
        r == spec_unit_millis(u),
        r >= 1,
{
    match u {
        Unit::Milliseconds => 1,
        Unit::Seconds => MILLIS_PER_SECOND,
        Unit::Minutes => MILLIS_PER_MINUTE,
        Unit::Hours => MILLIS_PER_HOUR,
        Unit::Days => MILLIS_PER_DAY,
        Unit::Months => MILLIS_PER_MONTH,
        Unit::Week => MILLIS_PER_WEEK,
        Unit::Year => MILLIS_PER_YEAR,
    }
}

pub proof fn lemma_total_snoc(ts: Seq<SetOfTime>, t: SetOfTime)
    ensures
        spec_total_millis(ts.push(t)) == spec_total_millis(ts) + spec_term_millis(t),
    decreases ts.len(),
{
    if ts.len() == 0 {
        assert(spec_total_millis(ts) == 0);
        assert(ts.push(t).drop_first() =~= Seq::<SetOfTime>::empty());
        assert(spec_total_millis(ts.push(t).drop_first()) == 0);
        assert(ts.push(t)[0] == t);
        assert(spec_total_millis(ts.push(t)) == spec_term_millis(t) + spec_total_millis(
            ts.push(t).drop_first(),
        ));
    } else {
        assert(ts.push(t).drop_first() =~= ts.drop_first().push(t));
        lemma_total_snoc(ts.drop_first(), t);
    }
}

/// Aggregation distributes over concatenation of term lists.
pub proof fn lemma_total_concat(a: Seq<SetOfTime>, b: Seq<SetOfTime>)
    ensures
        spec_total_millis(a + b) == spec_total_millis(a) + spec_total_millis(b),
    decreases a.len(),
{
    if a.len() == 0 {
        assert(a + b =~= b);
    } else {
        assert((a + b).drop_first() =~= a.drop_first() + b);
        lemma_total_concat(a.drop_first(), b);
        assert((a + b)[0] == a[0]);
    }
}

/// A term for `count` of unit `u` if the count is positive, else nothing:
/// decomposition omits units whose contribution is zero.
pub open spec fn spec_emit(count: int, u: Unit) -> Seq<SetOfTime> {
    if count > 0 {
        seq![SetOfTime { value: count as i64, unit: u }]
    } else {
        Seq::<SetOfTime>::empty()
    }
}

/// The canonical decomposition of a non-negative count of milliseconds:
/// greedily, strictly from coarsest to finest, the whole count of each of
/// Week, Days, Hours, Minutes, Seconds and Milliseconds left in the
/// remainder.  Months and Year are never produced, only accepted by
/// parsing; a zero duration decomposes to the empty list.
pub open spec fn spec_decompose(m: int) -> Seq<SetOfTime> {
    let weeks = m / (MILLIS_PER_WEEK as int);
    let r1 = m % (MILLIS_PER_WEEK as int);
    let days = r1 / (MILLIS_PER_DAY as int);
    let r2 = r1 % (MILLIS_PER_DAY as int);
    let hours = r2 / (MILLIS_PER_HOUR as int);
    let r3 = r2 % (MILLIS_PER_HOUR as int);
    let minutes = r3 / (MILLIS_PER_MINUTE as int);
    let r4 = r3 % (MILLIS_PER_MINUTE as int);
    let seconds = r4 / (MILLIS_PER_SECOND as int);
    let ms = r4 % (MILLIS_PER_SECOND as int);
    spec_emit(weeks, Unit::Week) + spec_emit(days, Unit::Days) + spec_emit(hours, Unit::Hours)
        + spec_emit(minutes, Unit::Minutes) + spec_emit(seconds, Unit::Seconds) + spec_emit(
        ms,
        Unit::Milliseconds,
    )
}

pub proof fn lemma_total_emit(c: int, u: Unit)
    requires
        0 <= c <= i64::MAX,
    ensures
        spec_total_millis(spec_emit(c, u)) == c * spec_unit_millis(u),
{
    if c > 0 {
        let t = SetOfTime { value: c as i64, unit: u };
        assert(spec_emit(c, u) =~= seq![t]);
        assert(seq![t].drop_first() =~= Seq::<SetOfTime>::empty());
        assert(spec_total_millis(seq![t].drop_first()) == 0);
        assert(spec_total_millis(seq![t]) == spec_term_millis(t) + spec_total_millis(
            seq![t].drop_first(),
        ));
        assert(spec_term_millis(t) == c * spec_unit_millis(u));
    } else {
        assert(c == 0);
        assert(c * spec_unit_millis(u) == 0) by (nonlinear_arith)
            requires
                c == 0,
        ;
    }
}

/// The divisions and remainders that decomposition takes, with the bounds
/// that make every count representable.
proof fn lemma_decompose_parts(m: int)
    requires
        0 <= m <= i64::MAX,
    ensures
        ({
            let weeks = m / (MILLIS_PER_WEEK as int);
            let r1 = m % (MILLIS_PER_WEEK as int);
            0 <= weeks <= m && 0 <= r1 < MILLIS_PER_WEEK as int && m == weeks * (
            MILLIS_PER_WEEK as int) + r1
        }),
{
    lemma_fundamental_div_mod(m, MILLIS_PER_WEEK as int);
    lemma_mod_division_less_than_divisor(m, MILLIS_PER_WEEK as int);
    lemma_div_pos_is_pos(m, MILLIS_PER_WEEK as int);
    lemma_div_nonincreasing(m, MILLIS_PER_WEEK as int);
}

/// Aggregating the canonical decomposition of a duration gives that
/// duration back: the unit ladder is exhaustive for any whole number of
/// milliseconds, so no remainder survives.
pub proof fn lemma_aggregate_decompose(m: int)
    requires
        0 <= m <= i64::MAX,
    ensures
        spec_total_millis(spec_decompose(m)) == m,
{
    let wk = MILLIS_PER_WEEK as int;
    let dy = MILLIS_PER_DAY as int;
    let hr = MILLIS_PER_HOUR as int;
    let mn = MILLIS_PER_MINUTE as int;
    let sc = MILLIS_PER_SECOND as int;
    let weeks = m / wk;
    let r1 = m % wk;
    let days = r1 / dy;
    let r2 = r1 % dy;
    let hours = r2 / hr;
    let r3 = r2 % hr;
    let minutes = r3 / mn;
    let r4 = r3 % mn;
    let seconds = r4 / sc;
    let ms = r4 % sc;
    lemma_fundamental_div_mod(m, wk);
    lemma_mod_division_less_than_divisor(m, wk);
    lemma_div_pos_is_pos(m, wk);
    lemma_div_nonincreasing(m, wk);
    lemma_fundamental_div_mod(r1, dy);
    lemma_mod_division_less_than_divisor(r1, dy);
    lemma_div_pos_is_pos(r1, dy);
    lemma_div_nonincreasing(r1, dy);
    lemma_fundamental_div_mod(r2, hr);
    lemma_mod_division_less_than_divisor(r2, hr);
    lemma_div_pos_is_pos(r2, hr);
    lemma_div_nonincreasing(r2, hr);
    lemma_fundamental_div_mod(r3, mn);
    lemma_mod_division_less_than_divisor(r3, mn);
    lemma_div_pos_is_pos(r3, mn);
    lemma_div_nonincreasing(r3, mn);
    lemma_fundamental_div_mod(r4, sc);
    lemma_mod_division_less_than_divisor(r4, sc);
    lemma_div_pos_is_pos(r4, sc);
    lemma_div_nonincreasing(r4, sc);
    let e1 = spec_emit(weeks, Unit::Week);
    let e2 = spec_emit(days, Unit::Days);
    let e3 = spec_emit(hours, Unit::Hours);
    let e4 = spec_emit(minutes, Unit::Minutes);
    let e5 = spec_emit(seconds, Unit::Seconds);
    let e6 = spec_emit(ms, Unit::Milliseconds);
    lemma_total_emit(weeks, Unit::Week);
    lemma_total_emit(days, Unit::Days);
    lemma_total_emit(hours, Unit::Hours);
    lemma_total_emit(minutes, Unit::Minutes);
    lemma_total_emit(seconds, Unit::Seconds);
    lemma_total_emit(ms, Unit::Milliseconds);
    lemma_total_concat(e1 + e2 + e3 + e4 + e5, e6);
    lemma_total_concat(e1 + e2 + e3 + e4, e5);
    lemma_total_concat(e1 + e2 + e3, e4);
    lemma_total_concat(e1 + e2, e3);
    lemma_total_concat(e1, e2);
    assert(spec_decompose(m) == e1 + e2 + e3 + e4 + e5 + e6);
    assert(spec_total_millis(spec_decompose(m)) == weeks * wk + days * dy + hours * hr + minutes
        * mn + seconds * sc + ms);
    assert(m == wk * weeks + r1);
    assert(r1 == dy * days + r2);
    assert(r2 == hr * hours + r3);
    assert(r3 == mn * minutes + r4);
    assert(r4 == sc * seconds + ms);
    assert(weeks * wk == wk * weeks) by (nonlinear_arith);
    assert(days * dy == dy * days) by (nonlinear_arith);
    assert(hours * hr == hr * hours) by (nonlinear_arith);
    assert(minutes * mn == mn * minutes) by (nonlinear_arith);
    assert(seconds * sc == sc * seconds) by (nonlinear_arith);
}

/// Every term of a canonical decomposition has a positive value, and its
/// unit is one of the six that decomposition emits: never Months or Year.
pub proof fn lemma_decompose_terms(m: int)
    requires
        0 <= m <= i64::MAX,
    ensures
        forall|i: int| 0 <= i < spec_decompose(m).len() ==> {
            let t = #[trigger] spec_decompose(m)[i];
            1 <= t.value && t.unit != Unit::Months && t.unit != Unit::Year
        },
{
    lemma_fundamental_div_mod(m, MILLIS_PER_WEEK as int);
    lemma_mod_division_less_than_divisor(m, MILLIS_PER_WEEK as int);
    lemma_div_pos_is_pos(m, MILLIS_PER_WEEK as int);
    lemma_div_nonincreasing(m, MILLIS_PER_WEEK as int);
    let r1 = m % (MILLIS_PER_WEEK as int);
    lemma_fundamental_div_mod(r1, MILLIS_PER_DAY as int);
    lemma_mod_division_less_than_divisor(r1, MILLIS_PER_DAY as int);
    lemma_div_pos_is_pos(r1, MILLIS_PER_DAY as int);
    lemma_div_nonincreasing(r1, MILLIS_PER_DAY as int);
    let r2 = r1 % (MILLIS_PER_DAY as int);
    lemma_fundamental_div_mod(r2, MILLIS_PER_HOUR as int);
    lemma_mod_division_less_than_divisor(r2, MILLIS_PER_HOUR as int);
    lemma_div_pos_is_pos(r2, MILLIS_PER_HOUR as int);
    lemma_div_nonincreasing(r2, MILLIS_PER_HOUR as int);
    let r3 = r2 % (MILLIS_PER_HOUR as int);
    lemma_fundamental_div_mod(r3, MILLIS_PER_MINUTE as int);
    lemma_mod_division_less_than_divisor(r3, MILLIS_PER_MINUTE as int);
    lemma_div_pos_is_pos(r3, MILLIS_PER_MINUTE as int);
    lemma_div_nonincreasing(r3, MILLIS_PER_MINUTE as int);
    let r4 = r3 % (MILLIS_PER_MINUTE as int);
    lemma_fundamental_div_mod(r4, MILLIS_PER_SECOND as int);
    lemma_mod_division_less_than_divisor(r4, MILLIS_PER_SECOND as int);
    lemma_div_pos_is_pos(r4, MILLIS_PER_SECOND as int);
    lemma_div_nonincreasing(r4, MILLIS_PER_SECOND as int);
}

/// The zero duration decomposes to the empty term list: no `0MS` term, and
/// its rendering is therefore the empty string.
pub proof fn lemma_decompose_zero()
    ensures
        spec_decompose(0) =~= Seq::<SetOfTime>::empty(),
        spec_render(spec_decompose(0)) =~= Seq::<u8>::empty(),
{
    vstd::arithmetic::div_mod::lemma_div_of0(MILLIS_PER_WEEK as int);
    vstd::arithmetic::div_mod::lemma_div_of0(MILLIS_PER_DAY as int);
    vstd::arithmetic::div_mod::lemma_div_of0(MILLIS_PER_HOUR as int);
    vstd::arithmetic::div_mod::lemma_div_of0(MILLIS_PER_MINUTE as int);
    vstd::arithmetic::div_mod::lemma_div_of0(MILLIS_PER_SECOND as int);
    vstd::arithmetic::div_mod::lemma_small_mod(0, MILLIS_PER_WEEK as nat);
    vstd::arithmetic::div_mod::lemma_small_mod(0, MILLIS_PER_DAY as nat);
    vstd::arithmetic::div_mod::lemma_small_mod(0, MILLIS_PER_HOUR as nat);
    vstd::arithmetic::div_mod::lemma_small_mod(0, MILLIS_PER_MINUTE as nat);
    vstd::arithmetic::div_mod::lemma_small_mod(0, MILLIS_PER_SECOND as nat);
}

/// The position of a unit in the total order from finest (Milliseconds)
/// to coarsest (Year).
pub open spec fn spec_unit_rank(u: Unit) -> int {
    match u {
        Unit::Milliseconds => 0,
        Unit::Seconds => 1,
        Unit::Minutes => 2,
        Unit::Hours => 3,
        Unit::Days => 4,
        Unit::Week => 5,
        Unit::Months => 6,
        Unit::Year => 7,
    }
}

/// A canonical decomposition is strictly ordered from coarsest to finest,
/// so in particular it holds at most one term per unit.
pub proof fn lemma_decompose_ordered(m: int)
    requires
        0 <= m <= i64::MAX,
    ensures
        forall|i: int, j: int| 0 <= i < j < spec_decompose(m).len() ==> spec_unit_rank(
            #[trigger] spec_decompose(m)[i].unit,
        ) > spec_unit_rank(#[trigger] spec_decompose(m)[j].unit),
{
    let ts = spec_decompose(m);
    let weeks = m / (MILLIS_PER_WEEK as int);
    let r1 = m % (MILLIS_PER_WEEK as int);
    let days = r1 / (MILLIS_PER_DAY as int);
    let r2 = r1 % (MILLIS_PER_DAY as int);
    let hours = r2 / (MILLIS_PER_HOUR as int);
    let r3 = r2 % (MILLIS_PER_HOUR as int);
    let minutes = r3 / (MILLIS_PER_MINUTE as int);
    let r4 = r3 % (MILLIS_PER_MINUTE as int);
    let seconds = r4 / (MILLIS_PER_SECOND as int);
    let ms = r4 % (MILLIS_PER_SECOND as int);
    let e1 = spec_emit(weeks, Unit::Week);
    let e2 = spec_emit(days, Unit::Days);
    let e3 = spec_emit(hours, Unit::Hours);
    let e4 = spec_emit(minutes, Unit::Minutes);
    let e5 = spec_emit(seconds, Unit::Seconds);
    let e6 = spec_emit(ms, Unit::Milliseconds);
    // each position falls in one of six one-element-at-most segments, whose
    // ranks strictly decrease from segment to segment
    let b1 = e1.len() as int;
    let b2 = b1 + e2.len();
    let b3 = b2 + e3.len();
    let b4 = b3 + e4.len();
    let b5 = b4 + e5.len();
    assert forall|i: int| 0 <= i < ts.len() implies spec_unit_rank(#[trigger] ts[i].unit) == (
        if i < b1 {
            5int
        } else if i < b2 {
            4int
        } else if i < b3 {
            3int
        } else if i < b4 {
            2int
        } else if i < b5 {
            1int
        } else {
            0int
        }) by {
        assert(ts == e1 + e2 + e3 + e4 + e5 + e6);
    }
}

impl DurationType for Duration {
    open spec fn duration_millis(&self) -> int {
        self.millis as int
    }

    fn from_set_of_time(set_of_time: SetOfTime) -> (r: Self) {
        let um = unit_millis(set_of_time.unit);
        Duration { millis: set_of_time.value * um }
    }

    fn from_sets_of_time(sets_of_time: Vec<SetOfTime>) -> (r: Self) {
        let n = sets_of_time.len();
        let mut acc: i64 = 0;
        let mut i: usize = 0;
        while i < n
            invariant
                0 <= i <= n == sets_of_time@.len(),
                forall|k: int| 0 <= k < sets_of_time@.len() ==> in_i64_range(spec_term_millis(
                    #[trigger] sets_of_time@[k],
                )),
                forall|k: int| 0 <= k <= sets_of_time@.len() ==> in_i64_range(spec_total_millis(
                    #[trigger] sets_of_time@.take(k),
                )),
                acc == spec_total_millis(sets_of_time@.take(i as int)),
            decreases n - i,
        {
            let t = sets_of_time[i];
            let um = unit_millis(t.unit);
            proof {
                assert(in_i64_range(spec_term_millis(sets_of_time@[i as int])));
                assert(sets_of_time@.take(i as int + 1) =~= sets_of_time@.take(i as int).push(t));
                lemma_total_snoc(sets_of_time@.take(i as int), t);
                assert(in_i64_range(spec_total_millis(sets_of_time@.take(i as int + 1))));
            }
            let tm: i64 = t.value * um;
            acc = acc + tm;
            i = i + 1;
        }
        proof {
            assert(sets_of_time@.take(n as int) =~= sets_of_time@);
        }
        Duration { millis: acc }
    }

    fn to_units(&self) -> (r: Vec<SetOfTime>) {
        let m: u64 = self.millis as u64;
        let mut units: Vec<SetOfTime> = Vec::new();
        let weeks: u64 = m / (MILLIS_PER_WEEK as u64);
        let r1: u64 = m % (MILLIS_PER_WEEK as u64);
        if weeks > 0 {
            units.push(SetOfTime { value: weeks as i64, unit: Unit::Week });
        }
        proof {
            lemma_decompose_parts(self.millis as int);
            assert(units@ =~= spec_emit(weeks as int, Unit::Week));
        }
        let days: u64 = r1 / (MILLIS_PER_DAY as u64);
        let r2: u64 = r1 % (MILLIS_PER_DAY as u64);
        if days > 0 {
            units.push(SetOfTime { value: days as i64, unit: Unit::Days });
        }
        proof {
            assert(units@ =~= spec_emit(weeks as int, Unit::Week) + spec_emit(
                days as int,
                Unit::Days,
            ));
        }
        let hours: u64 = r2 / (MILLIS_PER_HOUR as u64);
        let r3: u64 = r2 % (MILLIS_PER_HOUR as u64);
        if hours > 0 {
            units.push(SetOfTime { value: hours as i64, unit: Unit::Hours });
        }
        proof {
            assert(units@ =~= spec_emit(weeks as int, Unit::Week) + spec_emit(
                days as int,
                Unit::Days,
            ) + spec_emit(hours as int, Unit::Hours));
        }
        let minutes: u64 = r3 / (MILLIS_PER_MINUTE as u64);
        let r4: u64 = r3 % (MILLIS_PER_MINUTE as u64);
        if minutes > 0 {
            units.push(SetOfTime { value: minutes as i64, unit: Unit::Minutes });
        }
        let seconds: u64 = r4 / (MILLIS_PER_SECOND as u64);
        let ms: u64 = r4 % (MILLIS_PER_SECOND as u64);
        if seconds > 0 {
            units.push(SetOfTime { value: seconds as i64, unit: Unit::Seconds });
        }
        if ms > 0 {
            units.push(SetOfTime { value: ms as i64, unit: Unit::Milliseconds });
        }
        proof {
            assert(units@ =~= spec_emit(weeks as int, Unit::Week) + spec_emit(
                days as int,
                Unit::Days,
            ) + spec_emit(hours as int, Unit::Hours) + spec_emit(minutes as int, Unit::Minutes)
                + spec_emit(seconds as int, Unit::Seconds) + spec_emit(
                ms as int,
                Unit::Milliseconds,
            ));
            assert(units@ =~= spec_decompose(self.duration_millis()));
        }
        units
    }

    fn to_duration_string(&self) -> (r: String) {
        let units = self.to_units();
        proof {
            lemma_decompose_terms(self.duration_millis());
            crate::render::lemma_render_ascii(units@);
        }
        let bytes = crate::render::render_terms(&units);
        crate::render::utf8_string(bytes)
    }
}

/// Every unit is worth at least a millisecond and at most a year.
pub proof fn lemma_unit_millis_pos(u: Unit)
    ensures
        1 <= spec_unit_millis(u) <= MILLIS_PER_YEAR as int,
{
}

/// A term with a non-negative value contributes a non-negative duration.
pub proof fn lemma_term_nonneg(t: SetOfTime)
    requires
        t.value >= 0,
    ensures
        spec_term_millis(t) >= 0,
{
    lemma_unit_millis_pos(t.unit);
    assert(t.value * spec_unit_millis(t.unit) >= 0) by (nonlinear_arith)
        requires
            t.value >= 0,
            spec_unit_millis(t.unit) >= 1,
    ;
}

pub proof fn lemma_total_nonneg(ts: Seq<SetOfTime>)
    requires
        forall|i: int| 0 <= i < ts.len() ==> (#[trigger] ts[i]).value >= 0,
    ensures
        spec_total_millis(ts) >= 0,
    decreases ts.len(),
{
    if ts.len() > 0 {
        lemma_term_nonneg(ts[0]);
        lemma_total_nonneg(ts.drop_first());
    }
}

/// For a list of non-negative terms, the total is at least any prefix's
/// total plus the term that follows it.
proof fn lemma_total_prefix_bound(ts: Seq<SetOfTime>, k: int)
    requires
        0 <= k < ts.len(),
        forall|i: int| 0 <= i < ts.len() ==> (#[trigger] ts[i]).value >= 0,
    ensures
        spec_total_millis(ts) >= spec_total_millis(ts.take(k)) + spec_term_millis(ts[k]),
{
    assert(ts =~= ts.take(k) + ts.skip(k));
    lemma_total_concat(ts.take(k), ts.skip(k));
    assert(ts.skip(k).drop_first() =~= ts.skip(k + 1));
    assert(ts.skip(k)[0] == ts[k]);
    assert(spec_total_millis(ts.skip(k)) == spec_term_millis(ts[k]) + spec_total_millis(
        ts.skip(k + 1),
    ));
    assert(forall|i: int| 0 <= i < ts.skip(k + 1).len() ==> (#[trigger] ts.skip(k + 1)[i]).value
        >= 0);
    lemma_total_nonneg(ts.skip(k + 1));
}

/// Aggregate a list of non-negative terms, reporting instead of wrapping
/// when the total exceeds the representable range.
fn aggregate_non_negative(terms: &Vec<SetOfTime>) -> (r: Option<Duration>)
    requires
        forall|i: int| 0 <= i < terms@.len() ==> (#[trigger] terms@[i]).value >= 0,
    ensures
        match r {
            Some(d) => d.millis == spec_total_millis(terms@) && d.millis >= 0,
            None => spec_total_millis(terms@) > i64::MAX,
        },
{
    let n = terms.len();
    let mut acc: i64 = 0;
    let mut i: usize = 0;
    while i < n
        invariant
            0 <= i <= n == terms@.len(),
            forall|k: int| 0 <= k < terms@.len() ==> (#[trigger] terms@[k]).value >= 0,
            0 <= acc == spec_total_millis(terms@.take(i as int)),
        decreases n - i,
    {
        let t = terms[i];
        let um = unit_millis(t.unit);
        proof {
            lemma_total_prefix_bound(terms@, i as int);
        }
        if t.value > i64::MAX / um {
            proof {
                lemma_fundamental_div_mod(i64::MAX as int, um as int);
                lemma_mod_division_less_than_divisor(i64::MAX as int, um as int);
                assert(spec_term_millis(t) > i64::MAX) by (nonlinear_arith)
                    requires
                        t.value >= (i64::MAX as int) / (um as int) + 1,
                        um as int >= 1,
                        um as int * ((i64::MAX as int) / (um as int)) + (i64::MAX as int) % (
                        um as int) == i64::MAX as int,
                        0 <= (i64::MAX as int) % (um as int) < um as int,
                        spec_term_millis(t) == t.value * (um as int),
                ;
            }
            return None;
        }
        proof {
            lemma_fundamental_div_mod(i64::MAX as int, um as int);
            lemma_mod_division_less_than_divisor(i64::MAX as int, um as int);
            lemma_term_nonneg(t);
            assert(t.value * (um as int) <= i64::MAX) by (nonlinear_arith)
                requires
                    0 <= t.value <= (i64::MAX as int) / (um as int),
                    um as int >= 1,
                    um as int * ((i64::MAX as int) / (um as int)) + (i64::MAX as int) % (
                    um as int) == i64::MAX as int,
                    0 <= (i64::MAX as int) % (um as int) < um as int,
            ;
        }
        let tm: i64 = t.value * um;
        if acc > i64::MAX - tm {
            return None;
        }
        proof {
            assert(terms@.take(i as int + 1) =~= terms@.take(i as int).push(t));
            lemma_total_snoc(terms@.take(i as int), t);
        }
        acc = acc + tm;
        i = i + 1;
    }
    proof {
        assert(terms@.take(n as int) =~= terms@);
    }
    Some(Duration { millis: acc })
}

/// What deserialising the bytes `b` yields: the full input must parse as a
/// term sequence, whose aggregate must fit the representation.
pub open spec fn spec_deserialize(b: Seq<u8>) -> Result<Duration, ParseError> {
    match spec_parse_sequence(b, 0) {
        Err(e) => Err(e),
        Ok((ts, end)) => if end != b.len() {
            Err(ParseError::SequenceFailure(end as usize))
        } else if spec_total_millis(ts) > i64::MAX {
            Err(ParseError::Overflow)
        } else {
            Ok(Duration { millis: spec_total_millis(ts) as i64 })
        },
    }
}

/// The canonical textual form of a non-negative duration: render its
/// decomposition.  The zero duration gives the empty string.
pub fn serialize(duration: &Duration) -> (r: String)
    requires
        duration.millis >= 0,
    ensures
        encode_utf8(r@) == spec_render(spec_decompose(duration.millis as int)),
{
    duration.to_duration_string()
}

/// Parse a whole string as a term sequence and aggregate it: the
/// deserialisation half of the textual codec.  Trailing input after the
/// sequence, like every malformed input, is a reported error, never a
/// partial result.
pub fn deserialize(s: &str) -> (r: Result<Duration, ParseError>)
    ensures
        r == spec_deserialize(s.spec_bytes()),
{
    let b: &[u8] = s.as_bytes();
    match crate::parser::parse_repeated_set_of_time(b, 0) {
        Err(e) => Err(e),
        Ok((terms, end)) => {
            if end != b.len() {
                return Err(ParseError::SequenceFailure(end));
            }
            proof {
                crate::parser::lemma_parse_terms_nonneg(b@, 0);
            }
            match aggregate_non_negative(&terms) {
                Some(d) => Ok(d),
                None => Err(ParseError::Overflow),
            }
        },
    }
}

} // verus!

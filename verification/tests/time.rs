use duration_notation::{deserialize, serialize, Duration, DurationType, ParseError, SetOfTime,
    Unit};

fn term(value: i64, unit: Unit) -> SetOfTime {
    SetOfTime { value, unit }
}

#[test]
pub fn aggregate_terms() {
    let d = Duration::from_sets_of_time(vec![
        term(1, Unit::Milliseconds),
        term(2, Unit::Seconds),
        term(3, Unit::Hours),
    ]);
    let expected = Duration::milliseconds(1)
        .plus(Duration::seconds(2))
        .plus(Duration::hours(3));
    assert_eq!(d, expected);
}

#[test]
pub fn aggregate_tolerates_duplicate_units() {
    let d = Duration::from_sets_of_time(vec![
        term(1, Unit::Seconds),
        term(2, Unit::Seconds),
    ]);
    assert_eq!(d, Duration::seconds(3));
}

#[test]
pub fn aggregate_single_terms() {
    assert_eq!(
        Duration::from_set_of_time(term(1, Unit::Months)),
        Duration::days(30)
    );
    assert_eq!(
        Duration::from_set_of_time(term(1, Unit::Year)),
        Duration::days(365)
    );
    assert_eq!(
        Duration::from_set_of_time(term(1, Unit::Week)),
        Duration::days(7)
    );
    assert_eq!(
        Duration::from_set_of_time(term(0, Unit::Seconds)),
        Duration::zero()
    );
}

#[test]
pub fn decompose_example() {
    let d = Duration::milliseconds(1)
        .plus(Duration::seconds(2))
        .plus(Duration::hours(3));
    let units = d.to_units();
    assert_eq!(
        units,
        vec![
            term(3, Unit::Hours),
            term(2, Unit::Seconds),
            term(1, Unit::Milliseconds),
        ]
    );
    assert_eq!(d.to_duration_string(), "3H2S1MS");
    assert_eq!(serialize(&d), "3H2S1MS");
}

#[test]
pub fn decompose_zero_is_empty() {
    let d = Duration::zero();
    assert_eq!(d.to_units(), vec![]);
    assert_eq!(serialize(&d), "");
}

#[test]
pub fn decompose_never_emits_months_or_years() {
    // 30 days come out as 4 weeks and 2 days, not as a month
    let d = Duration::days(30);
    assert_eq!(d.to_units(), vec![term(4, Unit::Week), term(2, Unit::Days)]);
    assert_eq!(serialize(&d), "4W2D");
    let y = Duration::days(365);
    assert_eq!(serialize(&y), "52W1D");
}

#[test]
pub fn deserialize_aggregates() {
    let expected = Duration::milliseconds(1)
        .plus(Duration::seconds(2))
        .plus(Duration::hours(3));
    assert_eq!(deserialize("1ms2S3H"), Ok(expected));
    assert_eq!(deserialize("1MS 2S"), Ok(Duration::milliseconds(2001)));
    assert_eq!(deserialize("1m"), Ok(Duration::minutes(1)));
    assert_eq!(deserialize("1M"), Ok(Duration::days(30)));
    assert_eq!(deserialize("0S"), Ok(Duration::zero()));
}

#[test]
pub fn deserialize_requires_full_consumption() {
    assert_eq!(
        deserialize("1MS  2S"),
        Err(ParseError::SequenceFailure(4))
    );
    assert_eq!(deserialize("1MSx"), Err(ParseError::SequenceFailure(3)));
    assert_eq!(deserialize(""), Err(ParseError::SequenceFailure(0)));
    assert_eq!(deserialize("x"), Err(ParseError::SequenceFailure(0)));
}

#[test]
pub fn deserialize_consumes_one_trailing_space() {
    // the sequence parser takes at most one space after each term,
    // the last included
    assert_eq!(deserialize("1MS "), Ok(Duration::milliseconds(1)));
    assert_eq!(deserialize("1MS  "), Err(ParseError::SequenceFailure(4)));
}

#[test]
pub fn deserialize_reports_overflow() {
    assert_eq!(deserialize("9223372036854775807Y"), Err(ParseError::Overflow));
    assert_eq!(
        deserialize("9223372036854775807MS 1MS"),
        Err(ParseError::Overflow)
    );
    assert_eq!(
        deserialize("9223372036854775807MS"),
        Ok(Duration::milliseconds(i64::MAX))
    );
}

#[test]
pub fn round_trip_examples() {
    for millis in [
        1i64,
        999,
        1000,
        10802001,
        604800000,
        604800001,
        2592000000,
        i64::MAX,
    ] {
        let d = Duration::milliseconds(millis);
        let text = serialize(&d);
        assert_eq!(deserialize(&text), Ok(d), "{}", text);
    }
}

#[test]
pub fn round_trip_of_zero_fails_to_parse() {
    // the empty rendering of the zero duration is not a valid sequence
    let text = serialize(&Duration::zero());
    assert_eq!(deserialize(&text), Err(ParseError::SequenceFailure(0)));
}

#[test]
pub fn term_text() {
    let t = SetOfTime {
        value: 17,
        unit: Unit::Milliseconds,
    };
    assert_eq!(t.to_text(), "17MS");
    let t = SetOfTime {
        value: 0,
        unit: Unit::Months,
    };
    assert_eq!(t.to_text(), "0M");
}

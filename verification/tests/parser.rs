use duration_notation::{parse_number, parse_repeated_set_of_time, parse_set_of_time, ParseError,
    Unit};

fn check_repeated(raw: &str, expected: &[(i64, Unit)]) {
    let parse = parse_repeated_set_of_time(raw.as_bytes(), 0);
    let (parse, end) = match parse {
        Ok(p) => p,
        Err(e) => panic!("{:?}: {:?}", raw, e),
    };
    assert_eq!(end, raw.len());
    assert_eq!(parse.len(), expected.len());
    for (i, (value, unit)) in expected.iter().enumerate() {
        assert_eq!(parse[i].value, *value);
        assert_eq!(parse[i].unit, *unit);
    }
}

#[test]
pub fn parser_parse_milis() {
    check_repeated("1MS", &[(1, Unit::Milliseconds)]);
    check_repeated("1MS 2S", &[(1, Unit::Milliseconds), (2, Unit::Seconds)]);
    check_repeated(
        "1ms2S3H",
        &[
            (1, Unit::Milliseconds),
            (2, Unit::Seconds),
            (3, Unit::Hours),
        ],
    );
}

fn check(raw: &str, unit: Unit, value: i64) {
    let parse = parse_set_of_time(raw.as_bytes(), 0);
    let (parse, end) = match parse {
        Ok(p) => p,
        Err(e) => panic!("{:?}: {:?}", raw, e),
    };
    assert_eq!(end, raw.len());
    assert_eq!(parse.value, value);
    assert_eq!(parse.unit, unit);
}

#[test]
pub fn parse_milis() {
    check("1MS", Unit::Milliseconds, 1);
    check("1ms", Unit::Milliseconds, 1)
}

#[test]
pub fn parse_seconds() {
    check("1S", Unit::Seconds, 1)
}

#[test]
pub fn parse_minutes() {
    check("1m", Unit::Minutes, 1)
}

#[test]
pub fn parse_hours() {
    check("1H", Unit::Hours, 1)
}

#[test]
pub fn parse_days() {
    check("1D", Unit::Days, 1)
}

#[test]
pub fn parse_months() {
    check("1M", Unit::Months, 1)
}

#[test]
pub fn parse_weeks() {
    check("1W", Unit::Week, 1)
}

#[test]
pub fn parse_years() {
    check("1Y", Unit::Year, 1)
}

#[test]
pub fn parse_number_reads_maximal_run() {
    assert_eq!(parse_number(b"1234MS", 0), Ok((1234, 4)));
    assert_eq!(parse_number(b"007S", 0), Ok((7, 3)));
    assert_eq!(parse_number(b"42", 0), Ok((42, 2)));
}

#[test]
pub fn parse_number_wants_a_digit() {
    assert_eq!(parse_number(b"MS", 0), Err(ParseError::NumberFailure(0)));
    assert_eq!(parse_number(b"", 0), Err(ParseError::NumberFailure(0)));
    assert_eq!(parse_number(b"12x", 2), Err(ParseError::NumberFailure(2)));
}

#[test]
pub fn parse_number_reports_overflow() {
    // one past i64::MAX: a reported failure, not undefined behaviour
    assert_eq!(
        parse_number(b"9223372036854775808", 0),
        Err(ParseError::NumberFailure(0))
    );
    assert_eq!(parse_number(b"9223372036854775807", 0), Ok((i64::MAX, 19)));
}

#[test]
pub fn term_needs_unit_right_after_digits() {
    assert_eq!(
        parse_set_of_time(b"12X", 0),
        Err(ParseError::LexFailure(2))
    );
    assert_eq!(
        parse_set_of_time(b"12 S", 0),
        Err(ParseError::LexFailure(2))
    );
    assert_eq!(
        parse_set_of_time(b"S", 0),
        Err(ParseError::NumberFailure(0))
    );
}

#[test]
pub fn sequence_needs_at_least_one_term() {
    assert_eq!(
        parse_repeated_set_of_time(b"", 0),
        Err(ParseError::SequenceFailure(0))
    );
    assert_eq!(
        parse_repeated_set_of_time(b"MS", 0),
        Err(ParseError::SequenceFailure(0))
    );
}

#[test]
pub fn sequence_stops_at_first_failure() {
    // a second space is left unconsumed: the next term attempt fails on it
    let (terms, end) = parse_repeated_set_of_time(b"1MS  2S", 0).unwrap();
    assert_eq!(end, 4);
    assert_eq!(terms.len(), 1);
    assert_eq!(terms[0].value, 1);
    assert_eq!(terms[0].unit, Unit::Milliseconds);
}

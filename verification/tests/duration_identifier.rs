use duration_notation::{parse_unit, Unit};

fn check(raw: &str, unit: Unit) {
    let parse = parse_unit(raw.as_bytes(), 0);
    assert_eq!(parse, Some((unit, raw.len())));
}

#[test]
pub fn duration_identifier_parse_milis() {
    check("MS", Unit::Milliseconds);
    check("ms", Unit::Milliseconds)
}

#[test]
pub fn duration_identifier_parse_seconds() {
    check("S", Unit::Seconds)
}

#[test]
pub fn duration_identifier_parse_minutes() {
    check("m", Unit::Minutes)
}

#[test]
pub fn duration_identifier_parse_hours() {
    check("H", Unit::Hours)
}

#[test]
pub fn duration_identifier_parse_days() {
    check("D", Unit::Days)
}

#[test]
pub fn duration_identifier_parse_months() {
    check("M", Unit::Months)
}

#[test]
pub fn duration_identifier_parse_weeks() {
    check("W", Unit::Week)
}

#[test]
pub fn duration_identifier_parse_years() {
    check("Y", Unit::Year)
}

#[test]
pub fn unit_lexer_rejects_unknown() {
    assert_eq!(parse_unit(b"x1", 0), None);
    assert_eq!(parse_unit(b"", 0), None);
    assert_eq!(parse_unit(b"s", 0), None);
}

#[test]
pub fn unit_lexer_longest_match() {
    // `MS` is read as Milliseconds, never as Months followed by a stray S
    assert_eq!(parse_unit(b"MS", 0), Some((Unit::Milliseconds, 2)));
    assert_eq!(parse_unit(b"M2", 0), Some((Unit::Months, 1)));
    assert_eq!(parse_unit(b"ms", 0), Some((Unit::Milliseconds, 2)));
    assert_eq!(parse_unit(b"m2", 0), Some((Unit::Minutes, 1)));
}

use cardamon_core::pid::{parse_pid, PidErrorKind};
use std::num::IntErrorKind;

fn std_outcome(s: &str) -> Result<u32, PidErrorKind> {
    match s.parse::<u32>() {
        Ok(v) => Ok(v),
        Err(e) => match e.kind() {
            IntErrorKind::Empty => Err(PidErrorKind::Empty),
            IntErrorKind::InvalidDigit => Err(PidErrorKind::InvalidDigit),
            IntErrorKind::PosOverflow => Err(PidErrorKind::PosOverflow),
            other => panic!("unexpected kind {:?}", other),
        },
    }
}

#[test]
fn parses_plain_digits() {
    assert_eq!(parse_pid("1234"), Ok(1234));
    assert_eq!(parse_pid("0"), Ok(0));
    assert_eq!(parse_pid("007"), Ok(7));
}

#[test]
fn accepts_leading_plus() {
    assert_eq!(parse_pid("+42"), Ok(42));
}

#[test]
fn largest_u32_fits() {
    assert_eq!(parse_pid("4294967295"), Ok(4294967295));
}

#[test]
fn empty_is_refused() {
    assert_eq!(parse_pid(""), Err(PidErrorKind::Empty));
}

#[test]
fn signs_alone_are_invalid_digits() {
    assert_eq!(parse_pid("+"), Err(PidErrorKind::InvalidDigit));
    assert_eq!(parse_pid("-"), Err(PidErrorKind::InvalidDigit));
}

#[test]
fn negative_and_spaced_are_invalid() {
    assert_eq!(parse_pid("-1"), Err(PidErrorKind::InvalidDigit));
    assert_eq!(parse_pid(" 1"), Err(PidErrorKind::InvalidDigit));
    assert_eq!(parse_pid("12a"), Err(PidErrorKind::InvalidDigit));
    assert_eq!(parse_pid("++1"), Err(PidErrorKind::InvalidDigit));
    assert_eq!(parse_pid("١٢"), Err(PidErrorKind::InvalidDigit));
}

#[test]
fn too_large_overflows() {
    assert_eq!(parse_pid("4294967296"), Err(PidErrorKind::PosOverflow));
    assert_eq!(parse_pid("99999999999"), Err(PidErrorKind::PosOverflow));
}

#[test]
fn first_problem_decides_the_kind() {
    assert_eq!(parse_pid("99999999999x"), Err(PidErrorKind::PosOverflow));
    assert_eq!(parse_pid("42949672x99"), Err(PidErrorKind::InvalidDigit));
}

#[test]
fn agrees_with_std_parse() {
    let cases = [
        "", "+", "-", "0", "+0", "-0", "1", "12", "00000000000000000001", "4294967295",
        "4294967296", "+4294967295", "42949672950", "1_000", "1 ", " 1", "x", "9x",
        "99999999999x", "x99999999999", "+-1", "-+1", "é", "3é", "18446744073709551616",
    ];
    for c in cases.iter() {
        assert_eq!(parse_pid(c), std_outcome(c), "input {:?}", c);
    }
}

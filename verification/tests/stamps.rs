use gun_core::stamp::{read_decimal, read_ticks, write_ticks, TICKS};
use gun_core::Numeric;

fn literal_of(literal: &str) -> Numeric {
    Numeric::Real(literal.to_string())
}

#[test]
fn a_unit_has_a_thousand_million_ticks() {
    assert_eq!(TICKS, 1_000_000_000);
}

#[test]
fn decimals_count_ticks() {
    assert_eq!(read_decimal("0.0"), Some(0));
    assert_eq!(read_decimal("1.0"), Some(TICKS));
    assert_eq!(read_decimal("100.5"), Some(100 * TICKS + 500_000_000));
    assert_eq!(read_decimal("0.000000001"), Some(1));
    assert_eq!(read_decimal("007.25"), Some(7 * TICKS + 250_000_000));
    assert_eq!(read_decimal("1698523456789012.345"), Some(1698523456789012 * TICKS + 345_000_000));
    assert_eq!(read_decimal("12.123456789"), Some(12 * TICKS + 123_456_789));
}

#[test]
fn digits_after_the_ninth_place_do_not_count() {
    assert_eq!(read_decimal("12.1234567891"), Some(12 * TICKS + 123_456_789));
    assert_eq!(read_decimal("12.1234567899999"), Some(12 * TICKS + 123_456_789));
    assert_eq!(read_decimal("0.0000000009"), Some(0));
}

#[test]
fn what_is_no_decimal_counts_nothing() {
    for literal in [
        "", ".", "1", "100", "1.", ".5", "-1.5", "+1.5", "1.5e3", "1e5", "1.2.3", "1,5", " 1.5",
        "1.5 ", "a.b", "1.x", "x.1", "١.٥", "NaN", "12.34567890123x",
    ] {
        assert_eq!(read_decimal(literal), None);
    }
}

#[test]
fn counts_too_large_to_hold_count_nothing() {
    assert_eq!(read_decimal("340282366920938463463374607431.768211455"), Some(u128::MAX));
    assert_eq!(read_decimal("340282366920938463463374607431.768211456"), None);
    assert_eq!(read_decimal("340282366920938463463374607432.0"), None);
    assert_eq!(read_decimal("3402823669209384634633746074310.0"), None);
    assert_eq!(read_decimal("99999999999999999999999999999999999999999999.0"), None);
}

#[test]
fn numbers_count_ticks() {
    assert_eq!(read_ticks(&Numeric::Unsigned(0)), Some(0));
    assert_eq!(read_ticks(&Numeric::Unsigned(5)), Some(5 * TICKS));
    assert_eq!(read_ticks(&Numeric::Unsigned(u64::MAX)), Some(u64::MAX as u128 * TICKS));
    assert_eq!(read_ticks(&Numeric::Signed(-5)), None);
    assert_eq!(read_ticks(&Numeric::Signed(5)), Some(5 * TICKS));
    assert_eq!(read_ticks(&Numeric::Signed(i64::MIN)), None);
    assert_eq!(read_ticks(&literal_of("5.5")), Some(5 * TICKS + 500_000_000));
    assert_eq!(read_ticks(&literal_of("five")), None);
}

#[test]
fn ticks_are_written_whole_or_with_nine_places() {
    assert_eq!(write_ticks(0), Numeric::Unsigned(0));
    assert_eq!(write_ticks(100 * TICKS), Numeric::Unsigned(100));
    assert_eq!(write_ticks(u64::MAX as u128 * TICKS), Numeric::Unsigned(u64::MAX));
    assert_eq!(write_ticks(1), literal_of("0.000000001"));
    assert_eq!(write_ticks(100 * TICKS + 500_000_000), literal_of("100.500000000"));
    assert_eq!(write_ticks(TICKS - 1), literal_of("0.999999999"));
    assert_eq!(write_ticks((u64::MAX as u128 + 1) * TICKS), literal_of("18446744073709551616.000000000"));
    assert_eq!(write_ticks(u128::MAX), literal_of("340282366920938463463374607431.768211455"));
}

#[test]
fn ticks_written_and_read_are_the_ticks() {
    let mut ticks: u128 = 1;
    for _ in 0..127 {
        for near in [ticks - 1, ticks, ticks + 1] {
            assert_eq!(read_ticks(&write_ticks(near)), Some(near));
        }
        ticks *= 2;
    }
    for ticks in [0, TICKS, 12_345 * TICKS + 678, u128::MAX - 1, u128::MAX] {
        assert_eq!(read_ticks(&write_ticks(ticks)), Some(ticks));
    }
}

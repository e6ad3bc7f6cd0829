use sealed_auction::amount::{read_amount, read_cap, read_offer, write_decimal, Reading};

#[test]
fn whole_numbers_are_scaled_to_sub_units() {
    assert_eq!(read_amount(b"80"), Reading::Amount(80_000_000_000));
    assert_eq!(read_amount(b"0"), Reading::Amount(0));
    assert_eq!(read_amount(b"1"), Reading::Amount(1_000_000_000));
    assert_eq!(read_amount(b"007"), Reading::Amount(7_000_000_000));
}

#[test]
fn fractions_are_kept_to_nine_places() {
    assert_eq!(read_amount(b"80.5"), Reading::Amount(80_500_000_000));
    assert_eq!(read_amount(b"0.1"), Reading::Amount(100_000_000));
    assert_eq!(read_amount(b"0.000000001"), Reading::Amount(1));
    assert_eq!(read_amount(b"12.345678901"), Reading::Amount(12_345_678_901));
    assert_eq!(read_amount(b"100000.0"), Reading::Amount(100_000_000_000_000));
}

#[test]
fn what_lies_below_a_sub_unit_is_dropped() {
    assert_eq!(read_amount(b"0.0000000019"), Reading::Amount(1));
    assert_eq!(read_amount(b"0.0000000009"), Reading::Amount(0));
    assert_eq!(read_amount(b"1.9999999999"), Reading::Amount(1_999_999_999));
}

#[test]
fn exponents_shift_the_point() {
    assert_eq!(read_amount(b"1e3"), Reading::Amount(1_000_000_000_000));
    assert_eq!(read_amount(b"1E3"), Reading::Amount(1_000_000_000_000));
    assert_eq!(read_amount(b"1e+3"), Reading::Amount(1_000_000_000_000));
    assert_eq!(read_amount(b"1.5e1"), Reading::Amount(15_000_000_000));
    assert_eq!(read_amount(b"1e-7"), Reading::Amount(100));
    assert_eq!(read_amount(b"1e-9"), Reading::Amount(1));
    assert_eq!(read_amount(b"1e-10"), Reading::Amount(0));
    assert_eq!(read_amount(b"25e-1"), Reading::Amount(2_500_000_000));
    assert_eq!(read_amount(b"1.234e-5"), Reading::Amount(12_340));
    assert_eq!(read_amount(b"1e0"), Reading::Amount(1_000_000_000));
    assert_eq!(read_amount(b"1e-0"), Reading::Amount(1_000_000_000));
}

#[test]
fn the_largest_amount_is_the_last_that_fits() {
    assert_eq!(read_amount(b"18446744073.709551615"), Reading::Amount(u64::MAX));
    assert_eq!(read_amount(b"18446744073.709551616"), Reading::TooLarge);
    assert_eq!(read_amount(b"18446744073.7095516159"), Reading::Amount(u64::MAX));
    assert_eq!(read_amount(b"18446744074"), Reading::TooLarge);
    assert_eq!(read_amount(b"1e11"), Reading::TooLarge);
    assert_eq!(read_amount(b"1e10"), Reading::Amount(10_000_000_000_000_000_000));
    assert_eq!(read_amount(b"1e300"), Reading::TooLarge);
}

#[test]
fn exponents_beyond_any_machine_number_are_read() {
    assert_eq!(read_amount(b"1e99999999999999999999999999999999999999999"), Reading::TooLarge);
    assert_eq!(read_amount(b"1e-99999999999999999999999999999999999999999"), Reading::Amount(0));
    assert_eq!(read_amount(b"0e99999999999999999999999999999999999999999"), Reading::Amount(0));
    assert_eq!(read_amount(b"0.000e-99999999999999999999999999999999999999"), Reading::Amount(0));
    assert_eq!(
        read_amount(b"1e000000000000000000000000000000000000000000003"),
        Reading::Amount(1_000_000_000_000)
    );
}

#[test]
fn numbers_below_zero_are_told_apart() {
    assert_eq!(read_amount(b"-1"), Reading::Negative);
    assert_eq!(read_amount(b"-0.0000000001"), Reading::Negative);
    assert_eq!(read_amount(b"-1e-400"), Reading::Negative);
    assert_eq!(read_amount(b"-1e400"), Reading::Negative);
    assert_eq!(read_amount(b"-0"), Reading::Amount(0));
    assert_eq!(read_amount(b"-0.0"), Reading::Amount(0));
    assert_eq!(read_amount(b"-0e5"), Reading::Amount(0));
}

#[test]
fn text_that_is_no_numeral_is_malformed() {
    for text in [
        "", "-", ".", "e", "abc", "1.", ".5", "1e", "1e+", "1e-", "+1", "1 ", " 1", "1.2.3", "1e2e3",
        "1e2.5", "--1", "1,5", "0x10", "1_000", "NaN", "inf", "1.e5", "\u{661}",
    ] {
        assert_eq!(read_amount(text.as_bytes()), Reading::Malformed, "{:?}", text);
    }
}

#[test]
fn an_offer_is_an_amount_or_nothing() {
    assert_eq!(read_offer(b"10"), Some(10_000_000_000));
    assert_eq!(read_offer(b"0"), Some(0));
    assert_eq!(read_offer(b"-5"), None);
    assert_eq!(read_offer(b"1e11"), None);
    assert_eq!(read_offer(b"ten"), None);
}

#[test]
fn a_cap_below_zero_counts_as_zero() {
    assert_eq!(read_cap(b"100"), Some(100_000_000_000));
    assert_eq!(read_cap(b"100.0"), Some(100_000_000_000));
    assert_eq!(read_cap(b"0"), Some(0));
    assert_eq!(read_cap(b"-5"), Some(0));
    assert_eq!(read_cap(b"1e11"), None);
    assert_eq!(read_cap(b"lots"), None);
}

#[test]
fn numbers_are_written_in_decimal() {
    assert_eq!(write_decimal(0), "0");
    assert_eq!(write_decimal(7), "7");
    assert_eq!(write_decimal(10), "10");
    assert_eq!(write_decimal(800), "800");
    assert_eq!(write_decimal(80_000_000_000), "80000000000");
    assert_eq!(write_decimal(u64::MAX), "18446744073709551615");
}

#[test]
fn written_numbers_read_back() {
    for number in [0u64, 1, 9, 10, 99, 100, 12345, 18_446_744_073] {
        let text = write_decimal(number);
        assert_eq!(read_amount(text.as_bytes()), Reading::Amount(number * 1_000_000_000));
    }
}

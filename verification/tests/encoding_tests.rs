use prime_ledger::encoding::{
    exponent_text, factors_key, parse_exponent, postings_key, FACTORS, LOG_FILE, POSTINGS,
    STORE_DIR,
};

#[test]
fn keys_are_decimal_pairs() {
    assert_eq!(factors_key(1, 3), b"1:3".to_vec());
    assert_eq!(postings_key(3, 1), b"3:1".to_vec());
    assert_eq!(factors_key(0, 2), b"0:2".to_vec());
    assert_eq!(factors_key(u64::MAX, u32::MAX), b"18446744073709551615:4294967295".to_vec());
    assert_eq!(postings_key(19, 1234567890), b"19:1234567890".to_vec());
}

#[test]
fn keys_match_the_formatted_text() {
    for entity in [0u64, 7, 10, 99, 100, 4096, 1 << 40] {
        for prime in [2u32, 3, 5, 7, 11, 13, 17, 19, 1000] {
            assert_eq!(factors_key(entity, prime), format!("{}:{}", entity, prime).into_bytes());
            assert_eq!(postings_key(prime, entity), format!("{}:{}", prime, entity).into_bytes());
        }
    }
}

#[test]
fn exponent_text_is_signed_decimal() {
    assert_eq!(exponent_text(0), b"0".to_vec());
    assert_eq!(exponent_text(2), b"2".to_vec());
    assert_eq!(exponent_text(-1), b"-1".to_vec());
    assert_eq!(exponent_text(120), b"120".to_vec());
    assert_eq!(exponent_text(i32::MAX), b"2147483647".to_vec());
    assert_eq!(exponent_text(i32::MIN), b"-2147483648".to_vec());
}

#[test]
fn text_reads_back() {
    for n in [0, 1, -1, 9, 10, -10, 255, 65536, -99999, i32::MAX, i32::MIN] {
        assert_eq!(parse_exponent(&exponent_text(n)), Some(n));
        assert_eq!(exponent_text(n), format!("{}", n).into_bytes());
    }
}

#[test]
fn parse_accepts_signs_and_leading_zeros() {
    assert_eq!(parse_exponent(b"+5"), Some(5));
    assert_eq!(parse_exponent(b"-0"), Some(0));
    assert_eq!(parse_exponent(b"007"), Some(7));
    assert_eq!(parse_exponent(b"-0012"), Some(-12));
    assert_eq!(parse_exponent(b"2147483647"), Some(i32::MAX));
    assert_eq!(parse_exponent(b"-2147483648"), Some(i32::MIN));
    assert_eq!(parse_exponent(b"00000000000000000000000042"), Some(42));
}

#[test]
fn parse_rejects_what_is_no_exponent() {
    assert_eq!(parse_exponent(b""), None);
    assert_eq!(parse_exponent(b"+"), None);
    assert_eq!(parse_exponent(b"-"), None);
    assert_eq!(parse_exponent(b"--1"), None);
    assert_eq!(parse_exponent(b"1-"), None);
    assert_eq!(parse_exponent(b"12a"), None);
    assert_eq!(parse_exponent(b" 1"), None);
    assert_eq!(parse_exponent(b"1:3"), None);
    assert_eq!(parse_exponent(b"2147483648"), None);
    assert_eq!(parse_exponent(b"-2147483649"), None);
    assert_eq!(parse_exponent(b"99999999999999999999999999"), None);
    assert_eq!(parse_exponent(&[0x31, 0xff]), None);
    assert_eq!(parse_exponent(&[0xc3, 0xa9]), None);
}

#[test]
fn parse_agrees_with_the_standard_parser() {
    let samples: [&str; 12] =
        ["0", "+0", "-7", "12", "+12", "x", "", "-", "4294967296", "-2147483648", "1 ", "0x10"];
    for s in samples {
        assert_eq!(parse_exponent(s.as_bytes()), s.parse::<i32>().ok());
    }
}

#[test]
fn layout_names() {
    assert_eq!(FACTORS, "factors");
    assert_eq!(POSTINGS, "postings");
    assert_eq!(STORE_DIR, "db");
    assert_eq!(LOG_FILE, "event.log");
}

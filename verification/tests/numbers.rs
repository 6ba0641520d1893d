use nango_qa::numfmt::{i64_to_string, parse_i64, parse_u64, u64_to_string};
use nango_qa::idf::{idf_milli, ln_fixed};

#[test]
fn decimal_encoding_is_canonical() {
    assert_eq!(u64_to_string(0), "0".to_string());
    assert_eq!(u64_to_string(7), "7".to_string());
    assert_eq!(u64_to_string(12345), "12345".to_string());
    assert_eq!(i64_to_string(0), "0".to_string());
    assert_eq!(i64_to_string(-42), "-42".to_string());
    assert_eq!(i64_to_string(67108864), "67108864".to_string());
}

#[test]
fn decimal_parsing_round_trips() {
    assert_eq!(parse_u64("0"), Some(0));
    assert_eq!(parse_u64("007"), Some(7));
    assert_eq!(parse_u64("123456789012345"), Some(123456789012345));
    assert_eq!(parse_i64("-9"), Some(-9));
    assert_eq!(parse_i64("404"), Some(404));
}

#[test]
fn decimal_parsing_rejects_bad_cells() {
    assert_eq!(parse_u64(""), None);
    assert_eq!(parse_u64("12a"), None);
    assert_eq!(parse_u64("-5"), None);
    // sixteen digits is over the cell limit
    assert_eq!(parse_u64("1234567890123456"), None);
    assert_eq!(parse_i64("--5"), None);
    assert_eq!(parse_i64("-"), None);
    assert_eq!(parse_i64("4.5"), None);
}

#[test]
fn idf_matches_fixed_point_logarithm() {
    // ln(2 / 1) = 0.693...
    assert_eq!(idf_milli(2, 0), 693);
    // ln(4 / 1) = 1.386...
    assert_eq!(idf_milli(4, 0), 1386);
    // ln(3 / 2) = 0.405...
    assert_eq!(idf_milli(3, 1), 404);
    // ln(10 / 1) = 2.302...
    assert_eq!(idf_milli(10, 0), 2301);
}

#[test]
fn idf_sign_follows_document_counts() {
    // a term in every document of a two-document corpus weighs nothing
    assert_eq!(idf_milli(2, 1), 0);
    // the smoothed denominator can exceed the corpus size
    assert_eq!(idf_milli(1, 1), -693);
    assert!(idf_milli(50, 3) > 0);
    assert!(idf_milli(3, 3) < 0);
}

#[test]
fn fixed_point_logarithm_keeps_sign_exact() {
    // a ratio barely above one still gets a positive value
    assert_eq!(ln_fixed(1001, 1000), 1);
    assert_eq!(ln_fixed(1000, 1001), -1);
    assert_eq!(ln_fixed(12345, 12345), 0);
}

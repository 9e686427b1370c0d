use bernard::text::parse_i64;

#[test]
fn decimal_numbers_are_read_as_the_standard_library_reads_them() {
    let samples = [
        "", "0", "-0", "+0", "7", "007", "-12", "+12", "12a", "a12", " 1", "1 ", "+", "-", "+-1",
        "--1", "1_000", "0x10", "9223372036854775807", "9223372036854775808",
        "-9223372036854775808", "-9223372036854775809", "99999999999999999999999999", "１２",
        "1e3", "1.0", "000000000000000000000000000001",
    ];
    for s in samples {
        assert_eq!(parse_i64(s), s.parse::<i64>().ok(), "{:?}", s);
    }
    assert_eq!(parse_i64("42"), Some(42));
    assert_eq!(parse_i64("-9223372036854775808"), Some(i64::MIN));
    assert_eq!(parse_i64("4 2"), None);
}

#[test]
fn strings_are_told_apart_by_content() {
    assert!(bernard::str_eq("abc", "abc"));
    assert!(!bernard::str_eq("abc", "abd"));
    assert!(!bernard::str_eq("abc", "ab"));
    assert!(bernard::str_eq("", ""));
}

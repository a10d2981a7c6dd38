use rhizolog::text::{parse_i64, trim};

#[test]
fn trimming_drops_whitespace_at_both_ends_only() {
    assert_eq!(trim("  a b \n"), "a b");
    assert_eq!(trim("\t\n "), "");
    assert_eq!(trim(""), "");
    assert_eq!(trim("x"), "x");
}

#[test]
fn integers_parse_as_std_reads_them() {
    for text in ["0", "42", "-42", "+7", "007", "9223372036854775807", "-9223372036854775808"] {
        assert_eq!(parse_i64(text), text.parse::<i64>().ok(), "{text}");
    }
    for text in ["", "+", "-", " 1", "1 ", "1_000", "9223372036854775808", "-9223372036854775809", "١٢"] {
        assert_eq!(parse_i64(text), None, "{text}");
        assert!(text.parse::<i64>().is_err(), "{text}");
    }
}

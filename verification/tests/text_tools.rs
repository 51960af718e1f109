use loupe::text::{
    ends_with, format_hex, format_i64, format_u64, parse_unsigned_at_most, split_once, trim, trim_matches,
};

#[test]
fn decimal_and_hex_rendering() {
    assert_eq!(format_u64(0), "0");
    assert_eq!(format_u64(1234567890), "1234567890");
    assert_eq!(format_u64(u64::MAX), u64::MAX.to_string());
    assert_eq!(format_i64(-42), "-42");
    assert_eq!(format_i64(i64::MIN), i64::MIN.to_string());
    assert_eq!(format_hex(0), "0");
    assert_eq!(format_hex(255), "ff");
    assert_eq!(format_hex(u128::MAX), format!("{:x}", u128::MAX));
}

#[test]
fn unsigned_parsing_follows_str_parse() {
    for t in ["0", "3003", "+7", "65535", "65536", "", "+", "-1", "12a", " 1", "007", "99999999999999999999"] {
        let ours = parse_unsigned_at_most(t, u16::MAX as u64);
        let std = t.parse::<u16>().ok().map(|v| v as u64);
        assert_eq!(ours, std, "{t:?}");
    }
    assert_eq!(parse_unsigned_at_most("18446744073709551615", u64::MAX), Some(u64::MAX));
    assert_eq!(parse_unsigned_at_most("18446744073709551616", u64::MAX), None);
}

#[test]
fn trimming_and_splitting() {
    assert_eq!(trim("  a b\t\r\n"), "a b");
    assert_eq!(trim("\u{3000}x\u{a0}"), "x");
    assert_eq!(trim_matches("\"\"v\"", '"'), "v");
    assert_eq!(trim_matches("'q'", '\''), "q");
    assert_eq!(split_once("K=V=W", '='), Some(("K".to_string(), "V=W".to_string())));
    assert_eq!(split_once("novalue", '='), None);
    assert!(ends_with("FloatVector", "Vector"));
    assert!(!ends_with("Vec", "Vector"));
}

use order_service::text::{parse_u64, str_eq, u64_to_string};

#[test]
fn renders_decimals_exactly() {
    assert_eq!(u64_to_string(0), "0");
    assert_eq!(u64_to_string(7), "7");
    assert_eq!(u64_to_string(10), "10");
    assert_eq!(u64_to_string(12345), "12345");
    assert_eq!(u64_to_string(u64::MAX), "18446744073709551615");
}

#[test]
fn parses_decimals_like_std() {
    for s in [
        "0",
        "7",
        "007",
        "+5",
        "12345",
        "18446744073709551615",
        "18446744073709551616",
        "99999999999999999999999999",
        "",
        "+",
        "-1",
        "1.5",
        " 1",
        "abc",
        "12a",
        "١٢",
    ] {
        assert_eq!(parse_u64(s), s.parse::<u64>().ok(), "input {:?}", s);
    }
}

#[test]
fn compares_strings_by_characters() {
    assert!(str_eq("", ""));
    assert!(str_eq("table", "table"));
    assert!(!str_eq("table", "tables"));
    assert!(!str_eq("table", "tAble"));
    assert!(str_eq("désolé", "désolé"));
    assert!(!str_eq("a", "b"));
}

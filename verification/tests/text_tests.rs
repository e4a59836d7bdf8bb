use codecrafters_redis::text::{
    parse_i32, parse_i64, parse_u128, parse_u32, parse_u64, parse_usize, push_int_decimal,
    push_nat_decimal, same_text, split_on_dash, substring,
};

#[test]
fn parses_unsigned_numbers_as_rust_does() {
    assert_eq!(parse_u64("1500"), Some(1500));
    assert_eq!(parse_u64("+7"), Some(7));
    assert_eq!(parse_u64("007"), Some(7));
    assert_eq!(parse_u64("-7"), None);
    assert_eq!(parse_u64(""), None);
    assert_eq!(parse_u64("+"), None);
    assert_eq!(parse_u64("1x"), None);
    assert_eq!(parse_u64("18446744073709551615"), Some(u64::MAX));
    assert_eq!(parse_u64("18446744073709551616"), None);
    assert_eq!(parse_u32("4294967296"), None);
    assert_eq!(parse_usize("12"), Some(12));
    assert_eq!(
        parse_u128("340282366920938463463374607431768211455"),
        Some(u128::MAX)
    );
    assert_eq!(parse_u128("340282366920938463463374607431768211456"), None);
}

#[test]
fn parses_signed_numbers_as_rust_does() {
    assert_eq!(parse_i32("-5"), Some(-5));
    assert_eq!(parse_i32("+5"), Some(5));
    assert_eq!(parse_i32("-"), None);
    assert_eq!(parse_i32("2147483648"), None);
    assert_eq!(parse_i32("-2147483648"), Some(i32::MIN));
    assert_eq!(parse_i64("-9223372036854775808"), Some(i64::MIN));
    assert_eq!(parse_i64("9223372036854775808"), None);
    for s in ["0", "-0", "12", "-99", "+3", "x", "", "1-2"] {
        assert_eq!(parse_i64(s), s.parse::<i64>().ok(), "{}", s);
        assert_eq!(parse_u64(s), s.parse::<u64>().ok(), "{}", s);
    }
}

#[test]
fn writes_decimal_numbers() {
    let mut s = String::from("n=");
    push_nat_decimal(&mut s, 0);
    assert_eq!(s, "n=0");
    let mut s = String::new();
    push_nat_decimal(&mut s, u128::MAX);
    assert_eq!(s, u128::MAX.to_string());
    let mut s = String::new();
    push_int_decimal(&mut s, -1234);
    assert_eq!(s, "-1234");
}

#[test]
fn splits_on_dashes() {
    assert_eq!(split_on_dash("1526919030474-0"), vec!["1526919030474", "0"]);
    assert_eq!(split_on_dash("5"), vec!["5"]);
    assert_eq!(split_on_dash("-5-"), vec!["", "5", ""]);
}

#[test]
fn compares_and_cuts_text() {
    assert!(same_text("GET", "GET"));
    assert!(!same_text("GET", "get"));
    assert!(!same_text("GET", "GETS"));
    assert_eq!(substring("héllo", 1, 3), "é");
}

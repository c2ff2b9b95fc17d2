use inventory_inbox::decimal::{parse_i32, push_decimal, push_i32};

fn chars(s: &str) -> Vec<char> {
    s.chars().collect()
}

fn written(v: i32) -> String {
    let mut s = String::new();
    push_i32(&mut s, v);
    s
}

#[test]
fn parse_i32_reads_signed_decimals() {
    assert_eq!(parse_i32(&chars("0")), Some(0));
    assert_eq!(parse_i32(&chars("42")), Some(42));
    assert_eq!(parse_i32(&chars("+42")), Some(42));
    assert_eq!(parse_i32(&chars("-42")), Some(-42));
    assert_eq!(parse_i32(&chars("-0")), Some(0));
    assert_eq!(parse_i32(&chars("0042")), Some(42));
}

#[test]
fn parse_i32_at_the_limits() {
    assert_eq!(parse_i32(&chars("2147483647")), Some(i32::MAX));
    assert_eq!(parse_i32(&chars("2147483648")), None);
    assert_eq!(parse_i32(&chars("-2147483648")), Some(i32::MIN));
    assert_eq!(parse_i32(&chars("-2147483649")), None);
    assert_eq!(parse_i32(&chars("21474836470")), None);
    assert_eq!(parse_i32(&chars("18446744073709551617")), None);
    assert_eq!(parse_i32(&chars("00000000000000000000002147483647")), Some(i32::MAX));
}

#[test]
fn parse_i32_refuses_what_is_no_number() {
    for s in ["", "+", "-", "+-1", "--1", "1+", "12a", "a12", " 1", "1 ", "1_000", "1.0", "\u{663}"] {
        assert_eq!(parse_i32(&chars(s)), None, "{:?}", s);
    }
}

#[test]
fn parse_i32_agrees_with_the_standard_library() {
    for s in ["7", "-7", "+7", "", "-", "2147483647", "2147483648", "-2147483648", "x", "0x10"] {
        assert_eq!(parse_i32(&chars(s)), s.parse::<i32>().ok(), "{:?}", s);
    }
}

#[test]
fn push_i32_writes_decimals() {
    assert_eq!(written(0), "0");
    assert_eq!(written(7), "7");
    assert_eq!(written(10), "10");
    assert_eq!(written(1050), "1050");
    assert_eq!(written(-1), "-1");
    assert_eq!(written(i32::MAX), "2147483647");
    assert_eq!(written(i32::MIN), "-2147483648");
}

#[test]
fn push_i32_adds_at_the_end() {
    let mut s = String::from("n=");
    push_i32(&mut s, -305);
    assert_eq!(s, "n=-305");
}

#[test]
fn push_decimal_writes_without_leading_zeros() {
    let mut s = String::new();
    push_decimal(&mut s, 0);
    push_decimal(&mut s, 9);
    push_decimal(&mut s, 100);
    push_decimal(&mut s, u64::MAX);
    assert_eq!(s, "0910018446744073709551615");
}

#[test]
fn written_numbers_read_back() {
    for v in [0, 1, -1, 9, 10, 99, 100, 12345, -12345, i32::MAX, i32::MIN] {
        assert_eq!(parse_i32(&chars(&written(v))), Some(v));
        assert_eq!(written(v), format!("{}", v));
    }
}

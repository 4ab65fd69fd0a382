use skeletree::text::{decimal_string, first_line_of, is_upper_snake, str_eq};

#[test]
fn constant_convention() {
    assert!(is_upper_snake("MAX_SIZE"));
    assert!(is_upper_snake("A1"));
    assert!(is_upper_snake("_X_"));
    assert!(!is_upper_snake("lower_case"));
    assert!(!is_upper_snake("Mixed"));
    assert!(!is_upper_snake("_1_"));
    assert!(!is_upper_snake(""));
}

#[test]
fn first_lines() {
    assert_eq!(first_line_of(""), None);
    assert_eq!(first_line_of("def f():\n    pass"), Some("def f():".to_string()));
    assert_eq!(first_line_of("class A:   \r\n"), Some("class A:".to_string()));
    assert_eq!(first_line_of("\nrest"), Some(String::new()));
    assert_eq!(first_line_of("x = 1\u{a0}\t"), Some("x = 1".to_string()));
}

#[test]
fn decimals_and_equality() {
    assert_eq!(decimal_string(0), "0");
    assert_eq!(decimal_string(42), "42");
    assert_eq!(decimal_string(u32::MAX), "4294967295");
    assert!(str_eq("héllo", "héllo"));
    assert!(!str_eq("abc", "abd"));
    assert!(!str_eq("abc", "ab"));
}

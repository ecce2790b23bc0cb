use pishock_bridge::text::{decimal_exec, is_control, is_space, join_exec, same_text, starts_with};

#[test]
fn decimals() {
    assert_eq!(decimal_exec(0), "0");
    assert_eq!(decimal_exec(7), "7");
    assert_eq!(decimal_exec(33776), "33776");
    assert_eq!(decimal_exec(u64::MAX), u64::MAX.to_string());
}

#[test]
fn white_space_and_controls_match_std() {
    for n in 0u32..0x3100 {
        if let Some(c) = char::from_u32(n) {
            assert_eq!(is_space(c), c.is_whitespace(), "{n:x}");
            assert_eq!(is_control(c), c.is_control(), "{n:x}");
        }
    }
}

#[test]
fn joins_and_prefixes() {
    assert_eq!(join_exec(&vec!["a".to_string(), "b".to_string(), "c".to_string()], ", "), "a, b, c");
    assert_eq!(join_exec(&vec![], ", "), "");
    assert!(starts_with("abc", "ab"));
    assert!(starts_with("abc", ""));
    assert!(!starts_with("ab", "abc"));
    assert!(same_text("é", "é"));
    assert!(!same_text("a", "b"));
}

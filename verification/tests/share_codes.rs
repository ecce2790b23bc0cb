use pishock_bridge::share::share_codes;

#[test]
fn bare_code() {
    assert_eq!(share_codes("1A2B3C4D5E6"), vec!["1A2B3C4D5E6".to_string()]);
}

#[test]
fn control_link() {
    assert_eq!(
        share_codes("https://pishock.com/#/Control?sharecode=7F8E9D0C1B2"),
        vec!["7F8E9D0C1B2".to_string()]
    );
}

#[test]
fn both_link_gives_two_codes() {
    assert_eq!(
        share_codes("https://pishock.com/#/Control?sharecode=A1B2C3D4E5F,F5E4D3C2B1A"),
        vec!["A1B2C3D4E5F".to_string(), "F5E4D3C2B1A".to_string()]
    );
}

#[test]
fn link_code_stops_at_separators() {
    assert_eq!(share_codes("x?sharecode=ABC&other=1"), vec!["ABC".to_string()]);
    assert_eq!(share_codes("x?sharecode=ABC#frag"), vec!["ABC".to_string()]);
    assert_eq!(share_codes("x?sharecode=ABC/more"), vec!["ABC".to_string()]);
    assert_eq!(share_codes("x?sharecode=ABC?q"), vec!["ABC".to_string()]);
}

#[test]
fn placeholders_and_blanks_are_dropped() {
    assert!(share_codes("<1A2B3C4D5E6>").is_empty());
    assert!(share_codes("").is_empty());
    assert!(share_codes("   ").is_empty());
    assert_eq!(share_codes("  , A ,, <B> ,C"), vec!["A".to_string(), "C".to_string()]);
}

#[test]
fn surrounding_white_space_is_trimmed() {
    assert_eq!(share_codes("\t 1A2B \n"), vec!["1A2B".to_string()]);
    assert_eq!(share_codes("sharecode= X1 , Y2 "), vec!["X1".to_string(), "Y2".to_string()]);
}

#[test]
fn law_codes_are_clean_on_examples() {
    for value in ["a, <b>, ,c ", "sharecode=<x>,y", " , ", "<>"] {
        for code in share_codes(value) {
            assert!(!code.is_empty());
            assert!(!code.contains(','));
            assert_eq!(code.trim(), code);
            assert!(!(code.starts_with('<') && code.ends_with('>')));
        }
    }
}

#[test]
fn law_codes_are_idempotent_on_examples() {
    for value in [" A1B2 , <code>,, F5E4 ", "ABC", "", "  ,  ", "x y,z"] {
        let codes = share_codes(value);
        assert_eq!(share_codes(&codes.join(",")), codes);
        for c in &codes {
            assert_eq!(share_codes(c), vec![c.clone()]);
        }
    }
}

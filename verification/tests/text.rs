use vent_mcp::text::{
    is_whitespace, parse_usize, same_text, split_text, starts_with_text, to_ascii_lower_text,
    trim_text, valid_key, valid_name,
};

#[test]
fn whitespace_agrees_with_std() {
    for code in 0u32..0x3100 {
        if let Some(c) = char::from_u32(code) {
            assert_eq!(is_whitespace(c), c.is_whitespace(), "{code:#x}");
        }
    }
}

#[test]
fn trim_agrees_with_std() {
    for s in ["", "  ", " a ", "\u{3000}x\u{a0}", "a b", "\n\tab\r\n"] {
        assert_eq!(trim_text(s), s.trim());
    }
}

#[test]
fn parse_usize_agrees_with_std() {
    for s in ["0", "+7", "64", "007", "", "+", "-1", "1a", "18446744073709551615", "18446744073709551616"] {
        assert_eq!(parse_usize(s), s.parse::<usize>().ok(), "{s}");
    }
}

#[test]
fn split_keeps_empty_pieces() {
    assert_eq!(split_text("a..b", '.'), vec!["a", "", "b"]);
    assert_eq!(split_text("", '&'), vec![""]);
    assert_eq!(split_text("x&", '&'), vec!["x", ""]);
}

#[test]
fn names_keys_and_comparisons() {
    assert!(valid_name("ci-alerts_2"));
    assert!(!valid_name("Alerts"));
    assert!(!valid_name(""));
    assert!(valid_key("Field_1-a"));
    assert!(!valid_key("a.b"));
    assert!(same_text("abc", "abc"));
    assert!(!same_text("abc", "abd"));
    assert!(starts_with_text("~/x", "~/"));
    assert_eq!(to_ascii_lower_text("X-Token-É"), "x-token-É");
}

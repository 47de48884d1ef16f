use agnes::parse::{blank, parse_boolean, parse_text};
use agnes::value::Value;

#[test]
fn blank_text_is_white_space_only() {
    assert!(blank(""));
    assert!(blank(" \t\r\n"));
    assert!(blank("\u{3000}\u{A0}"));
    assert!(!blank(" a "));
    assert!(!blank("0"));
}

#[test]
fn text_values_read_blank_as_missing() {
    assert_eq!(parse_text("  ".to_string()), Value::Na);
    assert_eq!(parse_text(" Bob".to_string()), Value::Exists(" Bob".to_string()));
}

#[test]
fn boolean_values_read_exact_words() {
    assert_eq!(parse_boolean("true".to_string()), Some(Value::Exists(true)));
    assert_eq!(parse_boolean("false".to_string()), Some(Value::Exists(false)));
    assert_eq!(parse_boolean(" ".to_string()), Some(Value::Na));
    assert_eq!(parse_boolean("True".to_string()), None);
    assert_eq!(parse_boolean("yes".to_string()), None);
}

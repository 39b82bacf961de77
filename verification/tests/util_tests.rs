use imessage_gateway::util::{escape_applescript_string, normalize_phone};

#[test]
fn normalize_strips_everything_but_digits() {
    assert_eq!(normalize_phone("+1 (555) 123-4567"), "15551234567");
    assert_eq!(normalize_phone("5551234567"), "5551234567");
    assert_eq!(normalize_phone("abc"), "");
    assert_eq!(normalize_phone(""), "");
    assert_eq!(normalize_phone("a1b2c3"), "123");
}

#[test]
fn escape_backslashes_and_quotes() {
    assert_eq!(escape_applescript_string("a\\b\"c"), "a\\\\b\\\"c");
    assert_eq!(escape_applescript_string("plain"), "plain");
    assert_eq!(escape_applescript_string(""), "");
    assert_eq!(escape_applescript_string("\\"), "\\\\");
    assert_eq!(escape_applescript_string("\""), "\\\"");
}

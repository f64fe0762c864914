use gum_rs::config::{GumError, UserConfig};
use gum_rs::git::{
    identity_from_outputs, identity_query_pattern, next_write_step, parse_identity_output,
    scope_flag, trim_chars, write_step_key, write_step_value, WriteStep,
};
use gum_rs::utils::truncate_str;

#[test]
fn test_parse_identity_output_both_keys() {
    let u = parse_identity_output("user.name Alice\nuser.email a@x.com\n").unwrap();
    assert_eq!(u.name, "Alice");
    assert_eq!(u.email, "a@x.com");
}

#[test]
fn test_parse_identity_output_value_keeps_spaces() {
    let u = parse_identity_output("user.name Ann Lee\nuser.email a@x.com").unwrap();
    assert_eq!(u.name, "Ann Lee");
}

#[test]
fn test_parse_identity_output_ignores_other_keys() {
    let u =
        parse_identity_output("user.signingkey ABC\nuser.name Alice\nuser.email a@x.com").unwrap();
    assert_eq!(u.name, "Alice");
    assert_eq!(u.email, "a@x.com");
}

#[test]
fn test_parse_identity_output_last_value_wins() {
    let u = parse_identity_output("user.name A\nuser.name B\nuser.email e@x").unwrap();
    assert_eq!(u.name, "B");
}

#[test]
fn test_parse_identity_output_one_key_is_enough() {
    let u = parse_identity_output("user.email a@x.com\n").unwrap();
    assert_eq!(u.name, "");
    assert_eq!(u.email, "a@x.com");
}

#[test]
fn test_parse_identity_output_empty_is_not_configured() {
    assert!(parse_identity_output("").is_none());
    assert!(parse_identity_output("core.editor vim\n").is_none());
}

#[test]
fn test_identity_from_outputs_trims_and_requires_both() {
    let u = identity_from_outputs("  Alice \n", "\ta@x.com\n").unwrap();
    assert_eq!(u.name, "Alice");
    assert_eq!(u.email, "a@x.com");
    assert!(identity_from_outputs("Alice", "  \n").is_none());
    assert!(identity_from_outputs("", "a@x.com").is_none());
}

#[test]
fn test_trim_chars() {
    assert_eq!(trim_chars("  a b \r\n"), "a b");
    assert_eq!(trim_chars("\t\n "), "");
    assert_eq!(trim_chars("x"), "x");
}

#[test]
fn test_trim_chars_removes_all_unicode_whitespace() {
    assert_eq!(trim_chars("\u{0B}\u{0C}Alice\u{A0}\u{2003}"), "Alice");
    assert_eq!(trim_chars("\u{85}\u{3000}a@x.com\u{200A}"), "a@x.com");
    let u = identity_from_outputs("\u{0B}Alice\u{0C}", "\u{A0}a@x.com\u{2028}").unwrap();
    assert_eq!(u.name, "Alice");
    assert_eq!(u.email, "a@x.com");
}

#[test]
fn test_parse_identity_output_strips_carriage_returns() {
    let u = parse_identity_output("user.name Alice\r\nuser.email a@x.com\r\n").unwrap();
    assert_eq!(u.name, "Alice");
    assert_eq!(u.email, "a@x.com");
    // a carriage return that no newline follows stays in the value
    let v = parse_identity_output("user.name A\r").unwrap();
    assert_eq!(v.name, "A\r");
}

#[test]
fn test_truncate_str() {
    assert_eq!(truncate_str("hello", 10), "hello");
    assert_eq!(truncate_str("hello", 3), "hel");
    assert_eq!(truncate_str("", 4), "");
}

#[test]
fn test_scope_flag_and_query() {
    assert_eq!(scope_flag(true), "--global");
    assert_eq!(scope_flag(false), "--local");
    assert_eq!(identity_query_pattern(), "^user\\.(name|email)$");
}

#[test]
fn test_write_steps_in_order() {
    let u = UserConfig { name: "Bob".to_string(), email: "bob@co.com".to_string() };
    assert_eq!(write_step_key(WriteStep::SetName), "user.name");
    assert_eq!(write_step_value(WriteStep::SetName, &u), "Bob");
    assert_eq!(write_step_key(WriteStep::SetEmail), "user.email");
    assert_eq!(write_step_value(WriteStep::SetEmail, &u), "bob@co.com");
    assert_eq!(next_write_step(WriteStep::SetName, true), Ok(WriteStep::SetEmail));
    assert_eq!(next_write_step(WriteStep::SetEmail, true), Ok(WriteStep::Done));
}

#[test]
fn test_failed_name_write_stops_before_email() {
    assert_eq!(
        next_write_step(WriteStep::SetName, false),
        Err(GumError::NameWriteFailed)
    );
    assert_eq!(
        next_write_step(WriteStep::SetEmail, false),
        Err(GumError::EmailWriteFailed)
    );
}

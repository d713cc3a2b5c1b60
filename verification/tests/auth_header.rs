use leave_digest::auth::basic_auth_header;
use leave_digest::text::{day_of_month_string, month_name, split_at_first_space, str_le, weekday_name};

#[test]
fn basic_auth_header_encodes_the_credentials() {
    // base64 of "user:x" over the standard alphabet.
    assert_eq!(basic_auth_header("user", "x"), "Basic dXNlcjp4");
    // base64 of "api-key:x", with padding.
    assert_eq!(basic_auth_header("api-key", "x"), "Basic YXBpLWtleTp4");
    assert_eq!(basic_auth_header("", ""), "Basic Og==");
}

#[test]
fn splitting_at_the_first_space() {
    assert_eq!(split_at_first_space("Ada Lovelace"), ("Ada".to_string(), "Lovelace".to_string()));
    assert_eq!(split_at_first_space("Plato"), ("Plato".to_string(), "".to_string()));
    assert_eq!(
        split_at_first_space("Ada King Lovelace"),
        ("Ada".to_string(), "King Lovelace".to_string())
    );
    assert_eq!(split_at_first_space(" leading"), ("".to_string(), "leading".to_string()));
    assert_eq!(split_at_first_space(""), ("".to_string(), "".to_string()));
}

#[test]
fn lexicographic_string_order() {
    assert!(str_le("Accounts", "Zoology"));
    assert!(!str_le("Zoology", "Accounts"));
    assert!(str_le("Ada", "Ada"));
    assert!(str_le("Ada", "Adam"));
    assert!(!str_le("Adam", "Ada"));
    assert!(str_le("", "A"));
    // Capitals sort before lower case, by code point.
    assert!(str_le("Z", "a"));
}

#[test]
fn calendar_words() {
    assert_eq!(month_name(1), "January");
    assert_eq!(month_name(4), "April");
    assert_eq!(month_name(12), "December");
    assert_eq!(weekday_name(0), "Monday");
    assert_eq!(weekday_name(4), "Friday");
    assert_eq!(weekday_name(6), "Sunday");
    assert_eq!(day_of_month_string(5), "5");
    assert_eq!(day_of_month_string(10), "10");
    assert_eq!(day_of_month_string(31), "31");
}

use nostalgia::{find_attr_value, find_key_field, KeyFieldError};

fn names(v: &[&str]) -> Vec<String> {
    v.iter().map(|s| s.to_string()).collect()
}

fn attrs(v: &[(&str, &str)]) -> Vec<(String, String)> {
    v.iter().map(|(a, b)| (a.to_string(), b.to_string())).collect()
}

#[test]
fn key_attribute_picks_the_named_field() {
    let fields = names(&["id", "body"]);
    assert_eq!(Ok(0), find_key_field(&fields, &attrs(&[("key", "id")])));
    assert_eq!(Ok(1), find_key_field(&fields, &attrs(&[("key", "body")])));
}

#[test]
fn key_naming_a_missing_field_is_refused() {
    let fields = names(&["id"]);
    assert_eq!(Err(KeyFieldError::NoSuchField), find_key_field(&fields, &attrs(&[("key", "nothere")])));
}

#[test]
fn no_key_attribute_is_refused() {
    let fields = names(&["id"]);
    assert_eq!(Err(KeyFieldError::NoKeyAttribute), find_key_field(&fields, &attrs(&[("db_name", "things")])));
    assert_eq!(Err(KeyFieldError::NoKeyAttribute), find_key_field(&fields, &attrs(&[])));
}

#[test]
fn later_key_attribute_wins() {
    let fields = names(&["id", "body"]);
    let a = attrs(&[("key", "id"), ("db_name", "things"), ("key", "body")]);
    assert_eq!(Ok(1), find_key_field(&fields, &a));
    assert_eq!(Some(&"things".to_string()), find_attr_value(&a, &"db_name".to_string()));
    assert_eq!(None, find_attr_value(&a, &"other".to_string()));
}

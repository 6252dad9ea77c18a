use cli_options::strings::str_eq;
use cli_options::strings::str_le;
use cli_options::strings::str_lt;
use cli_options::strings::str_starts_with;

#[test]
fn test_str_lt_orders_lexicographically() {
    assert!(str_lt("apple", "banana"));
    assert!(str_lt("ap", "apple"));
    assert!(!str_lt("apple", "apple"));
    assert!(!str_lt("banana", "apple"));
    assert!(str_lt("", "a"));
    assert!(!str_lt("a", ""));
}

#[test]
fn test_str_le_and_eq() {
    assert!(str_le("apple", "apple"));
    assert!(str_le("apple", "banana"));
    assert!(!str_le("banana", "apple"));
    assert!(str_eq("apple", "apple"));
    assert!(!str_eq("apple", "appl"));
    assert!(str_eq("", ""));
}

#[test]
fn test_str_starts_with_prefixes() {
    assert!(str_starts_with("--apple", "--ap"));
    assert!(str_starts_with("--apple", "--apple"));
    assert!(!str_starts_with("--ap", "--apple"));
    assert!(str_starts_with("anything", ""));
    assert!(!str_starts_with("", "a"));
}

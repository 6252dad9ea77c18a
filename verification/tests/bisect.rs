use cli_options::search::bisect_search_str_key;

fn keys(names: &[&str]) -> Vec<String> {
    let mut v: Vec<String> = Vec::new();
    for n in names {
        v.push(String::from(*n));
    }
    v
}

#[test]
fn test_bisect_search_str_key_exact_match() {
    let list = keys(&["apple", "banana", "cherry", "date", "fig"]);

    assert_eq!(bisect_search_str_key(&list, "banana", false), 1);
    assert_eq!(bisect_search_str_key(&list, "cherry", true), 2);
}

#[test]
fn test_bisect_search_str_key_no_match() {
    let list = keys(&["apple", "banana", "cherry", "date", "fig"]);

    assert_eq!(bisect_search_str_key(&list, "grape", false), -1);
    assert_eq!(bisect_search_str_key(&list, "apricot", true), -1);
}

#[test]
fn test_bisect_search_str_key_partial_match() {
    let list = keys(&["apple", "apricot", "banana", "cherry", "date", "fig"]);

    assert_eq!(bisect_search_str_key(&list, "ap", false), 0);
    assert_eq!(bisect_search_str_key(&list, "ap", true), 1);
}

#[test]
fn test_bisect_search_str_key_empty_list() {
    let list: Vec<String> = Vec::new();

    assert_eq!(bisect_search_str_key(&list, "apple", false), -1);
}

#[test]
fn test_bisect_search_str_key_single_element_match() {
    let list = keys(&["apple"]);

    assert_eq!(bisect_search_str_key(&list, "apple", false), 0);
    assert_eq!(bisect_search_str_key(&list, "apple", true), 0);
}

#[test]
fn test_bisect_search_str_key_single_element_no_match() {
    let list = keys(&["apple"]);

    assert_eq!(bisect_search_str_key(&list, "banana", false), -1);
}

#[test]
fn test_bisect_search_str_key_duplicates() {
    let list = keys(&["apple", "banana", "banana", "banana", "cherry"]);

    assert_eq!(bisect_search_str_key(&list, "banana", false), 1);
    assert_eq!(bisect_search_str_key(&list, "banana", true), 3);
}

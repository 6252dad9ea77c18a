use cli_options::index::OptionIndex;
use cli_options::index::Parser;

#[test]
fn test_search_options_single_option() {
    let mut command = OptionIndex::new();
    command
        .add_option("-a", "--apple", "Description for Apple option")
        .unwrap();
    command
        .add_option("-ap", "--apricot", "Description for Apple option")
        .unwrap();
    command.sort();
    let result = command.search_options("--appl");

    assert_eq!(result, vec!["--apple"]);
}

#[test]
fn test_search_options_multiple_options() {
    let mut command = OptionIndex::new();
    command
        .add_option("-a", "--ab", "Description for Apple option")
        .unwrap();
    command
        .add_option("-acd", "--acde", "Description for Apple option")
        .unwrap();
    command
        .add_option("-ad", "--ade", "Description for Apple option")
        .unwrap();
    command
        .add_option("-ab", "--abc", "Description for Apple option")
        .unwrap();
    command.sort();
    let result = command.search_options("--ab");

    assert_eq!(result, vec!["--ab", "--abc"]);
}

#[test]
fn test_search_options_option_not_found() {
    let mut command = OptionIndex::new();
    command
        .add_option("-a", "--apple", "Description for Apple option")
        .unwrap();
    command
        .add_option("-ab", "--applicable", "Description for Apple option")
        .unwrap();
    command.sort();
    let result = command.search_options("--na");

    assert!(result.is_empty());
}

#[test]
fn parser_test_search_options_single_option() {
    let mut command = OptionIndex::new();
    command
        .add_option("-a", "--apple", "Description for Apple option")
        .unwrap();
    command
        .add_option("-ap", "--apricot", "Description for Apple option")
        .unwrap();
    command.sort();
    let result = command.search_options("--appl");

    assert_eq!(result, vec!["--apple"]);
}

#[test]
fn parser_test_search_options_multiple_options() {
    let mut command = OptionIndex::new();
    command
        .add_option("-a", "--ab", "Description for Apple option")
        .unwrap();
    command
        .add_option("-acd", "--acde", "Description for Apple option")
        .unwrap();
    command
        .add_option("-ad", "--ade", "Description for Apple option")
        .unwrap();
    command
        .add_option("-ab", "--abc", "Description for Apple option")
        .unwrap();
    command.sort();
    let result = command.search_options("--ab");

    assert_eq!(result, vec!["--ab", "--abc"]);
}

#[test]
fn parser_test_search_options_option_not_found() {
    let mut command = OptionIndex::new();
    command
        .add_option("-a", "--apple", "Description for Apple option")
        .unwrap();
    command
        .add_option("-ab", "--applicable", "Description for Apple option")
        .unwrap();
    command.sort();
    let result = command.search_options("--na");

    assert!(result.is_empty());
}

#[test]
fn test_search_options_prefix_range() {
    let mut command = OptionIndex::new();
    command.add_option("-a", "--apple", "a").unwrap();
    command.add_option("-ap", "--apricot", "b").unwrap();
    command.sort();
    let result = command.search_options("--ap");

    assert_eq!(result, vec!["--apple", "--apricot"]);
}

#[test]
fn test_search_options_short_flags() {
    let mut command = OptionIndex::new();
    command.add_option("-a", "--apple", "a").unwrap();
    command.add_option("-b", "--banana", "b").unwrap();
    command.sort();

    assert_eq!(command.search_options("-a"), vec!["--apple"]);
    assert_eq!(command.search_options("-b"), vec!["--banana"]);
    assert_eq!(command.search_options("-c"), Vec::<String>::new());
}

#[test]
fn test_search_options_empty_index() {
    let mut command = OptionIndex::new();
    command.sort();

    assert!(command.search_options("--apple").is_empty());
    assert!(command.search_options("-a").is_empty());
    assert!(command.search_options("apple").is_empty());
    assert!(command.search_options("").is_empty());
}

#[test]
fn test_search_options_query_without_dash() {
    let mut command = OptionIndex::new();
    command.add_option("-a", "--apple", "a").unwrap();
    command.sort();

    assert!(command.search_options("apple").is_empty());
    assert!(command.search_options("").is_empty());
}

#[test]
fn test_search_options_exact_query_matches_extensions() {
    let mut command = OptionIndex::new();
    command.add_option("-a", "--ab", "a").unwrap();
    command.add_option("-ab", "--abc", "b").unwrap();
    command.sort();
    let result = command.search_options("--ab");

    assert_eq!(result, vec!["--ab", "--abc"]);
}

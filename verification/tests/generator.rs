use cli_options::flagset::FlagSet;
use cli_options::generate::generate_short;
use cli_options::generate::GenError;
use cli_options::index::OptionIndex;

#[test]
fn test_gen_short_no_conflict() {
    let lookup_table = FlagSet::new();
    let short = generate_short("apple", &lookup_table);

    assert_eq!(short, Ok(String::from("-a")));
}

#[test]
fn test_gen_short_with_conflicts() {
    let mut lookup_table = FlagSet::new();
    lookup_table.insert("-a");
    lookup_table.insert("-ap");
    let short = generate_short("apple", &lookup_table);

    assert_eq!(short, Ok(String::from("-app")));
}

#[test]
fn test_gen_short_empty_option() {
    let lookup_table = FlagSet::new();
    let short = generate_short("", &lookup_table);

    assert_eq!(short, Err(GenError::EmptyName));
}

#[test]
fn test_gen_short_second_gen() {
    let mut lookup_table = FlagSet::new();
    lookup_table.insert("-a");
    lookup_table.insert("-ap");
    lookup_table.insert("-app");
    lookup_table.insert("-appl");
    lookup_table.insert("-apple");

    let short = generate_short("apple", &lookup_table);

    assert_eq!(short, Ok(String::from("-ape")));
}

#[test]
fn test_gen_short_max_exhaustive() {
    let mut lookup_table = FlagSet::new();
    lookup_table.insert("-a");
    lookup_table.insert("-ap");
    lookup_table.insert("-app");
    lookup_table.insert("-appl");
    lookup_table.insert("-apple");
    lookup_table.insert("-ape");
    let short = generate_short("apple", &lookup_table);

    assert_eq!(short, Err(GenError::Exhausted));
}

#[test]
fn test_gen_short_reads_only() {
    let lookup_table = FlagSet::new();
    let first = generate_short("apple", &lookup_table);
    let second = generate_short("apple", &lookup_table);

    assert_eq!(first, Ok(String::from("-a")));
    assert_eq!(second, Ok(String::from("-a")));
    assert!(!lookup_table.contains("-a"));
}

#[test]
fn test_gen_long() {
    let mut command = OptionIndex::new();
    command.create_option("apple", "d").unwrap();

    assert_eq!(command.options()[0].long, "--apple");
}

#[test]
fn test_flag_set_contains() {
    let mut set = FlagSet::new();
    assert!(!set.contains("-a"));
    set.insert("-a");
    assert!(set.contains("-a"));
    assert!(!set.contains("-ab"));
    set.insert("-ab");
    assert!(set.contains("-a"));
    assert!(set.contains("-ab"));
}

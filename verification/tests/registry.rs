use cli_options::index::OptionIndex;
use cli_options::index::Parser;
use cli_options::index::RegisterError;
use cli_options::record::CommandOptionKwargsBuilder;
use cli_options::record::CommandOptionType;

#[test]
fn test_add_unique_option() {
    let mut command = OptionIndex::new();
    command
        .add_option("-a", "--apple", "Description for Apple option")
        .unwrap();

    assert_eq!(command.options().len(), 1);
    assert_eq!(command.options()[0].short, "-a");
    assert_eq!(command.options()[0].long, "--apple");
    assert_eq!(command.options()[0].description, "Description for Apple option");
    assert!(command.options()[0].kwargs.is_none());
}

#[test]
fn command_test_add_unique_option() {
    let mut command = OptionIndex::new();
    let kwargs = CommandOptionKwargsBuilder::new().set_deprecated().build();
    command
        .add_option_kwargs("-a", "--apple", "Description for Apple option", kwargs)
        .unwrap();

    assert_eq!(command.options().len(), 1);
    assert_eq!(command.options()[0].short, "-a");
    assert_eq!(command.options()[0].long, "--apple");
    assert_eq!(command.options()[0].description, "Description for Apple option");
    let stored = command.options()[0].kwargs.as_ref().unwrap();
    assert!(stored.deprecated);
    assert!(!stored.required);
}

#[test]
fn test_add_option_conflicting_short_errs() {
    let mut command = OptionIndex::new();
    command.add_option("-a", "--apple", "mock").unwrap();
    let r = command.add_option("-a", "--apricot", "mock");

    assert_eq!(r, Err(RegisterError::DuplicateFlag));
    assert_eq!(command.options().len(), 1);
    assert!(!command.lookup().contains("--apricot"));
}

#[test]
fn test_add_option_conflicting_long_errs() {
    let mut command = OptionIndex::new();
    command.add_option("-a", "--apple", "mock").unwrap();
    let r = command.add_option("-ab", "--apple", "mock");

    assert_eq!(r, Err(RegisterError::DuplicateFlag));
    assert_eq!(command.options().len(), 1);
    assert!(!command.lookup().contains("-ab"));
}

#[test]
fn test_add_option_kwargs_conflicting_errs() {
    let mut command = OptionIndex::new();
    let kwargs = CommandOptionKwargsBuilder::new().set_deprecated().build();
    command
        .add_option_kwargs("-a", "--apple", "mock", kwargs)
        .unwrap();
    let again = CommandOptionKwargsBuilder::new().set_deprecated().build();
    let r = command.add_option_kwargs("-a", "--apricot", "mock", again);

    assert_eq!(r, Err(RegisterError::DuplicateFlag));
    assert_eq!(command.options().len(), 1);
}

#[test]
fn test_create_option_generates_flags() {
    let mut command = OptionIndex::new();
    command.create_option("apple", "d").unwrap();
    command.create_option("apricot", "d").unwrap();

    assert_eq!(command.options()[0].short, "-a");
    assert_eq!(command.options()[0].long, "--apple");
    assert_eq!(command.options()[1].short, "-ap");
    assert_eq!(command.options()[1].long, "--apricot");
    assert!(command.lookup().contains("-a"));
    assert!(command.lookup().contains("--apple"));
    assert!(command.lookup().contains("-ap"));
    assert!(command.lookup().contains("--apricot"));
}

#[test]
fn test_create_option_empty_name_errs() {
    let mut command = OptionIndex::new();
    let r = command.create_option("", "d");

    assert_eq!(r, Err(RegisterError::EmptyName));
    assert!(command.options().is_empty());
}

#[test]
fn test_create_option_duplicate_long_errs() {
    let mut command = OptionIndex::new();
    command.add_option("-x", "--apple", "d").unwrap();
    let r = command.create_option("apple", "d");

    assert_eq!(r, Err(RegisterError::DuplicateFlag));
    assert_eq!(command.options().len(), 1);
}

#[test]
fn test_create_option_exhausted_errs() {
    let mut command = OptionIndex::new();
    command.add_option("-a", "--one", "d").unwrap();
    command.add_option("-ab", "--two", "d").unwrap();
    let r = command.create_option("ab", "d");

    assert_eq!(r, Err(RegisterError::ShortFlagExhausted));
    assert_eq!(command.options().len(), 2);
    assert!(!command.lookup().contains("--ab"));
}

#[test]
fn test_create_option_kwargs_stores_extras() {
    let mut command = OptionIndex::new();
    let kwargs = CommandOptionKwargsBuilder::new().set_required().set_nargs(2).build();
    command.create_option_kwargs("verbose", "noise", kwargs).unwrap();

    assert_eq!(command.options()[0].short, "-v");
    assert_eq!(command.options()[0].long, "--verbose");
    let stored = command.options()[0].kwargs.as_ref().unwrap();
    assert!(stored.required);
    assert_eq!(stored.nargs, Some(2));
}

#[test]
fn test_sort_orders_by_long_flag() {
    let mut command = OptionIndex::new();
    command.add_option("-c", "--cherry", "d").unwrap();
    command.add_option("-a", "--apple", "d").unwrap();
    command.add_option("-b", "--banana", "d").unwrap();
    command.sort();

    let longs: Vec<&str> = command.options().iter().map(|o| o.long.as_str()).collect();
    assert_eq!(longs, vec!["--apple", "--banana", "--cherry"]);
    for pair in command.options().windows(2) {
        assert!(pair[0].long <= pair[1].long);
    }
}

#[test]
fn test_sort_is_idempotent() {
    let mut command = OptionIndex::new();
    command.add_option("-b", "--banana", "d").unwrap();
    command.add_option("-a", "--apple", "d").unwrap();
    command.sort();
    command.sort();

    assert_eq!(command.options()[0].long, "--apple");
    assert_eq!(command.options()[1].long, "--banana");
}

#[test]
fn test_kwargs_builder_appends_default_to_choices() {
    let choices = vec![
        CommandOptionType::Text(String::from("re")),
        CommandOptionType::File(String::from("a.txt")),
    ];
    let kwargs = CommandOptionKwargsBuilder::new()
        .set_default(CommandOptionType::Int(34))
        .set_choices(choices)
        .set_flag(true)
        .set_confirmation("really?")
        .build();

    assert!(matches!(kwargs.default, Some(CommandOptionType::Int(34))));
    let stored = kwargs.choices.unwrap();
    assert_eq!(stored.len(), 3);
    assert!(matches!(stored[2], CommandOptionType::Int(34)));
    assert_eq!(kwargs.flag, Some(true));
    assert_eq!(kwargs.confirmation.as_deref(), Some("really?"));
}

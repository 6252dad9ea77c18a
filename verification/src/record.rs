//! Option records and their optional metadata payload.
//!
//! A record pairs a short flag with a long flag and a description, plus an
//! optional bundle of extras (deprecation, arity, default value, allowed
//! choices). Records are built once and never changed after insertion into
//! an index; all rules about their flags live in the index itself.
use vstd::prelude::*;

verus! {

/// The value a command-line option can carry.
#[derive(Debug)]
pub enum CommandOptionType {
    Text(String),
    File(String),
    Int(i32),
}

impl Clone for CommandOptionType {
    /// A clone carries the same value.
    fn clone(&self) -> (res: Self)
        ensures
            res == self,
    {
        match self {
            CommandOptionType::Text(s) => CommandOptionType::Text(s.clone()),
            CommandOptionType::File(s) => CommandOptionType::File(s.clone()),
            CommandOptionType::Int(v) => CommandOptionType::Int(*v),
        }
    }
}

/// Extra configuration for a command-line option: whether it is
/// deprecated or required, how many arguments it takes, a default value,
/// the set of allowed values, and a confirmation prompt.
#[derive(Debug)]
pub struct CommandOptionKwargs {
    pub deprecated: bool,
    pub required: bool,
    pub nargs: Option<usize>,
    pub default: Option<CommandOptionType>,
    pub flag: Option<bool>,
    pub choices: Option<Vec<CommandOptionType>>,
    pub confirmation: Option<String>,
}

/// A builder for `CommandOptionKwargs`. Each step consumes the builder and
/// hands back one with the field set.
pub struct CommandOptionKwargsBuilder {
    pub deprecated: bool,
    pub required: bool,
    pub nargs: Option<usize>,
    pub default: Option<CommandOptionType>,
    pub flag: Option<bool>,
    pub choices: Option<Vec<CommandOptionType>>,
    pub confirmation: Option<String>,
}

impl CommandOptionKwargsBuilder {
    /// A builder with nothing set.
    pub fn new() -> (r: Self)
        ensures
            !r.deprecated,
            !r.required,
            r.nargs is None,
            r.default is None,
            r.flag is None,
            r.choices is None,
            r.confirmation is None,
    {
        CommandOptionKwargsBuilder {
            deprecated: false,
            required: false,
            nargs: None,
            default: None,
            flag: None,
            choices: None,
            confirmation: None,
        }
    }

    /// Marks the option deprecated.
    pub fn set_deprecated(self) -> (r: Self)
        ensures
            r == (Self { deprecated: true, ..self }),
    {
        Self { deprecated: true, ..self }
    }

    /// Marks the option required.
    pub fn set_required(self) -> (r: Self)
        ensures
            r == (Self { required: true, ..self }),
    {
        Self { required: true, ..self }
    }

    /// Sets how many arguments the option takes.
    pub fn set_nargs(self, nargs: usize) -> (r: Self)
        ensures
            r == (Self { nargs: Some(nargs), ..self }),
    {
        Self { nargs: Some(nargs), ..self }
    }

    /// Provides a default value.
    pub fn set_default(self, default: CommandOptionType) -> (r: Self)
        ensures
            r == (Self { default: Some(default), ..self }),
    {
        Self { default: Some(default), ..self }
    }

    /// Marks the option as a boolean flag.
    pub fn set_flag(self, flag: bool) -> (r: Self)
        ensures
            r == (Self { flag: Some(flag), ..self }),
    {
        Self { flag: Some(flag), ..self }
    }

    /// Sets the allowed values. A default already set must be allowed, so
    /// it is appended to the choices.
    pub fn set_choices(self, choices: Vec<CommandOptionType>) -> (r: Self)
        ensures
            r.deprecated == self.deprecated,
            r.required == self.required,
            r.nargs == self.nargs,
            r.default == self.default,
            r.flag == self.flag,
            r.confirmation == self.confirmation,
            match self.default {
                Some(d) => r.choices matches Some(c) && c@ == choices@.push(d),
                None => r.choices matches Some(c) && c@ == choices@,
            },
    {
        let mut choices = choices;
        match &self.default {
            Some(d) => {
                let dup = d.clone();
                choices.push(dup);
            },
            None => {},
        }
        Self { choices: Some(choices), ..self }
    }

    /// Requires a confirmation prompt before the option takes effect.
    pub fn set_confirmation(self, confirmation: &str) -> (r: Self)
        ensures
            r.deprecated == self.deprecated,
            r.required == self.required,
            r.nargs == self.nargs,
            r.default == self.default,
            r.flag == self.flag,
            r.choices == self.choices,
            r.confirmation matches Some(c) && c@ == confirmation@,
    {
        Self { confirmation: Some(confirmation.to_owned()), ..self }
    }

    /// The finished bundle, carrying exactly what was set.
    pub fn build(self) -> (r: CommandOptionKwargs)
        ensures
            r.deprecated == self.deprecated,
            r.required == self.required,
            r.nargs == self.nargs,
            r.default == self.default,
            r.flag == self.flag,
            r.choices == self.choices,
            r.confirmation == self.confirmation,
    {
        CommandOptionKwargs {
            deprecated: self.deprecated,
            required: self.required,
            nargs: self.nargs,
            default: self.default,
            flag: self.flag,
            choices: self.choices,
            confirmation: self.confirmation,
        }
    }
}

/// One registered command-line option: its single-dash short flag, its
/// double-dash long flag, a description, and optional extras.
#[derive(Debug)]
pub struct CommandOption {
    pub short: String,
    pub long: String,
    pub description: String,
    pub kwargs: Option<CommandOptionKwargs>,
}

} // verus!

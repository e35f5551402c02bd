//! What to search for, where, and how: the configuration of one search,
//! made from the words of a command line.

use vstd::prelude::*;

verus! {

/// The environment variable that switches a search to ignoring case. That it
/// is set counts; its value does not.
pub const CASE_INSENSITIVE: &'static str = "CASE_INSENSITIVE";

/// One of the two arguments that a command line must give.
#[derive(Debug, Clone, Copy, PartialEq, Eq)]
pub enum Argument {
    /// The text to search for: the first word behind the program's name.
    Query,
    /// The name of the file to search: the second word behind the program's
    /// name.
    Filename,
}

/// Why no configuration could be made.
#[derive(Debug, Clone, Copy, PartialEq, Eq)]
pub enum ConfigError {
    /// The command line does not give this argument, or gives it empty.
    MissingArgument(Argument),
}

/// One search: the query, the file to read and whether case counts.
#[derive(Debug)]
pub struct Config {
    pub query: String,
    pub filename: String,
    pub case_sensitive: bool,
}

/// A [`Config`] as plain values.
pub struct ConfigView {
    pub query: Seq<char>,
    pub filename: Seq<char>,
    pub case_sensitive: bool,
}

impl View for Config {
    type V = ConfigView;

    open spec fn view(&self) -> ConfigView {
        ConfigView {
            query: self.query@,
            filename: self.filename@,
            case_sensitive: self.case_sensitive,
        }
    }
}

impl ConfigView {
    /// A configuration names a query and a file: neither is empty.
    pub open spec fn well_formed(self) -> bool {
        self.query.len() > 0 && self.filename.len() > 0
    }
}

/// The configuration that a command line stands for. `args[0]` is the
/// program's name and is passed over; `args[1]` is the query and `args[2]`
/// the file name. Where one of the two is absent or empty, the first such is
/// the missing argument. Further words are ignored. Case counts unless the
/// override is set.
pub open spec fn configured(args: Seq<Seq<char>>, override_set: bool) -> Result<
    ConfigView,
    ConfigError,
> {
    if args.len() < 2 || args[1].len() == 0 {
        Err(ConfigError::MissingArgument(Argument::Query))
    } else if args.len() < 3 || args[2].len() == 0 {
        Err(ConfigError::MissingArgument(Argument::Filename))
    } else {
        Ok(ConfigView { query: args[1], filename: args[2], case_sensitive: !override_set })
    }
}

impl Config {
    /// Whether this configuration names a query and a file.
    pub open spec fn well_formed(&self) -> bool {
        self@.well_formed()
    }

    /// Makes the configuration from the words of the command line, the
    /// program's name first, and from whether the variable
    /// [`CASE_INSENSITIVE`] is set in the environment.
    pub fn new(args: &[String], override_set: bool) -> (result: Result<Config, ConfigError>)
        ensures
            match result {
                Ok(config) => configured(args.deep_view(), override_set) == Ok::<
                    ConfigView,
                    ConfigError,
                >(config@) && config.well_formed(),
                Err(error) => configured(args.deep_view(), override_set) == Err::<
                    ConfigView,
                    ConfigError,
                >(error),
            },
    {
        if args.len() < 2 || args[1].as_str().is_empty() {
            return Err(ConfigError::MissingArgument(Argument::Query));
        }
        if args.len() < 3 || args[2].as_str().is_empty() {
            return Err(ConfigError::MissingArgument(Argument::Filename));
        }
        Ok(
            Config {
                query: args[1].clone(),
                filename: args[2].clone(),
                case_sensitive: !override_set,
            },
        )
    }
}

impl ConfigError {
    /// The error in words, for the user of the program.
    pub fn message(&self) -> (words: &'static str)
        ensures
            words@ == match *self {
                ConfigError::MissingArgument(Argument::Query) => "Didn't get a query string"@,
                ConfigError::MissingArgument(Argument::Filename) => "Didn't get a filename string"@,
            },
    {
        match self {
            ConfigError::MissingArgument(Argument::Query) => "Didn't get a query string",
            ConfigError::MissingArgument(Argument::Filename) => "Didn't get a filename string",
        }
    }
}

} // verus!

//! The configuration of one run, resolved from a raw argument list.

use vstd::prelude::*;

verus! {

/// Why an argument list could not be resolved into a [`Config`].
#[derive(Debug, Clone, Copy, PartialEq, Eq)]
pub enum ConfigError {
    /// The list has no entry after the program name.
    MissingQuery,
    /// The list has a query but no entry after it.
    MissingFilename,
}

impl ConfigError {
    /// The diagnostic to show for this error.
    pub fn message(&self) -> (text: &'static str)
        ensures
            text@ == match *self {
                ConfigError::MissingQuery => "Didn't get a query string"@,
                ConfigError::MissingFilename => "Didn't get a filename"@,
            },
    {
        match self {
            ConfigError::MissingQuery => "Didn't get a query string",
            ConfigError::MissingFilename => "Didn't get a filename",
        }
    }
}

/// What to look for, where, and under which case policy.
#[derive(Debug)]
pub struct Config {
    /// The text sought within each line.
    pub query: String,
    /// The name of the file whose lines are searched.
    pub filename: String,
    /// Whether a line must hold the query in the case in which it is written.
    pub case_sensitive: bool,
}

impl Config {
    /// Resolves a raw argument list into a configuration.
    ///
    /// Entry 0 of `args` is the program name and is never looked at; entry 1
    /// is the query and entry 2 the file name, neither of them examined;
    /// further entries are ignored. `case_insensitive` tells whether the
    /// case-insensitivity flag is set in the environment, whatever its value:
    /// the search is case-sensitive exactly when it is not.
    pub fn new(args: &[String], case_insensitive: bool) -> (outcome: Result<Config, ConfigError>)
        ensures
            match outcome {
                Ok(config) => {
                    &&& args@.len() >= 3
                    &&& config.query@ == args@[1]@
                    &&& config.filename@ == args@[2]@
                    &&& config.case_sensitive == !case_insensitive
                },
                Err(ConfigError::MissingQuery) => args@.len() < 2,
                Err(ConfigError::MissingFilename) => args@.len() == 2,
            },
    {
        if args.len() < 2 {
            return Err(ConfigError::MissingQuery);
        }
        if args.len() < 3 {
            return Err(ConfigError::MissingFilename);
        }
        let query = args[1].clone();
        let filename = args[2].clone();
        Ok(Config { query, filename, case_sensitive: !case_insensitive })
    }
}

} // verus!

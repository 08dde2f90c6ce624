//! The configuration resolver: from plain argument and environment values
//! to a validated run configuration.

use vstd::prelude::*;

verus! {

/// Which required command-line argument was absent.
#[derive(Clone, Copy, Debug, PartialEq, Eq)]
pub enum MissingArg {
    Query,
    Filename,
}

/// Why the configuration could not be built.
#[derive(Clone, Copy, Debug, PartialEq, Eq)]
pub enum ConfigError {
    /// A required positional argument was not supplied.
    MissingArgument(MissingArg),
}

impl ConfigError {
    /// A short diagnostic for the user.
    pub fn message(&self) -> (m: String)
        ensures
            *self == ConfigError::MissingArgument(MissingArg::Query) ==> m@
                == "not enough arguments: no query string was given"@,
            *self == ConfigError::MissingArgument(MissingArg::Filename) ==> m@
                == "not enough arguments: no file name was given"@,
    {
        match self {
            ConfigError::MissingArgument(MissingArg::Query) => {
                "not enough arguments: no query string was given".to_owned()
            },
            ConfigError::MissingArgument(MissingArg::Filename) => {
                "not enough arguments: no file name was given".to_owned()
            },
        }
    }
}

/// A validated run configuration: what to look for, where, and whether the
/// search honours case.  Built once at startup and read-only afterwards.
#[derive(Clone, Debug, PartialEq, Eq)]
pub struct Config {
    pub query: String,
    pub filename: String,
    pub case_sensitive: bool,
}

impl Config {
    /// Build the configuration from the full argument list (the program
    /// name first, as the process receives it) and from the value of the
    /// case-insensitivity environment variable, `None` when it is unset.
    ///
    /// The query is the first argument after the program name and the file
    /// name the second; whichever of the two comes first to be absent is
    /// reported.  The variable's mere presence, with any value, makes the
    /// search case-insensitive; only its absence keeps case sensitivity.
    pub fn new(args: &Vec<String>, case_insensitive_var: &Option<String>) -> (r: Result<
        Config,
        ConfigError,
    >)
        ensures
            args@.len() < 2 ==> r == Err::<Config, ConfigError>(
                ConfigError::MissingArgument(MissingArg::Query),
            ),
            args@.len() == 2 ==> r == Err::<Config, ConfigError>(
                ConfigError::MissingArgument(MissingArg::Filename),
            ),
            args@.len() >= 3 ==> (r matches Ok(c) && c.query@ == args@[1]@ && c.filename@
                == args@[2]@ && (c.case_sensitive <==> case_insensitive_var is None)),
    {
        if args.len() < 2 {
            return Err(ConfigError::MissingArgument(MissingArg::Query));
        }
        if args.len() < 3 {
            return Err(ConfigError::MissingArgument(MissingArg::Filename));
        }
        let query = args[1].clone();
        let filename = args[2].clone();
        let case_sensitive = match case_insensitive_var {
            Option::None => true,
            Option::Some(_) => false,
        };
        Ok(Config { query, filename, case_sensitive })
    }
}

} // verus!

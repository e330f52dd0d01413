//! Where the store is kept: the location the user names, or the default
//! below the home directory.
use vstd::prelude::*;
use vstd::string::StringExecFns;

verus! {

/// Why no location for the store could be settled.
#[derive(Debug, Clone, Copy, PartialEq, Eq, Structural)]
pub enum ConfigError {
    /// The location that was given is empty.
    EmptyLocation,
    /// No location was given and no home directory is known.
    HomeNotFound,
}

impl ConfigError {
    /// The text of the message for this error.
    pub open spec fn message_text(self) -> Seq<char> {
        match self {
            ConfigError::EmptyLocation => "the database location is empty"@,
            ConfigError::HomeNotFound => "no database location given and no home directory found"@,
        }
    }

    /// A message for the user.
    pub fn message(&self) -> (text: String)
        ensures
            text@ == self.message_text(),
    {
        match self {
            ConfigError::EmptyLocation => "the database location is empty".to_owned(),
            ConfigError::HomeNotFound => "no database location given and no home directory found".to_owned(),
        }
    }
}

/// The settled configuration.
#[derive(Debug)]
pub struct Config {
    /// The location of the store.
    pub dbpath: String,
}

/// The default location of the store below the home directory `home`.
pub open spec fn default_location(home: Seq<char>) -> Seq<char> {
    home + "/.frecency.db"@
}

/// The location that `db_file` and `home_dir` settle on: the location given,
/// else the default below the home directory.
pub open spec fn settled_location(db_file: Option<Seq<char>>, home_dir: Option<Seq<char>>) -> Result<
    Seq<char>,
    ConfigError,
> {
    match db_file {
        Some(location) => if location.len() == 0 {
            Err(ConfigError::EmptyLocation)
        } else {
            Ok(location)
        },
        None => match home_dir {
            Some(home) => if home.len() == 0 {
                Err(ConfigError::HomeNotFound)
            } else {
                Ok(default_location(home))
            },
            None => Err(ConfigError::HomeNotFound),
        },
    }
}

/// The view of an optional string.
pub open spec fn text_of(text: Option<String>) -> Option<Seq<char>> {
    match text {
        Some(s) => Some(s@),
        None => None,
    }
}

impl Config {
    /// Settles the location of the store. A location that the user gave wins,
    /// unless it is empty; without one the store lies below the home
    /// directory, which must then be known and not empty.
    pub fn new(db_file: Option<String>, home_dir: Option<String>) -> (result: Result<
        Config,
        ConfigError,
    >)
        ensures
            match result {
                Ok(config) => settled_location(text_of(db_file), text_of(home_dir)) == Ok::<
                    Seq<char>,
                    ConfigError,
                >(config.dbpath@),
                Err(e) => settled_location(text_of(db_file), text_of(home_dir)) == Err::<
                    Seq<char>,
                    ConfigError,
                >(e),
            },
    {
        match db_file {
            Some(location) => {
                if location.as_str().is_empty() {
                    Err(ConfigError::EmptyLocation)
                } else {
                    Ok(Config { dbpath: location })
                }
            },
            None => match home_dir {
                Some(home) => {
                    if home.as_str().is_empty() {
                        Err(ConfigError::HomeNotFound)
                    } else {
                        Ok(Config { dbpath: home.concat("/.frecency.db") })
                    }
                },
                None => Err(ConfigError::HomeNotFound),
            },
        }
    }
}

} // verus!

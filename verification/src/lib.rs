//! Frecency ranking of visited filesystem paths.
//!
//! A path's rank blends how often it was visited with how recently. The
//! library keeps the table of visited paths, updates it on every visit, and
//! lists the paths in ranking order.
use vstd::prelude::*;
use vstd::std_specs::convert::FromSpecImpl;
use crate::config::ConfigError;
use crate::store::FrecencyError;

pub mod clock;
pub mod cmd;
pub mod config;
pub mod image;
pub mod listing;
pub mod order;
pub mod rank;
pub mod score;
pub mod store;

verus! {

/// The error type of `std::io`, carried through as it came.
#[verifier::external_type_specification]
#[verifier::external_body]
pub struct ExIoError(std::io::Error);

/// Why a command failed.
#[derive(Debug)]
pub enum CmdError {
    /// The store failed.
    FrecencyError(FrecencyError),
    /// No location for the store could be settled.
    ConfigError(ConfigError),
    /// Reading or writing failed.
    IOError(std::io::Error),
}

impl From<FrecencyError> for CmdError {
    fn from(e: FrecencyError) -> (err: CmdError) {
        CmdError::FrecencyError(e)
    }
}

impl FromSpecImpl<FrecencyError> for CmdError {
    open spec fn obeys_from_spec() -> bool {
        true
    }

    open spec fn from_spec(e: FrecencyError) -> CmdError {
        CmdError::FrecencyError(e)
    }
}

impl From<ConfigError> for CmdError {
    fn from(e: ConfigError) -> (err: CmdError) {
        CmdError::ConfigError(e)
    }
}

impl FromSpecImpl<ConfigError> for CmdError {
    open spec fn obeys_from_spec() -> bool {
        true
    }

    open spec fn from_spec(e: ConfigError) -> CmdError {
        CmdError::ConfigError(e)
    }
}

impl From<std::io::Error> for CmdError {
    fn from(e: std::io::Error) -> (err: CmdError) {
        CmdError::IOError(e)
    }
}

impl FromSpecImpl<std::io::Error> for CmdError {
    open spec fn obeys_from_spec() -> bool {
        true
    }

    open spec fn from_spec(e: std::io::Error) -> CmdError {
        CmdError::IOError(e)
    }
}

} // verus!

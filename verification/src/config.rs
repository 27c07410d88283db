//! The two settings of a run, the number of peers and the peer at which
//! the token starts, and how they are read from a program's arguments.

use vstd::prelude::*;

verus! {

/// The error type of `str::parse` for integers, carried through unread.
#[verifier::external_type_specification]
#[verifier::external_body]
pub struct ExParseIntError(core::num::ParseIntError);

/// The number that `str::parse::<usize>` reads from a text, or `None` where
/// it reads none (no digits, a sign or another character among them, or a
/// value that `usize` cannot hold).
pub uninterp spec fn parsed_index(text: Seq<char>) -> Option<usize>;

/// Calls `str::parse::<usize>`. The contract only gives the outcome its
/// name: the value read where the call succeeds, `None` where it fails.
#[verifier::external_body]
fn parse_index(text: &str) -> (parsed: Result<usize, core::num::ParseIntError>)
    ensures
        match parsed {
            Ok(value) => parsed_index(text@) == Some(value),
            Err(_) => parsed_index(text@) is None,
        },
{
    text.parse::<usize>()
}

/// Why a run cannot be set up.
#[derive(Clone, Copy, Debug, PartialEq, Eq, Structural)]
pub enum ConfigError {
    /// There are not exactly two arguments after the program's name.
    WrongArgumentCount,
    /// The number of peers is not a number.
    InvalidServerCount,
    /// The starting index is not a number.
    InvalidStartIndex,
    /// The starting index is not below the number of peers, which is
    /// `num_servers`.
    StartOutOfRange { num_servers: usize },
}

/// The settings of a run: `start_server` is below `num_servers`.
#[derive(Clone, Copy, Debug, PartialEq, Eq, Structural)]
pub struct Config {
    pub num_servers: usize,
    pub start_server: usize,
}

/// The settings made of two numbers: accepted exactly where the starting
/// index is below the number of peers.
pub open spec fn checked(num_servers: usize, start_server: usize) -> Result<Config, ConfigError> {
    if start_server >= num_servers {
        Err(ConfigError::StartOutOfRange { num_servers })
    } else {
        Ok(Config { num_servers, start_server })
    }
}

/// The settings that a program's arguments give: the program's name, the
/// number of peers and the starting index, in this order and nothing else.
pub open spec fn configured(args: Seq<String>) -> Result<Config, ConfigError> {
    if args.len() != 3 {
        Err(ConfigError::WrongArgumentCount)
    } else {
        match parsed_index(args[1]@) {
            None => Err(ConfigError::InvalidServerCount),
            Some(num_servers) => match parsed_index(args[2]@) {
                None => Err(ConfigError::InvalidStartIndex),
                Some(start_server) => checked(num_servers, start_server),
            },
        }
    }
}

impl Config {
    /// Settings for `num_servers` peers with the token starting at
    /// `start_server`, refused where that index names no peer.
    pub fn new(num_servers: usize, start_server: usize) -> (out: Result<Config, ConfigError>)
        ensures
            out == checked(num_servers, start_server),
            out is Ok <==> start_server < num_servers,
    {
        if start_server >= num_servers {
            Err(ConfigError::StartOutOfRange { num_servers })
        } else {
            Ok(Config { num_servers, start_server })
        }
    }

    /// Reads the settings from a program's arguments.
    pub fn from_arguments(args: &Vec<String>) -> (out: Result<Config, ConfigError>)
        ensures
            out == configured(args@),
            args@.len() != 3 ==> out == Err::<Config, ConfigError>(ConfigError::WrongArgumentCount),
            out is Ok ==> out->Ok_0.start_server < out->Ok_0.num_servers,
    {
        if args.len() != 3 {
            return Err(ConfigError::WrongArgumentCount);
        }
        let num_servers: usize = match parse_index(args[1].as_str()) {
            Ok(value) => value,
            Err(_) => {
                return Err(ConfigError::InvalidServerCount);
            },
        };
        let start_server: usize = match parse_index(args[2].as_str()) {
            Ok(value) => value,
            Err(_) => {
                return Err(ConfigError::InvalidStartIndex);
            },
        };
        Config::new(num_servers, start_server)
    }
}

} // verus!

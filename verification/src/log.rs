//! Which messages are worth logging.

use vstd::prelude::*;
use vstd::string::*;

verus! {

pub const LOG_DEBUG: u8 = 4;

pub const LOG_INFO: u8 = 3;

pub const LOG_WARN: u8 = 2;

pub const LOG_ERROR: u8 = 1;

/// How much is logged.
pub struct LogConfig {
    level: u8,
}

impl View for LogConfig {
    type V = u8;

    closed spec fn view(&self) -> u8 {
        self.level
    }
}

/// The levels there are.
pub open spec fn valid_level(ll: u8) -> bool {
    LOG_ERROR <= ll <= LOG_DEBUG
}

impl LogConfig {
    /// Everything is logged, until the level is set.
    pub fn new() -> (r: LogConfig)
        ensures
            r@ == LOG_DEBUG,
    {
        LogConfig { level: LOG_DEBUG }
    }
}

/// Sets the log level.  A level that does not exist is refused, and the level stays what it was.
pub fn set_loglevel(config: &mut LogConfig, ll: u8) -> (r: Result<(), String>)
    ensures
        r is Ok <==> valid_level(ll),
        r is Ok ==> final(config)@ == ll,
        r matches Err(message) ==> message@ == "Invalid log level"@ && final(config)@ == old(
            config,
        )@,
{
    if LOG_ERROR <= ll && ll <= LOG_DEBUG {
        config.level = ll;
        Ok(())
    } else {
        Err("Invalid log level".to_owned())
    }
}

/// The log level.
pub fn get_loglevel(config: &LogConfig) -> (r: u8)
    ensures
        r == config@,
{
    config.level
}

/// Is a message of the given level logged?
pub fn is_logged(config: &LogConfig, level: u8) -> (r: bool)
    ensures
        r == (config@ >= level),
{
    get_loglevel(config) >= level
}

/// There are four levels.
pub proof fn law_there_are_four_levels(ll: u8)
    ensures
        valid_level(ll) <==> ll == 1 || ll == 2 || ll == 3 || ll == 4,
{
}

} // verus!

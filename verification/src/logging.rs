//! Log levels and the rule that decides which messages pass the current
//! application level.  Writing the message out is the host's business.

use vstd::prelude::*;

verus! {

/// Severity of one log message.
#[derive(Clone, Copy, Debug, PartialEq, Eq, Structural)]
pub enum LogLevel {
    Error,
    Warn,
    Info,
}

/// The numeric code of a severity: 1 error, 2 warning, 3 information.
pub open spec fn level_value(lv: LogLevel) -> u8 {
    match lv {
        LogLevel::Error => 1,
        LogLevel::Warn => 2,
        LogLevel::Info => 3,
    }
}

/// The severity a numeric code stands for: 1 error, 2 warning, anything
/// else information.
pub open spec fn level_of_code(code: u8) -> LogLevel {
    if code == 1 {
        LogLevel::Error
    } else if code == 2 {
        LogLevel::Warn
    } else {
        LogLevel::Info
    }
}

impl From<u8> for LogLevel {
    fn from(level: u8) -> (r: Self) {
        match level {
            1 => LogLevel::Error,
            2 => LogLevel::Warn,
            _ => LogLevel::Info,
        }
    }
}

impl vstd::std_specs::convert::FromSpecImpl<u8> for LogLevel {
    open spec fn obeys_from_spec() -> bool {
        true
    }

    open spec fn from_spec(v: u8) -> Self {
        level_of_code(v)
    }
}

/// Whether a message of severity `lv` passes when the application level is
/// `current`: level 0 silences everything, and each level from 1 on admits
/// messages up to its own severity code.
pub open spec fn log_allowed_spec(current: u8, lv: LogLevel) -> bool {
    let v = level_value(lv);
    if current == 0 {
        false
    } else if current == 1 && v != 1 {
        false
    } else if current == 2 && v > 2 {
        false
    } else if current == 3 && v > 3 {
        false
    } else {
        true
    }
}

/// Decide whether a message passes the current application log level.
pub fn log_allowed(current: u8, lv: LogLevel) -> (r: bool)
    ensures
        r == log_allowed_spec(current, lv),
{
    let v: u8 = match lv {
        LogLevel::Error => 1,
        LogLevel::Warn => 2,
        LogLevel::Info => 3,
    };
    if current == 0 {
        false
    } else if current == 1 && v != 1 {
        false
    } else if current == 2 && v > 2 {
        false
    } else if current == 3 && v > 3 {
        false
    } else {
        true
    }
}

} // verus!

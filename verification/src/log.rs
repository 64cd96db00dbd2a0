//! Log levels and their console colors.

use vstd::prelude::*;

verus! {

/// A log severity level.
#[derive(Clone, Copy, Debug, PartialEq, Eq, Structural)]
pub enum Level {
    Error,
    Warn,
    Info,
    Debug,
    Trace,
}

/// The ANSI foreground color of each level.
pub open spec fn spec_level2color(level: Level) -> u8 {
    match level {
        Level::Error => 31,
        Level::Warn => 93,
        Level::Info => 34,
        Level::Debug => 32,
        Level::Trace => 90,
    }
}

/// The ANSI foreground color a message of this level is printed in:
/// red, light yellow, blue, green, dark gray.
pub fn level2color(level: Level) -> (r: u8)
    ensures
        r == spec_level2color(level),
{
    match level {
        Level::Error => 31,
        Level::Warn => 93,
        Level::Info => 34,
        Level::Debug => 32,
        Level::Trace => 90,
    }
}

} // verus!

//! What the debug libraries decide before anything is written: whether a record is
//! logged, and the line it is logged as.

use vstd::prelude::*;
use vstd::string::StringExecFns;

verus! {

/// How grave a log record is, the gravest first.
#[derive(Debug, Clone, Copy, PartialEq, Eq, Structural)]
pub enum Level {
    Error,
    Warn,
    Info,
    Debug,
    Trace,
}

impl Level {
    /// The rank of a level: the graver the level, the lower the rank.
    pub open spec fn rank(self) -> int {
        match self {
            Level::Error => 1,
            Level::Warn => 2,
            Level::Info => 3,
            Level::Debug => 4,
            Level::Trace => 5,
        }
    }
}

/// Whether the debug libraries log a record of this level: they log what is at
/// least as grave as `Debug`.
pub fn enabled(level: Level) -> (out: bool)
    ensures
        out == (level.rank() <= Level::Debug.rank()),
{
    match level {
        Level::Trace => false,
        _ => true,
    }
}

/// The line of a record: the level's name, ` - `, the message, and a line feed.
pub open spec fn line_of(level: Seq<char>, message: Seq<char>) -> Seq<char> {
    level + " - "@ + message + "\n"@
}

/// Makes the line that a record is logged as.
pub fn log_line(level: &str, message: &str) -> (out: String)
    ensures
        out@ == line_of(level@, message@),
{
    let mut out = level.to_owned();
    out.append(" - ");
    out.append(message);
    out.append("\n");
    out
}

} // verus!

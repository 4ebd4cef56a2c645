//! The ways in which reading the log or asking a commit for its hash can fail.
use vstd::prelude::*;

verus! {

/// A failure of the library, one kind per thing that went wrong.
#[derive(Debug, Clone, Copy, PartialEq, Eq, Structural)]
pub enum SmartLogError {
    /// The rows do not form a log: a row whose escapes cannot be read back as
    /// written, a message row with no commit above it, or not exactly one
    /// highlighted commit.
    UnparsableLog,
    /// The head row of the commit carries no hash color followed by a hash.
    NoIdentifier,
}

} // verus!

//! Errors of the script and message parsers.

use crate::number::NumError;
use vstd::prelude::*;

verus! {

/// Why a script or message source was rejected. Line numbers count from
/// zero.
#[derive(Debug, Clone, PartialEq, Eq)]
pub enum Error {
    /// A `.set` line gives no name.
    SetName(usize),
    /// A `.set` line gives a name and no value.
    SetVariable(usize),
    /// A label does not end in `::`, or no `@` follows it.
    ScriptName(usize),
    /// A label gives no address.
    ScriptLocation(usize),
    /// The address of a label is not a hexadecimal number of 32 bits.
    MalformedLocation(NumError, usize),
    /// A line inside a block has no first word.
    NoCommand(usize),
    /// A line inside a message has no quoted text.
    NoArguments(usize),
    /// The source ended inside a block of the named kind.
    EndOfFile(&'static str),
}

impl Error {
    /// The line that an error speaks of; `EndOfFile` speaks of none.
    pub open spec fn at_line(self) -> Option<usize> {
        match self {
            Error::SetName(line) => Some(line),
            Error::SetVariable(line) => Some(line),
            Error::ScriptName(line) => Some(line),
            Error::ScriptLocation(line) => Some(line),
            Error::MalformedLocation(_, line) => Some(line),
            Error::NoCommand(line) => Some(line),
            Error::NoArguments(line) => Some(line),
            Error::EndOfFile(_) => None,
        }
    }

    /// Executable form of [`Error::at_line`].
    pub fn line(&self) -> (line: Option<usize>)
        ensures
            line == self.at_line(),
    {
        match self {
            Error::SetName(line) => Some(*line),
            Error::SetVariable(line) => Some(*line),
            Error::ScriptName(line) => Some(*line),
            Error::ScriptLocation(line) => Some(*line),
            Error::MalformedLocation(_, line) => Some(*line),
            Error::NoCommand(line) => Some(*line),
            Error::NoArguments(line) => Some(*line),
            Error::EndOfFile(_) => None,
        }
    }
}

} // verus!

//! Trainer data: the roster source parser and its errors.

pub mod party;
pub mod roster;

use crate::number::NumError;
use vstd::prelude::*;

verus! {

/// Why a roster source was rejected. Line numbers count from zero.
#[derive(Debug, Clone, PartialEq, Eq)]
pub enum TrainerError {
    /// A field line without `=`, or without a value: the line number and
    /// the line as it stands.
    FieldParse(usize, String),
    /// A field whose braces are missing or out of order: the line number
    /// and the field.
    BracketParse(usize, &'static str),
    /// A field whose value is not a number of eight bits: the line number,
    /// the field and the reason.
    NumParse(usize, &'static str, NumError),
    /// A field of a name that is not known: the line number and the name.
    UnknownField(usize, String),
}

/// The model of a [`TrainerError`].
pub enum TrainerFault {
    FieldParse(usize, Seq<char>),
    BracketParse(usize, Seq<char>),
    NumParse(usize, Seq<char>, NumError),
    UnknownField(usize, Seq<char>),
}

impl View for TrainerError {
    type V = TrainerFault;

    open spec fn view(&self) -> TrainerFault {
        match *self {
            TrainerError::FieldParse(line, text) => TrainerFault::FieldParse(line, text@),
            TrainerError::BracketParse(line, field) => TrainerFault::BracketParse(line, field@),
            TrainerError::NumParse(line, field, why) => TrainerFault::NumParse(line, field@, why),
            TrainerError::UnknownField(line, field) => TrainerFault::UnknownField(line, field@),
        }
    }
}

} // verus!

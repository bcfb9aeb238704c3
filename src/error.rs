//! What can go wrong while reading.
use vstd::prelude::*;

verus! {

/// The first problem met in the source text; reading stops there.
#[derive(Debug, PartialEq)]
pub enum ReadError {
    /// A flush point was reached in a state that makes no atom, such as a
    /// number that ends in `.`.
    InvalidAtom,
    /// A number was followed, inside the same run, by a character that
    /// cannot continue it.
    InvalidNumber,
    /// A numeric run that is not the text of a 64-bit float; holds the run.
    NumberFormat(String),
    /// A `)` with no open list to close.
    UnmatchedClose,
    /// The input ended with lists still open.
    UnmatchedOpen,
}

/// The mathematical model of a [`ReadError`].
pub enum Fault {
    InvalidAtom,
    InvalidNumber,
    NumberFormat(Seq<char>),
    UnmatchedClose,
    UnmatchedOpen,
}

impl View for ReadError {
    type V = Fault;

    open spec fn view(&self) -> Fault {
        match self {
            ReadError::InvalidAtom => Fault::InvalidAtom,
            ReadError::InvalidNumber => Fault::InvalidNumber,
            ReadError::NumberFormat(t) => Fault::NumberFormat(t@),
            ReadError::UnmatchedClose => Fault::UnmatchedClose,
            ReadError::UnmatchedOpen => Fault::UnmatchedOpen,
        }
    }
}

impl ReadError {
    /// A one-line description of the error for people.
    pub fn message(&self) -> (r: String)
        ensures
            r@ == match self {
                ReadError::InvalidAtom => "Invalid atom"@,
                ReadError::InvalidNumber => "Invalid number"@,
                ReadError::NumberFormat(_) => "Cannot parse number"@,
                ReadError::UnmatchedClose => "Missing '('"@,
                ReadError::UnmatchedOpen => "Unmatched '('"@,
            },
    {
        match self {
            ReadError::InvalidAtom => String::from_str("Invalid atom"),
            ReadError::InvalidNumber => String::from_str("Invalid number"),
            ReadError::NumberFormat(_) => String::from_str("Cannot parse number"),
            ReadError::UnmatchedClose => String::from_str("Missing '('"),
            ReadError::UnmatchedOpen => String::from_str("Unmatched '('"),
        }
    }
}

} // verus!

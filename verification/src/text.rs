//! The wording of the errors.

use crate::algorithm::ConfigurationError;
use crate::note::NoteError;
use vstd::prelude::*;

verus! {

/// The character of a decimal digit.
pub open spec fn digit(d: nat) -> char {
    if d == 0 {
        '0'
    } else if d == 1 {
        '1'
    } else if d == 2 {
        '2'
    } else if d == 3 {
        '3'
    } else if d == 4 {
        '4'
    } else if d == 5 {
        '5'
    } else if d == 6 {
        '6'
    } else if d == 7 {
        '7'
    } else if d == 8 {
        '8'
    } else {
        '9'
    }
}

/// A number written in decimal digits, without leading zeros.
pub open spec fn decimal(number: nat) -> Seq<char>
    decreases number,
{
    if number < 10 {
        seq![digit(number)]
    } else {
        decimal(number / 10).push(digit(number % 10))
    }
}

/// Writes `number` in decimal digits between two pieces of text.
///
/// The body is one call of the standard library's `format!`, with the two
/// pieces and the number as its arguments in this order. It is taken on
/// trust that the macro writes the pieces unchanged and the number as
/// [`decimal`] states.
#[verifier::external_body]
fn text_around_number(before: &str, number: usize, after: &str) -> (text: String)
    ensures
        text@ == before@ + decimal(number as nat) + after@,
{
    format!("{}{}{}", before, number, after)
}

impl NoteError {
    /// What the error says, as a sequence of characters.
    pub open spec fn wording(self) -> Seq<char> {
        match self {
            NoteError::InvalidNoteNumber(n) => "Invalid MIDI note number: "@ + decimal(n as nat)
                + ". Must be 0-127."@,
            NoteError::InvalidVelocity(v) => "Invalid MIDI velocity: "@ + decimal(v as nat)
                + ". Must be 0-127."@,
        }
    }

    /// A sentence that names the rejected value and the range it should
    /// have been in.
    pub fn message(&self) -> (text: String)
        ensures
            text@ == self.wording(),
    {
        match self {
            NoteError::InvalidNoteNumber(n) => text_around_number(
                "Invalid MIDI note number: ",
                *n as usize,
                ". Must be 0-127.",
            ),
            NoteError::InvalidVelocity(v) => text_around_number(
                "Invalid MIDI velocity: ",
                *v as usize,
                ". Must be 0-127.",
            ),
        }
    }
}

impl ConfigurationError {
    /// What the error says, as a sequence of characters.
    pub open spec fn wording(self) -> Seq<char> {
        match self {
            ConfigurationError::NonSquareMatrix => "Adjacency matrix must be square."@,
            ConfigurationError::CarrierOutOfBounds { carrier, num_operators } => "Carrier index "@
                + decimal(carrier as nat) + " out of bounds for "@ + decimal(num_operators as nat)
                + " operators."@,
        }
    }

    /// A sentence that says what is wrong with the matrix or the carriers.
    pub fn message(&self) -> (text: String)
        ensures
            text@ == self.wording(),
    {
        match self {
            ConfigurationError::NonSquareMatrix => "Adjacency matrix must be square.".to_owned(),
            ConfigurationError::CarrierOutOfBounds { carrier, num_operators } => {
                let head = text_around_number("Carrier index ", *carrier, " out of bounds for ");
                text_around_number(head.as_str(), *num_operators, " operators.")
            },
        }
    }
}

} // verus!

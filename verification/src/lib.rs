use vstd::prelude::*;

pub mod entropy;
pub mod hint;
pub mod score;
pub mod session;
pub mod word;

verus! {

/// The error kinds that the solver's operations report.
///
/// An empty history on `undo` is not an error: `SolverSession::undo`
/// reports that benign no-op through its return value instead.
#[derive(Copy, Clone, PartialEq, Eq, Structural, Debug)]
pub enum SolverError {
    /// A word's character count differs from the configured puzzle width.
    InvalidLength,
    /// A word holds a character that is not an ASCII letter.
    InvalidCharacter,
    /// A guess and an answer (or a hint) differ in length.
    LengthMismatch,
    /// A feedback string holds a character that encodes no letter hint.
    InvalidHintSyntax,
    /// A word was looked up in a score table that does not list it.
    WordNotFound,
}

} // verus!

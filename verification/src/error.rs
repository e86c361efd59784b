//! The error type shared by the lexer and the parser.

use vstd::prelude::*;

verus! {

/// Shorthand for a result whose error is a [`TranspilerError`].
pub type TranspilerResult<T> = Result<T, TranspilerError>;

/// A diagnostic from one of the compilation phases: a human-readable
/// message and, when known, a positional index (a character offset for
/// lexical errors, a token-cursor index for parse errors).
#[derive(Debug, Clone)]
pub struct TranspilerError {
    pub message: String,
    pub position: Option<usize>,
}

impl TranspilerError {
    /// An error carrying a message and no position.
    pub fn new(message: String) -> (e: TranspilerError)
        ensures
            e.message == message,
            e.position is None,
    {
        TranspilerError { message, position: None }
    }

    /// An error carrying a message and the position it arose at.
    pub fn with_position(message: String, position: usize) -> (e: TranspilerError)
        ensures
            e.message == message,
            e.position == Some(position),
    {
        TranspilerError { message, position: Some(position) }
    }
}

} // verus!

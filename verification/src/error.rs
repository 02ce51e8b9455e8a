//! Error type of Maze Core.
//!
//! Chain-agnostic errors only. Chain-specific errors belong in their
//! respective adapter crates.

use vstd::prelude::*;
use crate::text::{decimal, push_decimal};

verus! {

/// Errors of maze generation and parameter validation.
#[derive(Debug, Clone)]
pub enum MazeError {
    /// The transfer does not cover the transaction fees.
    InsufficientFunds { required: u64, available: u64 },
    /// A parameter is out of its range.
    InvalidParameters(String),
    /// The chain adapter failed to produce an address.
    AddressGeneration(String),
    /// The caller's encryption of signing material failed.
    Encryption(String),
}

/// The human-readable text of an error.
pub open spec fn error_text(e: MazeError) -> Seq<char> {
    match e {
        MazeError::InsufficientFunds { required, available } =>
            "insufficient funds: required "@ + decimal(required as nat) + ", available "@
                + decimal(available as nat),
        MazeError::InvalidParameters(s) => "invalid parameters: "@ + s@,
        MazeError::AddressGeneration(s) => "address generation failed: "@ + s@,
        MazeError::Encryption(s) => "encryption failed: "@ + s@,
    }
}

/// Result type of Maze Core.
pub type Result<T> = core::result::Result<T, MazeError>;

impl MazeError {
    /// Renders the error as text.
    pub fn to_string(&self) -> (r: String)
        ensures
            r@ == error_text(*self),
    {
        match self {
            MazeError::InsufficientFunds { required, available } => {
                let mut s = String::from_str("insufficient funds: required ");
                push_decimal(&mut s, *required);
                s.append(", available ");
                push_decimal(&mut s, *available);
                s
            },
            MazeError::InvalidParameters(m) => {
                let s = String::from_str("invalid parameters: ");
                s.concat(m.as_str())
            },
            MazeError::AddressGeneration(m) => {
                let s = String::from_str("address generation failed: ");
                s.concat(m.as_str())
            },
            MazeError::Encryption(m) => {
                let s = String::from_str("encryption failed: ");
                s.concat(m.as_str())
            },
        }
    }
}

} // verus!

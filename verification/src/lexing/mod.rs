//! Lexers that recognise one token at the start of a text.

pub mod file_path;

use vstd::prelude::*;
use crate::document::TokenKind;

verus! {

/// A token found at the start of a text.
#[derive(Debug, Clone, Copy, PartialEq, Eq, Structural)]
pub struct FoundToken {
    /// The index of the first character after the token.
    pub next_index: usize,
    /// What the token is.
    pub token: TokenKind,
}

} // verus!

//! A cursor over an already tokenized stream.

use vstd::prelude::*;
use crate::compiler::token::Token;

verus! {

/// A stream of tokens with the reading position and the start of the
/// current token.
pub struct TokenTree {
    token: Vec<Token>,
    current_position: usize,
    position: usize,
    start_position: usize,
}

} // verus!

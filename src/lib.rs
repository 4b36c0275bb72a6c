//! Front end of a small indentation-sensitive language: a lexer that turns
//! source characters into lexemes, and a normalizer that turns the leading
//! tab runs of each line into explicit block markers.
use vstd::prelude::*;

pub mod indentation;
pub mod lexeme;
pub mod lexer;
pub mod properties;

verus! {

} // verus!

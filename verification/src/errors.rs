//! The two error kinds of the library, both detected at a boundary: malformed
//! rule text, and an input or start string that names no known token.

use vstd::prelude::*;

verus! {

/// Error from reading grammar rule text: the 1-based number of the first line
/// that is not of the shape `LHS -> RHS...`, or 0 when no rule lines were
/// found at all.
#[derive(Copy, Clone, PartialEq, Eq, Structural, Debug)]
pub struct ParseRulesError(pub usize);

/// Error from parsing an input: the first input string, or the start string,
/// that is not a known token of the grammar.
#[derive(PartialEq, Eq, Debug)]
pub struct ParseError(pub String);

} // verus!

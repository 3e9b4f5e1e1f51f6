use vstd::prelude::*;

verus! {

/// The span of the word found around a cursor position, in code-point
/// indices into the line.
#[derive(Debug, PartialEq, Eq, Structural)]
pub struct LineRange {
    pub start: usize,
    pub finish: usize,
}

} // verus!

use vstd::prelude::*;

verus! {

/// A place in the input text.
///
/// `line` counts the newlines that come before the place (the first line is
/// line 0); `position` is the offset of the place in characters from the start
/// of the input.
#[derive(Debug, Clone, Copy, PartialEq, Eq, Structural)]
pub struct Span {
    pub line: usize,
    pub position: usize,
}

} // verus!

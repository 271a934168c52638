use vstd::prelude::*;

verus! {

/// The place of a token in its source: the line on which the token ends,
/// the index of its first character and its number of characters.
#[derive(Debug, Clone, Copy, PartialEq, Eq, Structural)]
pub struct Span {
    pub line: usize,
    pub start: usize,
    pub lenth: usize,
}

impl Span {
    /// Index one past the token's last character.
    pub open spec fn end(self) -> int {
        self.start + self.lenth
    }
}

} // verus!

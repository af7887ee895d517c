//! Half-open character-offset intervals and the overlap test.

use vstd::prelude::*;

verus! {

/// A half-open interval `[start, end)` of character offsets into some text.
///
/// Offsets are counted in characters, not bytes, so a span is meaningful
/// regardless of how many bytes each character of the text occupies.
#[derive(Clone, Copy, Debug, PartialEq, Eq, Structural)]
pub struct Span {
    pub start: usize,
    pub end: usize,
}

impl Span {
    /// A span is valid for a text of `text_len` characters when it is a
    /// well-ordered interval that stays inside the text.
    pub open spec fn valid(self, text_len: nat) -> bool {
        self.start <= self.end <= text_len
    }
}

/// Two spans conflict exactly when their intervals intersect.
pub open spec fn spec_conflicts(a: Span, b: Span) -> bool {
    !(a.end <= b.start || b.end <= a.start)
}

/// Decides whether the intervals of `a` and `b` intersect.
pub fn conflicts(a: &Span, b: &Span) -> (r: bool)
    ensures
        r == spec_conflicts(*a, *b),
{
    !(a.end <= b.start || b.end <= a.start)
}

} // verus!

use vstd::prelude::*;

verus! {

/// A run of positions in a sequence: where it starts and where it ends,
/// the end not included.
#[derive(Debug, Clone, Copy, PartialEq, Eq, Structural)]
pub struct Span {
    pub start: usize,
    pub end: usize,
}

impl Span {
    /// The items of `s` that the span covers.
    pub open spec fn of<T>(self, s: Seq<T>) -> Seq<T> {
        s.subrange(self.start as int, self.end as int)
    }

    /// Whether the span lies within a sequence of `len` items.
    pub open spec fn fits(self, len: nat) -> bool {
        self.start <= self.end <= len
    }

    /// How many positions the span covers.
    pub open spec fn size(self) -> int {
        self.end - self.start
    }
}

} // verus!

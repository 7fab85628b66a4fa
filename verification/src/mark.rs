use vstd::prelude::*;

verus! {

/// An `X` or `O`.
#[derive(Debug, PartialEq, Eq, Structural, Clone, Copy)]
pub enum Mark {
    X,
    O,
}

impl Mark {
    /// The other `Mark`: `X` for `O` and `O` for `X`.
    pub open spec fn swap_spec(self) -> Mark {
        match self {
            Mark::X => Mark::O,
            Mark::O => Mark::X,
        }
    }

    /// Exchanges one `Mark` for the other.
    pub fn swap(&self) -> (r: Self)
        ensures
            r == self.swap_spec(),
    {
        match self {
            Self::X => Self::O,
            Self::O => Self::X,
        }
    }

    /// The single lowercase character that renders this `Mark`.
    pub fn letter(&self) -> (r: char)
        ensures
            r == (if self is X {
                'x'
            } else {
                'o'
            }),
    {
        match self {
            Self::X => 'x',
            Self::O => 'o',
        }
    }
}

/// Swapping twice gives back the `Mark` it started from.
pub proof fn lemma_swap_involutive(m: Mark)
    ensures
        m.swap_spec().swap_spec() == m,
{
}

} // verus!

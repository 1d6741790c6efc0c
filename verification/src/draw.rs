//! Numbers drawn at random. A `Drawn` can only come from a draw, and it keeps
//! the range it was drawn from beside the value.
use vstd::prelude::*;
use rand::Rng;

verus! {

/// A value drawn at random from `0..range`.
pub struct Drawn {
    value: usize,
    range: usize,
}

impl Drawn {
    /// The value that was drawn.
    pub closed spec fn drawn_value(self) -> nat {
        self.value as nat
    }

    /// The end of the range `0..range` that the value was drawn from.
    pub closed spec fn drawn_range(self) -> nat {
        self.range as nat
    }

    /// The value that was drawn.
    pub fn value(&self) -> (v: usize)
        ensures
            v == self.drawn_value(),
    {
        self.value
    }

    /// The end of the range the value was drawn from.
    pub fn range(&self) -> (n: usize)
        ensures
            n == self.drawn_range(),
    {
        self.range
    }
}

/// A value drawn by `rand::Rng::gen_range` from `0..bound` with the
/// thread-local generator of `rand::thread_rng`, kept together with `bound`.
/// The contract claims only that the value lies in the range, which
/// `gen_range` documents, and that the range is `0..bound`; it panics on an
/// empty range, which `requires` rules out.
#[verifier::external_body]
pub(crate) fn random_below(bound: usize) -> (r: Drawn)
    requires
        bound > 0,
    ensures
        r.drawn_range() == bound,
        r.drawn_value() < bound,
{
    Drawn { value: rand::thread_rng().gen_range(0..bound), range: bound }
}

} // verus!

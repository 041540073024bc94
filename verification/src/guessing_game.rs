//! A guess holder that can only ever carry a value between 1 and 100:
//! the constructor refuses anything else, so every `Guess` in
//! circulation is known to be in range.

use vstd::prelude::*;

verus! {

/// A checked guess. The value is private: it can only be set through
/// [`Guess::new`], which admits 1 through 100 alone.
pub struct Guess {
    value: i32,
}

impl View for Guess {
    type V = int;

    closed spec fn view(&self) -> int {
        self.value as int
    }
}

#[verifier::type_invariant]
spec fn guess_in_range(g: Guess) -> bool {
    1 <= g.value <= 100
}

impl Guess {
    /// Wraps a value between 1 and 100. Out-of-range values are ruled
    /// out up front; no `Guess` ever holds one.
    pub fn new(value: i32) -> (g: Guess)
        requires
            1 <= value <= 100,
        ensures
            g@ == value,
    {
        Guess { value }
    }

    /// The wrapped value, always between 1 and 100.
    pub fn value(&self) -> (r: i32)
        ensures
            r == self@,
            1 <= r <= 100,
    {
        proof {
            use_type_invariant(self);
        }
        self.value
    }
}

} // verus!

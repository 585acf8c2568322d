use vstd::prelude::*;

verus! {

/// How well an entry matches what the user typed.
#[derive(Clone, Copy, Debug, PartialEq, Eq, Structural, Hash)]
pub struct Score(pub i64);

impl Score {
    pub fn new(value: i64) -> (s: Score)
        ensures
            s.0 == value,
    {
        Score(value)
    }

    pub fn value(&self) -> (v: i64)
        ensures
            v == self.0,
    {
        self.0
    }
}

} // verus!

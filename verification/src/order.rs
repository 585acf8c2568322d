//! Entries compared by score alone, as the completion menu orders them.

use crate::entry::Entry;
use std::cmp::Ordering;
use vstd::prelude::*;

verus! {

impl Entry {
    /// Compares two entries by their scores alone; the text plays no part.
    pub fn cmp_by_score(&self, other: &Entry) -> (o: Ordering)
        ensures
            match o {
                Ordering::Less => self.score.0 < other.score.0,
                Ordering::Equal => self.score.0 == other.score.0,
                Ordering::Greater => self.score.0 > other.score.0,
            },
    {
        if self.score.0 < other.score.0 {
            Ordering::Less
        } else if self.score.0 == other.score.0 {
            Ordering::Equal
        } else {
            Ordering::Greater
        }
    }

    /// `cmp_by_score`, which always has an answer.
    pub fn partial_cmp_by_score(&self, other: &Entry) -> (o: Option<Ordering>)
        ensures
            match o {
                Some(Ordering::Less) => self.score.0 < other.score.0,
                Some(Ordering::Equal) => self.score.0 == other.score.0,
                Some(Ordering::Greater) => self.score.0 > other.score.0,
                None => false,
            },
    {
        Some(self.cmp_by_score(other))
    }
}

} // verus!

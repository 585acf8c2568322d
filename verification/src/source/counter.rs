use crate::entry::Entry;
use crate::score::Score;
use crate::text::{decimal, push_decimal};
use vstd::prelude::*;
use vstd::string::*;

verus! {

/// A source that offers one entry telling how often it was asked.
#[derive(Debug, Clone, Copy, PartialEq, Eq)]
pub struct Counter(pub u64);

impl Counter {
    /// The entry for this request, "The counter is N" with score zero, where
    /// N counts the earlier requests; counts this one.
    pub fn next_entry(&mut self) -> (e: Entry)
        requires
            old(self).0 < u64::MAX,
        ensures
            e@ == ("The counter is "@ + decimal(old(self).0 as nat), 0i64),
            final(self).0 == old(self).0 + 1,
    {
        let mut text = String::from_str("The counter is ");
        push_decimal(&mut text, self.0);
        self.0 = self.0 + 1;
        Entry::new(text, Score::new(0))
    }
}

} // verus!

use vstd::prelude::*;

use crate::entry::Entry;
use crate::score::Score;
use crate::text::{concat_str, dec_digits, dec_string};

verus! {

/// The text the counter source produces at count `n`.
pub open spec fn counter_text(n: nat) -> Seq<char> {
    "The counter is "@ + dec_digits(n)
}

/// Minimal stateful source: each call hands out one entry naming the
/// current count, then advances it. The count saturates at `u64::MAX`.
#[derive(Debug, Clone, Copy)]
pub struct Counter(pub u64);

impl Counter {
    /// One zero-scored entry naming the current count; the count advances.
    pub fn get(&mut self) -> (r: Vec<Entry>)
        ensures
            final(self).0 == if old(self).0 < u64::MAX {
                old(self).0 + 1
            } else {
                u64::MAX as int
            },
            r@.len() == 1,
            r@[0].contents@ == counter_text(old(self).0 as nat),
            r@[0].score.0 == 0,
    {
        let digits = dec_string(self.0);
        let text = concat_str("The counter is ", digits.as_str());
        let entry = Entry::new(text, Score::new(0));
        if self.0 < u64::MAX {
            self.0 = self.0 + 1;
        }
        let mut r: Vec<Entry> = Vec::new();
        r.push(entry);
        r
    }
}

} // verus!

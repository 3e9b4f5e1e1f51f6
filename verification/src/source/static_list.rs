use vstd::prelude::*;

use crate::entry::Entry;
use crate::score::Score;

verus! {

/// A fixed, pre-scored list of entries; scoring against the user's text
/// happens downstream in the ranking step.
#[derive(Debug)]
pub struct Static(pub Vec<Entry>);

/// Clones a list of entries, keeping values and order.
pub fn clone_entries(v: &Vec<Entry>) -> (r: Vec<Entry>)
    ensures
        r@ == v@,
{
    let mut r: Vec<Entry> = Vec::new();
    let mut i: usize = 0;
    while i < v.len()
        invariant
            i <= v@.len(),
            r@ == v@.take(i as int),
        decreases v@.len() - i,
    {
        r.push(v[i].clone());
        i = i + 1;
        proof {
            assert(r@ =~= v@.take(i as int));
        }
    }
    proof {
        assert(v@.take(v@.len() as int) =~= v@);
    }
    r
}

impl Static {
    /// One zero-scored entry per given string, in order.
    pub fn new(entries: &[String]) -> (s: Static)
        ensures
            s.0@.len() == entries@.len(),
            forall|i: int|
                0 <= i < entries@.len() ==> (#[trigger] s.0@[i]).contents@ == entries@[i]@
                    && s.0@[i].score.0 == 0,
    {
        let mut items: Vec<Entry> = Vec::new();
        let mut i: usize = 0;
        while i < entries.len()
            invariant
                i <= entries@.len(),
                items@.len() == i,
                forall|j: int|
                    0 <= j < i ==> (#[trigger] items@[j]).contents@ == entries@[j]@
                        && items@[j].score.0 == 0,
            decreases entries@.len() - i,
        {
            let text = entries[i].clone();
            items.push(Entry::new(text, Score::new(0)));
            i = i + 1;
        }
        Static(items)
    }

    /// The fixed entries, unchanged and in order; producing them changes
    /// nothing, so repeated calls agree.
    pub fn get(&self) -> (r: Vec<Entry>)
        ensures
            r@ == self.0@,
    {
        clone_entries(&self.0)
    }
}

impl Clone for Static {
    fn clone(&self) -> (r: Self)
        ensures
            r.0@ == self.0@,
    {
        Static(clone_entries(&self.0))
    }
}

} // verus!

use vstd::prelude::*;

verus! {

/// Relevance of a completion entry. Ordering is by the wrapped integer;
/// higher means more relevant. A score is produced by fuzzy matching, never
/// authored by a source except as the neutral baseline `Score::new(0)`.
#[derive(Debug, Copy, Clone, PartialEq, Eq, PartialOrd, Ord, Hash, Structural)]
pub struct Score(pub i64);

impl Score {
    /// The wrapped relevance value.
    pub open spec fn value(self) -> i64 {
        self.0
    }

    pub fn new(n: i64) -> (s: Score)
        ensures
            s.value() == n,
    {
        Score(n)
    }
}

} // verus!

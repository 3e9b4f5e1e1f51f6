use vstd::prelude::*;
use vstd::string::StringExecFns;

use crate::score::Score;

verus! {

/// The score Skim's fuzzy matcher assigns to `choice` against `pattern`;
/// `None` when the pattern does not match. The result depends on the two
/// strings alone.
pub uninterp spec fn skim_score(choice: Seq<char>, pattern: Seq<char>) -> Option<i64>;

/// Relies on fuzzy_matcher's `SkimMatcherV2::fuzzy_match` with the default
/// configuration: the score is a function of the two strings alone (its
/// thread-local caches only reuse allocations), and an empty pattern always
/// matches with score zero.
#[verifier::external_body]
fn fuzzy_match_score(choice: &str, pattern: &str) -> (r: Option<i64>)
    ensures
        r == skim_score(choice@, pattern@),
        pattern@.len() == 0 ==> r == Some(0i64),
{
    let matcher = fuzzy_matcher::skim::SkimMatcherV2::default();
    fuzzy_matcher::FuzzyMatcher::fuzzy_match(&matcher, choice, pattern)
}

/// One candidate completion: its text and its relevance.
#[derive(Debug)]
pub struct Entry {
    pub contents: String,
    pub score: Score,
}

impl Clone for Entry {
    fn clone(&self) -> (r: Self)
        ensures
            r == *self,
    {
        Entry { contents: self.contents.clone(), score: self.score }
    }
}

impl PartialEq for Entry {
    fn eq(&self, other: &Self) -> (r: bool) {
        self.contents == other.contents && self.score.0 == other.score.0
    }
}

impl Eq for Entry {

}

impl vstd::std_specs::cmp::PartialEqSpecImpl for Entry {
    open spec fn obeys_eq_spec() -> bool {
        true
    }

    open spec fn eq_spec(&self, other: &Entry) -> bool {
        self.contents@ == other.contents@ && self.score == other.score
    }
}

/// `e` rescored against `pattern`: kept exactly when the fuzzy matcher
/// accepts its text.
pub open spec fn scored_entry(e: Entry, pattern: Seq<char>) -> Option<Entry> {
    match skim_score(e.contents@, pattern) {
        Some(v) => Some(Entry { contents: e.contents, score: Score(v) }),
        None => None,
    }
}

/// The entries of `entries` that match `pattern`, rescored, in their
/// original order.
pub open spec fn scored_seq(entries: Seq<Entry>, pattern: Seq<char>) -> Seq<Entry>
    decreases entries.len(),
{
    if entries.len() == 0 {
        Seq::empty()
    } else {
        let rest = scored_seq(entries.drop_last(), pattern);
        match scored_entry(entries.last(), pattern) {
            Some(e) => rest.push(e),
            None => rest,
        }
    }
}

/// `e` inserted into `s` after every entry whose score does not exceed it,
/// so that entries of equal score keep their order.
pub open spec fn insert_asc(s: Seq<Entry>, e: Entry) -> Seq<Entry>
    decreases s.len(),
{
    if s.len() == 0 {
        seq![e]
    } else if s.last().score.0 <= e.score.0 {
        s.push(e)
    } else {
        insert_asc(s.drop_last(), e).push(s.last())
    }
}

/// Stable sort of `s`, ascending by score.
pub open spec fn sort_asc(s: Seq<Entry>) -> Seq<Entry>
    decreases s.len(),
{
    if s.len() == 0 {
        Seq::empty()
    } else {
        insert_asc(sort_asc(s.drop_last()), s.last())
    }
}

/// Whether scores never decrease along `s`.
pub open spec fn sorted_asc(s: Seq<Entry>) -> bool {
    forall|i: int, j: int| 0 <= i < j < s.len() ==> s[i].score.0 <= s[j].score.0
}

proof fn lemma_insert_asc_props(s: Seq<Entry>, e: Entry)
    requires
        sorted_asc(s),
    ensures
        sorted_asc(insert_asc(s, e)),
        insert_asc(s, e).to_multiset() == s.to_multiset().insert(e),
        insert_asc(s, e).len() == s.len() + 1,
    decreases s.len(),
{
    broadcast use vstd::seq_lib::group_to_multiset_ensures;

    if s.len() == 0 {
        assert(seq![e] =~= Seq::<Entry>::empty().push(e));
        assert(seq![e].to_multiset() =~= s.to_multiset().insert(e));
    } else if s.last().score.0 <= e.score.0 {
        assert(sorted_asc(s.push(e)));
    } else {
        assert(sorted_asc(s.drop_last())) by {
            assert(forall|i: int, j: int|
                0 <= i < j < s.len() - 1 ==> s.drop_last()[i] == s[i] && s.drop_last()[j] == s[j]);
        }
        lemma_insert_asc_props(s.drop_last(), e);
        let t = insert_asc(s.drop_last(), e);
        assert(sorted_asc(t.push(s.last()))) by {
            assert forall|i: int|
                0 <= i < t.len() implies t[i].score.0 <= s.last().score.0 by {
                assert(t.to_multiset().count(t[i]) > 0);
                if t.to_multiset() == s.drop_last().to_multiset().insert(e) {
                    if t[i] == e {
                    } else {
                        assert(s.drop_last().to_multiset().count(t[i]) > 0);
                        assert(s.drop_last().contains(t[i]));
                        let k = choose|k: int|
                            0 <= k < s.drop_last().len() && s.drop_last()[k] == t[i];
                        assert(s[k] == t[i]);
                        assert(s[k].score.0 <= s.last().score.0);
                    }
                }
            }
        }
        assert(t.push(s.last()).to_multiset() =~= s.to_multiset().insert(e)) by {
            assert(s.drop_last().push(s.last()) =~= s);
            assert(s.drop_last().push(s.last()).to_multiset() == s.drop_last().to_multiset().insert(
                s.last(),
            ));
        }
    }
}

/// The stable sort is a sorted permutation of its input.
pub proof fn lemma_sort_asc_props(s: Seq<Entry>)
    ensures
        sorted_asc(sort_asc(s)),
        sort_asc(s).to_multiset() == s.to_multiset(),
        sort_asc(s).len() == s.len(),
    decreases s.len(),
{
    broadcast use vstd::seq_lib::group_to_multiset_ensures;

    if s.len() == 0 {
    } else {
        lemma_sort_asc_props(s.drop_last());
        lemma_insert_asc_props(sort_asc(s.drop_last()), s.last());
        assert(s.drop_last().push(s.last()) =~= s);
        assert(s.drop_last().push(s.last()).to_multiset() == s.drop_last().to_multiset().insert(
            s.last(),
        ));
    }
}

/// Where the scan from the right stops, `insert_asc` is a plain splice.
proof fn lemma_insert_asc_split(s: Seq<Entry>, e: Entry, j: int)
    requires
        0 <= j <= s.len(),
        j == 0 || s[j - 1].score.0 <= e.score.0,
        forall|k: int| j <= k < s.len() ==> s[k].score.0 > e.score.0,
    ensures
        insert_asc(s, e) == s.take(j).push(e) + s.skip(j),
    decreases s.len(),
{
    if j == s.len() {
        if s.len() == 0 {
            assert(insert_asc(s, e) =~= s.take(j).push(e) + s.skip(j));
        } else {
            assert(s.last().score.0 <= e.score.0);
            assert(insert_asc(s, e) == s.push(e));
            assert(s.push(e) =~= s.take(j).push(e) + s.skip(j));
        }
    } else {
        assert(s[s.len() - 1].score.0 > e.score.0);
        assert(insert_asc(s, e) == insert_asc(s.drop_last(), e).push(s.last()));
        lemma_insert_asc_split(s.drop_last(), e, j);
        assert(s.drop_last().take(j) =~= s.take(j));
        assert((s.take(j).push(e) + s.drop_last().skip(j)).push(s.last()) =~= s.take(j).push(e)
            + s.skip(j));
    }
}

/// Inserts `e` at its stable ascending position.
fn insert_by_score(v: &mut Vec<Entry>, e: Entry)
    ensures
        final(v)@ == insert_asc(old(v)@, e),
{
    let mut j = v.len();
    while j > 0 && v[j - 1].score.0 > e.score.0
        invariant
            j <= v@.len(),
            v@ == old(v)@,
            forall|k: int| j <= k < v@.len() ==> v@[k].score.0 > e.score.0,
        decreases j,
    {
        j = j - 1;
    }
    proof {
        lemma_insert_asc_split(v@, e, j as int);
    }
    let ghost prev = v@;
    v.insert(j, e);
    proof {
        assert(v@ =~= prev.take(j as int).push(e) + prev.skip(j as int));
    }
}

/// Stable ascending sort by score.
fn sort_by_score(entries: Vec<Entry>) -> (r: Vec<Entry>)
    ensures
        r@ == sort_asc(entries@),
{
    let mut r: Vec<Entry> = Vec::new();
    let mut i: usize = 0;
    proof {
        assert(sort_asc(entries@.take(0)) =~= Seq::<Entry>::empty());
    }
    while i < entries.len()
        invariant
            i <= entries@.len(),
            r@ == sort_asc(entries@.take(i as int)),
        decreases entries@.len() - i,
    {
        let e = entries[i].clone();
        insert_by_score(&mut r, e);
        i = i + 1;
        proof {
            assert(entries@.take(i as int).drop_last() =~= entries@.take(i - 1));
            assert(entries@.take(i as int).last() == entries@[i - 1]);
        }
    }
    proof {
        assert(entries@.take(entries@.len() as int) =~= entries@);
    }
    r
}

impl Entry {
    pub fn new(contents: String, score: Score) -> (e: Entry)
        ensures
            e.contents == contents,
            e.score == score,
    {
        Entry { contents, score }
    }

    /// Rescores this entry against `text`: `None` exactly when the fuzzy
    /// matcher rejects the pair.
    pub fn score(self, text: &str) -> (r: Option<Entry>)
        ensures
            r == scored_entry(self, text@),
    {
        match fuzzy_match_score(self.contents.as_str(), text) {
            Some(v) => Some(Entry::new(self.contents, Score::new(v))),
            None => None,
        }
    }

    /// Every entry that matches `text`, rescored, in a stable ascending
    /// order of relevance.
    pub fn score_multiple(entries: Vec<Entry>, text: &str) -> (r: Vec<Entry>)
        ensures
            r@ == sort_asc(scored_seq(entries@, text@)),
            sorted_asc(r@),
            r@.to_multiset() == scored_seq(entries@, text@).to_multiset(),
            r@.len() == scored_seq(entries@, text@).len(),
    {
        let mut scored: Vec<Entry> = Vec::new();
        let mut i: usize = 0;
        proof {
            assert(scored_seq(entries@.take(0), text@) =~= Seq::<Entry>::empty());
        }
        while i < entries.len()
            invariant
                i <= entries@.len(),
                scored@ == scored_seq(entries@.take(i as int), text@),
            decreases entries@.len() - i,
        {
            let e = entries[i].clone();
            proof {
                assert(entries@.take(i + 1).drop_last() =~= entries@.take(i as int));
                assert(entries@.take(i + 1).last() == entries@[i as int]);
            }
            match e.score(text) {
                Some(se) => {
                    scored.push(se);
                },
                None => {},
            }
            i = i + 1;
        }
        proof {
            assert(entries@.take(entries@.len() as int) =~= entries@);
            lemma_sort_asc_props(scored@);
        }
        sort_by_score(scored)
    }
}

} // verus!

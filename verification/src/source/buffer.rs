use vstd::prelude::*;

use crate::entry::Entry;
use crate::score::Score;
use crate::text::str_seqs;

verus! {

/// The word runs `\w+` finds in a line, from left to right. The result
/// depends on the line alone.
pub uninterp spec fn word_runs_of(line: Seq<char>) -> Seq<Seq<char>>;

/// Relies on the regex crate: `Regex::new` on the fixed pattern `\w+`
/// always compiles, and `find_iter` yields the non-overlapping matches in
/// order of appearance.
#[verifier::external_body]
fn find_word_runs(line: &str) -> (r: Vec<String>)
    ensures
        str_seqs(r@) == word_runs_of(line@),
{
    let re = regex::Regex::new(r"\w+").unwrap();
    re.find_iter(line).map(|m| m.as_str().to_string()).collect()
}

/// The words of a whole buffer: the word runs of each line, concatenated
/// in line order.
pub open spec fn words_of_lines(lines: Seq<Seq<char>>) -> Seq<Seq<char>>
    decreases lines.len(),
{
    if lines.len() == 0 {
        Seq::empty()
    } else {
        words_of_lines(lines.drop_last()) + word_runs_of(lines.last())
    }
}

/// A source of the words last extracted from a buffer's full text.
#[derive(Debug)]
pub struct BufferWords {
    pub words: Vec<String>,
}

impl BufferWords {
    pub fn new() -> (r: BufferWords)
        ensures
            r.words@.len() == 0,
    {
        BufferWords { words: Vec::new() }
    }

    /// One zero-scored entry per extracted word, in order.
    pub fn get(&self) -> (r: Vec<Entry>)
        ensures
            r@.len() == self.words@.len(),
            forall|i: int|
                0 <= i < r@.len() ==> (#[trigger] r@[i]).contents@ == self.words@[i]@
                    && r@[i].score.0 == 0,
    {
        let mut r: Vec<Entry> = Vec::new();
        let mut i: usize = 0;
        while i < self.words.len()
            invariant
                i <= self.words@.len(),
                r@.len() == i,
                forall|j: int|
                    0 <= j < i ==> (#[trigger] r@[j]).contents@ == self.words@[j]@
                        && r@[j].score.0 == 0,
            decreases self.words@.len() - i,
        {
            r.push(Entry::new(self.words[i].clone(), Score::new(0)));
            i = i + 1;
        }
        r
    }

    /// Replaces the extracted words with the word runs of the given buffer
    /// lines, in line order.
    pub fn update(&mut self, lines: &Vec<String>)
        ensures
            str_seqs(final(self).words@) == words_of_lines(str_seqs(lines@)),
    {
        let ghost all = str_seqs(lines@);
        let mut words: Vec<String> = Vec::new();
        let mut i: usize = 0;
        proof {
            assert(all.take(0) =~~= Seq::<Seq<char>>::empty());
            assert(str_seqs(words@) =~~= words_of_lines(all.take(0)));
        }
        while i < lines.len()
            invariant
                i <= lines@.len(),
                all == str_seqs(lines@),
                str_seqs(words@) == words_of_lines(all.take(i as int)),
            decreases lines@.len() - i,
        {
            let mut runs = find_word_runs(lines[i].as_str());
            let ghost before = words@;
            let ghost run_views = str_seqs(runs@);
            words.append(&mut runs);
            i = i + 1;
            proof {
                assert(all.take(i as int).drop_last() =~~= all.take(i - 1));
                assert(all.take(i as int).last() == all[i - 1]);
                assert(str_seqs(words@) =~~= str_seqs(before) + run_views);
                assert(str_seqs(words@) =~~= words_of_lines(all.take(i as int)));
            }
        }
        proof {
            assert(all.take(lines@.len() as int) =~~= all);
        }
        self.words = words;
    }
}

} // verus!

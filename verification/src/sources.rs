use vstd::prelude::*;

use std::collections::HashMap;

use crate::context::CompletionContext;
use crate::text::{split_char, split_str, str_eq, str_seqs, str_starts_with};

verus! {

/// The words recorded for one line of a buffer.
#[derive(Debug)]
pub struct LineWords {
    pub line: u64,
    pub words: Vec<String>,
}

/// One indexed word with the number of its occurrences over all recorded
/// lines.
#[derive(Debug)]
pub struct WordCount {
    pub word: String,
    pub count: u64,
}

/// Occurrences of `w` in one word list.
pub open spec fn occ(ws: Seq<Seq<char>>, w: Seq<char>) -> nat
    decreases ws.len(),
{
    if ws.len() == 0 {
        0
    } else {
        occ(ws.drop_last(), w) + if ws.last() == w {
            1nat
        } else {
            0nat
        }
    }
}

/// Occurrences of `w` over all recorded lines.
pub open spec fn total_occ(lines: Seq<LineWords>, w: Seq<char>) -> nat
    decreases lines.len(),
{
    if lines.len() == 0 {
        0
    } else {
        total_occ(lines.drop_last(), w) + occ(str_seqs(lines.last().words@), w)
    }
}

/// The number of word instances over all recorded lines.
pub open spec fn instance_total(lines: Seq<LineWords>) -> nat
    decreases lines.len(),
{
    if lines.len() == 0 {
        0
    } else {
        instance_total(lines.drop_last()) + lines.last().words@.len()
    }
}

/// No two count entries name the same word, and no entry records zero.
pub open spec fn counts_wf(s: Seq<WordCount>) -> bool {
    &&& forall|i: int, j: int|
        0 <= i < j < s.len() ==> #[trigger] s[i].word@ != #[trigger] s[j].word@
    &&& forall|i: int| 0 <= i < s.len() ==> (#[trigger] s[i].count) >= 1
}

/// The count recorded for `w`, zero when `w` has no entry.
pub open spec fn count_in(s: Seq<WordCount>, w: Seq<char>) -> nat {
    if exists|i: int| 0 <= i < s.len() && (#[trigger] s[i].word@) == w {
        s[choose|i: int| 0 <= i < s.len() && (#[trigger] s[i].word@) == w].count as nat
    } else {
        0
    }
}

/// No two line entries name the same line.
pub open spec fn lines_unique(s: Seq<LineWords>) -> bool {
    forall|i: int, j: int| 0 <= i < j < s.len() ==> #[trigger] s[i].line != #[trigger] s[j].line
}

proof fn lemma_count_at(s: Seq<WordCount>, k: int)
    requires
        counts_wf(s),
        0 <= k < s.len(),
    ensures
        count_in(s, s[k].word@) == s[k].count,
{
    let w = s[k].word@;
    assert(exists|i: int| 0 <= i < s.len() && (#[trigger] s[i].word@) == w);
    let i = choose|i: int| 0 <= i < s.len() && (#[trigger] s[i].word@) == w;
    if i != k {
        if i < k {
            assert(s[i].word@ != s[k].word@);
        } else {
            assert(s[k].word@ != s[i].word@);
        }
    }
}

proof fn lemma_count_absent(s: Seq<WordCount>, w: Seq<char>)
    requires
        forall|i: int| 0 <= i < s.len() ==> (#[trigger] s[i].word@) != w,
    ensures
        count_in(s, w) == 0,
{
}

proof fn lemma_count_remove(s: Seq<WordCount>, k: int, x: Seq<char>)
    requires
        counts_wf(s),
        0 <= k < s.len(),
    ensures
        counts_wf(s.remove(k)),
        count_in(s.remove(k), x) == if x == s[k].word@ {
            0nat
        } else {
            count_in(s, x)
        },
{
    let t = s.remove(k);
    assert(forall|i: int| 0 <= i < k ==> t[i] == s[i]);
    assert(forall|i: int| k <= i < t.len() ==> t[i] == s[i + 1]);
    assert(counts_wf(t)) by {
        assert forall|i: int, j: int|
            0 <= i < j < t.len() implies #[trigger] t[i].word@ != #[trigger] t[j].word@ by {
            let si = if i < k { i } else { i + 1 };
            let sj = if j < k { j } else { j + 1 };
            assert(s[si].word@ != s[sj].word@);
        }
    }
    if x == s[k].word@ {
        assert forall|i: int| 0 <= i < t.len() implies (#[trigger] t[i].word@) != x by {
            let si = if i < k { i } else { i + 1 };
            if si < k {
                assert(s[si].word@ != s[k].word@);
            } else if si > k {
                assert(s[k].word@ != s[si].word@);
            }
        }
        lemma_count_absent(t, x);
    } else {
        if exists|i: int| 0 <= i < s.len() && (#[trigger] s[i].word@) == x {
            let i = choose|i: int| 0 <= i < s.len() && (#[trigger] s[i].word@) == x;
            assert(i != k);
            let ti = if i < k { i } else { i - 1 };
            assert(t[ti].word@ == x);
            lemma_count_at(s, i);
            lemma_count_at(t, ti);
        } else {
            assert forall|i: int| 0 <= i < t.len() implies (#[trigger] t[i].word@) != x by {
                let si = if i < k { i } else { i + 1 };
                assert(s[si].word@ == t[i].word@);
            }
            lemma_count_absent(t, x);
            lemma_count_absent(s, x);
        }
    }
}

proof fn lemma_count_push(s: Seq<WordCount>, e: WordCount, x: Seq<char>)
    requires
        counts_wf(s),
        e.count >= 1,
        forall|i: int| 0 <= i < s.len() ==> (#[trigger] s[i].word@) != e.word@,
    ensures
        counts_wf(s.push(e)),
        count_in(s.push(e), x) == if x == e.word@ {
            e.count as nat
        } else {
            count_in(s, x)
        },
{
    let t = s.push(e);
    assert(forall|i: int| 0 <= i < s.len() ==> t[i] == s[i]);
    assert(t[s.len() as int] == e);
    assert(counts_wf(t)) by {
        assert forall|i: int, j: int|
            0 <= i < j < t.len() implies #[trigger] t[i].word@ != #[trigger] t[j].word@ by {
            if j < s.len() {
                assert(s[i].word@ != s[j].word@);
            } else {
                assert(s[i].word@ != e.word@);
            }
        }
    }
    if x == e.word@ {
        lemma_count_at(t, s.len() as int);
        assert(count_in(t, x) == e.count);
    } else {
        if exists|i: int| 0 <= i < s.len() && (#[trigger] s[i].word@) == x {
            let i = choose|i: int| 0 <= i < s.len() && (#[trigger] s[i].word@) == x;
            lemma_count_at(s, i);
            lemma_count_at(t, i);
        } else {
            assert forall|i: int| 0 <= i < t.len() implies (#[trigger] t[i].word@) != x by {
                if i < s.len() {
                    assert(s[i].word@ != x);
                }
            }
            lemma_count_absent(t, x);
            lemma_count_absent(s, x);
        }
    }
}

/// The first element of a word list carries one occurrence.
proof fn lemma_occ_first(ws: Seq<Seq<char>>, x: Seq<char>)
    requires
        ws.len() > 0,
    ensures
        occ(ws, x) == (if ws[0] == x {
            1nat
        } else {
            0nat
        }) + occ(ws.drop_first(), x),
    decreases ws.len(),
{
    if ws.len() == 1 {
        assert(ws.drop_first() =~= Seq::<Seq<char>>::empty());
        assert(ws.drop_last() =~= Seq::<Seq<char>>::empty());
    } else {
        lemma_occ_first(ws.drop_last(), x);
        assert(ws.drop_last()[0] == ws[0]);
        assert(ws.drop_last().drop_first() =~= ws.drop_first().drop_last());
        assert(ws.drop_first().last() == ws.last());
    }
}

/// Occurrences split across a cut point.
proof fn lemma_occ_split(ws: Seq<Seq<char>>, p: int, x: Seq<char>)
    requires
        0 <= p <= ws.len(),
    ensures
        occ(ws, x) == occ(ws.take(p), x) + occ(ws.skip(p), x),
    decreases ws.len() - p,
{
    if p == ws.len() {
        assert(ws.take(p) =~= ws);
        assert(ws.skip(p) =~= Seq::<Seq<char>>::empty());
    } else {
        lemma_occ_split(ws, p + 1, x);
        assert(ws.take(p + 1).drop_last() =~= ws.take(p));
        assert(ws.take(p + 1).last() == ws[p]);
        lemma_occ_first(ws.skip(p), x);
        assert(ws.skip(p)[0] == ws[p]);
        assert(ws.skip(p).drop_first() =~= ws.skip(p + 1));
    }
}

/// Occurrences never exceed the list's length.
proof fn lemma_occ_le_len(ws: Seq<Seq<char>>, x: Seq<char>)
    ensures
        occ(ws, x) <= ws.len(),
    decreases ws.len(),
{
    if ws.len() > 0 {
        lemma_occ_le_len(ws.drop_last(), x);
    }
}

proof fn lemma_total_occ_push(lines: Seq<LineWords>, e: LineWords, x: Seq<char>)
    ensures
        total_occ(lines.push(e), x) == total_occ(lines, x) + occ(str_seqs(e.words@), x),
        instance_total(lines.push(e)) == instance_total(lines) + e.words@.len(),
{
    assert(lines.push(e).drop_last() =~= lines);
    assert(lines.push(e).last() == e);
}

proof fn lemma_total_occ_remove(lines: Seq<LineWords>, k: int, x: Seq<char>)
    requires
        0 <= k < lines.len(),
    ensures
        total_occ(lines, x) == total_occ(lines.remove(k), x) + occ(str_seqs(lines[k].words@), x),
        instance_total(lines) == instance_total(lines.remove(k)) + lines[k].words@.len(),
    decreases lines.len(),
{
    if k == lines.len() - 1 {
        assert(lines.remove(k) =~= lines.drop_last());
        assert(lines.last() == lines[k]);
    } else {
        lemma_total_occ_remove(lines.drop_last(), k, x);
        assert(lines.drop_last()[k] == lines[k]);
        assert(lines.remove(k).drop_last() =~= lines.drop_last().remove(k));
        assert(lines.remove(k).last() == lines.last());
    }
}

/// The recorded count of any word never exceeds the instance total.
proof fn lemma_total_occ_le_instances(lines: Seq<LineWords>, x: Seq<char>)
    ensures
        total_occ(lines, x) <= instance_total(lines),
    decreases lines.len(),
{
    if lines.len() > 0 {
        lemma_total_occ_le_instances(lines.drop_last(), x);
        lemma_occ_le_len(str_seqs(lines.last().words@), x);
    }
}

/// Decrements the count of `w`, removing the entry when it reaches zero.
#[verifier::loop_isolation(false)]
fn drop_word(words: &mut Vec<WordCount>, w: &String)
    requires
        counts_wf(old(words)@),
        count_in(old(words)@, w@) >= 1,
    ensures
        counts_wf(final(words)@),
        count_in(final(words)@, w@) == count_in(old(words)@, w@) - 1,
        forall|x: Seq<char>|
            x != w@ ==> #[trigger] count_in(final(words)@, x) == count_in(old(words)@, x),
{
    let ghost orig = old(words)@;
    let mut k: usize = 0;
    proof {
        assert(exists|i: int| 0 <= i < orig.len() && (#[trigger] orig[i].word@) == w@);
    }
    while k < words.len()
        invariant
            words@ == orig,
            counts_wf(orig),
            count_in(orig, w@) >= 1,
            k <= orig.len(),
            forall|i: int| 0 <= i < k ==> (#[trigger] orig[i].word@) != w@,
        decreases orig.len() - k,
    {
        if str_eq(words[k].word.as_str(), w.as_str()) {
            proof {
                lemma_count_at(orig, k as int);
                lemma_count_remove(orig, k as int, w@);
            }
            let entry = words.remove(k);
            if entry.count > 1 {
                proof {
                    assert forall|i: int|
                        0 <= i < words@.len() implies (#[trigger] words@[i].word@) != entry.word@ by {
                        lemma_count_remove(orig, k as int, words@[i].word@);
                        lemma_count_at(words@, i);
                    }
                }
                let ghost removed = words@;
                let c = entry.count;
                words.push(WordCount { word: entry.word, count: c - 1 });
                proof {
                    assert forall|x: Seq<char>| #[trigger]
                        count_in(words@, x) == (if x == w@ {
                            (count_in(orig, w@) - 1) as nat
                        } else {
                            count_in(orig, x)
                        }) by {
                        lemma_count_push(
                            removed,
                            WordCount { word: entry.word, count: (c - 1) as u64 },
                            x,
                        );
                        lemma_count_remove(orig, k as int, x);
                    }
                }
            } else {
                proof {
                    assert forall|x: Seq<char>| #[trigger]
                        count_in(words@, x) == (if x == w@ {
                            (count_in(orig, w@) - 1) as nat
                        } else {
                            count_in(orig, x)
                        }) by {
                        lemma_count_remove(orig, k as int, x);
                    }
                }
            }
            return ;
        }
        k = k + 1;
    }
    proof {
        let i = choose|i: int| 0 <= i < orig.len() && (#[trigger] orig[i].word@) == w@;
        assert(false);
    }
}

/// Increments the count of `w`, creating an entry when there is none.
#[verifier::loop_isolation(false)]
fn bump_word(words: &mut Vec<WordCount>, w: &String)
    requires
        counts_wf(old(words)@),
        count_in(old(words)@, w@) < u64::MAX,
    ensures
        counts_wf(final(words)@),
        count_in(final(words)@, w@) == count_in(old(words)@, w@) + 1,
        forall|x: Seq<char>|
            x != w@ ==> #[trigger] count_in(final(words)@, x) == count_in(old(words)@, x),
{
    let ghost orig = old(words)@;
    let mut k: usize = 0;
    while k < words.len()
        invariant
            words@ == orig,
            counts_wf(orig),
            count_in(orig, w@) < u64::MAX,
            k <= orig.len(),
            forall|i: int| 0 <= i < k ==> (#[trigger] orig[i].word@) != w@,
        decreases orig.len() - k,
    {
        if str_eq(words[k].word.as_str(), w.as_str()) {
            proof {
                lemma_count_at(orig, k as int);
                lemma_count_remove(orig, k as int, w@);
            }
            let entry = words.remove(k);
            proof {
                assert forall|i: int|
                    0 <= i < words@.len() implies (#[trigger] words@[i].word@) != entry.word@ by {
                    lemma_count_remove(orig, k as int, words@[i].word@);
                    lemma_count_at(words@, i);
                }
            }
            let ghost removed = words@;
            let c = entry.count;
            words.push(WordCount { word: entry.word, count: c + 1 });
            proof {
                assert forall|x: Seq<char>| #[trigger]
                    count_in(words@, x) == (if x == w@ {
                        count_in(orig, w@) + 1
                    } else {
                        count_in(orig, x)
                    }) by {
                    lemma_count_push(removed, WordCount { word: entry.word, count: (c + 1) as u64 }, x);
                    lemma_count_remove(orig, k as int, x);
                }
            }
            return ;
        }
        k = k + 1;
    }
    proof {
        lemma_count_absent(orig, w@);
    }
    let ghost before = words@;
    let entry = WordCount { word: w.clone(), count: 1 };
    let ghost ge = entry;
    words.push(entry);
    proof {
        assert forall|x: Seq<char>| #[trigger]
            count_in(words@, x) == (if x == w@ {
                count_in(orig, w@) + 1
            } else {
                count_in(orig, x)
            }) by {
            lemma_count_push(before, ge, x);
        }
    }
}

/// Removes one occurrence of every word in `olds` from the counts.
fn remove_occurrences(words: &mut Vec<WordCount>, olds: &Vec<String>)
    requires
        counts_wf(old(words)@),
        forall|x: Seq<char>| #[trigger] count_in(old(words)@, x) >= occ(str_seqs(olds@), x),
    ensures
        counts_wf(final(words)@),
        forall|x: Seq<char>| #[trigger]
            count_in(final(words)@, x) == count_in(old(words)@, x) - occ(str_seqs(olds@), x),
{
    let ghost orig = old(words)@;
    let ghost all = str_seqs(olds@);
    let mut p: usize = 0;
    proof {
        assert(all.take(0) =~= Seq::<Seq<char>>::empty());
    }
    while p < olds.len()
        invariant
            counts_wf(words@),
            p <= olds@.len(),
            all == str_seqs(olds@),
            counts_wf(orig),
            forall|x: Seq<char>| #[trigger] count_in(orig, x) >= occ(all, x),
            forall|x: Seq<char>| #[trigger]
                count_in(words@, x) == count_in(orig, x) - occ(all.take(p as int), x),
        decreases olds@.len() - p,
    {
        let ghost w0 = olds@[p as int]@;
        proof {
            lemma_occ_split(all, p as int, w0);
            lemma_occ_first(all.skip(p as int), w0);
            assert(all.skip(p as int)[0] == w0);
            assert(count_in(words@, w0) >= 1);
        }
        drop_word(words, &olds[p]);
        p = p + 1;
        proof {
            assert(all.take(p as int).drop_last() =~= all.take(p - 1));
            assert(all.take(p as int).last() == all[p - 1]);
            assert forall|x: Seq<char>| #[trigger]
                count_in(words@, x) == count_in(orig, x) - occ(all.take(p as int), x) by {
                if x != w0 {
                    assert(occ(all.take(p as int), x) == occ(all.take(p - 1), x));
                }
            }
        }
    }
    proof {
        assert(all.take(olds@.len() as int) =~= all);
    }
}

/// Adds one occurrence of every word in `news` to the counts.
fn add_occurrences(words: &mut Vec<WordCount>, news: &Vec<String>)
    requires
        counts_wf(old(words)@),
        forall|x: Seq<char>| #[trigger]
            count_in(old(words)@, x) + occ(str_seqs(news@), x) <= u64::MAX,
    ensures
        counts_wf(final(words)@),
        forall|x: Seq<char>| #[trigger]
            count_in(final(words)@, x) == count_in(old(words)@, x) + occ(str_seqs(news@), x),
{
    let ghost orig = old(words)@;
    let ghost all = str_seqs(news@);
    let mut p: usize = 0;
    proof {
        assert(all.take(0) =~= Seq::<Seq<char>>::empty());
    }
    while p < news.len()
        invariant
            counts_wf(words@),
            p <= news@.len(),
            all == str_seqs(news@),
            counts_wf(orig),
            forall|x: Seq<char>| #[trigger] count_in(orig, x) + occ(all, x) <= u64::MAX,
            forall|x: Seq<char>| #[trigger]
                count_in(words@, x) == count_in(orig, x) + occ(all.take(p as int), x),
        decreases news@.len() - p,
    {
        let ghost w0 = news@[p as int]@;
        proof {
            lemma_occ_split(all, p as int, w0);
            lemma_occ_first(all.skip(p as int), w0);
            assert(all.skip(p as int)[0] == w0);
            assert(count_in(words@, w0) < u64::MAX);
        }
        bump_word(words, &news[p]);
        p = p + 1;
        proof {
            assert(all.take(p as int).drop_last() =~= all.take(p - 1));
            assert(all.take(p as int).last() == all[p - 1]);
            assert forall|x: Seq<char>| #[trigger]
                count_in(words@, x) == count_in(orig, x) + occ(all.take(p as int), x) by {
                if x != w0 {
                    assert(occ(all.take(p as int), x) == occ(all.take(p - 1), x));
                }
            }
        }
    }
    proof {
        assert(all.take(news@.len() as int) =~= all);
    }
}

/// An incrementally maintained per-buffer word-frequency index: each line's
/// words, and for every word the exact number of its occurrences over all
/// recorded lines.
#[derive(Debug)]
pub struct BufferWordStore {
    pub lines_to_words: Vec<LineWords>,
    pub words: Vec<WordCount>,
    pub total: u64,
}

impl BufferWordStore {
    /// The invariant the index maintains: line entries are unique, count
    /// entries are unique and positive, every count equals the number of
    /// occurrences over the recorded lines, and `total` is the number of
    /// recorded word instances.
    pub open spec fn wf(self) -> bool {
        &&& lines_unique(self.lines_to_words@)
        &&& counts_wf(self.words@)
        &&& forall|w: Seq<char>| #[trigger]
            count_in(self.words@, w) == total_occ(self.lines_to_words@, w)
        &&& self.total as nat == instance_total(self.lines_to_words@)
    }

    /// Whether some line is recorded under number `l`.
    pub open spec fn has_line(self, l: u64) -> bool {
        exists|i: int|
            0 <= i < self.lines_to_words@.len() && (#[trigger] self.lines_to_words@[i].line) == l
    }

    /// The words recorded for line `l`.
    pub open spec fn words_on_line(self, l: u64) -> Seq<Seq<char>> {
        str_seqs(
            self.lines_to_words@[choose|i: int|
                0 <= i < self.lines_to_words@.len() && (#[trigger] self.lines_to_words@[i].line)
                    == l].words@,
        )
    }

    /// The exact number of occurrences of `w` over all recorded lines.
    pub open spec fn count_of(self, w: Seq<char>) -> nat {
        total_occ(self.lines_to_words@, w)
    }

    /// Whether `w` is indexed, that is occurs on some recorded line.
    pub open spec fn has_word(self, w: Seq<char>) -> bool {
        count_in(self.words@, w) > 0
    }

    pub fn default() -> (s: BufferWordStore)
        ensures
            s.wf(),
            s.lines_to_words@.len() == 0,
            s.words@.len() == 0,
    {
        BufferWordStore { lines_to_words: Vec::new(), words: Vec::new(), total: 0 }
    }
}

proof fn lemma_line_at(s: Seq<LineWords>, k: int)
    requires
        lines_unique(s),
        0 <= k < s.len(),
    ensures
        (choose|i: int| 0 <= i < s.len() && (#[trigger] s[i].line) == s[k].line) == k,
{
    let l = s[k].line;
    assert(exists|i: int| 0 <= i < s.len() && (#[trigger] s[i].line) == l);
    let i = choose|i: int| 0 <= i < s.len() && (#[trigger] s[i].line) == l;
    if i < k {
        assert(s[i].line != s[k].line);
    } else if i > k {
        assert(s[k].line != s[i].line);
    }
}

proof fn lemma_lines_remove(s: Seq<LineWords>, k: int)
    requires
        lines_unique(s),
        0 <= k < s.len(),
    ensures
        lines_unique(s.remove(k)),
        forall|j: int|
            0 <= j < s.remove(k).len() ==> (#[trigger] s.remove(k)[j].line) != s[k].line,
{
    let t = s.remove(k);
    assert(forall|i: int| 0 <= i < k ==> t[i] == s[i]);
    assert(forall|i: int| k <= i < t.len() ==> t[i] == s[i + 1]);
    assert(lines_unique(t)) by {
        assert forall|i: int, j: int|
            0 <= i < j < t.len() implies #[trigger] t[i].line != #[trigger] t[j].line by {
            let si = if i < k { i } else { i + 1 };
            let sj = if j < k { j } else { j + 1 };
            assert(s[si].line != s[sj].line);
        }
    }
    assert forall|j: int| 0 <= j < t.len() implies (#[trigger] t[j].line) != s[k].line by {
        let sj = if j < k { j } else { j + 1 };
        if sj < k {
            assert(s[sj].line != s[k].line);
        } else {
            assert(s[k].line != s[sj].line);
        }
    }
}

fn find_line(lines: &Vec<LineWords>, line: u64) -> (r: Option<usize>)
    ensures
        match r {
            Some(i) => i < lines@.len() && lines@[i as int].line == line,
            None => forall|i: int| 0 <= i < lines@.len() ==> (#[trigger] lines@[i].line) != line,
        },
{
    let mut i: usize = 0;
    while i < lines.len()
        invariant
            i <= lines@.len(),
            forall|j: int| 0 <= j < i ==> (#[trigger] lines@[j].line) != line,
        decreases lines@.len() - i,
    {
        if lines[i].line == line {
            return Some(i);
        }
        i = i + 1;
    }
    None
}

impl BufferWordStore {
    /// Replaces the words recorded for `line`: the old line's words leave
    /// the counts and the new ones enter them, exactly once each, and a
    /// count that reaches zero leaves the index. A replacement that would
    /// push the instance total past `u64::MAX` is ignored whole.
    #[verifier::loop_isolation(false)]
    pub fn update(&mut self, line: u64, words: Vec<String>)
        requires
            old(self).wf(),
        ensures
            final(self).wf(),
            old(self).total + words@.len() <= u64::MAX ==> {
                &&& final(self).total as nat <= old(self).total as nat + words@.len()
                &&& final(self).has_line(line)
                &&& final(self).words_on_line(line) == str_seqs(words@)
                &&& forall|l: u64|
                    l != line ==> #[trigger] final(self).has_line(l) == old(self).has_line(l)
                &&& forall|l: u64|
                    l != line && old(self).has_line(l) ==> #[trigger] final(self).words_on_line(l)
                        == old(self).words_on_line(l)
                &&& forall|x: Seq<char>| #[trigger]
                    final(self).count_of(x) == old(self).count_of(x) - (if old(self).has_line(
                        line,
                    ) {
                        occ(old(self).words_on_line(line), x)
                    } else {
                        0nat
                    }) + occ(str_seqs(words@), x)
            },
            old(self).total + words@.len() > u64::MAX ==> *final(self) == *old(self),
    {
        let words_len = words.len();
        if !(words_len as u64 <= u64::MAX - self.total) {
            return ;
        }
        let ghost old_lines = self.lines_to_words@;
        let ghost new_words_view = str_seqs(words@);
        let old_words: Vec<String> = match find_line(&self.lines_to_words, line) {
            Some(i) => {
                proof {
                    lemma_line_at(old_lines, i as int);
                    lemma_lines_remove(old_lines, i as int);
                    assert forall|x: Seq<char>| #[trigger]
                        count_in(self.words@, x) == total_occ(old_lines.remove(i as int), x) + occ(
                            str_seqs(old_lines[i as int].words@),
                            x,
                        ) by {
                        lemma_total_occ_remove(old_lines, i as int, x);
                    }
                }
                proof {
                    lemma_total_occ_remove(old_lines, i as int, Seq::<char>::empty());
                }
                let e = self.lines_to_words.remove(i);
                e.words
            },
            None => {
                proof {
                    assert forall|x: Seq<char>| #[trigger]
                        count_in(self.words@, x) == total_occ(self.lines_to_words@, x) + occ(
                            str_seqs(Seq::<String>::empty()),
                            x,
                        ) by {
                        assert(str_seqs(Seq::<String>::empty()) =~~= Seq::<Seq<char>>::empty());
                    }
                }
                Vec::new()
            },
        };
        let ghost kept_lines = self.lines_to_words@;
        let ghost old_words_view = str_seqs(old_words@);
        proof {
            assert(forall|x: Seq<char>| #[trigger]
                count_in(self.words@, x) == total_occ(kept_lines, x) + occ(old_words_view, x));
            assert forall|x: Seq<char>| #[trigger]
                count_in(self.words@, x) >= occ(old_words_view, x) by {}
        }
        proof {
            assert(instance_total(old_lines) == old(self).total);
            assert(instance_total(kept_lines) + old_words@.len() == instance_total(old_lines));
        }
        remove_occurrences(&mut self.words, &old_words);
        proof {
            assert forall|x: Seq<char>| #[trigger]
                count_in(self.words@, x) + occ(new_words_view, x) <= u64::MAX by {
                lemma_total_occ_le_instances(kept_lines, x);
                lemma_occ_le_len(new_words_view, x);
                assert(instance_total(kept_lines) <= old(self).total);
            }
        }
        add_occurrences(&mut self.words, &words);
        let old_len = old_words.len();
        let ghost entry = LineWords { line, words: words };
        self.lines_to_words.push(LineWords { line, words });
        self.total = self.total - old_len as u64 + words_len as u64;
        proof {
            let fl = self.lines_to_words@;
            assert(fl == kept_lines.push(entry));
            assert forall|x: Seq<char>| #[trigger]
                count_in(self.words@, x) == total_occ(fl, x) by {
                lemma_total_occ_push(kept_lines, entry, x);
            }
            lemma_total_occ_push(kept_lines, entry, Seq::<char>::empty());
            assert(lines_unique(fl)) by {
                assert forall|i: int, j: int|
                    0 <= i < j < fl.len() implies #[trigger] fl[i].line != #[trigger] fl[j].line by {
                    if j < fl.len() - 1 {
                        assert(kept_lines[i].line != kept_lines[j].line);
                    } else {
                        assert(fl[j].line == line);
                        assert(kept_lines[i].line != line);
                    }
                }
            }
            assert(self.total as nat == instance_total(fl));
            // the recorded line
            lemma_line_at(fl, fl.len() - 1);
            assert(self.has_line(line));
            assert(self.words_on_line(line) == str_seqs(words@)) by {
                assert(fl[fl.len() - 1].words@ == entry.words@);
            }
            // other lines untouched
            assert forall|l: u64|
                l != line implies #[trigger] self.has_line(l) == old(self).has_line(l) by {
                if self.has_line(l) {
                    let i = choose|i: int| 0 <= i < fl.len() && (#[trigger] fl[i].line) == l;
                    assert(i < fl.len() - 1);
                    assert(kept_lines[i].line == l);
                    if kept_lines != old_lines {
                        let r = choose|r: int|
                            0 <= r < old_lines.len() && (#[trigger] old_lines[r].line) == line
                                && kept_lines == old_lines.remove(r);
                        assert(old_lines.remove(r)[i].line == l);
                        let si = if i < r { i } else { i + 1 };
                        assert(old_lines[si].line == l);
                    }
                }
                if old(self).has_line(l) {
                    let i = choose|i: int|
                        0 <= i < old_lines.len() && (#[trigger] old_lines[i].line) == l;
                    if kept_lines == old_lines {
                        assert(fl[i].line == l);
                    } else {
                        let r = choose|r: int|
                            0 <= r < old_lines.len() && (#[trigger] old_lines[r].line) == line
                                && kept_lines == old_lines.remove(r);
                        assert(i != r);
                        let ti = if i < r { i } else { i - 1 };
                        assert(kept_lines[ti].line == l);
                        assert(fl[ti].line == l);
                    }
                }
            }
            assert forall|l: u64|
                l != line && old(self).has_line(l) implies #[trigger] self.words_on_line(l) == old(
                self,
            ).words_on_line(l) by {
                let i = choose|i: int|
                    0 <= i < old_lines.len() && (#[trigger] old_lines[i].line) == l;
                lemma_line_at(old_lines, i);
                if kept_lines == old_lines {
                    assert(fl[i].line == l);
                    lemma_line_at(fl, i);
                } else {
                    let r = choose|r: int|
                        0 <= r < old_lines.len() && (#[trigger] old_lines[r].line) == line
                            && kept_lines == old_lines.remove(r);
                    assert(i != r);
                    let ti = if i < r { i } else { i - 1 };
                    assert(kept_lines[ti] == old_lines[i]);
                    assert(fl[ti] == old_lines[i]);
                    lemma_line_at(fl, ti);
                }
            }
            // the count relation
            assert forall|x: Seq<char>| #[trigger]
                self.count_of(x) == old(self).count_of(x) - (if old(self).has_line(line) {
                    occ(old(self).words_on_line(line), x)
                } else {
                    0nat
                }) + occ(new_words_view, x) by {
                if old(self).has_line(line) {
                    let i = choose|i: int|
                        0 <= i < old_lines.len() && (#[trigger] old_lines[i].line) == line;
                    lemma_line_at(old_lines, i);
                    let r = choose|r: int|
                        0 <= r < old_lines.len() && (#[trigger] old_lines[r].line) == line
                            && kept_lines == old_lines.remove(r);
                    assert(r == i);
                    lemma_total_occ_remove(old_lines, i, x);
                    lemma_total_occ_push(kept_lines, entry, x);
                } else {
                    lemma_total_occ_push(kept_lines, entry, x);
                }
            }
        }
    }

    /// Every indexed word that starts with `prefix`, each once.
    pub fn get_exact_matches(&self, prefix: &str) -> (r: Vec<String>)
        requires
            self.wf(),
        ensures
            forall|k: int|
                0 <= k < r@.len() ==> self.has_word(#[trigger] r@[k]@) && prefix@.is_prefix_of(
                    r@[k]@,
                ),
            forall|w: Seq<char>|
                self.has_word(w) && prefix@.is_prefix_of(w) ==> str_seqs(r@).contains(w),
            forall|k1: int, k2: int| 0 <= k1 < k2 < r@.len() ==> r@[k1]@ != r@[k2]@,
    {
        let mut r: Vec<String> = Vec::new();
        let mut i: usize = 0;
        while i < self.words.len()
            invariant
                self.wf(),
                i <= self.words@.len(),
                forall|k: int|
                    0 <= k < r@.len() ==> exists|j: int|
                        0 <= j < i && (#[trigger] r@[k])@ == self.words@[j].word@
                            && prefix@.is_prefix_of(r@[k]@),
                forall|j: int|
                    0 <= j < i && prefix@.is_prefix_of(#[trigger] self.words@[j].word@)
                        ==> str_seqs(r@).contains(self.words@[j].word@),
                forall|k1: int, k2: int| 0 <= k1 < k2 < r@.len() ==> r@[k1]@ != r@[k2]@,
            decreases self.words@.len() - i,
        {
            if str_starts_with(self.words[i].word.as_str(), prefix) {
                let ghost prev = r@;
                r.push(self.words[i].word.clone());
                proof {
                    assert forall|j: int|
                        0 <= j < i + 1 && prefix@.is_prefix_of(
                            #[trigger] self.words@[j].word@,
                        ) implies str_seqs(r@).contains(self.words@[j].word@) by {
                        if j < i {
                            let k = choose|k: int|
                                0 <= k < str_seqs(prev).len() && str_seqs(prev)[k]
                                    == self.words@[j].word@;
                            assert(str_seqs(r@)[k] == self.words@[j].word@);
                        } else {
                            assert(str_seqs(r@)[r@.len() - 1] == self.words@[j].word@);
                        }
                    }
                    assert forall|k1: int, k2: int|
                        0 <= k1 < k2 < r@.len() implies r@[k1]@ != r@[k2]@ by {
                        if k2 == r@.len() - 1 {
                            let j1 = choose|j: int|
                                0 <= j < i && (#[trigger] prev[k1])@ == self.words@[j].word@
                                    && prefix@.is_prefix_of(prev[k1]@);
                            assert(self.words@[j1].word@ != self.words@[i as int].word@);
                        }
                    }
                }
            }
            i = i + 1;
        }
        proof {
            assert forall|k: int|
                0 <= k < r@.len() implies self.has_word(#[trigger] r@[k]@) && prefix@.is_prefix_of(
                r@[k]@,
            ) by {
                let j = choose|j: int|
                    0 <= j < self.words@.len() && (#[trigger] r@[k])@ == self.words@[j].word@
                        && prefix@.is_prefix_of(r@[k]@);
                lemma_count_at(self.words@, j);
            }
            assert forall|w: Seq<char>|
                self.has_word(w) && prefix@.is_prefix_of(w) implies str_seqs(r@).contains(w) by {
                let j = choose|j: int|
                    0 <= j < self.words@.len() && (#[trigger] self.words@[j].word@) == w;
            }
        }
        r
    }
}
/// One completion candidate: the text that would be inserted.
#[derive(Debug)]
pub struct CompletionItem {
    pub word: String,
}

impl Clone for CompletionItem {
    fn clone(&self) -> (r: Self)
        ensures
            r == *self,
    {
        CompletionItem { word: self.word.clone() }
    }
}

/// The set of completion items one source hands back.
#[derive(Debug)]
pub struct Completions {
    pub items: Vec<CompletionItem>,
}

/// The words of a list of completion items.
pub open spec fn item_words(items: Seq<CompletionItem>) -> Seq<Seq<char>> {
    Seq::new(items.len(), |i: int| items[i].word@)
}

/// Why a source contributed nothing: its own computation failed, or the
/// directory it lists could not be read.
#[derive(Debug, Clone, Copy, PartialEq, Eq, Structural)]
pub enum SourceError {
    SourceFailure,
    IoFailure,
}

/// A completion source: produces completions for a context, and may follow
/// editor line changes. The exact behaviour of each source stands on its
/// concrete type.
pub trait CompletionSource {
    /// The source's own well-formedness.
    spec fn src_wf(&self) -> bool;

    fn complete(&self, ctx: &CompletionContext) -> (r: Result<Completions, SourceError>)
        requires
            self.src_wf(),
    ;

    fn on_lines(&mut self, bufnr: u64, start_line: u64, last_line: u64, lines: &Vec<String>)
        requires
            old(self).src_wf(),
            start_line + lines@.len() <= u64::MAX,
        ensures
            final(self).src_wf(),
    ;
}

/// The parent of a path, as `std::path::Path::parent` computes it: a pure
/// function of the path string.
pub uninterp spec fn parent_path_of(p: Seq<char>) -> Option<Seq<char>>;

/// Relies on `std::path::Path::parent`: the path without its final
/// component, `None` when the path terminates in a root or is empty.
#[verifier::external_body]
fn path_parent(p: &str) -> (r: Option<String>)
    ensures
        match r {
            Some(s) => parent_path_of(p@) == Some(s@),
            None => parent_path_of(p@) is None,
        },
{
    std::path::Path::new(p).parent().and_then(|q| q.to_str()).map(|s| s.to_owned())
}

/// The final component of a path, as `std::path::Path::file_name` computes
/// it: a pure function of the path string.
pub uninterp spec fn file_name_of(p: Seq<char>) -> Option<Seq<char>>;

/// Relies on `std::path::Path::file_name`: the final component of the
/// path, `None` when the path ends in `..` or is a root.
#[verifier::external_body]
fn path_file_name(p: &str) -> (r: Option<String>)
    ensures
        match r {
            Some(s) => file_name_of(p@) == Some(s@),
            None => file_name_of(p@) is None,
        },
{
    std::path::Path::new(p).file_name().and_then(|q| q.to_str()).map(|s| s.to_owned())
}

/// The path of `p` relative to `base`, as `pathdiff::diff_paths` computes
/// it: a pure syntactic computation on the two path strings.
pub uninterp spec fn rel_path_of(p: Seq<char>, base: Seq<char>) -> Option<Seq<char>>;

/// Relies on `pathdiff::diff_paths`: the relative path from `base` to `p`.
#[verifier::external_body]
fn path_diff(p: &str, base: &str) -> (r: Option<String>)
    ensures
        match r {
            Some(s) => rel_path_of(p@, base@) == Some(s@),
            None => rel_path_of(p@, base@) is None,
        },
{
    pathdiff::diff_paths(p, base).and_then(|q| q.to_str().map(|s| s.to_owned()))
}

/// The directory whose entries complete `word`: the word's parent path, or
/// the working directory when the word has none or it is empty.
pub open spec fn spec_target_dir(word: Seq<char>, cwd: Seq<char>) -> Seq<char> {
    match parent_path_of(word) {
        Some(p) => if p.len() == 0 {
            cwd
        } else {
            p
        },
        None => cwd,
    }
}

/// Whether a listed path survives the filename filter: it does unless both
/// the word has a final component and the path has one that does not start
/// with it.
pub open spec fn keeps_entry(path: Seq<char>, tail: Option<Seq<char>>) -> bool {
    match tail {
        None => true,
        Some(t) => match file_name_of(path) {
            Some(n) => t.is_prefix_of(n),
            None => true,
        },
    }
}

/// The words a directory listing completes to: every kept path, relative
/// to `parent`, in listing order.
pub open spec fn file_completion_words(
    paths: Seq<Seq<char>>,
    parent: Seq<char>,
    tail: Option<Seq<char>>,
) -> Seq<Seq<char>>
    decreases paths.len(),
{
    if paths.len() == 0 {
        Seq::empty()
    } else {
        let rest = file_completion_words(paths.drop_last(), parent, tail);
        if keeps_entry(paths.last(), tail) {
            match rel_path_of(paths.last(), parent) {
                Some(r) => rest.push(r),
                None => rest,
            }
        } else {
            rest
        }
    }
}

/// The view of an optional string.
pub open spec fn opt_str_view(o: Option<String>) -> Option<Seq<char>> {
    match o {
        Some(s) => Some(s@),
        None => None,
    }
}

/// Completes filenames. Reading a directory is I/O and stays with the
/// caller; what to read and how its entries are filtered is decided here.
#[derive(Debug, Clone, Copy)]
pub struct FileCompletionSource;

impl FileCompletionSource {
    /// The directory whose entries should be listed for `ctx`.
    pub fn target_dir(ctx: &CompletionContext) -> (r: String)
        ensures
            r@ == spec_target_dir(ctx.word@, ctx.cwd@),
    {
        match path_parent(ctx.word.as_str()) {
            Some(p) => {
                if p.as_str().unicode_len() == 0 {
                    ctx.cwd.clone()
                } else {
                    p
                }
            },
            None => ctx.cwd.clone(),
        }
    }

    /// The filename fragment the listed entries are filtered by.
    pub fn target_tail(ctx: &CompletionContext) -> (r: Option<String>)
        ensures
            opt_str_view(r) == file_name_of(ctx.word@),
    {
        path_file_name(ctx.word.as_str())
    }

    /// The completions for a directory listing: every path whose final
    /// component starts with `tail`, as a path relative to `parent`.
    pub fn complete_listing(paths: &Vec<String>, parent: &str, tail: &Option<String>) -> (r:
        Completions)
        ensures
            item_words(r.items@) == file_completion_words(
                str_seqs(paths@),
                parent@,
                opt_str_view(*tail),
            ),
    {
        let ghost all = str_seqs(paths@);
        let ghost tl = opt_str_view(*tail);
        let mut items: Vec<CompletionItem> = Vec::new();
        let mut i: usize = 0;
        proof {
            assert(all.take(0) =~~= Seq::<Seq<char>>::empty());
            assert(item_words(items@) =~~= file_completion_words(all.take(0), parent@, tl));
        }
        while i < paths.len()
            invariant
                i <= paths@.len(),
                all == str_seqs(paths@),
                tl == opt_str_view(*tail),
                item_words(items@) == file_completion_words(all.take(i as int), parent@, tl),
            decreases paths@.len() - i,
        {
            proof {
                assert(all.take(i + 1).drop_last() =~~= all.take(i as int));
                assert(all.take(i + 1).last() == all[i as int]);
            }
            let keep: bool = match tail {
                None => true,
                Some(t) => {
                    match path_file_name(paths[i].as_str()) {
                        Some(n) => str_starts_with(n.as_str(), t.as_str()),
                        None => true,
                    }
                },
            };
            if keep {
                match path_diff(paths[i].as_str(), parent) {
                    Some(rp) => {
                        items.push(CompletionItem { word: rp });
                        proof {
                            assert(item_words(items@) =~~= file_completion_words(
                                all.take(i + 1),
                                parent@,
                                tl,
                            ));
                        }
                    },
                    None => {},
                }
            }
            i = i + 1;
        }
        proof {
            assert(all.take(paths@.len() as int) =~~= all);
        }
        Completions { items }
    }
}

/// The number of words the lines split into, space-separated.
pub open spec fn split_total(lines: Seq<Seq<char>>) -> nat
    decreases lines.len(),
{
    if lines.len() == 0 {
        0
    } else {
        split_total(lines.drop_last()) + split_char(lines.last(), ' ').len()
    }
}

proof fn lemma_split_total_first(lines: Seq<Seq<char>>)
    requires
        lines.len() > 0,
    ensures
        split_total(lines) == split_char(lines[0], ' ').len() + split_total(lines.drop_first()),
    decreases lines.len(),
{
    if lines.len() == 1 {
        assert(lines.drop_first() =~~= Seq::<Seq<char>>::empty());
        assert(lines.drop_last() =~~= Seq::<Seq<char>>::empty());
    } else {
        lemma_split_total_first(lines.drop_last());
        assert(lines.drop_last()[0] == lines[0]);
        assert(lines.drop_last().drop_first() =~~= lines.drop_first().drop_last());
        assert(lines.drop_first().last() == lines.last());
    }
}

proof fn lemma_split_total_split(lines: Seq<Seq<char>>, p: int)
    requires
        0 <= p <= lines.len(),
    ensures
        split_total(lines) == split_total(lines.take(p)) + split_total(lines.skip(p)),
    decreases lines.len() - p,
{
    if p == lines.len() {
        assert(lines.take(p) =~~= lines);
        assert(lines.skip(p) =~~= Seq::<Seq<char>>::empty());
    } else {
        lemma_split_total_split(lines, p + 1);
        assert(lines.take(p + 1).drop_last() =~~= lines.take(p));
        assert(lines.take(p + 1).last() == lines[p]);
        lemma_split_total_first(lines.skip(p));
        assert(lines.skip(p)[0] == lines[p]);
        assert(lines.skip(p).drop_first() =~~= lines.skip(p + 1));
    }
}

/// Completes words from open buffers, keeping one word-frequency index per
/// buffer, updated on every line-change notification.
#[derive(Debug)]
pub struct BufferCompletionSource {
    pub word_store: HashMap<u64, BufferWordStore>,
}

impl BufferCompletionSource {
    /// Every stored index is well-formed.
    pub open spec fn wf(self) -> bool {
        forall|b: u64|
            self.word_store@.dom().contains(b) ==> (#[trigger] self.word_store@[b]).wf()
    }

    pub fn new() -> (r: BufferCompletionSource)
        ensures
            r.wf(),
            r.word_store@.dom() == Set::<u64>::empty(),
    {
        BufferCompletionSource { word_store: HashMap::new() }
    }

    /// The exact-prefix matches of the context word in the context
    /// buffer's index; a buffer without an index completes to nothing.
    pub fn completions_for(&self, ctx: &CompletionContext) -> (r: Completions)
        requires
            self.wf(),
        ensures
            self.word_store@.dom().contains(ctx.bufnr) ==> {
                let store = self.word_store@[ctx.bufnr];
                &&& forall|k: int|
                    0 <= k < r.items@.len() ==> store.has_word(#[trigger] r.items@[k].word@)
                        && ctx.word@.is_prefix_of(r.items@[k].word@)
                &&& forall|w: Seq<char>|
                    store.has_word(w) && ctx.word@.is_prefix_of(w) ==> item_words(
                        r.items@,
                    ).contains(w)
                &&& forall|k1: int, k2: int|
                    0 <= k1 < k2 < r.items@.len() ==> r.items@[k1].word@ != r.items@[k2].word@
            },
            !self.word_store@.dom().contains(ctx.bufnr) ==> r.items@.len() == 0,
    {
        match self.word_store.get(&ctx.bufnr) {
            None => Completions { items: Vec::new() },
            Some(store) => {
                let words = store.get_exact_matches(ctx.word.as_str());
                let mut items: Vec<CompletionItem> = Vec::new();
                let mut i: usize = 0;
                while i < words.len()
                    invariant
                        i <= words@.len(),
                        items@.len() == i,
                        forall|k: int| 0 <= k < i ==> (#[trigger] items@[k].word) == words@[k],
                    decreases words@.len() - i,
                {
                    items.push(CompletionItem { word: words[i].clone() });
                    i = i + 1;
                }
                proof {
                    let store_v = self.word_store@[ctx.bufnr];
                    assert forall|w: Seq<char>|
                        store_v.has_word(w) && ctx.word@.is_prefix_of(w) implies item_words(
                        items@,
                    ).contains(w) by {
                        let k = choose|k: int|
                            0 <= k < str_seqs(words@).len() && str_seqs(words@)[k] == w;
                        assert(item_words(items@)[k] == w);
                    }
                }
                Completions { items }
            },
        }
    }

    /// Records a line-change notification: each changed line's words,
    /// split on spaces, replace that line's record in the buffer's index.
    /// An update that would overflow the index's capacity is ignored.
    #[verifier::loop_isolation(false)]
    pub fn record_lines(&mut self, bufnr: u64, start_line: u64, lines: &Vec<String>)
        requires
            old(self).wf(),
            start_line + lines@.len() <= u64::MAX,
        ensures
            final(self).wf(),
            final(self).word_store@.dom() == old(self).word_store@.dom().insert(bufnr),
            forall|b: u64|
                b != bufnr && old(self).word_store@.dom().contains(b)
                    ==> #[trigger] final(self).word_store@[b] == old(self).word_store@[b],
            (old_store_total(*old(self), bufnr) + split_total(str_seqs(lines@)) <= u64::MAX) ==> {
                let store = final(self).word_store@[bufnr];
                &&& forall|i: int|
                    0 <= i < lines@.len() ==> #[trigger] store.has_line((start_line + i) as u64)
                        && store.words_on_line((start_line + i) as u64) == split_char(
                        lines@[i]@,
                        ' ',
                    )
                &&& forall|l: u64|
                    (l < start_line || l >= start_line + lines@.len()) ==> #[trigger] store.has_line(
                        l,
                    ) == old_store_has_line(*old(self), bufnr, l)
                &&& forall|l: u64|
                    (l < start_line || l >= start_line + lines@.len()) && old_store_has_line(
                        *old(self),
                        bufnr,
                        l,
                    ) ==> #[trigger] store.words_on_line(l) == old(
                        self,
                    ).word_store@[bufnr].words_on_line(l)
            },
    {
        let ghost all = str_seqs(lines@);
        let ghost cap_ok = old_store_total(*old(self), bufnr) + split_total(all) <= u64::MAX;
        let mut store: BufferWordStore = match self.word_store.remove(&bufnr) {
            Some(s) => s,
            None => BufferWordStore::default(),
        };
        let ghost base = store;
        let mut index: usize = 0;
        while index < lines.len()
            invariant
                index <= lines@.len(),
                store.wf(),
                cap_ok ==> store.total as nat <= base.total + split_total(all.take(index as int)),
                cap_ok ==> forall|i: int|
                    0 <= i < index ==> #[trigger] store.has_line((start_line + i) as u64)
                        && store.words_on_line((start_line + i) as u64) == split_char(
                        lines@[i]@,
                        ' ',
                    ),
                cap_ok ==> forall|l: u64|
                    (l < start_line || l >= start_line + index) ==> #[trigger] store.has_line(l)
                        == base.has_line(l),
                cap_ok ==> forall|l: u64|
                    (l < start_line || l >= start_line + index) && base.has_line(l)
                        ==> #[trigger] store.words_on_line(l) == base.words_on_line(l),
            decreases lines@.len() - index,
        {
            let words = split_str(lines[index].as_str(), ' ');
            let ghost pre = store;
            proof {
                if cap_ok {
                    lemma_split_total_split(all, index as int);
                    lemma_split_total_first(all.skip(index as int));
                    assert(all.skip(index as int)[0] == all[index as int]);
                    assert(words@.len() == split_char(lines@[index as int]@, ' ').len());
                    assert(store.total + words@.len() <= u64::MAX);
                }
            }
            store.update(start_line + index as u64, words);
            proof {
                if cap_ok {
                    assert(all.take(index + 1).drop_last() =~~= all.take(index as int));
                    assert(all.take(index + 1).last() == all[index as int]);
                    assert(store.total as nat <= base.total + split_total(all.take(index + 1)));
                }
            }
            index = index + 1;
        }
        self.word_store.insert(bufnr, store);
        proof {
            assert(final(self).word_store@.dom() =~= old(self).word_store@.dom().insert(bufnr));
            if cap_ok {
                assert(all.take(lines@.len() as int) =~~= all);
            }
        }
    }
}

/// The instance total of the index a buffer had before a notification,
/// zero when the buffer had none.
pub open spec fn old_store_total(src: BufferCompletionSource, bufnr: u64) -> nat {
    if src.word_store@.dom().contains(bufnr) {
        src.word_store@[bufnr].total as nat
    } else {
        0
    }
}

/// Whether the index a buffer had before a notification recorded `l`.
pub open spec fn old_store_has_line(src: BufferCompletionSource, bufnr: u64, l: u64) -> bool {
    src.word_store@.dom().contains(bufnr) && src.word_store@[bufnr].has_line(l)
}

impl CompletionSource for BufferCompletionSource {
    open spec fn src_wf(&self) -> bool {
        self.wf()
    }

    fn complete(&self, ctx: &CompletionContext) -> (r: Result<Completions, SourceError>) {
        Ok(self.completions_for(ctx))
    }

    fn on_lines(&mut self, bufnr: u64, start_line: u64, last_line: u64, lines: &Vec<String>) {
        self.record_lines(bufnr, start_line, lines);
    }
}
} // verus!

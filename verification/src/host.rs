use vstd::prelude::*;

use crate::entry::Entry;
use crate::iskeyword::{scan_left, KeywordMatcher};
use crate::sources::{item_words, CompletionItem, Completions};
use crate::text::str_seqs;

verus! {

proof fn lemma_scan_left_bounds(m: KeywordMatcher, line: Seq<char>, j: int)
    requires
        j >= 0,
    ensures
        0 <= scan_left(m, line, j) <= j,
    decreases j,
{
    if j > 0 && m.spec_matches(line[j - 1]) {
        lemma_scan_left_bounds(m, line, j - 1);
    }
}

/// The response to a boundary-start request: the word's start converted to
/// the host's 1-based indexing convention, or -1 when the buffer has no
/// matcher yet.
pub fn find_start(matcher: &Option<KeywordMatcher>, line: &str, cursor: u64) -> (r: i64)
    requires
        cursor <= line@.len(),
        cursor <= i64::MAX as u64,
    ensures
        matcher is None ==> r == -1,
        matcher matches Some(m) ==> r == scan_left(*m, line@, cursor as int) - 1,
{
    match matcher {
        None => -1,
        Some(m) => {
            proof {
                lemma_scan_left_bounds(*m, line@, cursor as int);
            }
            let lr = m.find(line, cursor);
            lr.start as i64 - 1
        },
    }
}

/// The combined items of the enabled sources' completions, file source
/// first, in each source's own order.
pub fn merge_completions(file: Option<Completions>, buffer: Option<Completions>) -> (r:
    Completions)
    ensures
        item_words(r.items@) == (match file {
            Some(f) => item_words(f.items@),
            None => Seq::<Seq<char>>::empty(),
        }) + (match buffer {
            Some(b) => item_words(b.items@),
            None => Seq::<Seq<char>>::empty(),
        }),
{
    let mut items: Vec<CompletionItem> = match file {
        Some(f) => f.items,
        None => Vec::new(),
    };
    let ghost first = items@;
    match buffer {
        Some(b) => {
            let mut rest = b.items;
            let ghost second = rest@;
            items.append(&mut rest);
            proof {
                assert(item_words(items@) =~~= item_words(first) + item_words(second));
            }
        },
        None => {
            proof {
                assert(item_words(items@) =~~= item_words(first) + Seq::<Seq<char>>::empty());
            }
        },
    }
    Completions { items }
}

/// The serialized form of a completion list: the words alone, in order;
/// scores are internal and never leave the library.
pub fn completion_words(completions: &Completions) -> (r: Vec<String>)
    ensures
        str_seqs(r@) == item_words(completions.items@),
{
    let mut r: Vec<String> = Vec::new();
    let mut i: usize = 0;
    while i < completions.items.len()
        invariant
            i <= completions.items@.len(),
            r@.len() == i,
            forall|k: int| 0 <= k < i ==> (#[trigger] r@[k])@ == completions.items@[k].word@,
        decreases completions.items@.len() - i,
    {
        r.push(completions.items[i].word.clone());
        i = i + 1;
    }
    proof {
        assert(str_seqs(r@) =~~= item_words(completions.items@));
    }
    r
}

/// The serialized form of ranked entries: each entry's text, in delivery
/// order.
pub fn entry_texts(entries: &Vec<Entry>) -> (r: Vec<String>)
    ensures
        str_seqs(r@) == Seq::new(entries@.len(), |i: int| entries@[i].contents@),
{
    let mut r: Vec<String> = Vec::new();
    let mut i: usize = 0;
    while i < entries.len()
        invariant
            i <= entries@.len(),
            r@.len() == i,
            forall|k: int| 0 <= k < i ==> (#[trigger] r@[k])@ == entries@[k].contents@,
        decreases entries@.len() - i,
    {
        r.push(entries[i].contents.clone());
        i = i + 1;
    }
    proof {
        assert(str_seqs(r@) =~~= Seq::new(entries@.len(), |i: int| entries@[i].contents@));
    }
    r
}

} // verus!

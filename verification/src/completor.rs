use vstd::prelude::*;

use crate::entry::{
    insert_asc, lemma_sort_asc_props, scored_entry, scored_seq, skim_score, sort_asc, sorted_asc,
    Entry,
};
use crate::source::buffer::BufferWords;
use crate::source::counter::{counter_text, Counter};
use crate::source::static_list::Static;
use crate::text::{push_char, str_eq};

verus! {

/// One registered source: the closed set of variants the orchestrator can
/// own, with room for more.
#[derive(Debug)]
pub enum SourceImpl {
    Counter(Counter),
    StaticList(Static),
    Buffer(BufferWords),
}

/// The views of produced entries: text and score of each.
pub open spec fn entry_views(es: Seq<Entry>) -> Seq<(Seq<char>, i64)> {
    Seq::new(es.len(), |i: int| (es[i].contents@, es[i].score.0))
}

/// What one source hands out, by variant, as entry views.
pub open spec fn source_output_views(s: SourceImpl) -> Seq<(Seq<char>, i64)> {
    match s {
        SourceImpl::Counter(c) => seq![(counter_text(c.0 as nat), 0i64)],
        SourceImpl::StaticList(st) => entry_views(st.0@),
        SourceImpl::Buffer(b) => Seq::new(b.words@.len(), |i: int| (b.words@[i]@, 0i64)),
    }
}

/// How producing once changes a source: only the counter has state that
/// moves.
pub open spec fn source_step(s: SourceImpl) -> SourceImpl {
    match s {
        SourceImpl::Counter(c) => SourceImpl::Counter(
            Counter(
                if c.0 < u64::MAX {
                    (c.0 + 1) as u64
                } else {
                    u64::MAX
                },
            ),
        ),
        _ => s,
    }
}

impl SourceImpl {
    /// Produces this source's entries and advances its state.
    pub fn produce(&mut self) -> (r: Vec<Entry>)
        ensures
            entry_views(r@) == source_output_views(*old(self)),
            *final(self) == source_step(*old(self)),
    {
        match self {
            SourceImpl::Counter(c) => {
                let r = c.get();
                proof {
                    assert(entry_views(r@) =~= source_output_views(*old(self)));
                }
                r
            },
            SourceImpl::StaticList(st) => {
                let r = st.get();
                proof {
                    assert(entry_views(r@) =~= source_output_views(*old(self)));
                }
                r
            },
            SourceImpl::Buffer(b) => {
                let r = b.get();
                proof {
                    assert(entry_views(r@) =~= source_output_views(*old(self)));
                }
                r
            },
        }
    }
}

/// One entry of the registration table.
#[derive(Debug)]
pub struct Registration {
    pub name: String,
    pub source: SourceImpl,
}

/// The entry views all registered sources hand out in one pass, in
/// registration order.
pub open spec fn outputs_of(srcs: Seq<Registration>) -> Seq<(Seq<char>, i64)>
    decreases srcs.len(),
{
    if srcs.len() == 0 {
        Seq::empty()
    } else {
        outputs_of(srcs.drop_last()) + source_output_views(srcs.last().source)
    }
}

/// The registration table after every source produced once.
pub open spec fn steps_of(srcs: Seq<Registration>) -> Seq<Registration> {
    Seq::new(srcs.len(), |i: int| Registration { name: srcs[i].name, source: source_step(srcs[i].source) })
}

/// Whether scores never increase along `s`.
pub open spec fn sorted_desc(s: Seq<Entry>) -> bool {
    forall|i: int, j: int| 0 <= i < j < s.len() ==> s[i].score.0 >= s[j].score.0
}

/// What ranking delivers: the collected entries are filtered and rescored
/// against the query, sorted ascending (stable, so equal scores keep
/// discovery order), the lowest-ranked front is dropped until at most `k`
/// remain, and the survivors are delivered best first.
pub open spec fn rank_spec(entries: Seq<Entry>, query: Seq<char>, k: nat) -> Seq<Entry> {
    let s = sort_asc(scored_seq(entries, query));
    let keep = if s.len() <= k {
        s.len()
    } else {
        k
    };
    s.skip(s.len() - keep).reverse()
}

/// The scored views: each text the matcher accepts keeps its place and
/// takes the matcher's score.
pub open spec fn view_scored(vs: Seq<(Seq<char>, i64)>, q: Seq<char>) -> Seq<(Seq<char>, i64)>
    decreases vs.len(),
{
    if vs.len() == 0 {
        Seq::empty()
    } else {
        let rest = view_scored(vs.drop_last(), q);
        match skim_score(vs.last().0, q) {
            Some(v) => rest.push((vs.last().0, v)),
            None => rest,
        }
    }
}

/// Stable ascending insertion at the view level.
pub open spec fn view_insert_asc(s: Seq<(Seq<char>, i64)>, e: (Seq<char>, i64)) -> Seq<
    (Seq<char>, i64),
>
    decreases s.len(),
{
    if s.len() == 0 {
        seq![e]
    } else if s.last().1 <= e.1 {
        s.push(e)
    } else {
        view_insert_asc(s.drop_last(), e).push(s.last())
    }
}

/// Stable ascending sort at the view level.
pub open spec fn view_sort_asc(s: Seq<(Seq<char>, i64)>) -> Seq<(Seq<char>, i64)>
    decreases s.len(),
{
    if s.len() == 0 {
        Seq::empty()
    } else {
        view_insert_asc(view_sort_asc(s.drop_last()), s.last())
    }
}

/// What ranking delivers, as a function of the collected views alone.
pub open spec fn view_rank(vs: Seq<(Seq<char>, i64)>, q: Seq<char>, k: nat) -> Seq<
    (Seq<char>, i64),
> {
    let s = view_sort_asc(view_scored(vs, q));
    let keep = if s.len() <= k {
        s.len()
    } else {
        k
    };
    s.skip(s.len() - keep).reverse()
}

proof fn lemma_views_scored(es: Seq<Entry>, q: Seq<char>)
    ensures
        entry_views(scored_seq(es, q)) == view_scored(entry_views(es), q),
    decreases es.len(),
{
    if es.len() == 0 {
        assert(entry_views(scored_seq(es, q)) =~~= view_scored(entry_views(es), q));
    } else {
        lemma_views_scored(es.drop_last(), q);
        assert(entry_views(es).drop_last() =~~= entry_views(es.drop_last()));
        assert(entry_views(es).last() == (es.last().contents@, es.last().score.0));
        match scored_entry(es.last(), q) {
            Some(e) => {
                assert(entry_views(scored_seq(es.drop_last(), q).push(e)) =~~= entry_views(
                    scored_seq(es.drop_last(), q),
                ).push((e.contents@, e.score.0)));
                assert(entry_views(scored_seq(es, q)) =~~= view_scored(entry_views(es), q));
            },
            None => {
                assert(entry_views(scored_seq(es, q)) =~~= view_scored(entry_views(es), q));
            },
        }
    }
}

proof fn lemma_views_insert(s: Seq<Entry>, e: Entry)
    ensures
        entry_views(insert_asc(s, e)) == view_insert_asc(
            entry_views(s),
            (e.contents@, e.score.0),
        ),
    decreases s.len(),
{
    if s.len() == 0 {
        assert(entry_views(insert_asc(s, e)) =~~= view_insert_asc(
            entry_views(s),
            (e.contents@, e.score.0),
        ));
    } else {
        assert(entry_views(s).last() == (s.last().contents@, s.last().score.0));
        if s.last().score.0 <= e.score.0 {
            assert(entry_views(s.push(e)) =~~= entry_views(s).push((e.contents@, e.score.0)));
        } else {
            lemma_views_insert(s.drop_last(), e);
            assert(entry_views(s).drop_last() =~~= entry_views(s.drop_last()));
            assert(entry_views(insert_asc(s.drop_last(), e).push(s.last())) =~~= entry_views(
                insert_asc(s.drop_last(), e),
            ).push((s.last().contents@, s.last().score.0)));
            assert(entry_views(insert_asc(s, e)) =~~= view_insert_asc(
                entry_views(s),
                (e.contents@, e.score.0),
            ));
        }
    }
}

proof fn lemma_views_sort(s: Seq<Entry>)
    ensures
        entry_views(sort_asc(s)) == view_sort_asc(entry_views(s)),
    decreases s.len(),
{
    if s.len() == 0 {
        assert(entry_views(sort_asc(s)) =~~= view_sort_asc(entry_views(s)));
    } else {
        lemma_views_sort(s.drop_last());
        lemma_views_insert(sort_asc(s.drop_last()), s.last());
        assert(entry_views(s).drop_last() =~~= entry_views(s.drop_last()));
        assert(entry_views(s).last() == (s.last().contents@, s.last().score.0));
    }
}

/// The views of what ranking delivers are a function of the views of what
/// was collected.
pub proof fn lemma_views_rank(es: Seq<Entry>, q: Seq<char>, k: nat)
    ensures
        entry_views(rank_spec(es, q, k)) == view_rank(entry_views(es), q, k),
{
    lemma_views_scored(es, q);
    lemma_views_sort(scored_seq(es, q));
    let s = sort_asc(scored_seq(es, q));
    let vs = view_sort_asc(view_scored(entry_views(es), q));
    assert(entry_views(s) == vs);
    assert(s.len() == vs.len()) by {
        assert(entry_views(s).len() == s.len());
    }
    let keep = if s.len() <= k {
        s.len()
    } else {
        k
    };
    assert(entry_views(s.skip(s.len() - keep).reverse()) =~~= entry_views(s).skip(
        s.len() - keep,
    ).reverse());
}

/// Filters, scores, orders and truncates one cycle's collected entries.
pub fn rank(entries: Vec<Entry>, query: &str, limit: usize) -> (r: Vec<Entry>)
    ensures
        r@ == rank_spec(entries@, query@, limit as nat),
        sorted_desc(r@),
        r@.len() <= limit,
        r@.len() == if sort_asc(scored_seq(entries@, query@)).len() <= limit {
            sort_asc(scored_seq(entries@, query@)).len() as int
        } else {
            limit as int
        },
{
    let sorted = Entry::score_multiple(entries, query);
    let ghost s = sorted@;
    let n = sorted.len();
    let start = if n <= limit {
        0
    } else {
        n - limit
    };
    let mut r: Vec<Entry> = Vec::new();
    let mut j = n;
    while j > start
        invariant
            start <= j <= n,
            n == s.len(),
            sorted@ == s,
            start == if s.len() <= limit {
                0int
            } else {
                s.len() - limit
            },
            r@ == s.subrange(j as int, n as int).reverse(),
        decreases j,
    {
        j = j - 1;
        r.push(sorted[j].clone());
        proof {
            assert(r@ =~= s.subrange(j as int, n as int).reverse());
        }
    }
    proof {
        let keep = if s.len() <= limit {
            s.len()
        } else {
            limit as nat
        };
        assert(s.subrange(start as int, n as int) =~= s.skip(s.len() - keep));
        assert(sorted_desc(r@)) by {
            assert forall|a: int, b: int|
                0 <= a < b < r@.len() implies r@[a].score.0 >= r@[b].score.0 by {
                assert(r@[a] == s[n - 1 - a]);
                assert(r@[b] == s[n - 1 - b]);
                assert(sorted_asc(s));
            }
        }
    }
    r
}

/// The completion orchestrator: the registered sources, the text typed
/// since the last boundary reset, and the generation token that cancels
/// superseded completion cycles.
#[derive(Debug)]
pub struct Completor {
    pub sources: Vec<Registration>,
    pub user_match: String,
    pub last_char: Option<char>,
    pub generation: u64,
    pub limit: usize,
}

impl Completor {
    /// Registered names are unique.
    pub open spec fn wf(self) -> bool {
        forall|i: int, j: int|
            0 <= i < j < self.sources@.len() ==> #[trigger] self.sources@[i].name@
                != #[trigger] self.sources@[j].name@
    }

    /// The token the delivery check accepts right now.
    pub open spec fn current_token(self) -> u64 {
        self.generation
    }

    /// Whether some source is registered under `name`.
    pub open spec fn has_source(self, name: Seq<char>) -> bool {
        exists|i: int|
            0 <= i < self.sources@.len() && (#[trigger] self.sources@[i].name@) == name
    }

    pub fn new(limit: usize) -> (c: Completor)
        ensures
            c.wf(),
            c.sources@.len() == 0,
            c.user_match@.len() == 0,
            c.last_char is None,
            c.generation == 0,
            c.limit == limit,
    {
        Completor {
            sources: Vec::new(),
            user_match: String::new(),
            last_char: None,
            generation: 0,
            limit,
        }
    }

    /// Registers `source` under `name`; a name already taken is rebound in
    /// place, a new one is appended.
    #[verifier::loop_isolation(false)]
    pub fn register(&mut self, name: String, source: SourceImpl)
        requires
            old(self).wf(),
        ensures
            final(self).wf(),
            final(self).has_source(name@),
            final(self).user_match == old(self).user_match,
            final(self).last_char == old(self).last_char,
            final(self).generation == old(self).generation,
            final(self).limit == old(self).limit,
            old(self).has_source(name@) ==> final(self).sources@ == old(self).sources@.update(
                (choose|i: int|
                    0 <= i < old(self).sources@.len() && (#[trigger] old(
                        self,
                    ).sources@[i].name@) == name@),
                Registration { name, source },
            ),
            !old(self).has_source(name@) ==> final(self).sources@ == old(self).sources@.push(
                Registration { name, source },
            ),
    {
        let ghost orig = self.sources@;
        let mut i: usize = 0;
        while i < self.sources.len()
            invariant
                self.sources@ == orig,
                self.user_match == old(self).user_match,
                self.last_char == old(self).last_char,
                self.generation == old(self).generation,
                self.limit == old(self).limit,
                i <= orig.len(),
                forall|j: int| 0 <= j < i ==> (#[trigger] orig[j].name@) != name@,
            decreases orig.len() - i,
        {
            if str_eq(self.sources[i].name.as_str(), name.as_str()) {
                proof {
                    let w = choose|k: int|
                        0 <= k < orig.len() && (#[trigger] orig[k].name@) == name@;
                    if w < i {
                        assert(orig[w].name@ != name@);
                    } else if w > i {
                        assert(orig[i as int].name@ != orig[w].name@);
                    }
                }
                let reg = Registration { name, source };
                let ghost greg = reg;
                self.sources.remove(i);
                self.sources.insert(i, reg);
                proof {
                    assert(self.sources@ =~= orig.update(i as int, greg));
                    assert forall|a: int, b: int|
                        0 <= a < b < self.sources@.len() implies #[trigger] self.sources@[a].name@
                        != #[trigger] self.sources@[b].name@ by {
                        if a != i && b != i {
                            assert(orig[a].name@ != orig[b].name@);
                        } else if a == i {
                            assert(orig[a].name@ != orig[b].name@);
                        } else {
                            assert(orig[a].name@ != orig[b].name@);
                        }
                    }
                    assert(self.sources@[i as int].name@ == name@);
                }
                return ;
            }
            i = i + 1;
        }
        let reg = Registration { name, source };
        let ghost greg = reg;
        self.sources.push(reg);
        proof {
            assert(self.sources@[orig.len() as int].name@ == greg.name@);
            assert forall|a: int, b: int|
                0 <= a < b < self.sources@.len() implies #[trigger] self.sources@[a].name@
                != #[trigger] self.sources@[b].name@ by {
                if b < orig.len() {
                    assert(orig[a].name@ != orig[b].name@);
                } else {
                    assert(orig[a].name@ != greg.name@);
                }
            }
        }
    }

    /// Records the most recently typed character.
    pub fn set_boundary_char(&mut self, c: char)
        ensures
            final(self).last_char == Some(c),
            final(self).sources == old(self).sources,
            final(self).user_match == old(self).user_match,
            final(self).generation == old(self).generation,
            final(self).limit == old(self).limit,
    {
        self.last_char = Some(c);
    }

    /// Applies the recorded character to the accumulated match text: a
    /// space clears it, any other character is appended, and with nothing
    /// recorded nothing changes.
    pub fn update_user_match(&mut self)
        ensures
            final(self).user_match@ == match old(self).last_char {
                None => old(self).user_match@,
                Some(c) => if c == ' ' {
                    Seq::<char>::empty()
                } else {
                    old(self).user_match@.push(c)
                },
            },
            final(self).sources == old(self).sources,
            final(self).last_char == old(self).last_char,
            final(self).generation == old(self).generation,
            final(self).limit == old(self).limit,
    {
        match self.last_char {
            None => {},
            Some(c) => {
                if c == ' ' {
                    self.user_match = String::new();
                } else {
                    push_char(&mut self.user_match, c);
                }
            },
        }
    }

    /// Clears the accumulated match text, as leaving insert mode does.
    pub fn insert_leave(&mut self)
        ensures
            final(self).user_match@ == Seq::<char>::empty(),
            final(self).sources == old(self).sources,
            final(self).last_char == old(self).last_char,
            final(self).generation == old(self).generation,
            final(self).limit == old(self).limit,
    {
        self.user_match = String::new();
    }

    /// Starts a completion cycle: the fresh generation supersedes every
    /// earlier one, so a still-running cycle's result can no longer pass
    /// the delivery check.
    pub fn begin_cycle(&mut self) -> (token: u64)
        requires
            old(self).generation < u64::MAX,
        ensures
            final(self).generation == old(self).generation + 1,
            token == final(self).generation,
            final(self).sources == old(self).sources,
            final(self).user_match == old(self).user_match,
            final(self).last_char == old(self).last_char,
            final(self).limit == old(self).limit,
    {
        self.generation = self.generation + 1;
        self.generation
    }

    /// The delivery check: only the newest cycle's token passes.
    pub fn is_current(&self, token: u64) -> (r: bool)
        ensures
            r == (token == self.current_token()),
    {
        token == self.generation
    }

    /// Runs every registered source once, in registration order, and
    /// collects their entries.
    #[verifier::loop_isolation(false)]
    pub fn produce_all(&mut self) -> (r: Vec<Entry>)
        requires
            old(self).wf(),
        ensures
            final(self).wf(),
            entry_views(r@) == outputs_of(old(self).sources@),
            final(self).sources@ == steps_of(old(self).sources@),
            final(self).user_match == old(self).user_match,
            final(self).last_char == old(self).last_char,
            final(self).generation == old(self).generation,
            final(self).limit == old(self).limit,
    {
        let ghost orig = self.sources@;
        let mut out: Vec<Entry> = Vec::new();
        let mut done: Vec<Registration> = Vec::new();
        proof {
            assert(entry_views(out@) =~= outputs_of(orig.take(0)));
            assert(done@ =~= steps_of(orig.take(0)));
        }
        let n0 = self.sources.len();
        let mut processed: usize = 0;
        while processed < n0
            invariant
                n0 == orig.len(),
                processed <= orig.len(),
                self.sources@ == orig.skip(processed as int),
                self.user_match == old(self).user_match,
                self.last_char == old(self).last_char,
                self.generation == old(self).generation,
                self.limit == old(self).limit,
                entry_views(out@) == outputs_of(orig.take(processed as int)),
                done@ == steps_of(orig.take(processed as int)),
            decreases orig.len() - processed,
        {
            let mut reg = self.sources.remove(0);
            proof {
                assert(orig.skip(processed as int)[0] == orig[processed as int]);
                assert(orig.skip(processed as int).remove(0) =~= orig.skip(processed + 1));
            }
            let ghost pre_src = reg.source;
            let mut es = reg.source.produce();
            let ghost es_view = es@;
            let ghost out_before = out@;
            out.append(&mut es);
            done.push(reg);
            processed = processed + 1;
            proof {
                assert(orig.take(processed as int).drop_last() =~= orig.take(processed - 1));
                assert(orig.take(processed as int).last() == orig[processed - 1]);
                assert(entry_views(out@) =~= entry_views(out_before) + entry_views(es_view));
                assert(entry_views(out@) =~= outputs_of(orig.take(processed as int)));
                assert(done@ =~= steps_of(orig.take(processed as int)));
            }
        }
        proof {
            assert(processed == orig.len());
            assert(orig.take(orig.len() as int) =~= orig);
        }
        self.sources = done;
        proof {
            assert(self.wf()) by {
                assert forall|i: int, j: int|
                    0 <= i < j < self.sources@.len() implies #[trigger] self.sources@[i].name@
                    != #[trigger] self.sources@[j].name@ by {
                    assert(orig[i].name@ != orig[j].name@);
                    assert(self.sources@[i].name == orig[i].name);
                    assert(self.sources@[j].name == orig[j].name);
                }
            }
        }
        out
    }

    /// The delivery boundary: a superseded cycle's entries are discarded,
    /// the current cycle's are ranked against the accumulated match text
    /// and truncated to the configured size budget.
    pub fn finish_cycle(&self, token: u64, collected: Vec<Entry>) -> (r: Option<Vec<Entry>>)
        ensures
            (r is Some) <==> token == self.current_token(),
            r matches Some(v) ==> v@ == rank_spec(
                collected@,
                self.user_match@,
                self.limit as nat,
            ) && sorted_desc(v@) && v@.len() <= self.limit,
    {
        if !self.is_current(token) {
            return None;
        }
        Some(rank(collected, self.user_match.as_str(), self.limit))
    }

    /// One whole synchronous completion cycle: a fresh generation, one
    /// produce pass over every source, and ranking of what they returned.
    pub fn complete(&mut self) -> (r: Vec<Entry>)
        requires
            old(self).wf(),
            old(self).generation < u64::MAX,
        ensures
            final(self).wf(),
            sorted_desc(r@),
            r@.len() <= old(self).limit,
            entry_views(r@) == view_rank(
                outputs_of(old(self).sources@),
                old(self).user_match@,
                old(self).limit as nat,
            ),
            final(self).sources@ == steps_of(old(self).sources@),
            final(self).generation == old(self).generation + 1,
            final(self).user_match == old(self).user_match,
            final(self).limit == old(self).limit,
    {
        let token = self.begin_cycle();
        let collected = self.produce_all();
        let ghost cv = collected@;
        match self.finish_cycle(token, collected) {
            Some(v) => {
                proof {
                    assert(entry_views(cv) == outputs_of(old(self).sources@));
                    lemma_views_rank(cv, old(self).user_match@, old(self).limit as nat);
                }
                v
            },
            None => vstd::pervasive::unreached(),
        }
    }
}

/// Law of ranking: the delivery keeps only the best. Every entry the
/// truncation drops scores at most as high as every entry it delivers, so
/// cutting the ascending list's front is the same as keeping the `k`
/// highest-scoring entries.
pub proof fn lemma_rank_keeps_top(entries: Seq<Entry>, query: Seq<char>, k: nat)
    ensures
        ({
            let s = sort_asc(scored_seq(entries, query));
            let keep = if s.len() <= k {
                s.len()
            } else {
                k
            };
            forall|i: int, j: int|
                0 <= i < s.len() - keep && 0 <= j < rank_spec(entries, query, k).len() ==> s[i].score.0
                    <= rank_spec(entries, query, k)[j].score.0
        }),
{
    let s = sort_asc(scored_seq(entries, query));
    let keep = if s.len() <= k {
        s.len()
    } else {
        k
    };
    let r = rank_spec(entries, query, k);
    lemma_sort_asc_props(scored_seq(entries, query));
    assert forall|i: int, j: int|
        0 <= i < s.len() - keep && 0 <= j < r.len() implies s[i].score.0 <= r[j].score.0 by {
        assert(r[j] == s.skip(s.len() - keep)[keep - 1 - j]);
        assert(r[j] == s[s.len() - 1 - j]);
        assert(sorted_asc(s));
    }
}

/// Law of cancellation: tokens grow with every new cycle, and the delivery
/// check accepts only the newest. So once cycle B has begun, the token of
/// any cycle A begun earlier is below the current generation for good, and
/// A's output can never again pass the delivery check: only B's or a later
/// cycle's can.
pub proof fn lemma_superseded_cycle_stays_cancelled(c: Completor, token_a: u64, token_b: u64)
    requires
        token_a < token_b,
        token_b <= c.generation,
    ensures
        token_a != c.current_token(),
{
}

/// Law of idempotence: producing from a static list does not change it,
/// so two produce passes from the same source state yield the same
/// entries, in the same multiset and even in the same order.
pub proof fn lemma_static_produce_idempotent(s: Static, r1: Seq<Entry>, r2: Seq<Entry>)
    requires
        r1 == s.0@,
        r2 == s.0@,
    ensures
        source_step(SourceImpl::StaticList(s)) == SourceImpl::StaticList(s),
        r1 == r2,
        r1.to_multiset() == r2.to_multiset(),
{
}

} // verus!

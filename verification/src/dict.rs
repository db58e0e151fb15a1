//! Reading-indexed dictionaries: where a record came from, what kind of
//! word it is, and the surfaces registered under each reading.
use vstd::prelude::*;

use crate::candidate::copy_opt;
use crate::dictionary_source::{entry_view, entry_views, EntryView, NormalizedDictionaryEntry};
use crate::text::{copy_str, opt_view, str_eq};

verus! {

/// What kind of word a dictionary record holds.
#[derive(Debug, Clone, Copy, PartialEq, Eq, Hash, Structural)]
pub enum DictionaryCategory {
    General,
    Idiom,
    Person,
    Organization,
    Place,
    Station,
    NaturalFeature,
    Address,
}

/// The dictionary a record was imported from.
#[derive(Debug, Clone, Copy, PartialEq, Eq, Hash, Structural)]
pub enum DictionarySource {
    User,
    Mozc,
    Sudachi,
    JMdict,
    JMnedict,
    JapanPost,
    Gsi,
    Skk,
}

/// A surface registered under a reading, with what the dictionary knows of
/// it. Lower scores rank better.
#[derive(Debug)]
pub struct DictionaryCandidate {
    pub surface: String,
    pub score: i64,
    pub source: DictionarySource,
    pub category: DictionaryCategory,
    pub description: Option<String>,
}

/// A candidate as plain values: surface, score, source, category and
/// description.
pub type CandidateView = (Seq<char>, i64, DictionarySource, DictionaryCategory, Option<Seq<char>>);

pub open spec fn candidate_view(c: DictionaryCandidate) -> CandidateView {
    (c.surface@, c.score, c.source, c.category, opt_view(c.description))
}

pub open spec fn candidate_views(cs: Seq<DictionaryCandidate>) -> Seq<CandidateView> {
    cs.map_values(|c: DictionaryCandidate| candidate_view(c))
}

/// What a lookup finds: a reading and the surfaces registered under it,
/// best ranked first.
#[derive(Debug)]
pub struct DictionarySearchResult {
    pub reading: String,
    pub candidates: Vec<DictionaryCandidate>,
}

/// A reading with its candidates, as plain values.
pub type ReadingView = (Seq<char>, Seq<CandidateView>);

pub open spec fn result_view(r: DictionarySearchResult) -> ReadingView {
    (r.reading@, candidate_views(r.candidates@))
}

pub open spec fn result_views(rs: Seq<DictionarySearchResult>) -> Seq<ReadingView> {
    rs.map_values(|r: DictionarySearchResult| result_view(r))
}

/// `c` placed among `s`, which runs from the lowest score up: after every
/// candidate that scores the same or lower, before the first that scores
/// higher.
pub open spec fn insert_by_score(s: Seq<CandidateView>, c: CandidateView) -> Seq<CandidateView>
    decreases s.len(),
{
    if s.len() == 0 {
        seq![c]
    } else if c.1 < s[0].1 {
        seq![c] + s
    } else {
        seq![s[0]] + insert_by_score(s.drop_first(), c)
    }
}

/// The index of the first reading of `d` equal to `r`, or -1.
pub open spec fn reading_index(d: Seq<ReadingView>, r: Seq<char>) -> int
    decreases d.len(),
{
    if d.len() == 0 {
        -1
    } else {
        let k = reading_index(d.drop_last(), r);
        if k >= 0 {
            k
        } else if d.last().0 == r {
            d.len() - 1
        } else {
            -1
        }
    }
}

/// The candidates that `d` lists under reading `r`, if it has that reading.
pub open spec fn lookup(d: Seq<ReadingView>, r: Seq<char>) -> Option<Seq<CandidateView>> {
    let k = reading_index(d, r);
    if 0 <= k < d.len() {
        Some(d[k].1)
    } else {
        None
    }
}

/// `d` with record `e` registered: among the candidates of its reading by
/// score, or under a new reading at the end.
pub open spec fn add_entry(d: Seq<ReadingView>, e: EntryView) -> Seq<ReadingView> {
    let c: CandidateView = (e.1, e.2, e.3, e.4, e.5);
    let k = reading_index(d, e.0);
    if 0 <= k < d.len() {
        d.update(k, (e.0, insert_by_score(d[k].1, c)))
    } else {
        d.push((e.0, seq![c]))
    }
}

/// The dictionary that registers records `es` one after the other.
pub open spec fn built(es: Seq<EntryView>) -> Seq<ReadingView>
    decreases es.len(),
{
    if es.len() == 0 {
        Seq::empty()
    } else {
        add_entry(built(es.drop_last()), es.last())
    }
}

proof fn lemma_reading_index(d: Seq<ReadingView>, r: Seq<char>)
    ensures
        -1 <= reading_index(d, r) < d.len(),
        reading_index(d, r) >= 0 ==> d[reading_index(d, r)].0 == r,
        forall|j: int| 0 <= j < d.len() && (reading_index(d, r) < 0 || j < reading_index(d, r))
            ==> #[trigger] d[j].0 != r,
    decreases d.len(),
{
    if d.len() > 0 {
        lemma_reading_index(d.drop_last(), r);
        assert forall|j: int| 0 <= j < d.len() - 1 implies #[trigger] d[j] == d.drop_last()[j] by {}
    }
}

/// Inserting by score puts `c` before the first candidate that scores higher.
pub(crate) proof fn lemma_insert_by_score(s: Seq<CandidateView>, c: CandidateView, k: int)
    requires
        0 <= k <= s.len(),
        forall|j: int| 0 <= j < k ==> #[trigger] s[j].1 <= c.1,
        k < s.len() ==> c.1 < s[k].1,
    ensures
        insert_by_score(s, c) == s.insert(k, c),
    decreases s.len(),
{
    if s.len() == 0 {
        assert(s.insert(k, c) =~= seq![c]);
    } else if k == 0 {
        assert(s.insert(k, c) =~= seq![c] + s);
    } else {
        let t = s.drop_first();
        assert forall|j: int| 0 <= j < k - 1 implies #[trigger] t[j].1 <= c.1 by {
            assert(t[j] == s[j + 1]);
        }
        lemma_insert_by_score(t, c, k - 1);
        assert(s.insert(k, c) =~= seq![s[0]] + t.insert(k - 1, c));
    }
}

pub(crate) fn copy_candidate(c: &DictionaryCandidate) -> (r: DictionaryCandidate)
    ensures
        candidate_view(r) == candidate_view(*c),
{
    DictionaryCandidate {
        surface: copy_str(c.surface.as_str()),
        score: c.score,
        source: c.source,
        category: c.category,
        description: copy_opt(&c.description),
    }
}

fn copy_result(r: &DictionarySearchResult) -> (out: DictionarySearchResult)
    ensures
        result_view(out) == result_view(*r),
{
    let mut candidates: Vec<DictionaryCandidate> = Vec::new();
    let mut i: usize = 0;
    while i < r.candidates.len()
        invariant
            i <= r.candidates.len(),
            candidate_views(candidates@) == candidate_views(r.candidates@).take(i as int),
        decreases r.candidates.len() - i,
    {
        let c = copy_candidate(&r.candidates[i]);
        let ghost before = candidates@;
        candidates.push(c);
        proof {
            assert(candidate_views(r.candidates@)[i as int] == candidate_view(r.candidates@[i as int]));
            assert(candidate_views(candidates@) =~= candidate_views(before).push(candidate_view(c)));
            assert(candidate_views(r.candidates@).take(i + 1) =~= candidate_views(r.candidates@).take(i as int).push(
                candidate_view(r.candidates@[i as int])));
        }
        i += 1;
    }
    assert(candidate_views(r.candidates@).take(i as int) =~= candidate_views(r.candidates@));
    DictionarySearchResult { reading: copy_str(r.reading.as_str()), candidates }
}

fn find_reading(rs: &Vec<DictionarySearchResult>, reading: &str) -> (k: Option<usize>)
    ensures
        match k {
            Some(i) => reading_index(result_views(rs@), reading@) == i,
            None => reading_index(result_views(rs@), reading@) < 0,
        },
{
    let ghost d = result_views(rs@);
    proof {
        lemma_reading_index(d, reading@);
    }
    let mut i: usize = 0;
    while i < rs.len()
        invariant
            i <= rs.len(),
            d == result_views(rs@),
            d.len() == rs@.len(),
            -1 <= reading_index(d, reading@) < d.len(),
            reading_index(d, reading@) >= 0 ==> d[reading_index(d, reading@)].0 == reading@,
            forall|j: int| 0 <= j < d.len() && (reading_index(d, reading@) < 0 || j < reading_index(d, reading@))
                ==> #[trigger] d[j].0 != reading@,
            forall|j: int| 0 <= j < i ==> #[trigger] d[j].0 != reading@,
        decreases rs.len() - i,
    {
        assert(d[i as int].0 == rs@[i as int].reading@);
        if str_eq(rs[i].reading.as_str(), reading) {
            return Some(i);
        }
        i += 1;
    }
    None
}

/// The first position in `cs` whose score is higher than `score`.
pub(crate) fn score_position(cs: &Vec<DictionaryCandidate>, score: i64) -> (k: usize)
    ensures
        k <= cs.len(),
        forall|j: int| 0 <= j < k ==> #[trigger] cs@[j].score <= score,
        k < cs.len() ==> score < cs@[k as int].score,
{
    let mut k: usize = 0;
    while k < cs.len() && cs[k].score <= score
        invariant
            k <= cs.len(),
            forall|j: int| 0 <= j < k ==> #[trigger] cs@[j].score <= score,
        decreases cs.len() - k,
    {
        k += 1;
    }
    k
}

/// Surfaces indexed by reading. Each reading keeps its candidates from the
/// lowest score up; candidates with equal scores stay in the order they were
/// registered.
pub struct Dictionary {
    readings: Vec<DictionarySearchResult>,
}

impl View for Dictionary {
    type V = Seq<ReadingView>;

    closed spec fn view(&self) -> Seq<ReadingView> {
        result_views(self.readings@)
    }
}

impl Dictionary {
    /// The dictionary that registers `entries` in order.
    pub fn build_from_normalized(entries: &[NormalizedDictionaryEntry]) -> (d: Dictionary)
        ensures
            d@ == built(entry_views(entries@)),
    {
        let mut readings: Vec<DictionarySearchResult> = Vec::new();
        let mut i: usize = 0;
        while i < entries.len()
            invariant
                i <= entries.len(),
                result_views(readings@) == built(entry_views(entries@.take(i as int))),
            decreases entries.len() - i,
        {
            let ghost before = result_views(readings@);
            let ghost ev = entry_view(entries@[i as int]);
            proof {
                assert(entry_views(entries@.take(i + 1)).drop_last() =~= entry_views(entries@.take(i as int)));
                assert(entry_views(entries@.take(i + 1)).last() == ev);
                lemma_reading_index(before, ev.0);
            }
            let e = &entries[i];
            let c = DictionaryCandidate {
                surface: copy_str(e.surface.as_str()),
                score: e.score,
                source: e.source,
                category: e.category,
                description: copy_opt(&e.description),
            };
            let ghost cv = candidate_view(c);
            assert(cv == (ev.1, ev.2, ev.3, ev.4, ev.5));
            match find_reading(&readings, e.reading.as_str()) {
                Some(k) => {
                    let mut cands: Vec<DictionaryCandidate> = Vec::new();
                    let old_group = copy_result(&readings[k]);
                    cands = old_group.candidates;
                    let pos = score_position(&cands, e.score);
                    let ghost olds = candidate_views(cands@);
                    proof {
                        assert forall|j: int| 0 <= j < pos implies #[trigger] olds[j].1 <= cv.1 by {
                            assert(olds[j].1 == cands@[j].score);
                        }
                        lemma_insert_by_score(olds, cv, pos as int);
                    }
                    cands.insert(pos, c);
                    assert(candidate_views(cands@) =~= olds.insert(pos as int, cv));
                    let group = DictionarySearchResult { reading: copy_str(e.reading.as_str()), candidates: cands };
                    readings.set(k, group);
                    assert(result_views(readings@) =~= before.update(k as int, (ev.0, insert_by_score(before[k as int].1, cv))));
                },
                None => {
                    let mut cands: Vec<DictionaryCandidate> = Vec::new();
                    cands.push(c);
                    assert(candidate_views(cands@) =~= seq![cv]);
                    readings.push(DictionarySearchResult { reading: copy_str(e.reading.as_str()), candidates: cands });
                    assert(result_views(readings@) =~= before.push((ev.0, seq![cv])));
                },
            }
            i += 1;
        }
        assert(entries@.take(i as int) =~= entries@);
        Dictionary { readings }
    }

    /// The candidates registered under exactly `reading`, if any.
    pub fn exact_match_search(&self, reading: &str) -> (r: Option<DictionarySearchResult>)
        ensures
            r is Some <==> lookup(self@, reading@) is Some,
            r matches Some(x) ==> result_view(x) == (reading@, lookup(self@, reading@).unwrap()),
    {
        proof {
            lemma_reading_index(self@, reading@);
        }
        match find_reading(&self.readings, reading) {
            Some(k) => Some(copy_result(&self.readings[k])),
            None => None,
        }
    }
}

/// The candidate part of a record.
pub open spec fn entry_candidate(e: EntryView) -> CandidateView {
    (e.1, e.2, e.3, e.4, e.5)
}

/// The candidates run from the lowest score up.
pub open spec fn by_score_order(cs: Seq<CandidateView>) -> bool {
    forall|i: int, j: int| 0 <= i < j < cs.len() ==> #[trigger] cs[i].1 <= #[trigger] cs[j].1
}

spec fn score_insert_position(s: Seq<CandidateView>, c: CandidateView) -> int
    decreases s.len(),
{
    if s.len() == 0 || c.1 < s[0].1 {
        0
    } else {
        1 + score_insert_position(s.drop_first(), c)
    }
}

proof fn lemma_score_insert_position(s: Seq<CandidateView>, c: CandidateView)
    ensures
        0 <= score_insert_position(s, c) <= s.len(),
        insert_by_score(s, c) == s.insert(score_insert_position(s, c), c),
        forall|j: int| 0 <= j < score_insert_position(s, c) ==> #[trigger] s[j].1 <= c.1,
        score_insert_position(s, c) < s.len() ==> c.1 < s[score_insert_position(s, c)].1,
    decreases s.len(),
{
    if !(s.len() == 0 || c.1 < s[0].1) {
        let t = s.drop_first();
        lemma_score_insert_position(t, c);
        let k = score_insert_position(t, c);
        assert(s.insert(k + 1, c) =~= seq![s[0]] + t.insert(k, c));
        assert forall|j: int| 0 <= j < k + 1 implies #[trigger] s[j].1 <= c.1 by {
            if j > 0 {
                assert(s[j] == t[j - 1]);
            }
        }
        if k < t.len() {
            assert(s[k + 1] == t[k]);
        }
    } else if s.len() == 0 {
        assert(s.insert(0, c) =~= seq![c]);
    } else {
        assert(s.insert(0, c) =~= seq![c] + s);
    }
}

/// Inserting by score keeps the order, adds `c`, and keeps every candidate.
proof fn lemma_insert_by_score_props(s: Seq<CandidateView>, c: CandidateView)
    ensures
        by_score_order(s) ==> by_score_order(insert_by_score(s, c)),
        insert_by_score(s, c).contains(c),
        forall|i: int| 0 <= i < s.len() ==> insert_by_score(s, c).contains(#[trigger] s[i]),
        forall|j: int| 0 <= j < insert_by_score(s, c).len() ==> #[trigger] insert_by_score(s, c)[j] == c || s.contains(
            insert_by_score(s, c)[j],
        ),
{
    lemma_score_insert_position(s, c);
    let k = score_insert_position(s, c);
    let r = s.insert(k, c);
    assert(r[k] == c);
    assert forall|i: int| 0 <= i < s.len() implies r.contains(#[trigger] s[i]) by {
        if i < k {
            assert(r[i] == s[i]);
        } else {
            assert(r[i + 1] == s[i]);
        }
    }
    assert forall|j: int| 0 <= j < r.len() implies #[trigger] r[j] == c || s.contains(r[j]) by {
        if j < k {
            assert(r[j] == s[j]);
        } else if j > k {
            assert(r[j] == s[j - 1]);
        }
    }
    if by_score_order(s) {
        assert forall|i: int, j: int| 0 <= i < j < r.len() implies #[trigger] r[i].1 <= #[trigger] r[j].1 by {
            if j < k {
                assert(r[i] == s[i] && r[j] == s[j]);
            } else if j == k {
                assert(r[i] == s[i]);
            } else if i < k {
                assert(r[i] == s[i] && r[j] == s[j - 1]);
                assert(s[i].1 <= s[j - 1].1);
            } else if i == k {
                assert(r[j] == s[j - 1]);
                assert(c.1 < s[k].1);
                if j - 1 > k {
                    assert(s[k].1 <= s[j - 1].1);
                }
            } else {
                assert(r[i] == s[i - 1] && r[j] == s[j - 1]);
            }
        }
    }
}

proof fn lemma_reading_index_same_readings(d: Seq<ReadingView>, d2: Seq<ReadingView>, r: Seq<char>)
    requires
        d2.len() == d.len(),
        forall|i: int| 0 <= i < d.len() ==> (#[trigger] d2[i]).0 == d[i].0,
    ensures
        reading_index(d2, r) == reading_index(d, r),
    decreases d.len(),
{
    if d.len() > 0 {
        let a = d.drop_last();
        let b = d2.drop_last();
        assert forall|i: int| 0 <= i < a.len() implies (#[trigger] b[i]).0 == a[i].0 by {
            assert(b[i] == d2[i] && a[i] == d[i]);
        }
        lemma_reading_index_same_readings(a, b, r);
        assert(d2.last().0 == d.last().0);
    }
}

/// What registering a record changes: only the candidates of its reading,
/// into which it is inserted by score.
proof fn lemma_lookup_add(d: Seq<ReadingView>, e: EntryView, r: Seq<char>)
    ensures
        lookup(add_entry(d, e), r) == if r == e.0 {
            Some(insert_by_score(
                match lookup(d, r) {
                    Some(cs) => cs,
                    None => Seq::empty(),
                },
                entry_candidate(e),
            ))
        } else {
            lookup(d, r)
        },
{
    lemma_reading_index(d, e.0);
    lemma_reading_index(d, r);
    let k = reading_index(d, e.0);
    let c = entry_candidate(e);
    if 0 <= k < d.len() {
        let d2 = d.update(k, (e.0, insert_by_score(d[k].1, c)));
        assert forall|i: int| 0 <= i < d.len() implies (#[trigger] d2[i]).0 == d[i].0 by {}
        lemma_reading_index_same_readings(d, d2, r);
    } else {
        let d2 = d.push((e.0, seq![c]));
        assert(d2.drop_last() =~= d);
        assert(insert_by_score(Seq::empty(), c) == seq![c]);
    }
}

/// Every registered record can be found under its reading, everything found
/// under a reading was registered under it, and the candidates of each
/// reading run from the lowest score up.
pub proof fn lemma_built_lookup(es: Seq<EntryView>, r: Seq<char>)
    ensures
        forall|i: int| 0 <= i < es.len() && es[i].0 == r ==> lookup(built(es), r) is Some && lookup(built(es), r)->0.contains(
            entry_candidate(#[trigger] es[i]),
        ),
        lookup(built(es), r) matches Some(cs) ==> by_score_order(cs) && forall|j: int| 0 <= j < cs.len()
            ==> exists|i: int| 0 <= i < es.len() && es[i].0 == r && entry_candidate(es[i]) == #[trigger] cs[j],
    decreases es.len(),
{
    if es.len() > 0 {
        let front = es.drop_last();
        let e = es.last();
        lemma_built_lookup(front, r);
        lemma_lookup_add(built(front), e, r);
        let before = lookup(built(front), r);
        let old_cs = match before {
            Some(cs) => cs,
            None => Seq::<CandidateView>::empty(),
        };
        if r == e.0 {
            lemma_insert_by_score_props(old_cs, entry_candidate(e));
            let cs = insert_by_score(old_cs, entry_candidate(e));
            assert forall|i: int| 0 <= i < es.len() && es[i].0 == r implies lookup(built(es), r) is Some
                && lookup(built(es), r)->0.contains(entry_candidate(#[trigger] es[i])) by {
                if i < es.len() - 1 {
                    assert(es[i] == front[i]);
                    let j = choose|j: int| 0 <= j < old_cs.len() && old_cs[j] == entry_candidate(front[i]);
                    assert(cs.contains(old_cs[j]));
                }
            }
            assert forall|j: int| 0 <= j < cs.len() implies exists|i: int| 0 <= i < es.len() && es[i].0 == r
                && entry_candidate(es[i]) == #[trigger] cs[j] by {
                if cs[j] == entry_candidate(e) {
                    assert(es[es.len() - 1] == e);
                } else {
                    let m = choose|m: int| 0 <= m < old_cs.len() && old_cs[m] == cs[j];
                    let i = choose|i: int| 0 <= i < front.len() && front[i].0 == r && entry_candidate(front[i]) == old_cs[m];
                    assert(es[i] == front[i]);
                }
            }
            if before is None {
                assert(by_score_order(old_cs));
            }
        } else {
            assert forall|i: int| 0 <= i < es.len() && es[i].0 == r implies lookup(built(es), r) is Some
                && lookup(built(es), r)->0.contains(entry_candidate(#[trigger] es[i])) by {
                assert(i < es.len() - 1);
                assert(es[i] == front[i]);
            }
            if before is Some {
                let cs = before.unwrap();
                assert forall|j: int| 0 <= j < cs.len() implies exists|i: int| 0 <= i < es.len() && es[i].0 == r
                    && entry_candidate(es[i]) == #[trigger] cs[j] by {
                    let i = choose|i: int| 0 <= i < front.len() && front[i].0 == r && entry_candidate(front[i]) == cs[j];
                    assert(es[i] == front[i]);
                }
            }
        }
    }
}

} // verus!

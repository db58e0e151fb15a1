//! User-dictionary spans pinned inside live conversion.
//!
//! Every span of the reading that the user dictionary registers (under the
//! reading as typed or under one of its `ず`/`づ` alternatives) is an option;
//! a weighted interval scheduling over character positions then picks the
//! non-overlapping options that cover the most characters, with fewer spans
//! and then lower dictionary scores breaking ties.
use vstd::prelude::*;

use crate::dict::{candidate_views, lookup, CandidateView, Dictionary, DictionaryCandidate, ReadingView};
use crate::reading_correction::{zu_du_reading_variants, zu_du_variants};
use crate::suggestions::append_dedup_texts;
use crate::text::{chars_of, copy_str, slice_to_string, str_eq};
use crate::text_scan::texts_of;

verus! {

/// One non-overlapping user-dictionary span selected for live conversion.
#[derive(Debug)]
pub struct LiveUserDictionaryMatch {
    /// Character offsets in the original (uncorrected) reading.
    pub char_start: usize,
    pub char_end: usize,
    /// The original reading's characters in the span.
    pub reading: String,
    /// Dictionary surfaces in priority order; the first is pinned.
    pub candidates: Vec<String>,
}

/// The surfaces of candidates, in order.
pub open spec fn surfaces_of(c: Seq<CandidateView>) -> Seq<Seq<char>> {
    c.map_values(|x: CandidateView| x.0)
}

/// What variant `v` finds for characters `[s, e)`: the candidates listed
/// under its spelling of the span, when `v` is as long as the reading and
/// the list is not empty.
pub open spec fn variant_hit(d: Seq<ReadingView>, v: Seq<char>, n: int, s: int, e: int) -> Option<Seq<CandidateView>> {
    if v.len() == n {
        match lookup(d, v.subrange(s, e)) {
            Some(c) => if c.len() > 0 { Some(c) } else { None },
            None => None,
        }
    } else {
        None
    }
}

/// The surfaces found for `[s, e)` over the variants in order, each kept
/// once, so the spelling as typed leads.
pub open spec fn range_surfaces(d: Seq<ReadingView>, vs: Seq<Seq<char>>, n: int, s: int, e: int) -> Seq<Seq<char>>
    decreases vs.len(),
{
    if vs.len() == 0 {
        Seq::empty()
    } else {
        let before = range_surfaces(d, vs.drop_last(), n, s, e);
        match variant_hit(d, vs.last(), n, s, e) {
            Some(c) => append_dedup_texts(before, surfaces_of(c)),
            None => before,
        }
    }
}

/// The score of `[s, e)`: that of the best-ranked candidate under the first
/// variant that finds the span.
pub open spec fn range_score(d: Seq<ReadingView>, vs: Seq<Seq<char>>, n: int, s: int, e: int) -> Option<int>
    decreases vs.len(),
{
    if vs.len() == 0 {
        None
    } else {
        match range_score(d, vs.drop_last(), n, s, e) {
            Some(x) => Some(x),
            None => match variant_hit(d, vs.last(), n, s, e) {
                Some(c) => Some(c[0].1 as int),
                None => None,
            },
        }
    }
}

/// A span may be pinned when it lies in the reading and has at least two
/// characters, or is the whole reading.
pub open spec fn eligible(n: int, s: int, e: int) -> bool {
    0 <= s < e <= n && (e - s >= 2 || (s == 0 && e == n))
}

/// The score of the option for `[s, e)`, if there is one.
pub open spec fn option_score(d: Seq<ReadingView>, vs: Seq<Seq<char>>, n: int, s: int, e: int) -> Option<int> {
    if eligible(n, s, e) {
        range_score(d, vs, n, s, e)
    } else {
        None
    }
}

/// The options of reading `r` under dictionary `d`, as a function of the span.
pub open spec fn live_options(d: Seq<ReadingView>, r: Seq<char>) -> spec_fn(int, int) -> Option<int> {
    |s: int, e: int| option_score(d, zu_du_variants(r), r.len() as int, s, e)
}

/// A selection: characters covered, spans taken, summed score, and the spans.
pub type Selection = (int, int, int, Seq<(int, int)>);

/// `a` ranks above `b`: it covers more characters, or as many with fewer
/// spans, or as many with as many spans and a lower score.
pub open spec fn ranks_above(a: Selection, b: Selection) -> bool {
    a.0 > b.0 || (a.0 == b.0 && (a.1 < b.1 || (a.1 == b.1 && a.2 < b.2)))
}

/// `a` ranks at least as high as `b`.
pub open spec fn at_least(a: Selection, b: Selection) -> bool {
    !ranks_above(b, a)
}

/// The slot after `x` is offered to it: `x` replaces what is there only
/// when it ranks above.
pub open spec fn offer(slot: Option<Selection>, x: Selection) -> Option<Selection> {
    match slot {
        None => Some(x),
        Some(cur) => if ranks_above(x, cur) { Some(x) } else { slot },
    }
}

/// `b` extended by the span `[s, e)` with score `score`.
pub open spec fn take_span(b: Selection, s: int, e: int, score: int) -> Selection {
    (b.0 + (e - s), b.1 + 1, b.2 + score, b.3.push((s, e)))
}

pub open spec fn empty_selection() -> Selection {
    (0, 0, 0, Seq::empty())
}

/// What slot `j` holds once positions `0..i` have offered to it: position
/// `j - 1` offers its best selection unchanged (its character left
/// unpinned), and every position `t` with an option `[t, j)` offers its best
/// selection extended by that option.
pub open spec fn offers(os: spec_fn(int, int) -> Option<int>, j: nat, i: nat) -> Option<Selection>
    decreases j, i,
{
    if i == 0 || i > j {
        None
    } else {
        let prev = offers(os, j, (i - 1) as nat);
        let b = best_selection(os, (i - 1) as nat);
        let skipped = if i == j { offer(prev, b) } else { prev };
        match os(i - 1, j as int) {
            Some(sc) => offer(skipped, take_span(b, i - 1, j as int, sc)),
            None => skipped,
        }
    }
}

/// The best selection of options inside the first `j` characters.
pub open spec fn best_selection(os: spec_fn(int, int) -> Option<int>, j: nat) -> Selection
    decreases j, j + 1,
{
    if j == 0 {
        empty_selection()
    } else {
        match offers(os, j, j) {
            Some(x) => x,
            None => empty_selection(),
        }
    }
}

/// `spans` are options, in order, without overlap, inside the first `j`
/// characters.
pub open spec fn spans_fit(os: spec_fn(int, int) -> Option<int>, j: int, spans: Seq<(int, int)>) -> bool {
    &&& forall|k: int| 0 <= k < spans.len() ==> 0 <= #[trigger] spans[k].0 < spans[k].1 <= j
        && os(spans[k].0, spans[k].1) is Some
    &&& forall|a: int, b: int| 0 <= a < b < spans.len() ==> #[trigger] spans[a].1 <= #[trigger] spans[b].0
}

/// The selection that takes `spans`.
pub open spec fn spans_value(os: spec_fn(int, int) -> Option<int>, spans: Seq<(int, int)>) -> Selection
    decreases spans.len(),
{
    if spans.len() == 0 {
        empty_selection()
    } else {
        let l = spans.last();
        take_span(spans_value(os, spans.drop_last()), l.0, l.1, os(l.0, l.1).unwrap())
    }
}

proof fn lemma_offers_sound(os: spec_fn(int, int) -> Option<int>, j: nat, i: nat)
    requires
        i <= j,
    ensures
        offers(os, j, i) matches Some(x) ==> spans_fit(os, j as int, x.3) && x == spans_value(os, x.3),
    decreases j, i,
{
    if i > 0 {
        lemma_offers_sound(os, j, (i - 1) as nat);
        lemma_best_sound(os, (i - 1) as nat);
        let b = best_selection(os, (i - 1) as nat);
        match os(i - 1, j as int) {
            Some(sc) => {
                let x = take_span(b, i - 1, j as int, sc);
                assert(x.3.drop_last() =~= b.3);
                assert(spans_value(os, x.3) == x);
                assert forall|a: int, c: int| 0 <= a < c < x.3.len() implies #[trigger] x.3[a].1 <= #[trigger] x.3[c].0 by {
                    if c == x.3.len() - 1 {
                        assert(x.3[a] == b.3[a]);
                    } else {
                        assert(x.3[a] == b.3[a] && x.3[c] == b.3[c]);
                    }
                }
                assert forall|k: int| 0 <= k < x.3.len() implies 0 <= #[trigger] x.3[k].0 < x.3[k].1 <= j
                    && os(x.3[k].0, x.3[k].1) is Some by {
                    if k < x.3.len() - 1 {
                        assert(x.3[k] == b.3[k]);
                    }
                }
            },
            None => {},
        }
        assert forall|k: int| 0 <= k < b.3.len() implies 0 <= #[trigger] b.3[k].0 < b.3[k].1 <= j
            && os(b.3[k].0, b.3[k].1) is Some by {}
    }
}

/// The best selection takes options in order without overlap, and its
/// totals are those of the spans it takes.
proof fn lemma_best_sound(os: spec_fn(int, int) -> Option<int>, j: nat)
    ensures
        spans_fit(os, j as int, best_selection(os, j).3),
        best_selection(os, j) == spans_value(os, best_selection(os, j).3),
    decreases j, j + 1,
{
    if j > 0 {
        lemma_offers_sound(os, j, j);
    }
}

proof fn lemma_offer_keeps(slot: Option<Selection>, x: Selection)
    ensures
        offer(slot, x) is Some,
        at_least(offer(slot, x).unwrap(), x),
        slot matches Some(c) ==> at_least(offer(slot, x).unwrap(), c),
{
}

proof fn lemma_at_least_trans(a: Selection, b: Selection, c: Selection)
    requires
        at_least(a, b),
        at_least(b, c),
    ensures
        at_least(a, c),
{
}

/// Once position `t` has offered to slot `j`, the slot holds a selection
/// ranking at least as high as each selection `t` offered.
proof fn lemma_offers_dominate(os: spec_fn(int, int) -> Option<int>, j: nat, i: nat, t: nat)
    requires
        t < i <= j,
    ensures
        t == j - 1 ==> offers(os, j, i) is Some && at_least(offers(os, j, i).unwrap(), best_selection(os, t)),
        os(t as int, j as int) matches Some(sc) ==> offers(os, j, i) is Some && at_least(
            offers(os, j, i).unwrap(),
            take_span(best_selection(os, t), t as int, j as int, sc),
        ),
    decreases i,
{
    let prev = offers(os, j, (i - 1) as nat);
    let b = best_selection(os, (i - 1) as nat);
    let skipped = if i == j { offer(prev, b) } else { prev };
    let result = offers(os, j, i);
    lemma_offer_keeps(prev, b);
    match os(i - 1, j as int) {
        Some(sc) => {
            assert(result == offer(skipped, take_span(b, i - 1, j as int, sc)));
            lemma_offer_keeps(skipped, take_span(b, i - 1, j as int, sc));
        },
        None => {
            assert(result == skipped);
        },
    }
    assert(skipped is Some ==> result is Some && at_least(result.unwrap(), skipped.unwrap()));
    if t < i - 1 {
        lemma_offers_dominate(os, j, (i - 1) as nat, t);
        if prev is Some {
            let p = prev.unwrap();
            assert(skipped is Some && at_least(skipped.unwrap(), p));
            lemma_at_least_trans(result.unwrap(), skipped.unwrap(), p);
            if t == j - 1 {
                lemma_at_least_trans(result.unwrap(), p, best_selection(os, t));
            }
            match os(t as int, j as int) {
                Some(sc) => {
                    lemma_at_least_trans(result.unwrap(), p, take_span(best_selection(os, t), t as int, j as int, sc));
                },
                None => {},
            }
        }
    } else {
        if i == j {
            assert(skipped is Some && at_least(skipped.unwrap(), b));
            lemma_at_least_trans(result.unwrap(), skipped.unwrap(), b);
        }
    }
}

/// No selection of options inside the first `j` characters ranks above the
/// best selection.
proof fn lemma_best_optimal(os: spec_fn(int, int) -> Option<int>, j: nat, sp: Seq<(int, int)>)
    requires
        spans_fit(os, j as int, sp),
    ensures
        at_least(best_selection(os, j), spans_value(os, sp)),
    decreases j,
{
    if j == 0 {
        if sp.len() > 0 {
            assert(0 <= sp[0].0 < sp[0].1 <= 0);
        }
    } else if sp.len() > 0 && sp.last().1 == j {
        let l = sp.last();
        let s = l.0;
        let rest = sp.drop_last();
        assert(0 <= sp[sp.len() - 1].0 < sp[sp.len() - 1].1 <= j);
        assert forall|k: int| 0 <= k < rest.len() implies 0 <= #[trigger] rest[k].0 < rest[k].1 <= s
            && os(rest[k].0, rest[k].1) is Some by {
            assert(rest[k] == sp[k]);
            assert(sp[k].1 <= sp[sp.len() - 1].0);
        }
        assert forall|a: int, c: int| 0 <= a < c < rest.len() implies #[trigger] rest[a].1 <= #[trigger] rest[c].0 by {
            assert(rest[a] == sp[a] && rest[c] == sp[c]);
        }
        lemma_best_optimal(os, s as nat, rest);
        let sc = os(s, j as int).unwrap();
        lemma_offers_dominate(os, j, j, s as nat);
        let via = take_span(best_selection(os, s as nat), s, j as int, sc);
        assert(at_least(via, take_span(spans_value(os, rest), s, j as int, sc)));
        assert(spans_value(os, sp) == take_span(spans_value(os, rest), s, j as int, sc));
        lemma_at_least_trans(best_selection(os, j), via, spans_value(os, sp));
    } else {
        if sp.len() > 0 {
            assert(0 <= sp[sp.len() - 1].0 < sp[sp.len() - 1].1 <= j);
        }
        assert forall|k: int| 0 <= k < sp.len() implies 0 <= #[trigger] sp[k].0 < sp[k].1 <= j - 1
            && os(sp[k].0, sp[k].1) is Some by {
            if k < sp.len() - 1 {
                assert(sp[k].1 <= sp[sp.len() - 1].0);
            }
        }
        lemma_best_optimal(os, (j - 1) as nat, sp);
        lemma_offers_dominate(os, j, j, (j - 1) as nat);
        lemma_at_least_trans(best_selection(os, j), best_selection(os, (j - 1) as nat), spans_value(os, sp));
    }
}

/// The spans that live conversion pins for reading `r` under dictionary `d`.
pub open spec fn live_spans(d: Seq<ReadingView>, r: Seq<char>) -> Seq<(int, int)> {
    best_selection(live_options(d, r), r.len()).3
}

/// The pinned spans are options of the reading, in order and without
/// overlap, and the selection's totals are theirs.
pub proof fn lemma_live_spans_fit(dictionary: Dictionary, reading: Seq<char>)
    ensures
        spans_fit(live_options(dictionary@, reading), reading.len() as int, live_spans(dictionary@, reading)),
        best_selection(live_options(dictionary@, reading), reading.len())
            == spans_value(live_options(dictionary@, reading), live_spans(dictionary@, reading)),
{
    lemma_best_sound(live_options(dictionary@, reading), reading.len());
}

/// No other choice of non-overlapping registered spans of the reading covers
/// more characters, or as many with fewer spans, or as many with as many
/// spans and a lower total score, than the spans live conversion pins.
pub proof fn lemma_live_spans_optimal(dictionary: Dictionary, reading: Seq<char>, spans: Seq<(int, int)>)
    requires
        spans_fit(live_options(dictionary@, reading), reading.len() as int, spans),
    ensures
        !ranks_above(
            spans_value(live_options(dictionary@, reading), spans),
            spans_value(live_options(dictionary@, reading), live_spans(dictionary@, reading)),
        ),
{
    let os = live_options(dictionary@, reading);
    lemma_best_optimal(os, reading.len(), spans);
    lemma_best_sound(os, reading.len());
}

fn has_text(v: &Vec<String>, t: &str) -> (b: bool)
    ensures
        b == texts_of(v@).contains(t@),
{
    let mut i: usize = 0;
    while i < v.len()
        invariant
            i <= v.len(),
            forall|j: int| 0 <= j < i ==> #[trigger] v@[j]@ != t@,
        decreases v.len() - i,
    {
        if str_eq(v[i].as_str(), t) {
            assert(texts_of(v@)[i as int] == t@);
            return true;
        }
        i += 1;
    }
    proof {
        if texts_of(v@).contains(t@) {
            let j = choose|j: int| 0 <= j < texts_of(v@).len() && texts_of(v@)[j] == t@;
            assert(v@[j]@ == t@);
        }
    }
    false
}

/// Appends the surfaces of `cands` that `acc` does not hold yet.
fn append_surfaces(acc: &mut Vec<String>, cands: &Vec<DictionaryCandidate>)
    ensures
        texts_of(final(acc)@) == append_dedup_texts(texts_of(old(acc)@), surfaces_of(candidate_views(cands@))),
{
    let ghost start = texts_of(acc@);
    let ghost src = surfaces_of(candidate_views(cands@));
    let mut j: usize = 0;
    while j < cands.len()
        invariant
            j <= cands.len(),
            src == surfaces_of(candidate_views(cands@)),
            src.len() == cands@.len(),
            texts_of(acc@) == append_dedup_texts(start, src.take(j as int)),
        decreases cands.len() - j,
    {
        let ghost before = acc@;
        proof {
            assert(src.take(j + 1).drop_last() =~= src.take(j as int));
            assert(src.take(j + 1).last() == cands@[j as int].surface@);
        }
        if !has_text(acc, cands[j].surface.as_str()) {
            acc.push(copy_str(cands[j].surface.as_str()));
            assert(texts_of(acc@) =~= texts_of(before).push(cands@[j as int].surface@));
        }
        j += 1;
    }
    assert(src.take(j as int) =~= src);
}

/// The spellings of the variants as character sequences.
pub open spec fn variant_views(vs: Seq<Vec<char>>) -> Seq<Seq<char>> {
    vs.map_values(|v: Vec<char>| v@)
}

/// The option for `[s, e)`: its score and its surfaces.
fn span_option(dictionary: &Dictionary, variants: &Vec<Vec<char>>, n: usize, s: usize, e: usize) -> (r: Option<(i64, Vec<String>)>)
    requires
        s < e <= n,
    ensures
        match r {
            Some((sc, cs)) => option_score(dictionary@, variant_views(variants@), n as int, s as int, e as int)
                == Some(sc as int) && texts_of(cs@) == range_surfaces(
                dictionary@,
                variant_views(variants@),
                n as int,
                s as int,
                e as int,
            ),
            None => option_score(dictionary@, variant_views(variants@), n as int, s as int, e as int) is None,
        },
{
    if !(e - s >= 2 || (s == 0 && e == n)) {
        return None;
    }
    let ghost d = dictionary@;
    let ghost vs = variant_views(variants@);
    let mut score: Option<i64> = None;
    let mut surfaces: Vec<String> = Vec::new();
    let mut k: usize = 0;
    while k < variants.len()
        invariant
            k <= variants.len(),
            s < e <= n,
            d == dictionary@,
            vs == variant_views(variants@),
            vs.len() == variants@.len(),
            match score {
                Some(x) => range_score(d, vs.take(k as int), n as int, s as int, e as int) == Some(x as int),
                None => range_score(d, vs.take(k as int), n as int, s as int, e as int) is None,
            },
            texts_of(surfaces@) == range_surfaces(d, vs.take(k as int), n as int, s as int, e as int),
        decreases variants.len() - k,
    {
        proof {
            assert(vs.take(k + 1).drop_last() =~= vs.take(k as int));
            assert(vs.take(k + 1).last() == variants@[k as int]@);
        }
        if variants[k].len() == n {
            let spelled = slice_to_string(variants[k].as_slice(), s, e);
            match dictionary.exact_match_search(spelled.as_str()) {
                Some(found) => {
                    if found.candidates.len() > 0 {
                        assert(candidate_views(found.candidates@)[0].1 == found.candidates@[0].score);
                        if score.is_none() {
                            score = Some(found.candidates[0].score);
                        }
                        append_surfaces(&mut surfaces, &found.candidates);
                    }
                },
                None => {},
            }
        }
        k += 1;
    }
    assert(vs.take(k as int) =~= vs);
    match score {
        Some(x) => Some((x, surfaces)),
        None => None,
    }
}

/// A selection under construction.
struct Partial {
    covered: usize,
    count: usize,
    score: i128,
    spans: Vec<(usize, usize)>,
}

spec fn spans_view(s: Seq<(usize, usize)>) -> Seq<(int, int)> {
    s.map_values(|x: (usize, usize)| (x.0 as int, x.1 as int))
}

spec fn pick_view(p: Partial) -> Selection {
    (p.covered as int, p.count as int, p.score as int, spans_view(p.spans@))
}

spec fn slot_view(o: Option<Partial>) -> Option<Selection> {
    match o {
        Some(p) => Some(pick_view(p)),
        None => None,
    }
}

/// The totals of a pick inside the first `j` characters stay in range.
spec fn pick_bounded(p: Partial, j: int) -> bool {
    &&& p.covered <= j
    &&& p.count <= p.covered
    &&& -(p.count * 0x8000_0000_0000_0000) <= p.score <= p.count * 0x8000_0000_0000_0000
}

fn copy_pick(p: &Partial) -> (r: Partial)
    ensures
        r.covered == p.covered,
        r.count == p.count,
        r.score == p.score,
        r.spans@ == p.spans@,
{
    let mut spans: Vec<(usize, usize)> = Vec::new();
    let mut i: usize = 0;
    while i < p.spans.len()
        invariant
            i <= p.spans.len(),
            spans@ == p.spans@.take(i as int),
        decreases p.spans.len() - i,
    {
        spans.push(p.spans[i]);
        i += 1;
        assert(spans@ =~= p.spans@.take(i as int));
    }
    assert(p.spans@.take(i as int) =~= p.spans@);
    Partial { covered: p.covered, count: p.count, score: p.score, spans }
}

fn pick_ranks_above(a: &Partial, b: &Partial) -> (r: bool)
    ensures
        r == ranks_above(pick_view(*a), pick_view(*b)),
{
    a.covered > b.covered || (a.covered == b.covered && (a.count < b.count || (a.count == b.count
        && a.score < b.score)))
}

/// Offers `x` to slot `j` of `best`.
fn offer_pick(best: &mut Vec<Option<Partial>>, j: usize, x: Partial)
    requires
        j < old(best).len(),
    ensures
        final(best)@.len() == old(best)@.len(),
        slot_view(final(best)@[j as int]) == offer(slot_view(old(best)@[j as int]), pick_view(x)),
        final(best)@[j as int] matches Some(p) ==> (p == x || Some(p) == old(best)@[j as int]),
        forall|k: int| 0 <= k < final(best)@.len() && k != j ==> final(best)@[k] == old(best)@[k],
{
    let replace = match &best[j] {
        None => true,
        Some(cur) => pick_ranks_above(&x, cur),
    };
    if replace {
        best.set(j, Some(x));
    }
}

/// Selects the user-dictionary spans pinned in live conversion of `reading`.
///
/// Embedded one-character entries are ignored; a one-character entry is
/// still eligible when it covers the whole reading. Without a dictionary
/// nothing is pinned.
pub fn select_live_user_dictionary_matches(dictionary: Option<&Dictionary>, reading: &str) -> (out: Vec<
    LiveUserDictionaryMatch,
>)
    ensures
        match dictionary {
            None => out@.len() == 0,
            Some(d) => {
                let spans = live_spans(d@, reading@);
                &&& out@.len() == spans.len()
                &&& forall|k: int| 0 <= k < spans.len() ==> {
                    &&& (#[trigger] out@[k]).char_start == spans[k].0
                    &&& out@[k].char_end == spans[k].1
                    &&& out@[k].reading@ == reading@.subrange(spans[k].0, spans[k].1)
                    &&& texts_of(out@[k].candidates@) == range_surfaces(
                        d@,
                        zu_du_variants(reading@),
                        reading@.len() as int,
                        spans[k].0,
                        spans[k].1,
                    )
                }
            },
        },
{
    let dictionary = match dictionary {
        Some(d) => d,
        None => return Vec::new(),
    };
    let original = chars_of(reading);
    let n = original.len();
    let ghost r = reading@;
    let ghost os = live_options(dictionary@, r);
    let list = zu_du_reading_variants(reading);
    let mut variants: Vec<Vec<char>> = Vec::new();
    let mut v: usize = 0;
    while v < list.len()
        invariant
            v <= list.len(),
            list@.len() == zu_du_variants(r).len(),
            forall|i: int| 0 <= i < list@.len() ==> #[trigger] list@[i]@ == zu_du_variants(r)[i],
            variant_views(variants@) == zu_du_variants(r).take(v as int),
        decreases list.len() - v,
    {
        let chars = chars_of(list[v].as_str());
        let ghost before = variants@;
        variants.push(chars);
        proof {
            assert(variants@ == before.push(chars));
            assert(variant_views(variants@) =~= variant_views(before).push(chars@));
            assert(zu_du_variants(r).take(v + 1) =~= zu_du_variants(r).take(v as int).push(zu_du_variants(r)[v as int]));
        }
        v += 1;
    }
    assert(zu_du_variants(r).take(v as int) =~= zu_du_variants(r));
    let ghost vs = variant_views(variants@);
    assert(forall|s: int, e: int| #[trigger] os(s, e) == option_score(dictionary@, vs, n as int, s, e));

    // Weighted interval scheduling over character positions: slot `j`
    // holds the best selection inside the first `j` characters.
    let mut best: Vec<Option<Partial>> = Vec::new();
    best.push(Some(Partial { covered: 0, count: 0, score: 0, spans: Vec::new() }));
    let mut j0: usize = 0;
    while j0 < n
        invariant
            j0 <= n,
            best@.len() == j0 + 1,
            slot_view(best@[0]) == Some(empty_selection()),
            best@[0] matches Some(p) && pick_bounded(p, 0),
            forall|k: int| 1 <= k < best@.len() ==> best@[k] is None,
        decreases n - j0,
    {
        best.push(None);
        j0 += 1;
    }
    assert(spans_view(Seq::<(usize, usize)>::empty()) =~= Seq::<(int, int)>::empty());
    let mut i: usize = 0;
    while i < n
        invariant
            i <= n,
            n == reading@.len(),
            vs == variant_views(variants@),
            forall|s: int, e: int| #[trigger] os(s, e) == option_score(dictionary@, vs, n as int, s, e),
            best@.len() == n + 1,
            forall|j: int| 0 <= j <= i ==> slot_view(#[trigger] best@[j]) == Some(best_selection(os, j as nat)),
            forall|j: int| i < j <= n ==> slot_view(#[trigger] best@[j]) == offers(os, j as nat, i as nat),
            forall|j: int| 0 <= j <= n ==> (#[trigger] best@[j] matches Some(p) ==> pick_bounded(p, j)),
        decreases n - i,
    {
        assert(slot_view(best@[i as int]) == Some(best_selection(os, i as nat)));
        let cur = match &best[i] {
            Some(p) => copy_pick(p),
            None => Partial { covered: 0, count: 0, score: 0, spans: Vec::new() },
        };
        assert(pick_view(cur) == best_selection(os, i as nat));
        assert(pick_bounded(cur, i as int));
        let ghost b = pick_view(cur);
        let skip = copy_pick(&cur);
        assert(pick_view(skip) == b);
        offer_pick(&mut best, i + 1, skip);
        let mut e: usize = i;
        while e < n
            invariant
                i < n,
                i <= e <= n,
                n == reading@.len(),
                vs == variant_views(variants@),
                forall|s: int, e: int| #[trigger] os(s, e) == option_score(dictionary@, vs, n as int, s, e),
                best@.len() == n + 1,
                pick_view(cur) == b,
                b == best_selection(os, i as nat),
                pick_bounded(cur, i as int),
                forall|j: int| 0 <= j <= i ==> slot_view(#[trigger] best@[j]) == Some(best_selection(os, j as nat)),
                forall|j: int| i + 1 <= j <= e ==> slot_view(#[trigger] best@[j]) == offers(os, j as nat, (i + 1) as nat),
                forall|j: int| e < j <= n && j != i + 1 ==> slot_view(#[trigger] best@[j]) == offers(os, j as nat, i as nat),
                e == i ==> slot_view(best@[i + 1]) == offer(offers(os, (i + 1) as nat, i as nat), b),
                forall|j: int| 0 <= j <= n ==> (#[trigger] best@[j] matches Some(p) ==> pick_bounded(p, j)),
            decreases n - e,
        {
            e += 1;
            let ghost prev = slot_view(best@[e as int]);
            assert(prev == if e == i + 1 { offer(offers(os, e as nat, i as nat), b) } else { offers(os, e as nat, i as nat) });
            match span_option(dictionary, &variants, n, i, e) {
                Some((sc, _)) => {
                    proof {
                        assert(0x8000_0000_0000_0000 * (cur.count + 1) <= 0x8000_0000_0000_0000 * (n as int)) by (nonlinear_arith)
                            requires
                                cur.count + 1 <= n,
                        ;
                    }
                    let mut spans = copy_pick(&cur).spans;
                    let ghost old_spans = spans@;
                    spans.push((i, e));
                    let x = Partial {
                        covered: cur.covered + (e - i),
                        count: cur.count + 1,
                        score: cur.score + sc as i128,
                        spans,
                    };
                    assert(spans_view(x.spans@) =~= spans_view(old_spans).push((i as int, e as int)));
                    assert(pick_view(x) == take_span(b, i as int, e as int, sc as int));
                    offer_pick(&mut best, e, x);
                },
                None => {},
            }
        }
        i += 1;
    }
    assert(slot_view(best@[n as int]) == Some(best_selection(os, n as nat)));
    let chosen = match &best[n] {
        Some(p) => copy_pick(p),
        None => Partial { covered: 0, count: 0, score: 0, spans: Vec::new() },
    };
    let ghost spans = best_selection(os, n as nat).3;
    assert(spans_view(chosen.spans@) == spans);
    proof {
        lemma_best_sound(os, n as nat);
    }
    let mut out: Vec<LiveUserDictionaryMatch> = Vec::new();
    let mut k: usize = 0;
    while k < chosen.spans.len()
        invariant
            k <= chosen.spans.len(),
            n == reading@.len(),
            original@ == reading@,
            vs == variant_views(variants@),
            vs == zu_du_variants(reading@),
            forall|s: int, e: int| #[trigger] os(s, e) == option_score(dictionary@, vs, n as int, s, e),
            spans_view(chosen.spans@) == spans,
            spans == live_spans(dictionary@, reading@),
            spans_fit(os, n as int, spans),
            out@.len() == k,
            forall|q: int| 0 <= q < k ==> {
                &&& (#[trigger] out@[q]).char_start == spans[q].0
                &&& out@[q].char_end == spans[q].1
                &&& out@[q].reading@ == reading@.subrange(spans[q].0, spans[q].1)
                &&& texts_of(out@[q].candidates@) == range_surfaces(dictionary@, vs, n as int, spans[q].0, spans[q].1)
            },
        decreases chosen.spans.len() - k,
    {
        let (s, e) = chosen.spans[k];
        assert(spans[k as int] == (s as int, e as int));
        assert(0 <= spans[k as int].0 < spans[k as int].1 <= n);
        let piece = slice_to_string(original.as_slice(), s, e);
        let candidates = match span_option(dictionary, &variants, n, s, e) {
            Some((_, cs)) => cs,
            None => Vec::new(),
        };
        out.push(LiveUserDictionaryMatch { char_start: s, char_end: e, reading: piece, candidates });
        k += 1;
    }
    out
}

} // verus!

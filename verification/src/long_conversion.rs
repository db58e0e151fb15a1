//! Bounded splitting and beam composition for long explicit conversions.
use vstd::prelude::*;

use crate::text::{chars_of, push_str, slice_to_string, str_eq};

verus! {

pub const MAX_SEGMENT_CANDIDATES: usize = 5;
pub const MAX_SEARCH_STATES: usize = 20;
pub const MAX_FINAL_CANDIDATES: usize = 9;

/// One span of a long reading: converted on its own, or passed through as is
/// (punctuation).
#[derive(Debug, Clone, PartialEq, Eq)]
pub struct ConversionSpan {
    pub text: String,
    pub passthrough: bool,
}

/// A candidate text with its cost (lower is better). Costs are in quarter
/// units, so the fractional weights used when ranking stay exact.
#[derive(Debug, Clone, PartialEq, Eq)]
pub struct RankedText {
    pub text: String,
    pub cost: u64,
}

impl RankedText {
    /// An independent copy.
    pub fn duplicate(&self) -> (r: Self)
        ensures
            r == *self,
    {
        RankedText { text: self.text.clone(), cost: self.cost }
    }
}

/// ASCII punctuation and the common Japanese punctuation and brackets.
pub open spec fn is_punct(c: char) -> bool {
    let v = c as u32;
    (0x21 <= v && v <= 0x2F) || (0x3A <= v && v <= 0x40) || (0x5B <= v && v <= 0x60) || (0x7B <= v
        && v <= 0x7E) || c == '、' || c == '。' || c == '，' || c == '．' || c == '！' || c == '？'
        || c == '：' || c == '；' || c == '…' || c == '‥' || c == '・' || c == '「' || c == '」'
        || c == '『' || c == '』' || c == '【' || c == '】' || c == '（' || c == '）' || c == '［'
        || c == '］' || c == '｛' || c == '｝'
}

/// Whether `ch` is punctuation that splits a long reading.
pub fn is_punctuation(ch: char) -> (r: bool)
    ensures
        r == is_punct(ch),
{
    let v = ch as u32;
    (0x21 <= v && v <= 0x2F) || (0x3A <= v && v <= 0x40) || (0x5B <= v && v <= 0x60) || (0x7B <= v
        && v <= 0x7E) || ch == '、' || ch == '。' || ch == '，' || ch == '．' || ch == '！' || ch
        == '？' || ch == '：' || ch == '；' || ch == '…' || ch == '‥' || ch == '・' || ch == '「'
        || ch == '」' || ch == '『' || ch == '』' || ch == '【' || ch == '】' || ch == '（' || ch
        == '）' || ch == '［' || ch == '］' || ch == '｛' || ch == '｝'
}

/// The characters `chars[start..end]` as a string.
pub fn slice_chars(chars: &[char], start: usize, end: usize) -> (s: String)
    requires
        start <= end <= chars@.len(),
    ensures
        s@ == chars@.subrange(start as int, end as int),
{
    slice_to_string(chars, start, end)
}

/// End of the run starting at `i` whose characters are all punctuation
/// (`punct`) or all non-punctuation.
pub open spec fn run_end(chars: Seq<char>, i: int, punct: bool) -> int
    decreases chars.len() - i,
{
    if i >= chars.len() || is_punct(chars[i]) != punct {
        i
    } else {
        run_end(chars, i + 1, punct)
    }
}

/// The largest boundary `b` with `lo < b <= hi`, or `hi` if there is none.
pub open spec fn preferred_boundary(bs: Seq<usize>, lo: int, hi: int) -> int
    decreases bs.len(),
{
    if bs.len() == 0 {
        hi
    } else {
        let rest = preferred_boundary(bs.drop_last(), lo, hi);
        let b = bs.last() as int;
        if lo < b && b <= hi && (rest == hi && !has_boundary(bs.drop_last(), lo, hi) || b > rest) {
            b
        } else {
            rest
        }
    }
}

/// Some boundary lies in `(lo, hi]`.
pub open spec fn has_boundary(bs: Seq<usize>, lo: int, hi: int) -> bool {
    exists|i: int| 0 <= i < bs.len() && lo < #[trigger] bs[i] && bs[i] <= hi
}

/// Pieces of the non-punctuation run `chars[start..end]`, each at most `max`
/// characters, cut at the last lattice boundary that fits.
pub open spec fn run_pieces(chars: Seq<char>, start: int, end: int, max: int, bs: Seq<usize>) -> Seq<(Seq<char>, bool)>
    decreases end - start,
{
    if max <= 0 || start >= end {
        Seq::empty()
    } else if end - start > max {
        let p = preferred_boundary(bs, start, start + max);
        if p <= start || p > end {
            Seq::empty()
        } else {
            seq![(chars.subrange(start, p), false)] + run_pieces(chars, p, end, max, bs)
        }
    } else {
        seq![(chars.subrange(start, end), false)]
    }
}

/// Spans of `chars[i..]`.
pub open spec fn spans_from(chars: Seq<char>, i: int, max: int, bs: Seq<usize>) -> Seq<(Seq<char>, bool)>
    decreases chars.len() - i,
{
    if i < 0 || i >= chars.len() {
        Seq::empty()
    } else if is_punct(chars[i]) {
        let e = run_end(chars, i + 1, true);
        if e <= i || e > chars.len() { Seq::empty() } else { seq![(chars.subrange(i, e), true)] + spans_from(chars, e, max, bs) }
    } else {
        let e = run_end(chars, i + 1, false);
        if e <= i || e > chars.len() { Seq::empty() } else { run_pieces(chars, i, e, max, bs) + spans_from(chars, e, max, bs) }
    }
}

/// The spans of a reading: punctuation runs pass through, other runs are cut
/// into pieces of at most `max(max_chars, 1)` characters, preferring lattice
/// boundaries.
pub open spec fn split_spec(reading: Seq<char>, max_chars: nat, bs: Seq<usize>) -> Seq<(Seq<char>, bool)> {
    spans_from(reading, 0, if max_chars == 0 { 1 } else { max_chars as int }, bs)
}

pub open spec fn span_view(s: ConversionSpan) -> (Seq<char>, bool) {
    (s.text@, s.passthrough)
}

/// Concatenated texts of spans.
pub open spec fn spans_text(spans: Seq<(Seq<char>, bool)>) -> Seq<char>
    decreases spans.len(),
{
    if spans.len() == 0 {
        Seq::empty()
    } else {
        spans_text(spans.drop_last()) + spans.last().0
    }
}

proof fn lemma_spans_text_append(a: Seq<(Seq<char>, bool)>, b: Seq<(Seq<char>, bool)>)
    ensures
        spans_text(a + b) == spans_text(a) + spans_text(b),
    decreases b.len(),
{
    if b.len() == 0 {
        assert(a + b =~= a);
        assert(spans_text(a) + Seq::<char>::empty() =~= spans_text(a));
    } else {
        lemma_spans_text_append(a, b.drop_last());
        assert((a + b).drop_last() =~= a + b.drop_last());
        assert(spans_text(a) + spans_text(b.drop_last()) + b.last().0 =~= spans_text(a) + (spans_text(b.drop_last()) + b.last().0));
    }
}

proof fn lemma_run_end(chars: Seq<char>, i: int, punct: bool)
    requires
        0 <= i <= chars.len(),
    ensures
        i <= run_end(chars, i, punct) <= chars.len(),
        forall|j: int| i <= j < run_end(chars, i, punct) ==> is_punct(#[trigger] chars[j]) == punct,
        run_end(chars, i, punct) < chars.len() ==> is_punct(chars[run_end(chars, i, punct)]) != punct,
    decreases chars.len() - i,
{
    if i < chars.len() && is_punct(chars[i]) == punct {
        lemma_run_end(chars, i + 1, punct);
    }
}

proof fn lemma_preferred(bs: Seq<usize>, lo: int, hi: int)
    requires
        lo < hi,
    ensures
        lo < preferred_boundary(bs, lo, hi) <= hi,
        has_boundary(bs, lo, hi) ==> has_boundary(bs, lo, hi) && (exists|i: int| 0 <= i < bs.len() && bs[i]
            == preferred_boundary(bs, lo, hi)),
        forall|i: int| 0 <= i < bs.len() && lo < bs[i] && bs[i] <= hi ==> bs[i] <= #[trigger] preferred_boundary(bs, lo, hi),
        !has_boundary(bs, lo, hi) ==> preferred_boundary(bs, lo, hi) == hi,
    decreases bs.len(),
{
    if bs.len() > 0 {
        let rest = bs.drop_last();
        lemma_preferred(rest, lo, hi);
        let b = bs.last() as int;
        if has_boundary(rest, lo, hi) {
            let i = choose|i: int| 0 <= i < rest.len() && lo < #[trigger] rest[i] && rest[i] <= hi;
            assert(bs[i] == rest[i]);
        }
        assert forall|i: int| 0 <= i < bs.len() && lo < bs[i] && bs[i] <= hi implies bs[i] <= #[trigger] preferred_boundary(bs, lo, hi) by {
            if i < rest.len() {
                assert(bs[i] == rest[i]);
                assert(has_boundary(rest, lo, hi));
            }
        }
        if has_boundary(bs, lo, hi) {
            if lo < b && b <= hi && (preferred_boundary(rest, lo, hi) == hi && !has_boundary(rest, lo, hi) || b > preferred_boundary(rest, lo, hi)) {
                assert(bs[bs.len() - 1] == preferred_boundary(bs, lo, hi));
            } else {
                let w = choose|i: int| 0 <= i < bs.len() && lo < #[trigger] bs[i] && bs[i] <= hi;
                if w == bs.len() - 1 {
                    assert(has_boundary(rest, lo, hi));
                } else {
                    assert(rest[w] == bs[w]);
                }
                let j = choose|j: int| 0 <= j < rest.len() && rest[j] == preferred_boundary(rest, lo, hi);
                assert(bs[j] == rest[j]);
            }
        } else {
            if lo < b && b <= hi {
                assert(bs[bs.len() - 1] == b);
            }
        }
    }
}

fn preferred_boundary_exec(bs: &[usize], lo: usize, hi: usize) -> (p: usize)
    requires
        lo < hi,
    ensures
        p as int == preferred_boundary(bs@, lo as int, hi as int),
{
    let mut best: usize = hi;
    let mut found = false;
    let mut i: usize = 0;
    while i < bs.len()
        invariant
            lo < hi,
            i <= bs@.len(),
            best as int == preferred_boundary(bs@.take(i as int), lo as int, hi as int),
            found == has_boundary(bs@.take(i as int), lo as int, hi as int),
        decreases bs@.len() - i,
    {
        let b = bs[i];
        let ghost prev = bs@.take(i as int);
        assert(bs@.take(i + 1).drop_last() =~= prev);
        assert(bs@.take(i + 1).last() == b);
        if lo < b && b <= hi && (!found || b > best) {
            proof {
                lemma_preferred(prev, lo as int, hi as int);
            }
            best = b;
        }
        proof {
            let cur = bs@.take(i + 1);
            if lo < b && b <= hi {
                assert(cur[i as int] == b);
            }
            if has_boundary(prev, lo as int, hi as int) {
                let j = choose|j: int| 0 <= j < prev.len() && lo < #[trigger] prev[j] && prev[j] <= hi;
                assert(cur[j] == prev[j]);
            }
            if has_boundary(cur, lo as int, hi as int) && !(lo < b && b <= hi) {
                let j = choose|j: int| 0 <= j < cur.len() && lo < #[trigger] cur[j] && cur[j] <= hi;
                assert(prev[j] == cur[j]);
            }
        }
        found = found || (lo < b && b <= hi);
        i += 1;
    }
    assert(bs@.take(bs@.len() as int) =~= bs@);
    best
}

/// Split punctuation first, then prefer dictionary-lattice boundaries, and
/// finally apply a hard maximum length. The span texts concatenate back to
/// the reading.
pub fn split_conversion_reading(reading: &str, max_chars: usize, lattice_boundaries: &[usize]) -> (spans: Vec<
    ConversionSpan,
>)
    ensures
        spans@.map_values(|s: ConversionSpan| span_view(s)) == split_spec(reading@, max_chars as nat, lattice_boundaries@),
        spans_text(spans@.map_values(|s: ConversionSpan| span_view(s))) == reading@,
{
    let chars = chars_of(reading);
    let ghost cs = chars@;
    let max: usize = if max_chars == 0 { 1 } else { max_chars };
    let ghost bs = lattice_boundaries@;
    let mut spans: Vec<ConversionSpan> = Vec::new();
    let mut cursor: usize = 0;
    while cursor < chars.len()
        invariant
            cs == chars@,
            cs == reading@,
            max >= 1,
            max as int == (if max_chars == 0 { 1 } else { max_chars as int }),
            bs == lattice_boundaries@,
            cursor <= cs.len(),
            spans@.map_values(|s: ConversionSpan| span_view(s)) + spans_from(cs, cursor as int, max as int, bs)
                == spans_from(cs, 0, max as int, bs),
            spans_text(spans@.map_values(|s: ConversionSpan| span_view(s))) == cs.subrange(0, cursor as int),
        decreases cs.len() - cursor,
    {
        let ghost before = spans@.map_values(|s: ConversionSpan| span_view(s));
        proof {
            lemma_run_end(cs, cursor + 1, is_punct(cs[cursor as int]));
        }
        if is_punctuation(chars[cursor]) {
            let start = cursor;
            cursor += 1;
            while cursor < chars.len() && is_punctuation(chars[cursor])
                invariant
                    cs == chars@,
                    start < cursor <= cs.len(),
                    run_end(cs, start + 1, true) == run_end(cs, cursor as int, true),
                decreases cs.len() - cursor,
            {
                cursor += 1;
            }
            let text = slice_chars(chars.as_slice(), start, cursor);
            spans.push(ConversionSpan { text, passthrough: true });
            proof {
                let piece = seq![(cs.subrange(start as int, cursor as int), true)];
                assert(spans@.map_values(|s: ConversionSpan| span_view(s)) =~= before + piece);
                assert(before + spans_from(cs, start as int, max as int, bs) =~= before + piece + spans_from(cs, cursor as int, max as int, bs));
                lemma_spans_text_append(before, piece);
                lemma_spans_text_single(piece[0]);
                assert(piece =~= seq![piece[0]]);
                assert(cs.subrange(0, start as int) + cs.subrange(start as int, cursor as int) =~= cs.subrange(0, cursor as int));
            }
            continue;
        }
        let run_start = cursor;
        while cursor < chars.len() && !is_punctuation(chars[cursor])
            invariant
                cs == chars@,
                run_start <= cursor <= cs.len(),
                run_start < cs.len(),
                !is_punct(cs[run_start as int]),
                run_end(cs, run_start + 1, false) == run_end(cs, if cursor == run_start { run_start + 1 } else { cursor as int }, false),
            decreases cs.len() - cursor,
        {
            cursor += 1;
        }
        let run_end_pos = cursor;
        let mut part_start = run_start;
        proof {
            assert(run_end_pos as int == run_end(cs, run_start + 1, false));
            assert(spans_from(cs, run_start as int, max as int, bs) == run_pieces(cs, run_start as int, run_end_pos as int, max as int, bs)
                + spans_from(cs, run_end_pos as int, max as int, bs));
        }
        while run_end_pos - part_start > max
            invariant
                cs == chars@,
                cs == reading@,
                bs == lattice_boundaries@,
                max >= 1,
                max as int == (if max_chars == 0 { 1 } else { max_chars as int }),
                run_start <= part_start <= run_end_pos <= cs.len(),
                spans@.map_values(|s: ConversionSpan| span_view(s)) + run_pieces(cs, part_start as int, run_end_pos as int, max as int, bs)
                    + spans_from(cs, run_end_pos as int, max as int, bs) == spans_from(cs, 0, max as int, bs),
                spans_text(spans@.map_values(|s: ConversionSpan| span_view(s))) == cs.subrange(0, part_start as int),
            decreases run_end_pos - part_start,
        {
            let ghost before2 = spans@.map_values(|s: ConversionSpan| span_view(s));
            let hard_end = part_start + max;
            let preferred = preferred_boundary_exec(lattice_boundaries, part_start, hard_end);
            proof {
                lemma_preferred(bs, part_start as int, hard_end as int);
            }
            let text = slice_chars(chars.as_slice(), part_start, preferred);
            spans.push(ConversionSpan { text, passthrough: false });
            proof {
                let piece = seq![(cs.subrange(part_start as int, preferred as int), false)];
                assert(spans@.map_values(|s: ConversionSpan| span_view(s)) =~= before2 + piece);
                assert(run_pieces(cs, part_start as int, run_end_pos as int, max as int, bs) == piece + run_pieces(cs, preferred as int, run_end_pos as int, max as int, bs));
                assert(before2 + (piece + run_pieces(cs, preferred as int, run_end_pos as int, max as int, bs)) =~= before2 + piece + run_pieces(cs, preferred as int, run_end_pos as int, max as int, bs));
                lemma_spans_text_append(before2, piece);
                lemma_spans_text_single(piece[0]);
                assert(piece =~= seq![piece[0]]);
                assert(cs.subrange(0, part_start as int) + cs.subrange(part_start as int, preferred as int) =~= cs.subrange(0, preferred as int));
            }
            part_start = preferred;
        }
        if part_start < run_end_pos {
            let ghost before3 = spans@.map_values(|s: ConversionSpan| span_view(s));
            let text = slice_chars(chars.as_slice(), part_start, run_end_pos);
            spans.push(ConversionSpan { text, passthrough: false });
            proof {
                let piece = seq![(cs.subrange(part_start as int, run_end_pos as int), false)];
                assert(spans@.map_values(|s: ConversionSpan| span_view(s)) =~= before3 + piece);
                lemma_spans_text_append(before3, piece);
                lemma_spans_text_single(piece[0]);
                assert(piece =~= seq![piece[0]]);
                assert(cs.subrange(0, part_start as int) + cs.subrange(part_start as int, run_end_pos as int) =~= cs.subrange(0, run_end_pos as int));
            }
        } else {
            proof {
                assert(run_pieces(cs, part_start as int, run_end_pos as int, max as int, bs) =~= Seq::<(Seq<char>, bool)>::empty());
                assert(spans@.map_values(|s: ConversionSpan| span_view(s)) + Seq::<(Seq<char>, bool)>::empty() =~= spans@.map_values(|s: ConversionSpan| span_view(s)));
            }
        }
    }
    proof {
        assert(spans_from(cs, cursor as int, max as int, bs) =~= Seq::<(Seq<char>, bool)>::empty());
        assert(spans@.map_values(|s: ConversionSpan| span_view(s)) + Seq::<(Seq<char>, bool)>::empty() =~= spans@.map_values(|s: ConversionSpan| span_view(s)));
        assert(cs.subrange(0, cs.len() as int) =~= cs);
    }
    spans
}

proof fn lemma_spans_text_single(x: (Seq<char>, bool))
    ensures
        spans_text(seq![x]) == x.0,
{
    let s = seq![x];
    assert(s.drop_last() =~= Seq::<(Seq<char>, bool)>::empty());
    assert(s.last() == x);
    assert(spans_text(s.drop_last()) == Seq::<char>::empty());
    assert(spans_text(s) == spans_text(s.drop_last()) + s.last().0);
    assert(Seq::<char>::empty() + x.0 =~= x.0);
}

pub open spec fn ranked_view(r: RankedText) -> (Seq<char>, int) {
    (r.text@, r.cost as int)
}

/// Every combination of a state with an option of the next segment, states
/// in order and options in order within each state.
pub open spec fn extend_states(states: Seq<(Seq<char>, int)>, options: Seq<(Seq<char>, int)>) -> Seq<(Seq<char>, int)>
    decreases states.len(),
{
    if states.len() == 0 {
        Seq::empty()
    } else {
        let last = states.last();
        extend_states(states.drop_last(), options) + options.map_values(|o: (Seq<char>, int)| (last.0 + o.0, last.1 + o.1))
    }
}

/// Number of leading items whose cost is at most `c`.
pub open spec fn count_le(sorted: Seq<(Seq<char>, int)>, c: int) -> nat
    decreases sorted.len(),
{
    if sorted.len() == 0 || sorted[0].1 > c {
        0
    } else {
        1 + count_le(sorted.drop_first(), c)
    }
}

/// Insert after every item of cost at most the new item's cost.
pub open spec fn insert_by_cost(sorted: Seq<(Seq<char>, int)>, x: (Seq<char>, int)) -> Seq<(Seq<char>, int)> {
    let p = count_le(sorted, x.1) as int;
    sorted.take(p).push(x) + sorted.skip(p)
}

/// Stable sort by ascending cost.
pub open spec fn sort_by_cost(s: Seq<(Seq<char>, int)>) -> Seq<(Seq<char>, int)>
    decreases s.len(),
{
    if s.len() == 0 {
        Seq::empty()
    } else {
        insert_by_cost(sort_by_cost(s.drop_last()), s.last())
    }
}

/// Keep the first item of each text.
pub open spec fn dedup_texts(s: Seq<(Seq<char>, int)>) -> Seq<(Seq<char>, int)>
    decreases s.len(),
{
    if s.len() == 0 {
        Seq::empty()
    } else {
        let d = dedup_texts(s.drop_last());
        if exists|i: int| 0 <= i < d.len() && #[trigger] d[i].0 == s.last().0 {
            d
        } else {
            d.push(s.last())
        }
    }
}

pub open spec fn take_at_most<T>(s: Seq<T>, n: nat) -> Seq<T> {
    if s.len() <= n { s } else { s.take(n as int) }
}

/// Search states after the first `k` segments.
pub open spec fn beam_states(segments: Seq<Seq<(Seq<char>, int)>>, max_states: nat, k: nat) -> Seq<(Seq<char>, int)>
    decreases k,
{
    if k == 0 {
        seq![(Seq::<char>::empty(), 0int)]
    } else {
        take_at_most(
            dedup_texts(sort_by_cost(extend_states(beam_states(segments, max_states, (k - 1) as nat), segments[k - 1]))),
            max_states,
        )
    }
}

/// Concatenations of one option per segment, best first, keeping at most
/// `max_states` distinct texts after each segment and `max_final` at the end.
pub open spec fn combined_spec(segments: Seq<Seq<(Seq<char>, int)>>, max_states: nat, max_final: nat) -> Seq<(Seq<char>, int)> {
    if segments.len() == 0 || max_states == 0 || max_final == 0 {
        Seq::empty()
    } else {
        take_at_most(beam_states(segments, max_states, segments.len() as nat), max_final)
    }
}

fn insert_sorted(sorted: &mut Vec<RankedText>, x: RankedText)
    ensures
        final(sorted)@.map_values(|r: RankedText| ranked_view(r)) == insert_by_cost(
            old(sorted)@.map_values(|r: RankedText| ranked_view(r)),
            ranked_view(x),
        ),
{
    let ghost sv = old(sorted)@.map_values(|r: RankedText| ranked_view(r));
    let mut p: usize = 0;
    proof {
        assert(sv.skip(0) =~= sv);
    }
    while p < sorted.len() && sorted[p].cost <= x.cost
        invariant
            sorted@.map_values(|r: RankedText| ranked_view(r)) == sv,
            p <= sv.len(),
            count_le(sv, x.cost as int) == p + count_le(sv.skip(p as int), x.cost as int),
        decreases sv.len() - p,
    {
        proof {
            assert(sv.skip(p as int).drop_first() =~= sv.skip(p + 1));
            assert(sv.skip(p as int)[0] == sv[p as int]);
        }
        p += 1;
    }
    proof {
        assert(sv.skip(0) =~= sv);
        if p < sv.len() {
            assert(sv.skip(p as int)[0] == sv[p as int]);
        }
    }
    sorted.insert(p, x);
    proof {
        assert(sorted@.map_values(|r: RankedText| ranked_view(r)) =~= sv.take(p as int).push(ranked_view(x)) + sv.skip(p as int));
    }
}

fn has_text_in(v: &Vec<RankedText>, t: &String) -> (r: bool)
    ensures
        r == (exists|i: int| 0 <= i < v@.len() && #[trigger] v@[i].text@ == t@),
{
    let mut i: usize = 0;
    while i < v.len()
        invariant
            i <= v@.len(),
            forall|j: int| 0 <= j < i ==> v@[j].text@ != t@,
        decreases v@.len() - i,
    {
        if str_eq(v[i].text.as_str(), t.as_str()) {
            return true;
        }
        i += 1;
    }
    false
}

/// Extending the empty start state gives the options themselves.
proof fn lemma_extend_from_start(opts: Seq<(Seq<char>, int)>)
    ensures
        extend_states(seq![(Seq::<char>::empty(), 0int)], opts) == opts,
{
    let start = seq![(Seq::<char>::empty(), 0int)];
    assert(start.drop_last() =~= Seq::<(Seq<char>, int)>::empty());
    assert(extend_states(start.drop_last(), opts) =~= Seq::<(Seq<char>, int)>::empty());
    let f = |o: (Seq<char>, int)| (start.last().0 + o.0, start.last().1 + o.1);
    let m = opts.map_values(f);
    assert forall|j: int| 0 <= j < opts.len() implies m[j] == opts[j] by {
        assert(Seq::<char>::empty() + opts[j].0 =~= opts[j].0);
    }
    assert(m =~= opts);
    assert(Seq::<(Seq<char>, int)>::empty() + m =~= m);
}

/// The options of one segment ranked: cheapest first (equal costs keep
/// their order), each text once, at most `limit` of them.
pub fn rank_options(options: &Vec<RankedText>, limit: usize) -> (out: Vec<RankedText>)
    requires
        forall|j: int| 0 <= j < options@.len() ==> #[trigger] options@[j].cost <= 0xFFFF_FFFF,
    ensures
        out@.map_values(|r: RankedText| ranked_view(r)) == take_at_most(
            dedup_texts(sort_by_cost(options@.map_values(|r: RankedText| ranked_view(r)))),
            limit as nat,
        ),
        forall|j: int| 0 <= j < out@.len() ==> #[trigger] out@[j].cost <= 0xFFFF_FFFF,
{
    let ghost opts = options@.map_values(|r: RankedText| ranked_view(r));
    if limit == 0 {
        return Vec::new();
    }
    let mut copy: Vec<RankedText> = Vec::new();
    let mut i: usize = 0;
    while i < options.len()
        invariant
            i <= options@.len(),
            copy@ == options@.take(i as int),
        decreases options@.len() - i,
    {
        copy.push(options[i].duplicate());
        assert(options@.take(i + 1) =~= options@.take(i as int).push(options@[i as int]));
        i += 1;
    }
    assert(options@.take(i as int) =~= options@);
    let mut segments: Vec<Vec<RankedText>> = Vec::new();
    segments.push(copy);
    let ghost segs = segments@.map_values(|s: Vec<RankedText>| s@.map_values(|r: RankedText| ranked_view(r)));
    assert(segs[0] == opts);
    let out = combine_segment_options(&segments, limit, limit);
    proof {
        let start = seq![(Seq::<char>::empty(), 0int)];
        lemma_extend_from_start(opts);
        assert(beam_states(segs, limit as nat, 0) == start);
        let t = take_at_most(dedup_texts(sort_by_cost(opts)), limit as nat);
        assert(beam_states(segs, limit as nat, 1) == t);
        assert(take_at_most(t, limit as nat) =~= t);
    }
    out
}

/// Concatenate per-segment alternatives while retaining only the best bounded
/// search states. Identical complete text is deduplicated by best cost.
pub fn combine_segment_options(segments: &Vec<Vec<RankedText>>, max_states: usize, max_final: usize) -> (out: Vec<RankedText>)
    requires
        segments@.len() <= 0xFFFF_FFFF,
        forall|i: int, j: int| 0 <= i < segments@.len() && 0 <= j < segments@[i]@.len() ==> #[trigger] segments@[i]@[j].cost <= 0xFFFF_FFFF,
    ensures
        out@.map_values(|r: RankedText| ranked_view(r)) == combined_spec(
            segments@.map_values(|s: Vec<RankedText>| s@.map_values(|r: RankedText| ranked_view(r))),
            max_states as nat,
            max_final as nat,
        ),
        forall|i: int| 0 <= i < out@.len() ==> #[trigger] out@[i].cost <= segments@.len() * 0xFFFF_FFFF,
{
    let ghost segs = segments@.map_values(|s: Vec<RankedText>| s@.map_values(|r: RankedText| ranked_view(r)));
    if segments.len() == 0 || max_states == 0 || max_final == 0 {
        return Vec::new();
    }
    let mut states: Vec<RankedText> = Vec::new();
    states.push(RankedText { text: String::new(), cost: 0 });
    proof {
        assert(states@.map_values(|r: RankedText| ranked_view(r)) =~= beam_states(segs, max_states as nat, 0));
    }
    let mut k: usize = 0;
    while k < segments.len()
        invariant
            segs == segments@.map_values(|s: Vec<RankedText>| s@.map_values(|r: RankedText| ranked_view(r))),
            segments@.len() <= 0xFFFF_FFFF,
            forall|i: int, j: int| 0 <= i < segments@.len() && 0 <= j < segments@[i]@.len() ==> #[trigger] segments@[i]@[j].cost <= 0xFFFF_FFFF,
            k <= segments@.len(),
            max_states > 0,
            states@.map_values(|r: RankedText| ranked_view(r)) == beam_states(segs, max_states as nat, k as nat),
            forall|i: int| 0 <= i < states@.len() ==> #[trigger] states@[i].cost <= k * 0xFFFF_FFFF,
        decreases segments@.len() - k,
    {
        let ghost sv = states@.map_values(|r: RankedText| ranked_view(r));
        let ghost opts = segs[k as int];
        // all combinations, in order
        let mut next: Vec<RankedText> = Vec::new();
        let mut si: usize = 0;
        while si < states.len()
            invariant
                segs == segments@.map_values(|s: Vec<RankedText>| s@.map_values(|r: RankedText| ranked_view(r))),
                k < segments@.len(),
                opts == segs[k as int],
                segments@.len() <= 0xFFFF_FFFF,
                forall|i: int, j: int| 0 <= i < segments@.len() && 0 <= j < segments@[i]@.len() ==> #[trigger] segments@[i]@[j].cost <= 0xFFFF_FFFF,
                sv == states@.map_values(|r: RankedText| ranked_view(r)),
                forall|i: int| 0 <= i < states@.len() ==> #[trigger] states@[i].cost <= k * 0xFFFF_FFFF,
                si <= states@.len(),
                next@.map_values(|r: RankedText| ranked_view(r)) == extend_states(sv.take(si as int), opts),
                forall|i: int| 0 <= i < next@.len() ==> #[trigger] next@[i].cost <= (k + 1) * 0xFFFF_FFFF,
            decreases states@.len() - si,
        {
            let ghost before = next@.map_values(|r: RankedText| ranked_view(r));
            let mut oi: usize = 0;
            while oi < segments[k].len()
                invariant
                    segs == segments@.map_values(|s: Vec<RankedText>| s@.map_values(|r: RankedText| ranked_view(r))),
                    k < segments@.len(),
                    opts == segs[k as int],
                    forall|i: int, j: int| 0 <= i < segments@.len() && 0 <= j < segments@[i]@.len() ==> #[trigger] segments@[i]@[j].cost <= 0xFFFF_FFFF,
                    sv == states@.map_values(|r: RankedText| ranked_view(r)),
                    si < states@.len(),
                    states@[si as int].cost <= k * 0xFFFF_FFFF,
                    k < 0xFFFF_FFFF,
                    oi <= opts.len(),
                    next@.map_values(|r: RankedText| ranked_view(r)) == before + opts.take(oi as int).map_values(
                        |o: (Seq<char>, int)| (sv[si as int].0 + o.0, sv[si as int].1 + o.1)),
                    forall|i: int| 0 <= i < next@.len() ==> #[trigger] next@[i].cost <= (k + 1) * 0xFFFF_FFFF,
                decreases opts.len() - oi,
            {
                let option = &segments[k][oi];
                proof {
                    assert(segments@[k as int]@[oi as int].cost <= 0xFFFF_FFFF);
                    assert((k + 1) * 0xFFFF_FFFF == k * 0xFFFF_FFFF + 0xFFFF_FFFF) by (nonlinear_arith);
                    assert(k * 0xFFFF_FFFF + 0xFFFF_FFFF <= 0xFFFF_FFFF * 0xFFFF_FFFF) by (nonlinear_arith) requires k < 0xFFFF_FFFF;
                }
                let ghost next_before = next@.map_values(|r: RankedText| ranked_view(r));
                let mut text = states[si].text.clone();
                push_str(&mut text, option.text.as_str());
                let cost = states[si].cost + option.cost;
                next.push(RankedText { text, cost });
                proof {
                    assert(sv[si as int] == ranked_view(states@[si as int]));
                    assert(ranked_view(next@.last()) == (sv[si as int].0 + opts[oi as int].0, sv[si as int].1 + opts[oi as int].1));
                    assert(opts[oi as int] == ranked_view(segments@[k as int]@[oi as int]));
                    assert(opts.take(oi + 1) =~= opts.take(oi as int).push(opts[oi as int]));
                    let f = |o: (Seq<char>, int)| (sv[si as int].0 + o.0, sv[si as int].1 + o.1);
                    assert(opts.take(oi + 1).map_values(f) =~= opts.take(oi as int).map_values(f).push(f(opts[oi as int])));
                    assert(next@.map_values(|r: RankedText| ranked_view(r)) =~= next_before.push(ranked_view(next@.last())));
                    assert(next@.map_values(|r: RankedText| ranked_view(r)) =~= before + opts.take(oi + 1).map_values(
                        |o: (Seq<char>, int)| (sv[si as int].0 + o.0, sv[si as int].1 + o.1)));
                }
                oi += 1;
            }
            proof {
                assert(opts.take(opts.len() as int) =~= opts);
                assert(sv.take(si + 1).drop_last() =~= sv.take(si as int));
                assert(sv.take(si + 1).last() == sv[si as int]);
            }
            si += 1;
        }
        proof {
            assert(sv.take(sv.len() as int) =~= sv);
        }
        // stable sort by cost
        let ghost ext = next@.map_values(|r: RankedText| ranked_view(r));
        let mut sorted: Vec<RankedText> = Vec::new();
        let mut ni: usize = 0;
        while ni < next.len()
            invariant
                ext == next@.map_values(|r: RankedText| ranked_view(r)),
                ni <= next@.len(),
                sorted@.map_values(|r: RankedText| ranked_view(r)) == sort_by_cost(ext.take(ni as int)),
                forall|i: int| 0 <= i < next@.len() ==> #[trigger] next@[i].cost <= (k + 1) * 0xFFFF_FFFF,
                forall|i: int| 0 <= i < sorted@.len() ==> #[trigger] sorted@[i].cost <= (k + 1) * 0xFFFF_FFFF,
            decreases next@.len() - ni,
        {
            let item = next[ni].duplicate();
            let ghost sorted_before = sorted@.map_values(|r: RankedText| ranked_view(r));
            insert_sorted(&mut sorted, item);
            proof {
                assert(ext.take(ni + 1).drop_last() =~= ext.take(ni as int));
                assert(ext.take(ni + 1).last() == ext[ni as int]);
                assert forall|i: int| 0 <= i < sorted_before.len() implies (#[trigger] sorted_before[i]).1 <= (k + 1) * 0xFFFF_FFFF by {
                    assert(sorted_before[i].1 == sorted_before_exec_cost(sorted_before, i));
                }
                lemma_insert_bound(sorted_before, ranked_view(item), (k + 1) * 0xFFFF_FFFF);
                let mv = sorted@.map_values(|r: RankedText| ranked_view(r));
                assert forall|i: int| 0 <= i < sorted@.len() implies #[trigger] sorted@[i].cost <= (k + 1) * 0xFFFF_FFFF by {
                    assert(mv[i].1 == sorted@[i].cost as int);
                }
            }
            ni += 1;
        }
        proof {
            assert(ext.take(ext.len() as int) =~= ext);
        }
        // keep the first of each text, at most max_states
        let ghost srt = sorted@.map_values(|r: RankedText| ranked_view(r));
        let mut kept: Vec<RankedText> = Vec::new();
        let mut ki: usize = 0;
        while ki < sorted.len()
            invariant
                srt == sorted@.map_values(|r: RankedText| ranked_view(r)),
                ki <= sorted@.len(),
                kept@.map_values(|r: RankedText| ranked_view(r)) == dedup_texts(srt.take(ki as int)),
                forall|i: int| 0 <= i < sorted@.len() ==> #[trigger] sorted@[i].cost <= (k + 1) * 0xFFFF_FFFF,
                forall|i: int| 0 <= i < kept@.len() ==> #[trigger] kept@[i].cost <= (k + 1) * 0xFFFF_FFFF,
            decreases sorted@.len() - ki,
        {
            proof {
                assert(srt.take(ki + 1).drop_last() =~= srt.take(ki as int));
                assert(srt.take(ki + 1).last() == srt[ki as int]);
            }
            let found = has_text_in(&kept, &sorted[ki].text);
            proof {
                let d = kept@.map_values(|r: RankedText| ranked_view(r));
                if found {
                    let w = choose|i: int| 0 <= i < kept@.len() && #[trigger] kept@[i].text@ == sorted@[ki as int].text@;
                    assert(d[w].0 == srt[ki as int].0);
                } else {
                    assert forall|i: int| 0 <= i < d.len() implies #[trigger] d[i].0 != srt[ki as int].0 by {
                        assert(d[i].0 == kept@[i].text@);
                    }
                }
            }
            if !found {
                kept.push(sorted[ki].duplicate());
                proof {
                    assert(kept@.map_values(|r: RankedText| ranked_view(r)) =~= dedup_texts(srt.take(ki as int)).push(srt[ki as int]));
                }
            }
            ki += 1;
        }
        proof {
            assert(srt.take(srt.len() as int) =~= srt);
        }
        let ghost kv = kept@.map_values(|r: RankedText| ranked_view(r));
        kept.truncate(max_states);
        proof {
            if kv.len() > max_states {
                assert(kept@.map_values(|r: RankedText| ranked_view(r)) =~= kv.take(max_states as int));
            } else {
                assert(kept@.map_values(|r: RankedText| ranked_view(r)) =~= kv);
            }
        }
        states = kept;
        k += 1;
    }
    let ghost fv = states@.map_values(|r: RankedText| ranked_view(r));
    let ghost before = states@;
    states.truncate(max_final);
    assert(forall|i: int| 0 <= i < states@.len() ==> states@[i] == before[i]);
    proof {
        if fv.len() > max_final {
            assert(states@.map_values(|r: RankedText| ranked_view(r)) =~= fv.take(max_final as int));
        } else {
            assert(states@.map_values(|r: RankedText| ranked_view(r)) =~= fv);
        }
    }
    states
}

pub open spec fn sorted_before_exec_cost(s: Seq<(Seq<char>, int)>, i: int) -> int {
    s[i].1
}

proof fn lemma_insert_bound(sb: Seq<(Seq<char>, int)>, x: (Seq<char>, int), bound: int)
    requires
        forall|i: int| 0 <= i < sb.len() ==> (#[trigger] sb[i]).1 <= bound,
        x.1 <= bound,
    ensures
        forall|i: int| 0 <= i < insert_by_cost(sb, x).len() ==> (#[trigger] insert_by_cost(sb, x)[i]).1 <= bound,
{
    lemma_count_le_bound(sb, x.1);
    let p = count_le(sb, x.1) as int;
    let r = insert_by_cost(sb, x);
    assert forall|i: int| 0 <= i < r.len() implies (#[trigger] r[i]).1 <= bound by {
        if i < p {
            assert(r[i] == sb[i]);
        } else if i > p {
            assert(r[i] == sb[i - 1]);
        }
    }
}

proof fn lemma_count_le_bound(s: Seq<(Seq<char>, int)>, c: int)
    ensures
        count_le(s, c) <= s.len(),
    decreases s.len(),
{
    if s.len() > 0 && s[0].1 <= c {
        lemma_count_le_bound(s.drop_first(), c);
    }
}

/// Whether costs never decrease along `s`.
pub open spec fn cost_sorted(s: Seq<(Seq<char>, int)>) -> bool {
    forall|i: int, j: int| 0 <= i < j < s.len() ==> #[trigger] s[i].1 <= #[trigger] s[j].1
}

/// The candidate made of option `choice[i]` of segment `i` for each `i`:
/// the texts concatenated, the costs added.
pub open spec fn combination_of(segments: Seq<Seq<(Seq<char>, int)>>, choice: Seq<int>) -> (Seq<char>, int)
    decreases choice.len(),
{
    if choice.len() == 0 {
        (Seq::<char>::empty(), 0int)
    } else {
        let p = combination_of(segments, choice.drop_last());
        let o = segments[choice.len() - 1][choice.last()];
        (p.0 + o.0, p.1 + o.1)
    }
}

/// Whether `x` is made of one option of each of the first `k` segments.
pub open spec fn is_combination(segments: Seq<Seq<(Seq<char>, int)>>, k: nat, x: (Seq<char>, int)) -> bool {
    exists|choice: Seq<int>|
        choice.len() == k && (forall|i: int| 0 <= i < k ==> 0 <= #[trigger] choice[i] < segments[i].len())
            && #[trigger] combination_of(segments, choice) == x
}

proof fn lemma_count_le_split(s: Seq<(Seq<char>, int)>, c: int)
    requires
        cost_sorted(s),
    ensures
        count_le(s, c) <= s.len(),
        forall|i: int| 0 <= i < count_le(s, c) ==> #[trigger] s[i].1 <= c,
        forall|i: int| count_le(s, c) <= i < s.len() ==> #[trigger] s[i].1 > c,
    decreases s.len(),
{
    if s.len() > 0 && s[0].1 <= c {
        let t = s.drop_first();
        assert(cost_sorted(t)) by {
            assert forall|i: int, j: int| 0 <= i < j < t.len() implies #[trigger] t[i].1 <= #[trigger] t[j].1 by {
                assert(t[i] == s[i + 1] && t[j] == s[j + 1]);
            }
        }
        lemma_count_le_split(t, c);
        assert forall|i: int| 0 <= i < count_le(s, c) implies #[trigger] s[i].1 <= c by {
            if i > 0 {
                assert(s[i] == t[i - 1]);
            }
        }
        assert forall|i: int| count_le(s, c) <= i < s.len() implies #[trigger] s[i].1 > c by {
            assert(s[i] == t[i - 1]);
        }
    } else if s.len() > 0 {
        assert forall|i: int| 0 <= i < s.len() implies #[trigger] s[i].1 > c by {
            if i > 0 {
                assert(s[0].1 <= s[i].1);
            }
        }
    }
}

/// Stable sorting by cost sorts, and keeps exactly the items it was given.
proof fn lemma_sort_by_cost(s: Seq<(Seq<char>, int)>)
    ensures
        cost_sorted(sort_by_cost(s)),
        sort_by_cost(s).len() == s.len(),
        forall|y: (Seq<char>, int)| sort_by_cost(s).contains(y) ==> s.contains(y),
    decreases s.len(),
{
    if s.len() > 0 {
        let r = sort_by_cost(s.drop_last());
        lemma_sort_by_cost(s.drop_last());
        let x = s.last();
        lemma_count_le_split(r, x.1);
        let p = count_le(r, x.1) as int;
        let out = insert_by_cost(r, x);
        assert(out.len() == s.len());
        assert forall|i: int| 0 <= i < out.len() implies #[trigger] out[i] == (if i < p {
            r[i]
        } else if i == p {
            x
        } else {
            r[i - 1]
        }) by {}
        assert forall|i: int, j: int| 0 <= i < j < out.len() implies #[trigger] out[i].1 <= #[trigger] out[j].1 by {
            if i < p && j < p {
            } else if i < p && j == p {
            } else if i < p {
                assert(r[i].1 <= r[j - 1].1);
            } else if i == p {
                assert(r[j - 1].1 > x.1);
            } else {
                assert(r[i - 1].1 <= r[j - 1].1);
            }
        }
        assert forall|y: (Seq<char>, int)| out.contains(y) implies s.contains(y) by {
            let i = choose|i: int| 0 <= i < out.len() && out[i] == y;
            if i == p {
                assert(s[s.len() - 1] == y);
            } else {
                let j = if i < p { i } else { i - 1 };
                assert(r.contains(r[j]));
                assert(s.drop_last().contains(y));
                let k = choose|k: int| 0 <= k < s.drop_last().len() && s.drop_last()[k] == y;
                assert(s[k] == y);
            }
        }
    }
}

/// Keeping the first item of each text keeps items of `s` only, in order.
proof fn lemma_dedup_texts(s: Seq<(Seq<char>, int)>)
    ensures
        forall|y: (Seq<char>, int)| dedup_texts(s).contains(y) ==> s.contains(y),
        cost_sorted(s) ==> cost_sorted(dedup_texts(s)),
        forall|i: int| 0 <= i < dedup_texts(s).len() ==> exists|j: int| 0 <= j < s.len() && s[j] == #[trigger] dedup_texts(s)[i]
            && (cost_sorted(s) ==> forall|k: int| j <= k < s.len() ==> dedup_texts(s)[i].1 <= #[trigger] s[k].1),
    decreases s.len(),
{
    if s.len() > 0 {
        let t = s.drop_last();
        lemma_dedup_texts(t);
        let d = dedup_texts(t);
        let out = dedup_texts(s);
        if cost_sorted(s) {
            assert(cost_sorted(t)) by {
                assert forall|i: int, j: int| 0 <= i < j < t.len() implies #[trigger] t[i].1 <= #[trigger] t[j].1 by {
                    assert(t[i] == s[i] && t[j] == s[j]);
                }
            }
        }
        assert forall|i: int| 0 <= i < out.len() implies exists|j: int| 0 <= j < s.len() && s[j] == #[trigger] out[i]
            && (cost_sorted(s) ==> forall|k: int| j <= k < s.len() ==> out[i].1 <= #[trigger] s[k].1) by {
            if i < d.len() {
                assert(out[i] == d[i]);
                let j = choose|j: int| 0 <= j < t.len() && t[j] == d[i]
                    && (cost_sorted(t) ==> forall|k: int| j <= k < t.len() ==> d[i].1 <= #[trigger] t[k].1);
                assert(s[j] == out[i]);
                if cost_sorted(s) {
                    assert forall|k: int| j <= k < s.len() implies out[i].1 <= #[trigger] s[k].1 by {
                        if k < t.len() {
                            assert(s[k] == t[k]);
                        } else {
                            assert(s[j].1 <= s[k].1);
                        }
                    }
                }
            } else {
                assert(out[i] == s.last());
                assert(s[s.len() - 1] == out[i]);
            }
        }
        assert forall|y: (Seq<char>, int)| out.contains(y) implies s.contains(y) by {
            let i = choose|i: int| 0 <= i < out.len() && out[i] == y;
            let j = choose|j: int| 0 <= j < s.len() && s[j] == out[i];
        }
        if cost_sorted(s) {
            assert forall|a: int, b: int| 0 <= a < b < out.len() implies #[trigger] out[a].1 <= #[trigger] out[b].1 by {
                if b < d.len() {
                    assert(out[a] == d[a] && out[b] == d[b]);
                } else {
                    let j = choose|j: int| 0 <= j < s.len() && s[j] == out[a]
                        && forall|k: int| j <= k < s.len() ==> out[a].1 <= #[trigger] s[k].1;
                    assert(out[b] == s[s.len() - 1]);
                    assert(out[a].1 <= s[s.len() - 1].1);
                }
            }
        }
    }
}

proof fn lemma_take_at_most<T>(s: Seq<T>, n: nat)
    ensures
        forall|y: T| take_at_most(s, n).contains(y) ==> s.contains(y),
        forall|i: int| 0 <= i < take_at_most(s, n).len() ==> #[trigger] take_at_most(s, n)[i] == s[i],
        take_at_most(s, n).len() <= s.len(),
{
    assert forall|y: T| take_at_most(s, n).contains(y) implies s.contains(y) by {
        let i = choose|i: int| 0 <= i < take_at_most(s, n).len() && take_at_most(s, n)[i] == y;
        assert(s[i] == y);
    }
}

proof fn lemma_extend_states(states: Seq<(Seq<char>, int)>, options: Seq<(Seq<char>, int)>, y: (Seq<char>, int))
    requires
        extend_states(states, options).contains(y),
    ensures
        exists|p: (Seq<char>, int), o: (Seq<char>, int)| #[trigger] states.contains(p) && #[trigger] options.contains(o) && y == (p.0 + o.0, p.1 + o.1),
    decreases states.len(),
{
    let last = states.last();
    let before = extend_states(states.drop_last(), options);
    let m = options.map_values(|o: (Seq<char>, int)| (last.0 + o.0, last.1 + o.1));
    let i = choose|i: int| 0 <= i < (before + m).len() && (before + m)[i] == y;
    if i < before.len() {
        assert(before[i] == y);
        lemma_extend_states(states.drop_last(), options, y);
        let (p, o) = choose|p: (Seq<char>, int), o: (Seq<char>, int)| #[trigger] states.drop_last().contains(p) && #[trigger] options.contains(o)
            && y == (p.0 + o.0, p.1 + o.1);
        let k = choose|k: int| 0 <= k < states.drop_last().len() && states.drop_last()[k] == p;
        assert(states[k] == p);
        assert(states.contains(p));
        assert(options.contains(o));
    } else {
        let j = i - before.len();
        assert(m[j] == y);
        assert(states[states.len() - 1] == last);
        assert(states.contains(last));
        assert(options.contains(options[j]));
        assert(y == (last.0 + options[j].0, last.1 + options[j].1));
    }
}

proof fn lemma_combination_step(segments: Seq<Seq<(Seq<char>, int)>>, k: nat, p: (Seq<char>, int), o: (Seq<char>, int))
    requires
        k > 0,
        is_combination(segments, (k - 1) as nat, p),
        segments[k - 1].contains(o),
    ensures
        is_combination(segments, k, (p.0 + o.0, p.1 + o.1)),
{
    let j = choose|j: int| 0 <= j < segments[k - 1].len() && #[trigger] segments[k - 1][j] == o;
    let c = choose|c: Seq<int>|
        c.len() == k - 1 && (forall|i: int| 0 <= i < k - 1 ==> 0 <= #[trigger] c[i] < segments[i].len())
            && #[trigger] combination_of(segments, c) == p;
    let c2 = c.push(j);
    assert(c2.drop_last() =~= c);
    assert(combination_of(segments, c2) == (p.0 + o.0, p.1 + o.1));
    assert forall|i: int| 0 <= i < k implies 0 <= #[trigger] c2[i] < segments[i].len() by {
        if i < k - 1 {
            assert(c2[i] == c[i]);
        }
    }
}

proof fn lemma_beam_states(segments: Seq<Seq<(Seq<char>, int)>>, max_states: nat, k: nat)
    requires
        k <= segments.len(),
    ensures
        forall|y: (Seq<char>, int)| #[trigger] beam_states(segments, max_states, k).contains(y) ==> is_combination(segments, k, y),
        k > 0 ==> cost_sorted(beam_states(segments, max_states, k)),
    decreases k,
{
    if k == 0 {
        assert forall|y: (Seq<char>, int)| #[trigger] beam_states(segments, max_states, k).contains(y) implies is_combination(segments, k, y) by {
            let i = choose|i: int| 0 <= i < 1 && beam_states(segments, max_states, k)[i] == y;
            let c = Seq::<int>::empty();
            assert(combination_of(segments, c) == y);
        }
    } else {
        lemma_beam_states(segments, max_states, (k - 1) as nat);
        let prev = beam_states(segments, max_states, (k - 1) as nat);
        let ext = extend_states(prev, segments[k - 1]);
        let srt = sort_by_cost(ext);
        let dd = dedup_texts(srt);
        lemma_sort_by_cost(ext);
        lemma_dedup_texts(srt);
        lemma_take_at_most(dd, max_states);
        assert forall|y: (Seq<char>, int)| #[trigger] beam_states(segments, max_states, k).contains(y) implies is_combination(segments, k, y) by {
            assert(dd.contains(y));
            assert(srt.contains(y));
            assert(ext.contains(y));
            lemma_extend_states(prev, segments[k - 1], y);
            let (p, o) = choose|p: (Seq<char>, int), o: (Seq<char>, int)| #[trigger] prev.contains(p) && #[trigger] segments[k - 1].contains(o)
                && y == (p.0 + o.0, p.1 + o.1);
            assert(is_combination(segments, (k - 1) as nat, p));
            assert(segments[k - 1].contains(o));
            lemma_combination_step(segments, k, p, o);
        }
        let out = beam_states(segments, max_states, k);
        assert forall|i: int, j: int| 0 <= i < j < out.len() implies #[trigger] out[i].1 <= #[trigger] out[j].1 by {
            assert(out[i] == dd[i] && out[j] == dd[j]);
        }
    }
}

/// Every combined candidate is made of one option of each segment (texts
/// concatenated, costs added), and they come cheapest first.
pub proof fn lemma_combined_candidates(segments: Seq<Seq<(Seq<char>, int)>>, max_states: nat, max_final: nat)
    ensures
        forall|y: (Seq<char>, int)| #[trigger] combined_spec(segments, max_states, max_final).contains(y)
            ==> is_combination(segments, segments.len(), y),
        cost_sorted(combined_spec(segments, max_states, max_final)),
{
    if !(segments.len() == 0 || max_states == 0 || max_final == 0) {
        let b = beam_states(segments, max_states, segments.len());
        lemma_beam_states(segments, max_states, segments.len());
        lemma_take_at_most(b, max_final);
        let out = combined_spec(segments, max_states, max_final);
        assert forall|i: int, j: int| 0 <= i < j < out.len() implies #[trigger] out[i].1 <= #[trigger] out[j].1 by {
            assert(out[i] == b[i] && out[j] == b[j]);
        }
        assert forall|y: (Seq<char>, int)| #[trigger] out.contains(y) implies is_combination(segments, segments.len(), y) by {
            assert(b.contains(y));
        }
    }
}

} // verus!

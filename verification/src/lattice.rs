//! Reading-wide dictionary lattice and bounded K-best search.
//!
//! Every dictionary reading that starts at a character of the reading is an
//! edge of the lattice, and so is each single character on its own (an
//! unknown-word fallback that keeps a complete path available). The search
//! walks the characters in order and keeps, at each position, a beam of the
//! best-scoring paths that end there, one per surface. Lower scores rank
//! better.
use vstd::prelude::*;

use crate::dict::{lookup, CandidateView, Dictionary, DictionaryCategory, DictionarySource, ReadingView};
use crate::text::{chars_of, copy_str, opt_view, push_str, slice_to_string, str_eq};
use crate::candidate::copy_opt;

verus! {

/// Which dictionary layer produced a lattice edge.
#[derive(Debug, Clone, Copy, PartialEq, Eq, Structural)]
pub enum LatticeDictionaryKind {
    User,
    System,
}

/// A dictionary taking part in lattice construction.
pub struct LatticeDictionary<'a> {
    pub dictionary: &'a Dictionary,
    pub kind: LatticeDictionaryKind,
    /// Per-edge ranking adjustment. Lower scores rank better.
    pub score_bias: i64,
}

/// Bounds applied to lattice construction and K-best search.
#[derive(Debug, Clone, Copy)]
pub struct LatticeLimits {
    /// Candidates taken from each dictionary reading.
    pub segment_candidates: usize,
    /// Paths kept at each position.
    pub beam_width: usize,
    /// Complete paths returned.
    pub max_paths: usize,
    /// Score of a single-character fallback edge.
    pub unknown_penalty: i64,
    /// Added to the score of every dictionary edge.
    pub segment_penalty: i64,
}

impl Default for LatticeLimits {
    fn default() -> (r: Self)
        ensures
            r.segment_candidates == 5,
            r.beam_width == 20,
            r.max_paths == 9,
            r.unknown_penalty == 10_000,
            r.segment_penalty == 1,
    {
        LatticeLimits {
            segment_candidates: 5,
            beam_width: 20,
            max_paths: 9,
            unknown_penalty: 10_000,
            segment_penalty: 1,
        }
    }
}

/// One selected edge of a lattice path.
#[derive(Debug)]
pub struct LatticeSegment {
    /// Character offsets into the original reading.
    pub char_start: usize,
    pub char_end: usize,
    pub reading: String,
    pub surface: String,
    pub score: i128,
    /// `None` for a single-character fallback.
    pub source: Option<DictionarySource>,
    pub category: DictionaryCategory,
    pub description: Option<String>,
    pub dictionary_kind: Option<LatticeDictionaryKind>,
}

/// A complete reading-to-surface path.
#[derive(Debug)]
pub struct LatticePath {
    pub surface: String,
    pub score: i128,
    pub segments: Vec<LatticeSegment>,
}

/// A segment as plain values: start, end, reading, surface, score, source,
/// category, description and dictionary kind.
pub type SegmentView = (
    int,
    int,
    Seq<char>,
    Seq<char>,
    int,
    Option<DictionarySource>,
    DictionaryCategory,
    Option<Seq<char>>,
    Option<LatticeDictionaryKind>,
);

pub open spec fn segment_view(g: LatticeSegment) -> SegmentView {
    (
        g.char_start as int,
        g.char_end as int,
        g.reading@,
        g.surface@,
        g.score as int,
        g.source,
        g.category,
        opt_view(g.description),
        g.dictionary_kind,
    )
}

pub open spec fn segment_views(gs: Seq<LatticeSegment>) -> Seq<SegmentView> {
    gs.map_values(|g: LatticeSegment| segment_view(g))
}

/// A path as plain values: surface, score and segments.
pub type PathView = (Seq<char>, int, Seq<SegmentView>);

pub open spec fn path_view(p: LatticePath) -> PathView {
    (p.surface@, p.score as int, segment_views(p.segments@))
}

pub open spec fn path_views(ps: Seq<LatticePath>) -> Seq<PathView> {
    ps.map_values(|p: LatticePath| path_view(p))
}

impl LatticePath {
    fn empty() -> (p: LatticePath)
        ensures
            path_view(p) == empty_path(),
    {
        let p = LatticePath { surface: String::new(), score: 0, segments: Vec::new() };
        assert(segment_views(p.segments@) =~= Seq::<SegmentView>::empty());
        p
    }

    /// Whether some segment of the path is a single-character fallback.
    pub fn has_unknown(&self) -> (b: bool)
        ensures
            b == exists|k: int| 0 <= k < self.segments@.len() && (#[trigger] self.segments@[k]).source is None,
    {
        let mut k: usize = 0;
        while k < self.segments.len()
            invariant
                k <= self.segments.len(),
                forall|j: int| 0 <= j < k ==> (#[trigger] self.segments@[j]).source is Some,
            decreases self.segments.len() - k,
        {
            if self.segments[k].source.is_none() {
                return true;
            }
            k += 1;
        }
        false
    }
}

pub open spec fn empty_path() -> PathView {
    (Seq::empty(), 0, Seq::empty())
}

/// `x` placed among `t`: after every path that scores the same or lower,
/// before the first that scores higher.
pub open spec fn insert_path(t: Seq<PathView>, x: PathView) -> Seq<PathView>
    decreases t.len(),
{
    if t.len() == 0 {
        seq![x]
    } else if x.1 < t[0].1 {
        seq![x] + t
    } else {
        seq![t[0]] + insert_path(t.drop_first(), x)
    }
}

/// `s` stably sorted by score, lowest first.
pub open spec fn sort_paths(s: Seq<PathView>) -> Seq<PathView>
    decreases s.len(),
{
    if s.len() == 0 {
        Seq::empty()
    } else {
        insert_path(sort_paths(s.drop_last()), s.last())
    }
}

pub open spec fn sorted_by_score(s: Seq<PathView>) -> bool {
    forall|i: int, j: int| 0 <= i < j < s.len() ==> #[trigger] s[i].1 <= #[trigger] s[j].1
}

/// The first `n` items of `s`, or all of them.
pub open spec fn at_most(s: Seq<PathView>, n: int) -> Seq<PathView> {
    if 0 <= n < s.len() {
        s.take(n)
    } else {
        s
    }
}

/// The index of the first path of `ps` with surface `surface`, or -1.
pub open spec fn surface_index(ps: Seq<PathView>, surface: Seq<char>) -> int
    decreases ps.len(),
{
    if ps.len() == 0 {
        -1
    } else {
        let k = surface_index(ps.drop_last(), surface);
        if k >= 0 {
            k
        } else if ps.last().0 == surface {
            ps.len() - 1
        } else {
            -1
        }
    }
}

/// `ps` with `p` offered: a path with the same surface is replaced only when
/// `p` scores lower, otherwise `p` joins; then the paths are sorted by score
/// and the first `beam` kept.
pub open spec fn bounded_push(ps: Seq<PathView>, p: PathView, beam: int) -> Seq<PathView> {
    let k = surface_index(ps, p.0);
    let joined = if 0 <= k < ps.len() {
        if p.1 < ps[k].1 {
            ps.update(k, p)
        } else {
            ps
        }
    } else {
        ps.push(p)
    };
    at_most(sort_paths(joined), beam)
}

proof fn lemma_surface_index(ps: Seq<PathView>, surface: Seq<char>)
    ensures
        -1 <= surface_index(ps, surface) < ps.len(),
        surface_index(ps, surface) >= 0 ==> ps[surface_index(ps, surface)].0 == surface,
        forall|j: int| 0 <= j < ps.len() && (surface_index(ps, surface) < 0 || j < surface_index(ps, surface))
            ==> #[trigger] ps[j].0 != surface,
    decreases ps.len(),
{
    if ps.len() > 0 {
        lemma_surface_index(ps.drop_last(), surface);
        assert forall|j: int| 0 <= j < ps.len() - 1 implies #[trigger] ps[j] == ps.drop_last()[j] by {}
    }
}

proof fn lemma_insert_path_at(t: Seq<PathView>, x: PathView, k: int)
    requires
        0 <= k <= t.len(),
        forall|j: int| 0 <= j < k ==> #[trigger] t[j].1 <= x.1,
        k < t.len() ==> x.1 < t[k].1,
    ensures
        insert_path(t, x) == t.insert(k, x),
    decreases t.len(),
{
    if t.len() == 0 {
        assert(t.insert(k, x) =~= seq![x]);
    } else if k == 0 {
        assert(t.insert(k, x) =~= seq![x] + t);
    } else {
        let u = t.drop_first();
        assert forall|j: int| 0 <= j < k - 1 implies #[trigger] u[j].1 <= x.1 by {
            assert(u[j] == t[j + 1]);
        }
        lemma_insert_path_at(u, x, k - 1);
        assert(t.insert(k, x) =~= seq![t[0]] + u.insert(k - 1, x));
    }
}

/// Inserting keeps the order, adds `x`, and keeps every path of `t`; each
/// path of the result is `x` or a path of `t`.
proof fn lemma_insert_path(t: Seq<PathView>, x: PathView)
    ensures
        insert_path(t, x).len() == t.len() + 1,
        sorted_by_score(t) ==> sorted_by_score(insert_path(t, x)),
        insert_path(t, x).contains(x),
        forall|i: int| 0 <= i < t.len() ==> insert_path(t, x).contains(#[trigger] t[i]),
        forall|j: int| 0 <= j < insert_path(t, x).len() ==> #[trigger] insert_path(t, x)[j] == x || t.contains(
            insert_path(t, x)[j],
        ),
    decreases t.len(),
{
    let r = insert_path(t, x);
    if t.len() == 0 {
        assert(r[0] == x);
    } else if x.1 < t[0].1 {
        assert(r =~= seq![x] + t);
        assert(r[0] == x);
        assert forall|i: int| 0 <= i < t.len() implies r.contains(#[trigger] t[i]) by {
            assert(r[i + 1] == t[i]);
        }
        assert forall|j: int| 0 <= j < r.len() implies #[trigger] r[j] == x || t.contains(r[j]) by {
            if j > 0 {
                assert(r[j] == t[j - 1]);
            }
        }
    } else {
        let u = t.drop_first();
        lemma_insert_path(u, x);
        let ru = insert_path(u, x);
        assert(r =~= seq![t[0]] + ru);
        assert(r[0] == t[0]);
        if sorted_by_score(t) {
            assert forall|a: int, b: int| 0 <= a < b < r.len() implies #[trigger] r[a].1 <= #[trigger] r[b].1 by {
                if a == 0 {
                    assert(r[b] == ru[b - 1]);
                    if ru[b - 1] != x {
                        let i = choose|i: int| 0 <= i < u.len() && u[i] == ru[b - 1];
                        assert(u[i] == t[i + 1]);
                    }
                } else {
                    assert(r[a] == ru[a - 1] && r[b] == ru[b - 1]);
                    assert(sorted_by_score(u)) by {
                        assert forall|p: int, q: int| 0 <= p < q < u.len() implies #[trigger] u[p].1 <= #[trigger] u[q].1 by {
                            assert(u[p] == t[p + 1] && u[q] == t[q + 1]);
                        }
                    }
                }
            }
        }
        let i0 = choose|i: int| 0 <= i < ru.len() && ru[i] == x;
        assert(r[i0 + 1] == x);
        assert forall|i: int| 0 <= i < t.len() implies r.contains(#[trigger] t[i]) by {
            if i > 0 {
                assert(t[i] == u[i - 1]);
                let j = choose|j: int| 0 <= j < ru.len() && ru[j] == u[i - 1];
                assert(r[j + 1] == t[i]);
            }
        }
        assert forall|j: int| 0 <= j < r.len() implies #[trigger] r[j] == x || t.contains(r[j]) by {
            if j > 0 {
                assert(r[j] == ru[j - 1]);
                if ru[j - 1] != x {
                    let i = choose|i: int| 0 <= i < u.len() && u[i] == ru[j - 1];
                    assert(t[i + 1] == r[j]);
                }
            }
        }
    }
}

/// Sorting keeps the paths, orders them, and puts a lowest-scoring one first.
proof fn lemma_sort_paths(s: Seq<PathView>)
    ensures
        sort_paths(s).len() == s.len(),
        sorted_by_score(sort_paths(s)),
        forall|i: int| 0 <= i < s.len() ==> sort_paths(s).contains(#[trigger] s[i]),
        forall|j: int| 0 <= j < s.len() ==> s.contains(#[trigger] sort_paths(s)[j]),
    decreases s.len(),
{
    if s.len() > 0 {
        let t = s.drop_last();
        lemma_sort_paths(t);
        lemma_insert_path(sort_paths(t), s.last());
        let r = sort_paths(s);
        assert forall|i: int| 0 <= i < s.len() implies r.contains(#[trigger] s[i]) by {
            if i < s.len() - 1 {
                assert(s[i] == t[i]);
                let j = choose|j: int| 0 <= j < sort_paths(t).len() && sort_paths(t)[j] == t[i];
                assert(r.contains(sort_paths(t)[j]));
            }
        }
        assert forall|j: int| 0 <= j < s.len() implies s.contains(#[trigger] r[j]) by {
            if r[j] != s.last() {
                let k = choose|k: int| 0 <= k < sort_paths(t).len() && sort_paths(t)[k] == r[j];
                let i = choose|i: int| 0 <= i < t.len() && t[i] == sort_paths(t)[k];
                assert(s[i] == t[i]);
            } else {
                assert(s[s.len() - 1] == r[j]);
            }
        }
    }
}

/// A path `x` scores at least as high as one of `ps`.
pub open spec fn some_at_most(ps: Seq<PathView>, x: int) -> bool {
    exists|i: int| 0 <= i < ps.len() && #[trigger] ps[i].1 <= x
}

/// After `p` is offered with a positive beam, the slot holds a path scoring
/// no more than `x` whenever it did before or `p` does.
proof fn lemma_bounded_push_keeps_best(ps: Seq<PathView>, p: PathView, beam: int, x: int)
    requires
        beam >= 1,
        some_at_most(ps, x) || p.1 <= x,
    ensures
        some_at_most(bounded_push(ps, p, beam), x),
{
    lemma_surface_index(ps, p.0);
    let k = surface_index(ps, p.0);
    let joined = if 0 <= k < ps.len() {
        if p.1 < ps[k].1 {
            ps.update(k, p)
        } else {
            ps
        }
    } else {
        ps.push(p)
    };
    assert(some_at_most(joined, x)) by {
        if p.1 <= x {
            if 0 <= k < ps.len() {
                if p.1 < ps[k].1 {
                    assert(joined[k] == p);
                } else {
                    assert(joined[k].1 <= x);
                }
            } else {
                assert(joined[ps.len() as int] == p);
            }
        } else {
            let i = choose|i: int| 0 <= i < ps.len() && #[trigger] ps[i].1 <= x;
            if 0 <= k < ps.len() && p.1 < ps[k].1 && i == k {
                assert(joined[k] == p);
            } else {
                assert(joined[i] == ps[i]);
            }
        }
    }
    lemma_sort_paths(joined);
    let sorted = sort_paths(joined);
    let i = choose|i: int| 0 <= i < joined.len() && #[trigger] joined[i].1 <= x;
    let j = choose|j: int| 0 <= j < sorted.len() && sorted[j] == joined[i];
    if j > 0 {
        assert(sorted[0].1 <= sorted[j].1);
    }
    assert(at_most(sorted, beam)[0] == sorted[0]);
}

/// Offering keeps every path of the slot within `good`, when the old paths
/// and `p` are.
proof fn lemma_bounded_push_within(ps: Seq<PathView>, p: PathView, beam: int, good: spec_fn(PathView) -> bool)
    requires
        forall|i: int| 0 <= i < ps.len() ==> good(#[trigger] ps[i]),
        good(p),
    ensures
        forall|i: int| 0 <= i < bounded_push(ps, p, beam).len() ==> good(#[trigger] bounded_push(ps, p, beam)[i]),
{
    let k = surface_index(ps, p.0);
    let joined = if 0 <= k < ps.len() {
        if p.1 < ps[k].1 {
            ps.update(k, p)
        } else {
            ps
        }
    } else {
        ps.push(p)
    };
    assert forall|i: int| 0 <= i < joined.len() implies good(#[trigger] joined[i]) by {
        if 0 <= k < ps.len() {
            if p.1 < ps[k].1 && i == k {
                assert(joined[i] == p);
            } else {
                assert(joined[i] == ps[i]);
            }
        } else if i < ps.len() {
            assert(joined[i] == ps[i]);
        } else {
            assert(joined[i] == p);
        }
    }
    lemma_sort_paths(joined);
    let sorted = sort_paths(joined);
    assert forall|j: int| 0 <= j < at_most(sorted, beam).len() implies good(#[trigger] at_most(sorted, beam)[j]) by {
        assert(at_most(sorted, beam)[j] == sorted[j]);
        let i = choose|i: int| 0 <= i < joined.len() && joined[i] == sorted[j];
    }
}

/// A dictionary layer as plain values: contents, kind and score bias.
pub type LayerView = (Seq<ReadingView>, LatticeDictionaryKind, int);

pub open spec fn layer_view<'a>(l: LatticeDictionary<'a>) -> LayerView {
    (l.dictionary@, l.kind, l.score_bias as int)
}

pub open spec fn layer_views<'a>(ls: Seq<LatticeDictionary<'a>>) -> Seq<LayerView> {
    ls.map_values(|l: LatticeDictionary<'a>| layer_view(l))
}

/// The first `k` candidates, or all of them.
pub open spec fn first_candidates(cs: Seq<CandidateView>, k: int) -> Seq<CandidateView> {
    if 0 <= k < cs.len() {
        cs.take(k)
    } else {
        cs
    }
}

/// The edge for candidate `c` of reading `r[s..e]` in `layer`.
pub open spec fn dictionary_edge(c: CandidateView, s: int, e: int, piece: Seq<char>, layer: LayerView, penalty: int) -> SegmentView {
    (s, e, piece, c.0, c.1 + layer.2 + penalty, Some(c.2), c.3, c.4, Some(layer.1))
}

/// The edges from `s` to `e` of `layer`: its first candidates of `r[s..e]`.
pub open spec fn reading_edges(layer: LayerView, r: Seq<char>, s: int, e: int, lim: LatticeLimits) -> Seq<SegmentView> {
    match lookup(layer.0, r.subrange(s, e)) {
        Some(cs) => first_candidates(cs, lim.segment_candidates as int).map_values(
            |c: CandidateView| dictionary_edge(c, s, e, r.subrange(s, e), layer, lim.segment_penalty as int),
        ),
        None => Seq::empty(),
    }
}

/// The edges of `layer` that start at `s` and end at most at `e`, shorter
/// readings first.
pub open spec fn layer_edges(layer: LayerView, r: Seq<char>, s: int, e: int, lim: LatticeLimits) -> Seq<SegmentView>
    decreases e - s,
{
    if e <= s {
        Seq::empty()
    } else {
        layer_edges(layer, r, s, e - 1, lim) + reading_edges(layer, r, s, e, lim)
    }
}

/// The dictionary edges that start at `s`, layer by layer.
pub open spec fn all_edges(layers: Seq<LayerView>, r: Seq<char>, s: int, lim: LatticeLimits) -> Seq<SegmentView>
    decreases layers.len(),
{
    if layers.len() == 0 {
        Seq::empty()
    } else {
        all_edges(layers.drop_last(), r, s, lim) + layer_edges(layers.last(), r, s, r.len() as int, lim)
    }
}

/// The single-character fallback edge at `s`.
pub open spec fn unknown_edge(r: Seq<char>, s: int, lim: LatticeLimits) -> SegmentView {
    (
        s,
        s + 1,
        r.subrange(s, s + 1),
        r.subrange(s, s + 1),
        lim.unknown_penalty as int,
        None,
        DictionaryCategory::General,
        None,
        None,
    )
}

/// Path `p` followed by edge `g`.
pub open spec fn extend(p: PathView, g: SegmentView) -> PathView {
    (p.0 + g.3, p.1 + g.4, p.2.push(g))
}

/// The beams after every path of `prev` is extended by `g` and offered to
/// the beam where `g` ends.
pub open spec fn push_from(st: Seq<Seq<PathView>>, prev: Seq<PathView>, g: SegmentView, beam: int) -> Seq<Seq<PathView>>
    decreases prev.len(),
{
    if prev.len() == 0 {
        st
    } else {
        let before = push_from(st, prev.drop_last(), g, beam);
        before.update(g.1, bounded_push(before[g.1], extend(prev.last(), g), beam))
    }
}

/// The beams after each edge of `edges` in turn extends the paths of `prev`.
pub open spec fn push_edges(st: Seq<Seq<PathView>>, prev: Seq<PathView>, edges: Seq<SegmentView>, beam: int) -> Seq<
    Seq<PathView>,
>
    decreases edges.len(),
{
    if edges.len() == 0 {
        st
    } else {
        push_from(push_edges(st, prev, edges.drop_last(), beam), prev, edges.last(), beam)
    }
}

/// The beams once the characters before `s` have been walked: the beam at
/// each character is extended by the dictionary edges that start there and
/// then by its fallback edge.
pub open spec fn search_states(layers: Seq<LayerView>, r: Seq<char>, lim: LatticeLimits, s: nat) -> Seq<Seq<PathView>>
    decreases s,
{
    if s == 0 {
        Seq::new((r.len() + 1) as nat, |i: int| if i == 0 { seq![empty_path()] } else { Seq::<PathView>::empty() })
    } else {
        let st = search_states(layers, r, lim, (s - 1) as nat);
        let prev = st[s - 1];
        let with_words = push_edges(st, prev, all_edges(layers, r, s - 1, lim), lim.beam_width as int);
        push_from(with_words, prev, unknown_edge(r, s - 1, lim), lim.beam_width as int)
    }
}

/// The paths the search returns: the complete ones, sorted by score, at
/// most `max_paths` of them.
pub open spec fn lattice_result(layers: Seq<LayerView>, r: Seq<char>, lim: LatticeLimits) -> Seq<PathView> {
    if r.len() == 0 || lim.max_paths == 0 || lim.beam_width == 0 {
        Seq::empty()
    } else {
        at_most(sort_paths(search_states(layers, r, lim, r.len())[r.len() as int]), lim.max_paths as int)
    }
}

/// Bound on the score of one edge.
pub open spec fn edge_bound() -> int {
    0x1_8000_0000_0000_0000
}

/// A path ending at `e` has at most `e` segments, each scoring within the
/// edge bound.
pub open spec fn path_bounded(p: PathView, e: int) -> bool {
    &&& p.2.len() <= e
    &&& -(edge_bound() * p.2.len()) <= p.1 <= edge_bound() * p.2.len()
}

pub open spec fn states_view(ss: Seq<Vec<LatticePath>>) -> Seq<Seq<PathView>> {
    ss.map_values(|v: Vec<LatticePath>| path_views(v@))
}

/// Every path in the beam of each position `e` is bounded at `e`.
pub open spec fn beams_bounded(st: Seq<Seq<PathView>>) -> bool {
    forall|e: int, i: int| 0 <= e < st.len() && 0 <= i < st[e].len() ==> path_bounded(#[trigger] st[e][i], e)
}

fn copy_segment(g: &LatticeSegment) -> (r: LatticeSegment)
    ensures
        segment_view(r) == segment_view(*g),
{
    LatticeSegment {
        char_start: g.char_start,
        char_end: g.char_end,
        reading: copy_str(g.reading.as_str()),
        surface: copy_str(g.surface.as_str()),
        score: g.score,
        source: g.source,
        category: g.category,
        description: copy_opt(&g.description),
        dictionary_kind: g.dictionary_kind,
    }
}

fn copy_path(p: &LatticePath) -> (r: LatticePath)
    ensures
        path_view(r) == path_view(*p),
        r.segments@.len() == p.segments@.len(),
        r.score == p.score,
{
    let mut segments: Vec<LatticeSegment> = Vec::new();
    let mut i: usize = 0;
    while i < p.segments.len()
        invariant
            i <= p.segments.len(),
            segment_views(segments@) == segment_views(p.segments@).take(i as int),
        decreases p.segments.len() - i,
    {
        let g = copy_segment(&p.segments[i]);
        let ghost before = segments@;
        segments.push(g);
        proof {
            assert(segment_views(segments@) =~= segment_views(before).push(segment_view(g)));
            assert(segment_views(p.segments@).take(i + 1) =~= segment_views(p.segments@).take(i as int).push(
                segment_view(p.segments@[i as int]),
            ));
        }
        i += 1;
    }
    assert(segment_views(p.segments@).take(i as int) =~= segment_views(p.segments@));
    LatticePath { surface: copy_str(p.surface.as_str()), score: p.score, segments }
}

fn copy_paths(ps: &Vec<LatticePath>) -> (r: Vec<LatticePath>)
    ensures
        path_views(r@) == path_views(ps@),
{
    let mut out: Vec<LatticePath> = Vec::new();
    let mut i: usize = 0;
    while i < ps.len()
        invariant
            i <= ps.len(),
            path_views(out@) == path_views(ps@).take(i as int),
        decreases ps.len() - i,
    {
        let x = copy_path(&ps[i]);
        let ghost before = out@;
        out.push(x);
        proof {
            assert(path_views(out@) =~= path_views(before).push(path_view(x)));
            assert(path_views(ps@).take(i + 1) =~= path_views(ps@).take(i as int).push(path_view(ps@[i as int])));
        }
        i += 1;
    }
    assert(path_views(ps@).take(i as int) =~= path_views(ps@));
    out
}

/// `ps` stably sorted by score.
fn sort_by_score(ps: &Vec<LatticePath>) -> (r: Vec<LatticePath>)
    ensures
        path_views(r@) == sort_paths(path_views(ps@)),
{
    let ghost src = path_views(ps@);
    let mut out: Vec<LatticePath> = Vec::new();
    let mut i: usize = 0;
    while i < ps.len()
        invariant
            i <= ps.len(),
            src == path_views(ps@),
            src.len() == ps@.len(),
            path_views(out@) == sort_paths(src.take(i as int)),
        decreases ps.len() - i,
    {
        let x = copy_path(&ps[i]);
        let mut k: usize = 0;
        while k < out.len() && out[k].score <= x.score
            invariant
                k <= out.len(),
                forall|j: int| 0 <= j < k ==> #[trigger] out@[j].score <= x.score,
            decreases out.len() - k,
        {
            k += 1;
        }
        let ghost before = path_views(out@);
        proof {
            assert forall|j: int| 0 <= j < k implies #[trigger] before[j].1 <= path_view(x).1 by {
                assert(before[j].1 == out@[j].score);
            }
            if k < out.len() {
                assert(before[k as int].1 == out@[k as int].score);
            }
            lemma_insert_path_at(before, path_view(x), k as int);
            assert(src.take(i + 1).drop_last() =~= src.take(i as int));
            assert(src.take(i + 1).last() == path_view(x));
        }
        out.insert(k, x);
        assert(path_views(out@) =~= before.insert(k as int, path_view(x)));
        i += 1;
    }
    assert(src.take(i as int) =~= src);
    out
}

fn find_surface(ps: &Vec<LatticePath>, surface: &str) -> (k: Option<usize>)
    ensures
        match k {
            Some(i) => surface_index(path_views(ps@), surface@) == i,
            None => surface_index(path_views(ps@), surface@) < 0,
        },
{
    let ghost d = path_views(ps@);
    proof {
        lemma_surface_index(d, surface@);
    }
    let mut i: usize = 0;
    while i < ps.len()
        invariant
            i <= ps.len(),
            d == path_views(ps@),
            d.len() == ps@.len(),
            -1 <= surface_index(d, surface@) < d.len(),
            surface_index(d, surface@) >= 0 ==> d[surface_index(d, surface@)].0 == surface@,
            forall|j: int| 0 <= j < d.len() && (surface_index(d, surface@) < 0 || j < surface_index(d, surface@))
                ==> #[trigger] d[j].0 != surface@,
            forall|j: int| 0 <= j < i ==> #[trigger] d[j].0 != surface@,
        decreases ps.len() - i,
    {
        assert(d[i as int].0 == ps@[i as int].surface@);
        if str_eq(ps[i].surface.as_str(), surface) {
            return Some(i);
        }
        i += 1;
    }
    None
}

/// Offers `p` to beam `ps` of width `beam`.
fn push_bounded(ps: &Vec<LatticePath>, p: LatticePath, beam: usize) -> (r: Vec<LatticePath>)
    ensures
        path_views(r@) == bounded_push(path_views(ps@), path_view(p), beam as int),
{
    let ghost old_views = path_views(ps@);
    let ghost pv = path_view(p);
    let mut joined = copy_paths(ps);
    proof {
        lemma_surface_index(old_views, pv.0);
    }
    match find_surface(&joined, p.surface.as_str()) {
        Some(k) => {
            assert(old_views[k as int].1 == joined@[k as int].score);
            if p.score < joined[k].score {
                joined.set(k, p);
                assert(path_views(joined@) =~= old_views.update(k as int, pv));
            }
        },
        None => {
            joined.push(p);
            assert(path_views(joined@) =~= old_views.push(pv));
        },
    }
    let mut sorted = sort_by_score(&joined);
    let ghost full = path_views(sorted@);
    sorted.truncate(beam);
    assert(path_views(sorted@) =~= at_most(full, beam as int));
    sorted
}

/// Path `p` followed by segment `g`.
fn extend_path(p: &LatticePath, g: &LatticeSegment) -> (r: LatticePath)
    requires
        p.segments@.len() < 0x4000_0000_0000_0000,
        -(edge_bound() * p.segments@.len()) <= p.score <= edge_bound() * p.segments@.len(),
        -edge_bound() <= g.score <= edge_bound(),
    ensures
        path_view(r) == extend(path_view(*p), segment_view(*g)),
        r.segments@.len() == p.segments@.len() + 1,
{
    let mut r = copy_path(p);
    push_str(&mut r.surface, g.surface.as_str());
    r.score = p.score + g.score;
    let ghost before = r.segments@;
    r.segments.push(copy_segment(g));
    assert(segment_views(r.segments@) =~= segment_views(before).push(segment_view(*g)));
    r
}

/// Extends every path of `prev` by `g` and offers each to the beam where
/// `g` ends.
fn push_extended(states: &mut Vec<Vec<LatticePath>>, prev: &Vec<LatticePath>, g: &LatticeSegment, beam: usize)
    requires
        g.char_start < g.char_end < old(states)@.len(),
        old(states)@.len() <= 0x4000_0000_0000_0001,
        -edge_bound() <= g.score <= edge_bound(),
        forall|i: int| 0 <= i < prev@.len() ==> path_bounded(#[trigger] path_views(prev@)[i], g.char_start as int),
        beams_bounded(states_view(old(states)@)),
    ensures
        final(states)@.len() == old(states)@.len(),
        states_view(final(states)@) == push_from(
            states_view(old(states)@),
            path_views(prev@),
            segment_view(*g),
            beam as int,
        ),
        beams_bounded(states_view(final(states)@)),
{
    let ghost st0 = states_view(states@);
    let ghost pv = path_views(prev@);
    let ghost gv = segment_view(*g);
    let e = g.char_end;
    let mut i: usize = 0;
    while i < prev.len()
        invariant
            i <= prev.len(),
            g.char_start < e == g.char_end < states@.len(),
            states@.len() == st0.len(),
            states@.len() <= 0x4000_0000_0000_0001,
            -edge_bound() <= g.score <= edge_bound(),
            pv == path_views(prev@),
            gv == segment_view(*g),
            forall|j: int| 0 <= j < prev@.len() ==> path_bounded(#[trigger] pv[j], g.char_start as int),
            states_view(states@) == push_from(st0, pv.take(i as int), gv, beam as int),
            beams_bounded(states_view(states@)),
        decreases prev.len() - i,
    {
        assert(path_bounded(pv[i as int], g.char_start as int));
        assert(pv[i as int] == path_view(prev@[i as int]));
        let path = extend_path(&prev[i], g);
        let ghost before = states_view(states@);
        let ghost good = |q: PathView| path_bounded(q, e as int);
        proof {
            assert(path_bounded(path_view(path), e as int));
            assert forall|k: int| 0 <= k < before[e as int].len() implies good(#[trigger] before[e as int][k]) by {
                assert(path_bounded(before[e as int][k], e as int));
            }
            lemma_bounded_push_within(before[e as int], path_view(path), beam as int, good);
            assert(pv.take(i + 1).drop_last() =~= pv.take(i as int));
            assert(pv.take(i + 1).last() == pv[i as int]);
        }
        let updated = push_bounded(&states[e], path, beam);
        states.set(e, updated);
        proof {
            assert(states_view(states@) =~= before.update(e as int, path_views(updated@)));
            assert forall|a: int, b: int| 0 <= a < states_view(states@).len() && 0 <= b < states_view(states@)[a].len()
                implies path_bounded(#[trigger] states_view(states@)[a][b], a) by {
                if a == e {
                    assert(good(path_views(updated@)[b]));
                } else {
                    assert(states_view(states@)[a] == before[a]);
                }
            }
        }
        i += 1;
    }
    assert(pv.take(i as int) =~= pv);
}

/// The dictionary edges that start at character `s`.
fn collect_edges(dictionaries: &[LatticeDictionary], chars: &Vec<char>, s: usize, limits: LatticeLimits) -> (edges: Vec<
    LatticeSegment,
>)
    requires
        s < chars@.len(),
    ensures
        segment_views(edges@) == all_edges(layer_views(dictionaries@), chars@, s as int, limits),
        forall|i: int| 0 <= i < edges@.len() ==> (#[trigger] edges@[i]).char_start == s && s < edges@[i].char_end
            <= chars@.len() && -edge_bound() <= edges@[i].score <= edge_bound(),
{
    let ghost layers = layer_views(dictionaries@);
    let ghost r = chars@;
    let n = chars.len();
    let mut edges: Vec<LatticeSegment> = Vec::new();
    let mut li: usize = 0;
    while li < dictionaries.len()
        invariant
            li <= dictionaries.len(),
            s < n == chars@.len(),
            r == chars@,
            layers == layer_views(dictionaries@),
            layers.len() == dictionaries@.len(),
            segment_views(edges@) == all_edges(layers.take(li as int), r, s as int, limits),
            forall|i: int| 0 <= i < edges@.len() ==> (#[trigger] edges@[i]).char_start == s && s < edges@[i].char_end
                <= n && -edge_bound() <= edges@[i].score <= edge_bound(),
        decreases dictionaries.len() - li,
    {
        let layer = &dictionaries[li];
        let ghost lv = layer_view(*layer);
        let ghost base = all_edges(layers.take(li as int), r, s as int, limits);
        assert(layers[li as int] == lv);
        let mut e: usize = s;
        while e < n
            invariant
                li < dictionaries.len(),
                s <= e <= n == chars@.len(),
                r == chars@,
                lv == layer_view(*layer),
                segment_views(edges@) == base + layer_edges(lv, r, s as int, e as int, limits),
                forall|i: int| 0 <= i < edges@.len() ==> (#[trigger] edges@[i]).char_start == s && s < edges@[i].char_end
                    <= n && -edge_bound() <= edges@[i].score <= edge_bound(),
            decreases n - e,
        {
            e += 1;
            let ghost upto = base + layer_edges(lv, r, s as int, e - 1, limits);
            assert(segment_views(edges@) == upto);
            let piece = slice_to_string(chars.as_slice(), s, e);
            match layer.dictionary.exact_match_search(piece.as_str()) {
                Some(found) => {
                    let ghost cs = crate::dict::candidate_views(found.candidates@);
                    let ghost f = |c: CandidateView| dictionary_edge(c, s as int, e as int, r.subrange(s as int, e as int), lv,
                        limits.segment_penalty as int);
                    let k = if limits.segment_candidates < found.candidates.len() {
                        limits.segment_candidates
                    } else {
                        found.candidates.len()
                    };
                    assert(first_candidates(cs, limits.segment_candidates as int) =~= cs.take(k as int));
                    let mut c: usize = 0;
                    while c < k
                        invariant
                            c <= k <= found.candidates@.len(),
                            s < e <= n,
                            r == chars@,
                            piece@ == r.subrange(s as int, e as int),
                            lv == layer_view(*layer),
                            forall|x: CandidateView| #[trigger] f(x) == dictionary_edge(x, s as int, e as int, r.subrange(s as int, e as int),
                                lv, limits.segment_penalty as int),
                            cs == crate::dict::candidate_views(found.candidates@),
                            segment_views(edges@) == upto + cs.take(c as int).map_values(f),
                            forall|i: int| 0 <= i < edges@.len() ==> (#[trigger] edges@[i]).char_start == s && s
                                < edges@[i].char_end <= n && -edge_bound() <= edges@[i].score <= edge_bound(),
                        decreases k - c,
                    {
                        let cand = &found.candidates[c];
                        let edge = LatticeSegment {
                            char_start: s,
                            char_end: e,
                            reading: copy_str(piece.as_str()),
                            surface: copy_str(cand.surface.as_str()),
                            score: cand.score as i128 + layer.score_bias as i128 + limits.segment_penalty as i128,
                            source: Some(cand.source),
                            category: cand.category,
                            description: copy_opt(&cand.description),
                            dictionary_kind: Some(layer.kind),
                        };
                        let ghost before = edges@;
                        proof {
                            let cv = cs[c as int];
                            assert(cv == crate::dict::candidate_view(*cand));
                            assert(piece@ == r.subrange(s as int, e as int));
                            assert(f(cv) == dictionary_edge(cv, s as int, e as int, r.subrange(s as int, e as int), lv,
                                limits.segment_penalty as int));
                            assert(segment_view(edge).4 == cv.1 + lv.2 + limits.segment_penalty);
                            assert(segment_view(edge) == f(cv));
                            assert(cs.take(c + 1).map_values(f) =~= cs.take(c as int).map_values(f).push(f(cs[c as int])));
                        }
                        edges.push(edge);
                        assert(segment_views(edges@) =~= segment_views(before).push(segment_view(edge)));
                        c += 1;
                    }
                    assert(reading_edges(lv, r, s as int, e as int, limits) == cs.take(k as int).map_values(f));
                },
                None => {
                    assert(reading_edges(lv, r, s as int, e as int, limits) =~= Seq::<SegmentView>::empty());
                },
            }
            assert(layer_edges(lv, r, s as int, e as int, limits) == layer_edges(lv, r, s as int, e - 1, limits)
                + reading_edges(lv, r, s as int, e as int, limits));
            assert(segment_views(edges@) =~= base + layer_edges(lv, r, s as int, e as int, limits));
        }
        proof {
            assert(layers.take(li + 1).drop_last() =~= layers.take(li as int));
            assert(layers.take(li + 1).last() == lv);
        }
        li += 1;
    }
    assert(layers.take(li as int) =~= layers);
    edges
}

/// Builds the lattice of every dictionary prefix at every character of
/// `reading` and returns the best complete paths, lowest score first.
///
/// Path scores are exact sums; the reading must have fewer than 2^62
/// characters so that they fit.
pub fn search_dictionary_lattice(reading: &str, dictionaries: &[LatticeDictionary], limits: LatticeLimits) -> (out: Vec<
    LatticePath,
>)
    requires
        reading@.len() <= 0x4000_0000_0000_0000,
    ensures
        path_views(out@) == lattice_result(layer_views(dictionaries@), reading@, limits),
{
    let chars = chars_of(reading);
    if chars.len() == 0 || limits.max_paths == 0 || limits.beam_width == 0 {
        return Vec::new();
    }
    let n = chars.len();
    let ghost layers = layer_views(dictionaries@);
    let ghost r = reading@;
    let beam = limits.beam_width;
    let mut states: Vec<Vec<LatticePath>> = Vec::new();
    let mut first: Vec<LatticePath> = Vec::new();
    first.push(LatticePath::empty());
    assert(path_views(first@) =~= seq![empty_path()]);
    states.push(first);
    let mut k: usize = 0;
    while k < n
        invariant
            k <= n,
            states@.len() == k + 1,
            path_views(states@[0]@) == seq![empty_path()],
            forall|i: int| 1 <= i < states@.len() ==> (#[trigger] states@[i])@.len() == 0,
        decreases n - k,
    {
        states.push(Vec::new());
        k += 1;
    }
    assert forall|i: int| 0 <= i < states@.len() implies #[trigger] states_view(states@)[i] == search_states(
        layers,
        r,
        limits,
        0,
    )[i] by {
        if i > 0 {
            assert(path_views(states@[i]@) =~= Seq::<PathView>::empty());
        }
    }
    assert(states_view(states@) =~= search_states(layers, r, limits, 0));
    let mut s: usize = 0;
    while s < n
        invariant
            s <= n == chars@.len(),
            r == chars@,
            r.len() <= 0x4000_0000_0000_0000,
            layers == layer_views(dictionaries@),
            beam == limits.beam_width,
            states@.len() == n + 1,
            states_view(states@) == search_states(layers, r, limits, s as nat),
            beams_bounded(states_view(states@)),
        decreases n - s,
    {
        let ghost st = states_view(states@);
        let prev = copy_paths(&states[s]);
        let ghost pv = path_views(prev@);
        assert(pv == st[s as int]);
        assert forall|i: int| 0 <= i < prev@.len() implies path_bounded(#[trigger] path_views(prev@)[i], s as int) by {
            assert(path_bounded(st[s as int][i], s as int));
        }
        let edges = collect_edges(dictionaries, &chars, s, limits);
        let ghost ev = segment_views(edges@);
        let mut g: usize = 0;
        while g < edges.len()
            invariant
                g <= edges.len(),
                s < n == chars@.len(),
                n <= 0x4000_0000_0000_0000,
                states@.len() == n + 1,
                pv == path_views(prev@),
                ev == segment_views(edges@),
                forall|i: int| 0 <= i < prev@.len() ==> path_bounded(#[trigger] path_views(prev@)[i], s as int),
                forall|i: int| 0 <= i < edges@.len() ==> (#[trigger] edges@[i]).char_start == s && s < edges@[i].char_end
                    <= n && -edge_bound() <= edges@[i].score <= edge_bound(),
                states_view(states@) == push_edges(st, pv, ev.take(g as int), beam as int),
                beams_bounded(states_view(states@)),
            decreases edges.len() - g,
        {
            assert(edges@[g as int].char_start == s);
            push_extended(&mut states, &prev, &edges[g], beam);
            proof {
                assert(ev.take(g + 1).drop_last() =~= ev.take(g as int));
                assert(ev.take(g + 1).last() == segment_view(edges@[g as int]));
            }
            g += 1;
        }
        assert(ev.take(g as int) =~= ev);
        let piece = slice_to_string(chars.as_slice(), s, s + 1);
        let unknown = LatticeSegment {
            char_start: s,
            char_end: s + 1,
            reading: copy_str(piece.as_str()),
            surface: copy_str(piece.as_str()),
            score: limits.unknown_penalty as i128,
            source: None,
            category: DictionaryCategory::General,
            description: None,
            dictionary_kind: None,
        };
        assert(segment_view(unknown) == unknown_edge(r, s as int, limits));
        push_extended(&mut states, &prev, &unknown, beam);
        s += 1;
    }
    let mut done = sort_by_score(&states[n]);
    let ghost full = path_views(done@);
    done.truncate(limits.max_paths);
    assert(path_views(done@) =~= at_most(full, limits.max_paths as int));
    done
}

/// `g` is an edge of the lattice of `r`: a dictionary edge or the fallback
/// edge at its start.
pub open spec fn lattice_edge(layers: Seq<LayerView>, r: Seq<char>, lim: LatticeLimits, g: SegmentView) -> bool {
    &&& 0 <= g.0 < r.len()
    &&& all_edges(layers, r, g.0, lim).contains(g) || g == unknown_edge(r, g.0, lim)
}

/// `segs` is a walk along lattice edges from the first character to `e`.
pub open spec fn walks_to(layers: Seq<LayerView>, r: Seq<char>, lim: LatticeLimits, segs: Seq<SegmentView>, e: int) -> bool {
    &&& segs.len() == 0 ==> e == 0
    &&& segs.len() > 0 ==> segs[0].0 == 0 && segs.last().1 == e
    &&& forall|k: int| 0 < k < segs.len() ==> segs[k - 1].1 == #[trigger] segs[k].0
    &&& forall|k: int| 0 <= k < segs.len() ==> lattice_edge(layers, r, lim, #[trigger] segs[k])
}

/// The summed score of `segs`.
pub open spec fn walk_score(segs: Seq<SegmentView>) -> int
    decreases segs.len(),
{
    if segs.len() == 0 {
        0
    } else {
        walk_score(segs.drop_last()) + segs.last().4
    }
}

proof fn lemma_layer_edges_range(layer: LayerView, r: Seq<char>, s: int, e: int, lim: LatticeLimits)
    requires
        0 <= s,
        e <= r.len(),
    ensures
        forall|i: int| 0 <= i < layer_edges(layer, r, s, e, lim).len() ==> (#[trigger] layer_edges(layer, r, s, e, lim)[i]).0
            == s && s < layer_edges(layer, r, s, e, lim)[i].1 <= e,
    decreases e - s,
{
    if e > s {
        lemma_layer_edges_range(layer, r, s, e - 1, lim);
        let a = layer_edges(layer, r, s, e - 1, lim);
        let b = reading_edges(layer, r, s, e, lim);
        let all = layer_edges(layer, r, s, e, lim);
        assert(all == a + b);
        assert forall|i: int| 0 <= i < all.len() implies (#[trigger] all[i]).0 == s && s < all[i].1 <= e by {
            if i < a.len() {
                assert(all[i] == a[i]);
            } else {
                assert(all[i] == b[i - a.len()]);
            }
        }
    }
}

/// The dictionary edges at `s` start at `s` and end after it, inside the
/// reading.
proof fn lemma_all_edges_range(layers: Seq<LayerView>, r: Seq<char>, s: int, lim: LatticeLimits)
    requires
        0 <= s,
    ensures
        forall|i: int| 0 <= i < all_edges(layers, r, s, lim).len() ==> (#[trigger] all_edges(layers, r, s, lim)[i]).0 == s
            && s < all_edges(layers, r, s, lim)[i].1 <= r.len(),
    decreases layers.len(),
{
    if layers.len() > 0 {
        lemma_all_edges_range(layers.drop_last(), r, s, lim);
        lemma_layer_edges_range(layers.last(), r, s, r.len() as int, lim);
        let a = all_edges(layers.drop_last(), r, s, lim);
        let b = layer_edges(layers.last(), r, s, r.len() as int, lim);
        let all = all_edges(layers, r, s, lim);
        assert forall|i: int| 0 <= i < all.len() implies (#[trigger] all[i]).0 == s && s < all[i].1 <= r.len() by {
            if i < a.len() {
                assert(all[i] == a[i]);
            } else {
                assert(all[i] == b[i - a.len()]);
            }
        }
    }
}

proof fn lemma_push_from_keeps(st: Seq<Seq<PathView>>, prev: Seq<PathView>, g: SegmentView, beam: int)
    requires
        beam >= 1,
        0 <= g.1 < st.len(),
    ensures
        push_from(st, prev, g, beam).len() == st.len(),
        forall|e: int, x: int| 0 <= e < st.len() && some_at_most(st[e], x) ==> #[trigger] some_at_most(
            push_from(st, prev, g, beam)[e],
            x,
        ),
    decreases prev.len(),
{
    if prev.len() > 0 {
        lemma_push_from_keeps(st, prev.drop_last(), g, beam);
        let before = push_from(st, prev.drop_last(), g, beam);
        let after = push_from(st, prev, g, beam);
        assert forall|e: int, x: int| 0 <= e < st.len() && some_at_most(st[e], x) implies #[trigger] some_at_most(
            after[e],
            x,
        ) by {
            assert(some_at_most(before[e], x));
            if e == g.1 {
                lemma_bounded_push_keeps_best(before[e], extend(prev.last(), g), beam, x);
            } else {
                assert(after[e] == before[e]);
            }
        }
    }
}

proof fn lemma_push_from_adds(st: Seq<Seq<PathView>>, prev: Seq<PathView>, g: SegmentView, beam: int, i: int)
    requires
        beam >= 1,
        0 <= g.1 < st.len(),
        0 <= i < prev.len(),
    ensures
        some_at_most(push_from(st, prev, g, beam)[g.1], prev[i].1 + g.4),
    decreases prev.len(),
{
    let before = push_from(st, prev.drop_last(), g, beam);
    let x = prev[i].1 + g.4;
    if i == prev.len() - 1 {
        lemma_push_from_keeps(st, prev.drop_last(), g, beam);
        lemma_bounded_push_keeps_best(before[g.1], extend(prev.last(), g), beam, x);
    } else {
        lemma_push_from_adds(st, prev.drop_last(), g, beam, i);
        lemma_push_from_keeps(st, prev.drop_last(), g, beam);
        assert(prev.drop_last()[i] == prev[i]);
        lemma_bounded_push_keeps_best(before[g.1], extend(prev.last(), g), beam, x);
    }
}

proof fn lemma_push_edges_keeps(st: Seq<Seq<PathView>>, prev: Seq<PathView>, edges: Seq<SegmentView>, beam: int)
    requires
        beam >= 1,
        forall|m: int| 0 <= m < edges.len() ==> 0 <= (#[trigger] edges[m]).1 < st.len(),
    ensures
        push_edges(st, prev, edges, beam).len() == st.len(),
        forall|e: int, x: int| 0 <= e < st.len() && some_at_most(st[e], x) ==> #[trigger] some_at_most(
            push_edges(st, prev, edges, beam)[e],
            x,
        ),
    decreases edges.len(),
{
    if edges.len() > 0 {
        let rest = edges.drop_last();
        assert forall|m: int| 0 <= m < rest.len() implies 0 <= (#[trigger] rest[m]).1 < st.len() by {
            assert(rest[m] == edges[m]);
        }
        lemma_push_edges_keeps(st, prev, rest, beam);
        let mid = push_edges(st, prev, rest, beam);
        assert(0 <= edges[edges.len() - 1].1 < st.len());
        lemma_push_from_keeps(mid, prev, edges.last(), beam);
        assert forall|e: int, x: int| 0 <= e < st.len() && some_at_most(st[e], x) implies #[trigger] some_at_most(
            push_edges(st, prev, edges, beam)[e],
            x,
        ) by {
            assert(some_at_most(mid[e], x));
        }
    }
}

proof fn lemma_push_edges_adds(st: Seq<Seq<PathView>>, prev: Seq<PathView>, edges: Seq<SegmentView>, beam: int, m: int, i: int)
    requires
        beam >= 1,
        forall|k: int| 0 <= k < edges.len() ==> 0 <= (#[trigger] edges[k]).1 < st.len(),
        0 <= m < edges.len(),
        0 <= i < prev.len(),
    ensures
        some_at_most(push_edges(st, prev, edges, beam)[edges[m].1], prev[i].1 + edges[m].4),
    decreases edges.len(),
{
    let rest = edges.drop_last();
    assert forall|k: int| 0 <= k < rest.len() implies 0 <= (#[trigger] rest[k]).1 < st.len() by {
        assert(rest[k] == edges[k]);
    }
    lemma_push_edges_keeps(st, prev, rest, beam);
    let mid = push_edges(st, prev, rest, beam);
    assert(0 <= edges[edges.len() - 1].1 < st.len());
    if m == edges.len() - 1 {
        lemma_push_from_adds(mid, prev, edges.last(), beam, i);
    } else {
        lemma_push_edges_adds(st, prev, rest, beam, m, i);
        assert(rest[m] == edges[m]);
        lemma_push_from_keeps(mid, prev, edges.last(), beam);
        assert(some_at_most(mid[edges[m].1], prev[i].1 + edges[m].4));
    }
}

/// After the characters before `s` are walked, the beam at each position
/// `e` holds a path scoring no more than any walk to `e` whose last edge
/// starts before `s`.
pub open spec fn beams_cover(layers: Seq<LayerView>, r: Seq<char>, lim: LatticeLimits, st: Seq<Seq<PathView>>, s: int) -> bool {
    forall|segs: Seq<SegmentView>, e: int|
        #![trigger walks_to(layers, r, lim, segs, e)]
        0 <= e <= r.len() && walks_to(layers, r, lim, segs, e) && (segs.len() == 0 || segs.last().0 < s) ==> some_at_most(
            st[e],
            walk_score(segs),
        )
}

proof fn lemma_search_covers(layers: Seq<LayerView>, r: Seq<char>, lim: LatticeLimits, s: nat)
    requires
        s <= r.len(),
        lim.beam_width >= 1,
    ensures
        search_states(layers, r, lim, s).len() == r.len() + 1,
        beams_cover(layers, r, lim, search_states(layers, r, lim, s), s as int),
    decreases s,
{
    let beam = lim.beam_width as int;
    if s == 0 {
        let st = search_states(layers, r, lim, 0);
        assert forall|segs: Seq<SegmentView>, e: int|
            0 <= e <= r.len() && #[trigger] walks_to(layers, r, lim, segs, e) && (segs.len() == 0 || segs.last().0
                < 0) implies some_at_most(st[e], walk_score(segs)) by {
            if segs.len() > 0 {
                assert(lattice_edge(layers, r, lim, segs[segs.len() - 1]));
            }
            assert(e == 0);
            assert(st[0] == seq![empty_path()]);
            assert(walk_score(segs) == 0);
            assert(st[e][0].1 <= walk_score(segs));
        }
    } else {
        let t = (s - 1) as int;
        lemma_search_covers(layers, r, lim, (s - 1) as nat);
        let st = search_states(layers, r, lim, (s - 1) as nat);
        let prev = st[t];
        let edges = all_edges(layers, r, t, lim);
        let u = unknown_edge(r, t, lim);
        lemma_all_edges_range(layers, r, t, lim);
        let with_words = push_edges(st, prev, edges, beam);
        let fin = search_states(layers, r, lim, s);
        assert(fin == push_from(with_words, prev, u, beam));
        lemma_push_edges_keeps(st, prev, edges, beam);
        lemma_push_from_keeps(with_words, prev, u, beam);
        assert forall|segs: Seq<SegmentView>, e: int|
            0 <= e <= r.len() && #[trigger] walks_to(layers, r, lim, segs, e) && (segs.len() == 0 || segs.last().0
                < s) implies some_at_most(fin[e], walk_score(segs)) by {
            if segs.len() == 0 || segs.last().0 < t {
                assert(some_at_most(st[e], walk_score(segs)));
                assert(some_at_most(with_words[e], walk_score(segs)));
            } else {
                let g = segs.last();
                let front = segs.drop_last();
                assert(lattice_edge(layers, r, lim, segs[segs.len() - 1]));
                assert(g.0 == t);
                let in_words = edges.contains(g);
                if in_words {
                    let m = choose|m: int| 0 <= m < edges.len() && edges[m] == g;
                    assert(t < edges[m].1);
                }
                assert(t < g.1 && g.1 == e);
                // The walk up to the last edge reaches `t`.
                assert forall|k: int| 0 < k < front.len() implies front[k - 1].1 == #[trigger] front[k].0 by {
                    assert(front[k - 1] == segs[k - 1] && front[k] == segs[k]);
                }
                assert forall|k: int| 0 <= k < front.len() implies lattice_edge(layers, r, lim, #[trigger] front[k]) by {
                    assert(front[k] == segs[k]);
                }
                if front.len() > 0 {
                    assert(front[0] == segs[0]);
                    assert(front.last() == segs[segs.len() - 2]);
                    assert(segs[segs.len() - 2].1 == segs[segs.len() - 1].0);
                    let fl = front.last();
                    assert(lattice_edge(layers, r, lim, front[front.len() - 1]));
                    if all_edges(layers, r, fl.0, lim).contains(fl) {
                        lemma_all_edges_range(layers, r, fl.0, lim);
                        let m = choose|m: int| 0 <= m < all_edges(layers, r, fl.0, lim).len() && all_edges(
                            layers,
                            r,
                            fl.0,
                            lim,
                        )[m] == fl;
                    }
                    assert(fl.0 < fl.1);
                } else {
                    assert(t == 0);
                }
                assert(walks_to(layers, r, lim, front, t));
                assert(some_at_most(prev, walk_score(front)));
                let i = choose|i: int| 0 <= i < prev.len() && #[trigger] prev[i].1 <= walk_score(front);
                assert(walk_score(segs) == walk_score(front) + g.4);
                if in_words {
                    let m = choose|m: int| 0 <= m < edges.len() && edges[m] == g;
                    assert forall|k: int| 0 <= k < edges.len() implies 0 <= (#[trigger] edges[k]).1 < st.len() by {}
                    lemma_push_edges_adds(st, prev, edges, beam, m, i);
                    assert(some_at_most(with_words[e], prev[i].1 + g.4));
                    let j = choose|j: int| 0 <= j < with_words[e].len() && #[trigger] with_words[e][j].1 <= prev[i].1 + g.4;
                    assert(some_at_most(with_words[e], walk_score(segs)));
                } else {
                    assert(g == u);
                    lemma_push_from_adds(with_words, prev, u, beam, i);
                    let j = choose|j: int| 0 <= j < fin[e].len() && #[trigger] fin[e][j].1 <= prev[i].1 + g.4;
                }
            }
        }
    }
}

/// The first path returned scores no more than any walk through the lattice
/// from the first character to the last; in particular there is a first
/// path whenever the reading is not empty and the limits are positive.
pub proof fn lemma_lattice_best_first(
    layers: Seq<LayerView>,
    r: Seq<char>,
    lim: LatticeLimits,
    segs: Seq<SegmentView>,
)
    requires
        r.len() > 0,
        lim.max_paths >= 1,
        lim.beam_width >= 1,
        walks_to(layers, r, lim, segs, r.len() as int),
    ensures
        lattice_result(layers, r, lim).len() > 0,
        lattice_result(layers, r, lim)[0].1 <= walk_score(segs),
{
    lemma_search_covers(layers, r, lim, r.len());
    let st = search_states(layers, r, lim, r.len());
    let done = st[r.len() as int];
    assert(segs.len() > 0);
    assert(lattice_edge(layers, r, lim, segs[segs.len() - 1]));
    assert(some_at_most(done, walk_score(segs)));
    lemma_sort_paths(done);
    let sorted = sort_paths(done);
    let i = choose|i: int| 0 <= i < done.len() && #[trigger] done[i].1 <= walk_score(segs);
    let j = choose|j: int| 0 <= j < sorted.len() && sorted[j] == done[i];
    if j > 0 {
        assert(sorted[0].1 <= sorted[j].1);
    }
    assert(lattice_result(layers, r, lim)[0] == sorted[0]);
}

/// The paths returned run from the lowest score up, and there are at most
/// `max_paths` of them.
pub proof fn lemma_lattice_sorted(layers: Seq<LayerView>, r: Seq<char>, lim: LatticeLimits)
    ensures
        sorted_by_score(lattice_result(layers, r, lim)),
        lattice_result(layers, r, lim).len() <= lim.max_paths,
{
    if !(r.len() == 0 || lim.max_paths == 0 || lim.beam_width == 0) {
        let done = search_states(layers, r, lim, r.len())[r.len() as int];
        lemma_sort_paths(done);
        let sorted = sort_paths(done);
        let out = at_most(sorted, lim.max_paths as int);
        assert forall|i: int, j: int| 0 <= i < j < out.len() implies #[trigger] out[i].1 <= #[trigger] out[j].1 by {
            assert(out[i] == sorted[i] && out[j] == sorted[j]);
        }
    }
}

/// The surfaces of `segs`, concatenated.
pub open spec fn walk_surface(segs: Seq<SegmentView>) -> Seq<char>
    decreases segs.len(),
{
    if segs.len() == 0 {
        Seq::empty()
    } else {
        walk_surface(segs.drop_last()) + segs.last().3
    }
}

/// `p` is a walk to `e` whose score and surface are those of its segments.
pub open spec fn sound_path(layers: Seq<LayerView>, r: Seq<char>, lim: LatticeLimits, p: PathView, e: int) -> bool {
    &&& walks_to(layers, r, lim, p.2, e)
    &&& p.1 == walk_score(p.2)
    &&& p.0 == walk_surface(p.2)
}

pub open spec fn beams_sound(layers: Seq<LayerView>, r: Seq<char>, lim: LatticeLimits, st: Seq<Seq<PathView>>) -> bool {
    forall|e: int, i: int| 0 <= e < st.len() && 0 <= i < st[e].len() ==> sound_path(layers, r, lim, #[trigger] st[e][i], e)
}

proof fn lemma_extend_sound(layers: Seq<LayerView>, r: Seq<char>, lim: LatticeLimits, q: PathView, g: SegmentView)
    requires
        sound_path(layers, r, lim, q, g.0),
        lattice_edge(layers, r, lim, g),
    ensures
        sound_path(layers, r, lim, extend(q, g), g.1),
{
    let segs = q.2.push(g);
    assert(segs.drop_last() =~= q.2);
    assert forall|k: int| 0 < k < segs.len() implies segs[k - 1].1 == #[trigger] segs[k].0 by {
        if k < segs.len() - 1 {
            assert(segs[k - 1] == q.2[k - 1] && segs[k] == q.2[k]);
        } else {
            assert(segs[k - 1] == q.2[q.2.len() - 1]);
        }
    }
    assert forall|k: int| 0 <= k < segs.len() implies lattice_edge(layers, r, lim, #[trigger] segs[k]) by {
        if k < segs.len() - 1 {
            assert(segs[k] == q.2[k]);
        }
    }
    if q.2.len() > 0 {
        assert(segs[0] == q.2[0]);
    }
}

proof fn lemma_push_from_sound(
    layers: Seq<LayerView>,
    r: Seq<char>,
    lim: LatticeLimits,
    st: Seq<Seq<PathView>>,
    prev: Seq<PathView>,
    g: SegmentView,
    beam: int,
)
    requires
        beams_sound(layers, r, lim, st),
        0 <= g.1 < st.len(),
        lattice_edge(layers, r, lim, g),
        forall|i: int| 0 <= i < prev.len() ==> sound_path(layers, r, lim, #[trigger] prev[i], g.0),
    ensures
        push_from(st, prev, g, beam).len() == st.len(),
        beams_sound(layers, r, lim, push_from(st, prev, g, beam)),
    decreases prev.len(),
{
    if prev.len() > 0 {
        let front = prev.drop_last();
        assert forall|i: int| 0 <= i < front.len() implies sound_path(layers, r, lim, #[trigger] front[i], g.0) by {
            assert(front[i] == prev[i]);
        }
        lemma_push_from_sound(layers, r, lim, st, front, g, beam);
        let before = push_from(st, front, g, beam);
        let p = extend(prev.last(), g);
        lemma_extend_sound(layers, r, lim, prev[prev.len() - 1], g);
        let good = |x: PathView| sound_path(layers, r, lim, x, g.1);
        assert forall|i: int| 0 <= i < before[g.1].len() implies good(#[trigger] before[g.1][i]) by {}
        lemma_bounded_push_within(before[g.1], p, beam, good);
        let after = push_from(st, prev, g, beam);
        assert forall|e: int, i: int| 0 <= e < after.len() && 0 <= i < after[e].len() implies sound_path(
            layers,
            r,
            lim,
            #[trigger] after[e][i],
            e,
        ) by {
            if e == g.1 {
                assert(good(after[e][i]));
            } else {
                assert(after[e] == before[e]);
            }
        }
    }
}

proof fn lemma_push_edges_sound(
    layers: Seq<LayerView>,
    r: Seq<char>,
    lim: LatticeLimits,
    st: Seq<Seq<PathView>>,
    prev: Seq<PathView>,
    edges: Seq<SegmentView>,
    beam: int,
    t: int,
)
    requires
        beams_sound(layers, r, lim, st),
        forall|m: int| 0 <= m < edges.len() ==> (#[trigger] edges[m]).0 == t && 0 <= edges[m].1 < st.len()
            && lattice_edge(layers, r, lim, edges[m]),
        forall|i: int| 0 <= i < prev.len() ==> sound_path(layers, r, lim, #[trigger] prev[i], t),
    ensures
        push_edges(st, prev, edges, beam).len() == st.len(),
        beams_sound(layers, r, lim, push_edges(st, prev, edges, beam)),
    decreases edges.len(),
{
    if edges.len() > 0 {
        let rest = edges.drop_last();
        assert forall|m: int| 0 <= m < rest.len() implies (#[trigger] rest[m]).0 == t && 0 <= rest[m].1 < st.len()
            && lattice_edge(layers, r, lim, rest[m]) by {
            assert(rest[m] == edges[m]);
        }
        lemma_push_edges_sound(layers, r, lim, st, prev, rest, beam, t);
        let g = edges[edges.len() - 1];
        lemma_push_from_sound(layers, r, lim, push_edges(st, prev, rest, beam), prev, g, beam);
    }
}

proof fn lemma_search_sound(layers: Seq<LayerView>, r: Seq<char>, lim: LatticeLimits, s: nat)
    requires
        s <= r.len(),
    ensures
        search_states(layers, r, lim, s).len() == r.len() + 1,
        beams_sound(layers, r, lim, search_states(layers, r, lim, s)),
    decreases s,
{
    if s == 0 {
        let st = search_states(layers, r, lim, 0);
        assert forall|e: int, i: int| 0 <= e < st.len() && 0 <= i < st[e].len() implies sound_path(
            layers,
            r,
            lim,
            #[trigger] st[e][i],
            e,
        ) by {
            assert(e == 0);
            assert(st[0] == seq![empty_path()]);
            assert(st[e][i] == empty_path());
        }
    } else {
        let t = (s - 1) as int;
        lemma_search_sound(layers, r, lim, (s - 1) as nat);
        let st = search_states(layers, r, lim, (s - 1) as nat);
        let prev = st[t];
        let edges = all_edges(layers, r, t, lim);
        lemma_all_edges_range(layers, r, t, lim);
        assert forall|m: int| 0 <= m < edges.len() implies (#[trigger] edges[m]).0 == t && 0 <= edges[m].1 < st.len()
            && lattice_edge(layers, r, lim, edges[m]) by {
            assert(edges.contains(edges[m]));
        }
        assert forall|i: int| 0 <= i < prev.len() implies sound_path(layers, r, lim, #[trigger] prev[i], t) by {}
        let beam = lim.beam_width as int;
        lemma_push_edges_sound(layers, r, lim, st, prev, edges, beam, t);
        let with_words = push_edges(st, prev, edges, beam);
        lemma_push_from_sound(layers, r, lim, with_words, prev, unknown_edge(r, t, lim), beam);
    }
}

/// Every path returned is a walk through the lattice from the first
/// character to the last, and its score and surface are the sum of its
/// segments' scores and the concatenation of their surfaces.
pub proof fn lemma_lattice_paths_sound(layers: Seq<LayerView>, r: Seq<char>, lim: LatticeLimits)
    ensures
        forall|i: int| 0 <= i < lattice_result(layers, r, lim).len() ==> sound_path(
            layers,
            r,
            lim,
            #[trigger] lattice_result(layers, r, lim)[i],
            r.len() as int,
        ),
{
    if !(r.len() == 0 || lim.max_paths == 0 || lim.beam_width == 0) {
        lemma_search_sound(layers, r, lim, r.len());
        let done = search_states(layers, r, lim, r.len())[r.len() as int];
        lemma_sort_paths(done);
        let sorted = sort_paths(done);
        let out = lattice_result(layers, r, lim);
        assert forall|i: int| 0 <= i < out.len() implies sound_path(layers, r, lim, #[trigger] out[i], r.len() as int) by {
            assert(out[i] == sorted[i]);
            let k = choose|k: int| 0 <= k < done.len() && done[k] == sorted[i];
            assert(sound_path(layers, r, lim, done[k], r.len() as int));
        }
    }
}

/// No two paths of `ps` have the same surface.
pub open spec fn distinct_surfaces(ps: Seq<PathView>) -> bool {
    forall|i: int, j: int| 0 <= i < j < ps.len() ==> #[trigger] ps[i].0 != #[trigger] ps[j].0
}

/// The first position where `x` goes among `t`: after every path scoring
/// the same or lower.
spec fn insert_position(t: Seq<PathView>, x: PathView) -> int
    decreases t.len(),
{
    if t.len() == 0 || x.1 < t[0].1 {
        0
    } else {
        1 + insert_position(t.drop_first(), x)
    }
}

proof fn lemma_insert_position(t: Seq<PathView>, x: PathView)
    ensures
        0 <= insert_position(t, x) <= t.len(),
        insert_path(t, x) == t.insert(insert_position(t, x), x),
    decreases t.len(),
{
    if !(t.len() == 0 || x.1 < t[0].1) {
        lemma_insert_position(t.drop_first(), x);
        let k = insert_position(t.drop_first(), x);
        assert(t.insert(k + 1, x) =~= seq![t[0]] + t.drop_first().insert(k, x));
    } else if t.len() == 0 {
        assert(t.insert(0, x) =~= seq![x]);
    } else {
        assert(t.insert(0, x) =~= seq![x] + t);
    }
}

/// Sorting keeps the surfaces distinct.
proof fn lemma_sort_distinct(s: Seq<PathView>)
    requires
        distinct_surfaces(s),
    ensures
        distinct_surfaces(sort_paths(s)),
    decreases s.len(),
{
    if s.len() > 0 {
        let front = s.drop_last();
        let x = s.last();
        assert(distinct_surfaces(front)) by {
            assert forall|i: int, j: int| 0 <= i < j < front.len() implies #[trigger] front[i].0 != #[trigger] front[j].0 by {
                assert(front[i] == s[i] && front[j] == s[j]);
            }
        }
        lemma_sort_distinct(front);
        lemma_sort_paths(front);
        let t = sort_paths(front);
        lemma_insert_position(t, x);
        let k = insert_position(t, x);
        let r = t.insert(k, x);
        assert forall|i: int| 0 <= i < t.len() implies #[trigger] t[i].0 != x.0 by {
            let m = choose|m: int| 0 <= m < front.len() && front[m] == t[i];
            assert(s[m] == front[m]);
            assert(s[s.len() - 1] == x);
        }
        assert forall|i: int, j: int| 0 <= i < j < r.len() implies #[trigger] r[i].0 != #[trigger] r[j].0 by {
            if i < k {
                assert(r[i] == t[i]);
            } else if i == k {
                assert(r[i] == x);
            } else {
                assert(r[i] == t[i - 1]);
            }
            if j < k {
                assert(r[j] == t[j]);
            } else if j == k {
                assert(r[j] == x);
            } else {
                assert(r[j] == t[j - 1]);
            }
        }
    }
}

proof fn lemma_bounded_push_distinct(ps: Seq<PathView>, p: PathView, beam: int)
    requires
        distinct_surfaces(ps),
    ensures
        distinct_surfaces(bounded_push(ps, p, beam)),
{
    lemma_surface_index(ps, p.0);
    let k = surface_index(ps, p.0);
    let joined = if 0 <= k < ps.len() {
        if p.1 < ps[k].1 {
            ps.update(k, p)
        } else {
            ps
        }
    } else {
        ps.push(p)
    };
    assert(distinct_surfaces(joined)) by {
        assert forall|i: int, j: int| 0 <= i < j < joined.len() implies #[trigger] joined[i].0 != #[trigger] joined[j].0 by {
            if 0 <= k < ps.len() {
                if p.1 < ps[k].1 {
                    if i == k {
                        assert(joined[i] == p && joined[j] == ps[j]);
                        assert(ps[k].0 != ps[j].0);
                    } else if j == k {
                        assert(joined[j] == p && joined[i] == ps[i]);
                        assert(ps[i].0 != ps[k].0);
                    } else {
                        assert(joined[i] == ps[i] && joined[j] == ps[j]);
                    }
                }
            } else if j == ps.len() {
                assert(joined[j] == p && joined[i] == ps[i]);
            } else {
                assert(joined[i] == ps[i] && joined[j] == ps[j]);
            }
        }
    }
    lemma_sort_distinct(joined);
    let sorted = sort_paths(joined);
    let out = at_most(sorted, beam);
    assert forall|i: int, j: int| 0 <= i < j < out.len() implies #[trigger] out[i].0 != #[trigger] out[j].0 by {
        assert(out[i] == sorted[i] && out[j] == sorted[j]);
    }
}

pub open spec fn beams_distinct(st: Seq<Seq<PathView>>) -> bool {
    forall|e: int| 0 <= e < st.len() ==> distinct_surfaces(#[trigger] st[e])
}

proof fn lemma_push_from_distinct(st: Seq<Seq<PathView>>, prev: Seq<PathView>, g: SegmentView, beam: int)
    requires
        beams_distinct(st),
        0 <= g.1 < st.len(),
    ensures
        push_from(st, prev, g, beam).len() == st.len(),
        beams_distinct(push_from(st, prev, g, beam)),
    decreases prev.len(),
{
    if prev.len() > 0 {
        lemma_push_from_distinct(st, prev.drop_last(), g, beam);
        let before = push_from(st, prev.drop_last(), g, beam);
        lemma_bounded_push_distinct(before[g.1], extend(prev.last(), g), beam);
        let after = push_from(st, prev, g, beam);
        assert forall|e: int| 0 <= e < after.len() implies distinct_surfaces(#[trigger] after[e]) by {
            if e != g.1 {
                assert(after[e] == before[e]);
            }
        }
    }
}

proof fn lemma_push_edges_distinct(st: Seq<Seq<PathView>>, prev: Seq<PathView>, edges: Seq<SegmentView>, beam: int)
    requires
        beams_distinct(st),
        forall|m: int| 0 <= m < edges.len() ==> 0 <= (#[trigger] edges[m]).1 < st.len(),
    ensures
        push_edges(st, prev, edges, beam).len() == st.len(),
        beams_distinct(push_edges(st, prev, edges, beam)),
    decreases edges.len(),
{
    if edges.len() > 0 {
        let rest = edges.drop_last();
        assert forall|m: int| 0 <= m < rest.len() implies 0 <= (#[trigger] rest[m]).1 < st.len() by {
            assert(rest[m] == edges[m]);
        }
        lemma_push_edges_distinct(st, prev, rest, beam);
        assert(0 <= edges[edges.len() - 1].1 < st.len());
        lemma_push_from_distinct(push_edges(st, prev, rest, beam), prev, edges.last(), beam);
    }
}

proof fn lemma_search_distinct(layers: Seq<LayerView>, r: Seq<char>, lim: LatticeLimits, s: nat)
    requires
        s <= r.len(),
    ensures
        search_states(layers, r, lim, s).len() == r.len() + 1,
        beams_distinct(search_states(layers, r, lim, s)),
    decreases s,
{
    if s == 0 {
        let st = search_states(layers, r, lim, 0);
        assert forall|e: int| 0 <= e < st.len() implies distinct_surfaces(#[trigger] st[e]) by {
            if e == 0 {
                assert(st[0] == seq![empty_path()]);
            }
        }
    } else {
        let t = (s - 1) as int;
        lemma_search_distinct(layers, r, lim, (s - 1) as nat);
        let st = search_states(layers, r, lim, (s - 1) as nat);
        let edges = all_edges(layers, r, t, lim);
        lemma_all_edges_range(layers, r, t, lim);
        assert forall|m: int| 0 <= m < edges.len() implies 0 <= (#[trigger] edges[m]).1 < st.len() by {}
        let beam = lim.beam_width as int;
        lemma_push_edges_distinct(st, st[t], edges, beam);
        lemma_push_from_distinct(push_edges(st, st[t], edges, beam), st[t], unknown_edge(r, t, lim), beam);
    }
}

/// No two paths returned have the same surface.
pub proof fn lemma_lattice_surfaces_distinct(layers: Seq<LayerView>, r: Seq<char>, lim: LatticeLimits)
    ensures
        distinct_surfaces(lattice_result(layers, r, lim)),
{
    if !(r.len() == 0 || lim.max_paths == 0 || lim.beam_width == 0) {
        lemma_search_distinct(layers, r, lim, r.len());
        let done = search_states(layers, r, lim, r.len())[r.len() as int];
        lemma_sort_distinct(done);
        let sorted = sort_paths(done);
        let out = lattice_result(layers, r, lim);
        assert forall|i: int, j: int| 0 <= i < j < out.len() implies #[trigger] out[i].0 != #[trigger] out[j].0 by {
            assert(out[i] == sorted[i] && out[j] == sorted[j]);
        }
    }
}

/// `g` covers `r[g.0..g.1]`, shows candidate `c` that `layer` lists for that
/// piece, and scores the candidate's score plus the layer's bias plus the
/// segment penalty.
spec fn scored_from(layer: LayerView, r: Seq<char>, lim: LatticeLimits, g: SegmentView, c: CandidateView) -> bool {
    &&& g.2 == r.subrange(g.0, g.1)
    &&& lookup(layer.0, g.2) is Some
    &&& lookup(layer.0, g.2)->0.contains(c)
    &&& g.3 == c.0
    &&& g.4 == c.1 + layer.2 + lim.segment_penalty
    &&& g.8 == Some(layer.1)
}

proof fn lemma_reading_edge_origin(layer: LayerView, r: Seq<char>, s: int, e: int, lim: LatticeLimits, g: SegmentView)
    requires
        reading_edges(layer, r, s, e, lim).contains(g),
    ensures
        g.0 == s,
        g.1 == e,
        exists|c: CandidateView| scored_from(layer, r, lim, g, c),
{
    let piece = r.subrange(s, e);
    let edges = reading_edges(layer, r, s, e, lim);
    match lookup(layer.0, piece) {
        Some(cs) => {
            let fc = first_candidates(cs, lim.segment_candidates as int);
            let idx = choose|idx: int| 0 <= idx < edges.len() && edges[idx] == g;
            let c = fc[idx];
            assert(edges[idx] == dictionary_edge(c, s, e, piece, layer, lim.segment_penalty as int));
            assert(cs[idx] == c);
            assert(cs.contains(c));
            assert(scored_from(layer, r, lim, g, c));
        },
        None => {
            assert(edges.len() == 0);
        },
    }
}

proof fn lemma_layer_edge_origin(layer: LayerView, r: Seq<char>, s: int, e: int, lim: LatticeLimits, g: SegmentView)
    requires
        layer_edges(layer, r, s, e, lim).contains(g),
    ensures
        g.0 == s,
        s < g.1 <= e,
        exists|c: CandidateView| scored_from(layer, r, lim, g, c),
    decreases e - s,
{
    if e > s {
        let a = layer_edges(layer, r, s, e - 1, lim);
        let b = reading_edges(layer, r, s, e, lim);
        let all = layer_edges(layer, r, s, e, lim);
        assert(all == a + b);
        let idx = choose|idx: int| 0 <= idx < all.len() && all[idx] == g;
        if idx < a.len() {
            assert(a[idx] == g);
            lemma_layer_edge_origin(layer, r, s, e - 1, lim, g);
        } else {
            assert(b[idx - a.len()] == g);
            lemma_reading_edge_origin(layer, r, s, e, lim, g);
        }
    }
}

proof fn lemma_all_edge_origin(layers: Seq<LayerView>, r: Seq<char>, s: int, lim: LatticeLimits, g: SegmentView)
    requires
        all_edges(layers, r, s, lim).contains(g),
    ensures
        g.0 == s,
        s < g.1 <= r.len(),
        exists|k: int, c: CandidateView| 0 <= k < layers.len() && scored_from(layers[k], r, lim, g, c),
    decreases layers.len(),
{
    if layers.len() > 0 {
        let a = all_edges(layers.drop_last(), r, s, lim);
        let b = layer_edges(layers.last(), r, s, r.len() as int, lim);
        let all = all_edges(layers, r, s, lim);
        assert(all == a + b);
        let idx = choose|idx: int| 0 <= idx < all.len() && all[idx] == g;
        if idx < a.len() {
            assert(a[idx] == g);
            lemma_all_edge_origin(layers.drop_last(), r, s, lim, g);
            let (k, c) = choose|k: int, c: CandidateView|
                0 <= k < layers.drop_last().len() && scored_from(layers.drop_last()[k], r, lim, g, c);
            assert(layers.drop_last()[k] == layers[k]);
            assert(scored_from(layers[k], r, lim, g, c));
        } else {
            assert(b[idx - a.len()] == g);
            lemma_layer_edge_origin(layers.last(), r, s, r.len() as int, lim, g);
            let c = choose|c: CandidateView| scored_from(layers.last(), r, lim, g, c);
            assert(scored_from(layers[layers.len() - 1], r, lim, g, c));
        }
    }
}

/// Every segment of a returned path covers a piece of the reading. A segment
/// from a dictionary layer shows a candidate that the layer lists for that
/// piece and scores exactly that candidate's score plus the layer's score
/// bias plus the segment penalty, so a lower bias never scores a layer's
/// words worse. A segment from no layer is one character shown as itself,
/// scoring the unknown penalty.
pub proof fn lemma_lattice_segment_scores(layers: Seq<LayerView>, r: Seq<char>, lim: LatticeLimits)
    ensures
        forall|p: PathView, g: SegmentView|
            #![trigger lattice_result(layers, r, lim).contains(p), p.2.contains(g)]
            lattice_result(layers, r, lim).contains(p) && p.2.contains(g) ==> {
                &&& 0 <= g.0 < g.1 <= r.len()
                &&& g.2 == r.subrange(g.0, g.1)
                &&& g.8 is Some ==> exists|k: int, c: CandidateView|
                    0 <= k < layers.len() && layers[k].1 == g.8->0 && lookup(layers[k].0, g.2) is Some
                        && #[trigger] lookup(layers[k].0, g.2)->0.contains(c) && g.3 == c.0 && g.4 == c.1
                        + layers[k].2 + lim.segment_penalty
                &&& g.8 is None ==> g.1 == g.0 + 1 && g.3 == g.2 && g.4 == lim.unknown_penalty
            },
{
    lemma_lattice_paths_sound(layers, r, lim);
    let out = lattice_result(layers, r, lim);
    assert forall|p: PathView, g: SegmentView| out.contains(p) && p.2.contains(g) implies {
        &&& 0 <= g.0 < g.1 <= r.len()
        &&& g.2 == r.subrange(g.0, g.1)
        &&& g.8 is Some ==> exists|k: int, c: CandidateView|
            0 <= k < layers.len() && layers[k].1 == g.8->0 && lookup(layers[k].0, g.2) is Some
                && #[trigger] lookup(layers[k].0, g.2)->0.contains(c) && g.3 == c.0 && g.4 == c.1
                + layers[k].2 + lim.segment_penalty
        &&& g.8 is None ==> g.1 == g.0 + 1 && g.3 == g.2 && g.4 == lim.unknown_penalty
    } by {
        let i = choose|i: int| 0 <= i < out.len() && out[i] == p;
        assert(sound_path(layers, r, lim, out[i], r.len() as int));
        let j = choose|j: int| 0 <= j < p.2.len() && p.2[j] == g;
        assert(lattice_edge(layers, r, lim, p.2[j]));
        if all_edges(layers, r, g.0, lim).contains(g) {
            lemma_all_edge_origin(layers, r, g.0, lim, g);
            let (k, c) = choose|k: int, c: CandidateView| 0 <= k < layers.len() && scored_from(layers[k], r, lim, g, c);
            assert(lookup(layers[k].0, g.2)->0.contains(c));
        } else {
            assert(g == unknown_edge(r, g.0, lim));
        }
    }
}

} // verus!

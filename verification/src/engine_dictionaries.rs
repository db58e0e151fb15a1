//! The engine's dictionary lookups: exact matches in the user and system
//! dictionaries, and the dictionary lattice over a whole reading.
use vstd::prelude::*;

use crate::dict::{
    candidate_view, candidate_views, copy_candidate, insert_by_score, lemma_insert_by_score, lookup, score_position,
    CandidateView, Dictionary, DictionaryCandidate,
};
use crate::engine::{EngineDictionaries, InputMethodEngine};
use crate::lattice::{
    lattice_result, path_view, path_views, search_dictionary_lattice, LatticeDictionary, LatticeDictionaryKind,
    LatticeLimits, LatticePath, LayerView, PathView, SegmentView, layer_views,
};
use crate::live_dictionary::{live_spans, range_surfaces, select_live_user_dictionary_matches, LiveUserDictionaryMatch};
use crate::long_conversion::{MAX_SEARCH_STATES, MAX_SEGMENT_CANDIDATES};
use crate::reading_correction::zu_du_variants;
use crate::suggestions::{should_prioritize_single_hiragana, single_hiragana};
use crate::text::{chars_of, copy_str, opt_view, push_str, str_eq};
use crate::text_scan::texts_of;
use crate::types::{CandidateSource, ConversionCandidate};

verus! {

/// `cs` stably sorted by score, lowest first.
pub open spec fn by_score(cs: Seq<CandidateView>) -> Seq<CandidateView>
    decreases cs.len(),
{
    if cs.len() == 0 {
        Seq::empty()
    } else {
        insert_by_score(by_score(cs.drop_last()), cs.last())
    }
}

/// A dictionary result as plain values: surface and description.
pub type Pick = (Seq<char>, Option<Seq<char>>);

/// The surface and description of a conversion candidate.
pub open spec fn pick_of(c: ConversionCandidate) -> Pick {
    (c.text@, opt_view(c.description))
}

pub open spec fn picks_of(cs: Seq<ConversionCandidate>) -> Seq<Pick> {
    cs.map_values(|c: ConversionCandidate| pick_of(c))
}

pub open spec fn picks_text(acc: Seq<Pick>, t: Seq<char>) -> bool {
    exists|i: int| 0 <= i < acc.len() && (#[trigger] acc[i]).0 == t
}

/// `acc` followed by the candidates of `src` whose surface it does not hold
/// yet, for as long as it holds fewer than `limit`.
pub open spec fn take_new(acc: Seq<Pick>, src: Seq<CandidateView>, limit: int) -> Seq<Pick>
    decreases src.len(),
{
    if src.len() == 0 {
        acc
    } else {
        let before = take_new(acc, src.drop_last(), limit);
        let c = src.last();
        if before.len() >= limit || picks_text(before, c.0) {
            before
        } else {
            before.push((c.0, c.4))
        }
    }
}

/// Taking new results only appends to what was there.
pub(crate) proof fn lemma_take_new_grows(acc: Seq<Pick>, src: Seq<CandidateView>, limit: int)
    ensures
        take_new(acc, src, limit).len() >= acc.len(),
    decreases src.len(),
{
    if src.len() > 0 {
        lemma_take_new_grows(acc, src.drop_last(), limit);
    }
}

/// The candidates that dictionary `d` lists under `reading`.
pub open spec fn found(d: Option<Dictionary>, reading: Seq<char>) -> Seq<CandidateView> {
    match d {
        Some(x) => match lookup(x@, reading) {
            Some(cs) => cs,
            None => Seq::empty(),
        },
        None => Seq::empty(),
    }
}

/// The user dictionary's results for `reading`, in its order.
pub open spec fn user_picks(dicts: EngineDictionaries, reading: Seq<char>, limit: int) -> Seq<Pick> {
    take_new(Seq::empty(), found(dicts.user, reading), limit)
}

/// The user dictionary's results, then the system dictionary's by score.
pub open spec fn dictionary_picks(dicts: EngineDictionaries, reading: Seq<char>, limit: int) -> Seq<Pick> {
    take_new(user_picks(dicts, reading, limit), by_score(found(dicts.system, reading)), limit)
}

/// The dictionaries of the engine as lattice layers: the user's with a
/// bias of -100, then the system's.
pub open spec fn engine_layers(dicts: EngineDictionaries) -> Seq<LayerView> {
    (match dicts.user {
        Some(d) => seq![(d@, LatticeDictionaryKind::User, -100int)],
        None => Seq::empty(),
    }) + (match dicts.system {
        Some(d) => seq![(d@, LatticeDictionaryKind::System, 0int)],
        None => Seq::empty(),
    })
}

/// The lattice limits of the engine with `max_paths` paths.
pub open spec fn engine_limits(max_paths: usize) -> LatticeLimits {
    LatticeLimits {
        segment_candidates: 5,
        beam_width: 20,
        max_paths,
        unknown_penalty: 10_000,
        segment_penalty: 1,
    }
}

/// The longest reading searched in the lattice.
pub open spec fn lattice_reading_limit() -> int {
    0x4000_0000_0000_0000
}

/// The lattice paths of `reading` under the engine's dictionaries.
pub open spec fn engine_lattice_paths(dicts: EngineDictionaries, reading: Seq<char>, max_paths: usize) -> Seq<PathView> {
    if reading.len() <= lattice_reading_limit() {
        lattice_result(engine_layers(dicts), reading, engine_limits(max_paths))
    } else {
        Seq::empty()
    }
}

/// Some segment of the path comes from a dictionary.
pub open spec fn has_dictionary_segment(p: PathView) -> bool {
    exists|k: int| 0 <= k < p.2.len() && (#[trigger] p.2[k]).5 is Some
}

/// The descriptions of the segments, each once, in order.
pub open spec fn segment_descriptions(segs: Seq<SegmentView>) -> Seq<Seq<char>>
    decreases segs.len(),
{
    if segs.len() == 0 {
        Seq::empty()
    } else {
        let before = segment_descriptions(segs.drop_last());
        match segs.last().7 {
            Some(d) => if before.contains(d) { before } else { before.push(d) },
            None => before,
        }
    }
}

/// `ds` joined with `sep` between neighbours.
pub open spec fn joined_with(ds: Seq<Seq<char>>, sep: Seq<char>) -> Seq<char>
    decreases ds.len(),
{
    if ds.len() == 0 {
        Seq::empty()
    } else if ds.len() == 1 {
        ds[0]
    } else {
        joined_with(ds.drop_last(), sep) + sep + ds.last()
    }
}

pub open spec fn description_separator() -> Seq<char> {
    seq![' ', '/', ' ']
}

/// A lattice path as a dictionary result: its surface, described by its
/// segments' descriptions.
pub open spec fn path_pick(p: PathView) -> Pick {
    let ds = segment_descriptions(p.2);
    (p.0, if ds.len() == 0 { None } else { Some(joined_with(ds, description_separator())) })
}

/// The paths with a dictionary segment, as dictionary results; a path of
/// fallback characters only is the reading itself, not a dictionary result.
pub open spec fn lattice_picks(paths: Seq<PathView>) -> Seq<Pick>
    decreases paths.len(),
{
    if paths.len() == 0 {
        Seq::empty()
    } else {
        let before = lattice_picks(paths.drop_last());
        if has_dictionary_segment(paths.last()) {
            before.push(path_pick(paths.last()))
        } else {
            before
        }
    }
}

/// `cs` stably sorted by score.
fn sort_candidates(cs: &Vec<DictionaryCandidate>) -> (out: Vec<DictionaryCandidate>)
    ensures
        candidate_views(out@) == by_score(candidate_views(cs@)),
{
    let ghost src = candidate_views(cs@);
    let mut out: Vec<DictionaryCandidate> = Vec::new();
    let mut i: usize = 0;
    while i < cs.len()
        invariant
            i <= cs.len(),
            src == candidate_views(cs@),
            src.len() == cs@.len(),
            candidate_views(out@) == by_score(src.take(i as int)),
        decreases cs.len() - i,
    {
        let c = copy_candidate(&cs[i]);
        let k = score_position(&out, c.score);
        let ghost before = candidate_views(out@);
        let ghost cv = candidate_view(c);
        proof {
            assert forall|j: int| 0 <= j < k implies #[trigger] before[j].1 <= cv.1 by {
                assert(before[j].1 == out@[j].score);
            }
            if k < out.len() {
                assert(before[k as int].1 == out@[k as int].score);
            }
            lemma_insert_by_score(before, cv, k as int);
            assert(src.take(i + 1).drop_last() =~= src.take(i as int));
            assert(src.take(i + 1).last() == cv);
        }
        out.insert(k, c);
        assert(candidate_views(out@) =~= before.insert(k as int, cv));
        i += 1;
    }
    assert(src.take(i as int) =~= src);
    out
}

fn has_text(out: &Vec<ConversionCandidate>, t: &str) -> (b: bool)
    ensures
        b == picks_text(picks_of(out@), t@),
{
    let ghost p = picks_of(out@);
    let mut i: usize = 0;
    while i < out.len()
        invariant
            i <= out.len(),
            p == picks_of(out@),
            forall|j: int| 0 <= j < i ==> (#[trigger] p[j]).0 != t@,
        decreases out.len() - i,
    {
        assert(p[i as int].0 == out@[i as int].text@);
        if str_eq(out[i].text.as_str(), t) {
            return true;
        }
        i += 1;
    }
    false
}

/// Appends the candidates of `cands` with a surface not yet in `out`, while
/// `out` holds fewer than `limit`, as candidates of `source`.
fn push_picks(out: &mut Vec<ConversionCandidate>, cands: &Vec<DictionaryCandidate>, limit: usize, source: CandidateSource)
    ensures
        picks_of(final(out)@) == take_new(picks_of(old(out)@), candidate_views(cands@), limit as int),
        final(out)@.len() >= old(out)@.len(),
        forall|i: int| 0 <= i < old(out)@.len() ==> #[trigger] final(out)@[i] == old(out)@[i],
        forall|i: int| old(out)@.len() <= i < final(out)@.len() ==> (#[trigger] final(out)@[i]).source == source
            && final(out)@[i].reading is None,
{
    let ghost start = picks_of(out@);
    let ghost first = out@;
    let ghost src = candidate_views(cands@);
    let mut j: usize = 0;
    while j < cands.len()
        invariant
            j <= cands.len(),
            src == candidate_views(cands@),
            src.len() == cands@.len(),
            picks_of(out@) == take_new(start, src.take(j as int), limit as int),
            out@.len() >= first.len(),
            forall|i: int| 0 <= i < first.len() ==> #[trigger] out@[i] == first[i],
            forall|i: int| first.len() <= i < out@.len() ==> (#[trigger] out@[i]).source == source && out@[i].reading is None,
        decreases cands.len() - j,
    {
        proof {
            assert(src.take(j + 1).drop_last() =~= src.take(j as int));
            assert(src.take(j + 1).last() == candidate_view(cands@[j as int]));
        }
        let c = &cands[j];
        if out.len() < limit && !has_text(out, c.surface.as_str()) {
            let ghost before = out@;
            out.push(ConversionCandidate {
                text: copy_str(c.surface.as_str()),
                source,
                reading: None,
                description: crate::candidate::copy_opt(&c.description),
            });
            assert(picks_of(out@) =~= picks_of(before).push((c.surface@, opt_view(c.description))));
        }
        j += 1;
    }
    assert(src.take(j as int) =~= src);
}

impl InputMethodEngine {
    /// Exact-match candidates for `reading`: the user dictionary's first,
    /// in its order, then the system dictionary's by score, each surface
    /// once and at most `limit` of them.
    pub fn search_dictionaries(&self, reading: &str, limit: usize) -> (out: Vec<ConversionCandidate>)
        ensures
            picks_of(out@) == dictionary_picks(self.dicts, reading@, limit as int),
            forall|i: int| 0 <= i < out@.len() ==> (#[trigger] out@[i]).reading is None && out@[i].source == (if i
                < user_picks(self.dicts, reading@, limit as int).len() {
                CandidateSource::UserDictionary
            } else {
                CandidateSource::Dictionary
            }),
    {
        let mut out: Vec<ConversionCandidate> = Vec::new();
        assert(picks_of(out@) =~= Seq::<Pick>::empty());
        match &self.dicts.user {
            Some(d) => match d.exact_match_search(reading) {
                Some(result) => {
                    push_picks(&mut out, &result.candidates, limit, CandidateSource::UserDictionary);
                },
                None => {},
            },
            None => {},
        }
        let ghost users = picks_of(out@);
        assert(users == user_picks(self.dicts, reading@, limit as int));
        match &self.dicts.system {
            Some(d) => match d.exact_match_search(reading) {
                Some(result) => {
                    let sorted = sort_candidates(&result.candidates);
                    push_picks(&mut out, &sorted, limit, CandidateSource::Dictionary);
                },
                None => {},
            },
            None => {},
        }
        out
    }

    /// The dictionary lattice paths of `reading`, at most `max_paths`: the
    /// user dictionary biased ahead of the system one. A reading of more
    /// than 2^62 characters gets none.
    pub fn dictionary_lattice_paths(&self, reading: &str, max_paths: usize) -> (out: Vec<LatticePath>)
        ensures
            path_views(out@) == engine_lattice_paths(self.dicts, reading@, max_paths),
    {
        let chars = chars_of(reading);
        if chars.len() as u64 > 0x4000_0000_0000_0000u64 {
            return Vec::new();
        }
        let mut dictionaries: Vec<LatticeDictionary> = Vec::new();
        match &self.dicts.user {
            Some(d) => {
                dictionaries.push(LatticeDictionary { dictionary: d, kind: LatticeDictionaryKind::User, score_bias: -100 });
            },
            None => {},
        }
        match &self.dicts.system {
            Some(d) => {
                dictionaries.push(LatticeDictionary { dictionary: d, kind: LatticeDictionaryKind::System, score_bias: 0 });
            },
            None => {},
        }
        assert(layer_views(dictionaries@) =~= engine_layers(self.dicts));
        let limits = LatticeLimits {
            segment_candidates: MAX_SEGMENT_CANDIDATES,
            beam_width: MAX_SEARCH_STATES,
            max_paths,
            unknown_penalty: 10_000,
            segment_penalty: 1,
        };
        search_dictionary_lattice(reading, dictionaries.as_slice(), limits)
    }

    /// The dictionary lattice paths of `reading` as conversion candidates,
    /// at most `limit` paths: those with a dictionary segment, described by
    /// their segments' descriptions joined with ` / `.
    pub fn dictionary_lattice_candidates(&self, reading: &str, limit: usize) -> (out: Vec<ConversionCandidate>)
        ensures
            picks_of(out@) == lattice_picks(engine_lattice_paths(self.dicts, reading@, limit)),
            forall|i: int| 0 <= i < out@.len() ==> (#[trigger] out@[i]).reading is None && out@[i].source
                == CandidateSource::Dictionary,
    {
        let paths = self.dictionary_lattice_paths(reading, limit);
        let ghost pv = path_views(paths@);
        let mut out: Vec<ConversionCandidate> = Vec::new();
        let mut i: usize = 0;
        while i < paths.len()
            invariant
                i <= paths.len(),
                pv == path_views(paths@),
                pv.len() == paths@.len(),
                picks_of(out@) == lattice_picks(pv.take(i as int)),
                forall|k: int| 0 <= k < out@.len() ==> (#[trigger] out@[k]).reading is None && out@[k].source
                    == CandidateSource::Dictionary,
            decreases paths.len() - i,
        {
            let path = &paths[i];
            let ghost p = pv[i as int];
            assert(p == path_view(*path));
            proof {
                assert(pv.take(i + 1).drop_last() =~= pv.take(i as int));
                assert(pv.take(i + 1).last() == p);
            }
            if path.has_unknown_only() {
                assert(!has_dictionary_segment(p));
            } else {
                let description = path.joined_descriptions();
                let ghost before = out@;
                out.push(ConversionCandidate {
                    text: copy_str(path.surface.as_str()),
                    source: CandidateSource::Dictionary,
                    reading: None,
                    description,
                });
                assert(picks_of(out@) =~= picks_of(before).push(path_pick(p)));
            }
            i += 1;
        }
        assert(pv.take(i as int) =~= pv);
        out
    }

    /// The user-dictionary spans pinned in live conversion of `reading`;
    /// none while a single hiragana keeps priority.
    pub fn live_user_dictionary_matches(&self, reading: &str) -> (out: Vec<LiveUserDictionaryMatch>)
        ensures
            single_hiragana(self.input_mode, reading@) || self.dicts.user is None ==> out@.len() == 0,
            !single_hiragana(self.input_mode, reading@) && self.dicts.user is Some ==> {
                let spans = live_spans(self.dicts.user.unwrap()@, reading@);
                &&& out@.len() == spans.len()
                &&& forall|k: int| 0 <= k < spans.len() ==> {
                    &&& (#[trigger] out@[k]).char_start == spans[k].0
                    &&& out@[k].char_end == spans[k].1
                    &&& out@[k].reading@ == reading@.subrange(spans[k].0, spans[k].1)
                    &&& texts_of(out@[k].candidates@) == range_surfaces(
                        self.dicts.user.unwrap()@,
                        zu_du_variants(reading@),
                        reading@.len() as int,
                        spans[k].0,
                        spans[k].1,
                    )
                }
            },
    {
        if should_prioritize_single_hiragana(self.input_mode, reading) {
            return Vec::new();
        }
        select_live_user_dictionary_matches(self.dicts.user.as_ref(), reading)
    }
}

impl LatticePath {
    /// Whether every segment of the path is a single-character fallback.
    fn has_unknown_only(&self) -> (b: bool)
        ensures
            b == !has_dictionary_segment(path_view(*self)),
    {
        let ghost segs = path_view(*self).2;
        let mut k: usize = 0;
        while k < self.segments.len()
            invariant
                k <= self.segments.len(),
                segs == path_view(*self).2,
                segs.len() == self.segments@.len(),
                forall|j: int| 0 <= j < k ==> (#[trigger] segs[j]).5 is None,
            decreases self.segments.len() - k,
        {
            assert(segs[k as int].5 == self.segments@[k as int].source);
            if self.segments[k].source.is_some() {
                assert((segs[k as int]).5 is Some);
                return false;
            }
            k += 1;
        }
        true
    }

    /// The distinct descriptions of the segments joined with ` / `, if any.
    fn joined_descriptions(&self) -> (d: Option<String>)
        ensures
            opt_view(d) == path_pick(path_view(*self)).1,
    {
        let ghost segs = path_view(*self).2;
        let mut seen: Vec<String> = Vec::new();
        let mut k: usize = 0;
        while k < self.segments.len()
            invariant
                k <= self.segments.len(),
                segs == path_view(*self).2,
                segs.len() == self.segments@.len(),
                texts_of(seen@) == segment_descriptions(segs.take(k as int)),
            decreases self.segments.len() - k,
        {
            proof {
                assert(segs.take(k + 1).drop_last() =~= segs.take(k as int));
                assert(segs.take(k + 1).last() == segs[k as int]);
                assert(segs[k as int].7 == opt_view(self.segments@[k as int].description));
            }
            match &self.segments[k].description {
                Some(text) => {
                    if !contains_string(&seen, text.as_str()) {
                        let ghost before = seen@;
                        seen.push(copy_str(text.as_str()));
                        assert(texts_of(seen@) =~= texts_of(before).push(text@));
                    }
                },
                None => {},
            }
            k += 1;
        }
        assert(segs.take(k as int) =~= segs);
        let ghost ds = texts_of(seen@);
        if seen.len() == 0 {
            return None;
        }
        let mut joined = copy_str(seen[0].as_str());
        let mut i: usize = 1;
        assert(ds.take(1) =~= seq![ds[0]]);
        while i < seen.len()
            invariant
                1 <= i <= seen.len(),
                ds == texts_of(seen@),
                joined@ == joined_with(ds.take(i as int), description_separator()),
            decreases seen.len() - i,
        {
            proof {
                assert(ds.take(i + 1).drop_last() =~= ds.take(i as int));
                assert(ds.take(i + 1).last() == seen@[i as int]@);
            }
            push_str(&mut joined, " / ");
            proof {
                reveal_strlit(" / ");
            }
            push_str(&mut joined, seen[i].as_str());
            i += 1;
        }
        assert(ds.take(i as int) =~= ds);
        Some(joined)
    }
}

fn contains_string(v: &Vec<String>, t: &str) -> (b: bool)
    ensures
        b == texts_of(v@).contains(t@),
{
    let mut i: usize = 0;
    while i < v.len()
        invariant
            i <= v.len(),
            forall|j: int| 0 <= j < i ==> #[trigger] v@[j]@ != t@,
        decreases v.len() - i,
    {
        if str_eq(v[i].as_str(), t) {
            assert(texts_of(v@)[i as int] == t@);
            return true;
        }
        i += 1;
    }
    proof {
        if texts_of(v@).contains(t@) {
            let j = choose|j: int| 0 <= j < texts_of(v@).len() && texts_of(v@)[j] == t@;
            assert(v@[j]@ == t@);
        }
    }
    false
}

} // verus!

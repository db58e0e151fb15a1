//! Explicit conversion: building candidates, walking them segment by
//! segment, moving segment boundaries, and committing.
use vstd::prelude::*;

use crate::candidate::{Candidate, CandidateList, copy_opt};
use crate::composing::MAX_LEARNING_CANDIDATES;
use crate::engine::{EngineDictionaries, InputMethodEngine, katakana_seq, session_wf};
use crate::kana::{contains_kana, hiragana_to_katakana, is_kana_char, is_pure_full_katakana, is_pure_hiragana};
use crate::keycode::{KeyEvent, Keysym};
use crate::preedit::Preedit;
use crate::segment_learning::{LearnedSegment, SegmentLearningCache};
use crate::composing::{composing_key_outcome, empty_key_outcome, learned_into};
use crate::romaji::flushed;
use crate::state::{ConversionSegment, ConversionSession, InputState, ranges_valid, surfaces_text};
use crate::suggestions::{append_dedup_texts, lemma_promoted_texts, prioritize_single_hiragana_candidate, promote_composing_candidate, promoted_texts, texts};
use crate::engine_dictionaries::{dictionary_picks, engine_layers, engine_lattice_paths, engine_limits, lattice_picks, picks_of, user_picks, Pick};
use crate::lattice::{lemma_lattice_sorted, SegmentView};
use crate::long_conversion::{
    combine_segment_options, combined_spec, dedup_texts, rank_options, ranked_view, sort_by_cost, span_view,
    split_conversion_reading, split_spec, take_at_most, RankedText, MAX_FINAL_CANDIDATES, MAX_SEARCH_STATES,
    MAX_SEGMENT_CANDIDATES,
};
use crate::text::{chars_of, copy_str, opt_view, slice_to_string, str_eq};
use crate::text_scan::texts_of;
use crate::types::{CandidateSource, ConversionCandidate, EngineAction, EngineResult};

verus! {

/// The texts of conversion candidates.
pub open spec fn ctexts(s: Seq<ConversionCandidate>) -> Seq<Seq<char>> {
    s.map_values(|c: ConversionCandidate| c.text@)
}

/// `s` with `t` appended unless it is already there.
pub open spec fn push_new(s: Seq<Seq<char>>, t: Seq<char>) -> Seq<Seq<char>> {
    if s.contains(t) { s } else { s.push(t) }
}

/// Texts of the explicit conversion candidates of `reading`: the learned
/// ones, the user dictionary's, the generated ones (or the reading itself
/// when nothing came before and nothing was generated), the system
/// dictionary's, then the hiragana reading and its katakana; each text once.
pub open spec fn conversion_texts(
    learned: Seq<Seq<char>>,
    user: Seq<Seq<char>>,
    generated: Seq<Seq<char>>,
    system: Seq<Seq<char>>,
    reading: Seq<char>,
) -> Seq<Seq<char>> {
    let a = append_dedup_texts(learned, user);
    let b = if generated.len() == 0 {
        if a.len() == 0 { seq![reading] } else { a }
    } else {
        append_dedup_texts(a, generated)
    };
    push_new(push_new(append_dedup_texts(b, system), reading), katakana_seq(reading))
}

/// The surfaces of dictionary results.
pub open spec fn pick_texts(p: Seq<Pick>) -> Seq<Seq<char>> {
    p.map_values(|x: Pick| x.0)
}

/// The learned texts explicit conversion starts with.
pub open spec fn learned_conversion_texts(e: InputMethodEngine, reading: Seq<char>, skip_learning: bool) -> Seq<Seq<char>> {
    if skip_learning || e.segment_learning is None {
        Seq::empty()
    } else {
        crate::suggestions::at_most(
            crate::composing::distinct_surfaces(crate::segment_learning::ranked(
                e.segment_learning.unwrap().entries(), reading, e.left_hint_view(), e.right_hint_view())),
            MAX_LEARNING_CANDIDATES as nat)
    }
}

/// The options of a span converted on its own, before ranking, costs in
/// quarter units: the dictionary lattice's surfaces in order (2k + 0.75),
/// then the span as typed (8) and its katakana (8.5) when it differs.
pub open spec fn raw_span_options(dicts: EngineDictionaries, span: Seq<char>) -> Seq<(Seq<char>, int)> {
    let dict = pick_texts(lattice_picks(engine_lattice_paths(dicts, span, MAX_SEGMENT_CANDIDATES)));
    let kata = katakana_seq(span);
    dictionary_options(dict) + seq![(span, 32int)]
        + (if kata != span { seq![(kata, 34int)] } else { Seq::<(Seq<char>, int)>::empty() })
}

/// Dictionary surfaces as options, the `k`-th at cost `8k + 3`.
pub open spec fn dictionary_options(dict: Seq<Seq<char>>) -> Seq<(Seq<char>, int)> {
    Seq::new(dict.len(), |k: int| (dict[k], 8 * k + 3))
}

/// The choices for each span of a long reading: a passed-through span is
/// itself at no cost; another span has its options ranked, at most
/// [`MAX_SEGMENT_CANDIDATES`].
pub open spec fn span_choices(dicts: EngineDictionaries, spans: Seq<(Seq<char>, bool)>) -> Seq<Seq<(Seq<char>, int)>> {
    spans.map_values(|s: (Seq<char>, bool)| if s.1 {
        seq![(s.0, 0int)]
    } else {
        take_at_most(dedup_texts(sort_by_cost(raw_span_options(dicts, s.0))), MAX_SEGMENT_CANDIDATES as nat)
    })
}

/// Where the best dictionary lattice path of `reading` ends its segments.
pub open spec fn hybrid_boundaries(dicts: EngineDictionaries, reading: Seq<char>) -> Seq<usize> {
    let paths = engine_lattice_paths(dicts, reading, 1);
    if paths.len() > 0 { paths[0].2.map_values(|g: SegmentView| g.1 as usize) } else { Seq::empty() }
}

/// The spans a long reading is converted in.
pub open spec fn hybrid_spans(dicts: EngineDictionaries, chunk_len: usize, reading: Seq<char>) -> Seq<(Seq<char>, bool)> {
    split_spec(reading, chunk_len as nat, hybrid_boundaries(dicts, reading))
}

/// Candidates of a long reading whose spans are converted independently
/// and combined, best first: none for a reading without kana or of one
/// span (or of more spans than a 32-bit count).
pub open spec fn hybrid_texts(dicts: EngineDictionaries, chunk_len: usize, reading: Seq<char>) -> Seq<Seq<char>> {
    let spans = hybrid_spans(dicts, chunk_len, reading);
    if !(exists|i: int| 0 <= i < reading.len() && is_kana_char(#[trigger] reading[i])) || spans.len() <= 1
        || spans.len() > 0xFFFF_FFFF {
        Seq::empty()
    } else {
        combined_spec(span_choices(dicts, spans), MAX_SEARCH_STATES as nat, MAX_FINAL_CANDIDATES as nat).map_values(
            |x: (Seq<char>, int)| x.0,
        )
    }
}

/// Position `i` of taking three lists in turn: the first list's item, then
/// the second's, then the third's, where there are such items.
pub open spec fn interleave_step(m: Seq<Seq<char>>, l: Seq<Seq<char>>, h: Seq<Seq<char>>, i: int) -> Seq<Seq<char>> {
    (if i < m.len() { seq![m[i]] } else { Seq::empty() }) + (if i < l.len() { seq![l[i]] } else { Seq::empty() }) + (if i
        < h.len() {
        seq![h[i]]
    } else {
        Seq::empty()
    })
}

/// The first `n` positions of taking three lists in turn.
pub open spec fn interleaved_upto(m: Seq<Seq<char>>, l: Seq<Seq<char>>, h: Seq<Seq<char>>, n: nat) -> Seq<Seq<char>>
    decreases n,
{
    if n == 0 {
        Seq::empty()
    } else {
        interleaved_upto(m, l, h, (n - 1) as nat) + interleave_step(m, l, h, n - 1)
    }
}

/// The longest of three lengths.
pub open spec fn longest(a: nat, b: nat, c: nat) -> nat {
    if a < b { if b < c { c } else { b } } else if a < c { c } else { a }
}

/// The model's candidates, the dictionary lattice's and the combined ones
/// taken in turn, in that order (their ranks `3k`, `3k + 1` and `3k + 2`,
/// stably sorted).
pub open spec fn interleaved(m: Seq<Seq<char>>, l: Seq<Seq<char>>, h: Seq<Seq<char>>) -> Seq<Seq<char>> {
    interleaved_upto(m, l, h, longest(m.len(), l.len(), h.len()))
}

/// The candidates explicit conversion generates with the model's beam
/// `model`: the model's texts, the dictionary lattice's surfaces and the
/// combined span candidates of a long reading, taken in turn, each once, at
/// most `num_candidates` and at most the final limit.
pub open spec fn generated_texts_with(e: InputMethodEngine, reading: Seq<char>, num_candidates: usize, model: Seq<Seq<char>>) -> Seq<Seq<char>> {
    let lattice = pick_texts(lattice_picks(engine_lattice_paths(e.dicts, reading, MAX_FINAL_CANDIDATES)));
    let limit = if num_candidates < MAX_FINAL_CANDIDATES { num_candidates } else { MAX_FINAL_CANDIDATES };
    crate::suggestions::at_most(
        append_dedup_texts(Seq::empty(), interleaved(model, lattice, hybrid_texts(e.dicts, e.config.composing_chunk_len, reading))),
        limit as nat,
    )
}

/// The candidates explicit conversion generates without a model.
pub open spec fn generated_texts(e: InputMethodEngine, reading: Seq<char>, num_candidates: usize) -> Seq<Seq<char>> {
    generated_texts_with(e, reading, num_candidates, Seq::empty())
}

/// The texts of the explicit conversion candidates of `reading` in engine
/// `e` with the model's beam `model`.
pub open spec fn engine_conversion_texts_with(
    e: InputMethodEngine,
    reading: Seq<char>,
    num_candidates: usize,
    skip_learning: bool,
    model: Seq<Seq<char>>,
) -> Seq<Seq<char>> {
    let d = pick_texts(dictionary_picks(e.dicts, reading, usize::MAX as int));
    let u = user_picks(e.dicts, reading, usize::MAX as int).len();
    conversion_texts(
        learned_conversion_texts(e, reading, skip_learning),
        d.take(u as int),
        generated_texts_with(e, reading, num_candidates, model),
        d.skip(u as int),
        reading,
    )
}

/// The texts of the explicit conversion candidates of `reading` in engine
/// `e`, without a model.
pub open spec fn engine_conversion_texts(e: InputMethodEngine, reading: Seq<char>, num_candidates: usize, skip_learning: bool) -> Seq<Seq<char>> {
    engine_conversion_texts_with(e, reading, num_candidates, skip_learning, Seq::empty())
}

/// Where `ts` is a list of candidate texts: the learned correction that
/// leads a fresh conversion of `reading`, the learned surface ranked first
/// for the editor's context, when that context matched.
pub open spec fn leading_correction(e: InputMethodEngine, reading: Seq<char>) -> Option<Seq<char>> {
    match e.segment_learning {
        Some(cache) => {
            let r = crate::segment_learning::ranked(cache.entries(), reading, e.left_hint_view(), e.right_hint_view());
            if r.len() > 0 && crate::segment_learning::context_bonus(r[0], e.left_hint_view(), e.right_hint_view()) > 0 {
                Some(r[0].surface@)
            } else {
                None
            }
        },
        None => None,
    }
}

/// The candidate texts a fresh conversion session of `reading` shows for
/// the candidate texts `ts`: a single typed hiragana first, and the leading
/// learned correction ahead of everything.
pub open spec fn initial_session_texts(e: InputMethodEngine, reading: Seq<char>, ts: Seq<Seq<char>>) -> Seq<Seq<char>> {
    let t1 = if crate::suggestions::single_hiragana(e.input_mode, reading) { promoted_texts(ts, reading) } else { ts };
    match leading_correction(e, reading) {
        Some(c) => promoted_texts(t1, c),
        None => t1,
    }
}

/// Whether Space reuses the suggestions as conversion candidates: live text
/// is showing, the suggestions are final and the first of them is that
/// live text.
pub open spec fn reuses_suggestions(e: InputMethodEngine) -> bool {
    &&& e.live.text@.len() > 0
    &&& e.composing_candidates_model_ready
    &&& e.composing_candidates matches Some(l) && l.items().len() > 0 && l.items()[0].text@ == e.live.text@
}

/// The candidate texts of a fresh explicit conversion of `reading`, with
/// the live text `shown` put first when it was showing, differs from the
/// reading and is not among them.
pub open spec fn fresh_conversion_texts(e: InputMethodEngine, reading: Seq<char>, shown: Seq<char>, skip_learning: bool) -> Seq<Seq<char>> {
    let built = engine_conversion_texts(e, reading, e.config.num_candidates, skip_learning);
    if shown.len() > 0 && shown != reading && !built.contains(shown) { seq![shown] + built } else { built }
}

/// The description marking a learned segment correction.
pub open spec fn correction_mark() -> Seq<char> {
    seq!['文', '節', '修', '正']
}

fn contains_ctext(s: &Vec<ConversionCandidate>, t: &str) -> (b: bool)
    ensures
        b == ctexts(s@).contains(t@),
{
    let mut i: usize = 0;
    while i < s.len()
        invariant
            i <= s@.len(),
            forall|j: int| 0 <= j < i ==> (#[trigger] s@[j]).text@ != t@,
        decreases s@.len() - i,
    {
        if str_eq(s[i].text.as_str(), t) {
            assert(ctexts(s@)[i as int] == t@);
            return true;
        }
        i += 1;
    }
    proof {
        if ctexts(s@).contains(t@) {
            let j = choose|j: int| 0 <= j < ctexts(s@).len() && ctexts(s@)[j] == t@;
            assert(s@[j].text@ == t@);
        }
    }
    false
}

/// The width description of a pure-kana text (`[全]ひらがな`,
/// `[全]カタカナ`), if it is one.
fn width_annotation(text: &str) -> (d: Option<String>)
    ensures
        d is Some == (is_pure_hiragana_spec(text@) || is_pure_katakana_spec(text@)),
{
    if is_pure_hiragana(text) {
        Some(copy_str("[全]ひらがな"))
    } else if is_pure_full_katakana(text) {
        Some(copy_str("[全]カタカナ"))
    } else {
        None
    }
}

/// Non-empty and only hiragana.
pub open spec fn is_pure_hiragana_spec(s: Seq<char>) -> bool {
    s.len() > 0 && forall|i: int| 0 <= i < s.len() ==> crate::kana::is_hiragana_text_char(#[trigger] s[i])
}

/// Non-empty and only full-width katakana.
pub open spec fn is_pure_katakana_spec(s: Seq<char>) -> bool {
    s.len() > 0 && forall|i: int| 0 <= i < s.len() ==> crate::kana::is_katakana_text_char(#[trigger] s[i])
}

fn push_fallback(builder: &mut Vec<ConversionCandidate>, text: &str)
    ensures
        ctexts(final(builder)@) == push_new(ctexts(old(builder)@), text@),
{
    if !contains_ctext(builder, text) {
        let ghost before = builder@;
        builder.push(ConversionCandidate::new(copy_str(text), CandidateSource::Fallback));
        assert(ctexts(builder@) =~= ctexts(before).push(text@));
    }
}

/// After `push_new`, the sequence holds `t`.
proof fn lemma_push_new_holds(s: Seq<Seq<char>>, t: Seq<char>)
    ensures
        push_new(s, t).contains(t),
        push_new(s, t).len() >= 1,
{
    if !s.contains(t) {
        assert(s.push(t)[s.len() as int] == t);
    }
}

/// Appends a copy of `c` unless its text is already there.
fn push_dedup(builder: &mut Vec<ConversionCandidate>, c: &ConversionCandidate)
    ensures
        ctexts(final(builder)@) == push_new(ctexts(old(builder)@), c.text@),
{
    if !contains_ctext(builder, c.text.as_str()) {
        let ghost before = builder@;
        builder.push(ConversionCandidate {
            text: copy_str(c.text.as_str()),
            source: c.source,
            reading: copy_opt(&c.reading),
            description: copy_opt(&c.description),
        });
        assert(ctexts(builder@) =~= ctexts(before).push(c.text@));
    }
}

/// The candidates as shown, each with its own reading or else `reading`.
fn to_ui_candidates(candidates: &Vec<ConversionCandidate>, reading: &str) -> (out: Vec<Candidate>)
    ensures
        texts(out@) == ctexts(candidates@),
{
    let mut out: Vec<Candidate> = Vec::new();
    let mut i: usize = 0;
    while i < candidates.len()
        invariant
            i <= candidates@.len(),
            texts(out@) == ctexts(candidates@.take(i as int)),
        decreases candidates@.len() - i,
    {
        let c = &candidates[i];
        let r = match &c.reading {
            Some(r) => copy_str(r.as_str()),
            None => copy_str(reading),
        };
        let ghost before = out@;
        out.push(Candidate { text: copy_str(c.text.as_str()), reading: Some(r), source_label: None, description: copy_opt(&c.description) });
        assert(texts(out@) =~= texts(before).push(c.text@));
        assert(ctexts(candidates@.take(i + 1)) =~= ctexts(candidates@.take(i as int)).push(c.text@));
        i += 1;
    }
    assert(candidates@.take(i as int) =~= candidates@);
    out
}

/// The candidate list of a reading as typed: the reading itself.
fn reading_only_list(reading: &str) -> (l: CandidateList)
    ensures
        l.wf(),
        l.selected_view() == Some(reading@),
        texts(l.items()) == seq![reading@],
{
    let mut v: Vec<Candidate> = Vec::new();
    v.push(Candidate::with_reading(reading, reading));
    let l = CandidateList::new(v);
    assert(texts(l.items()) =~= seq![reading@]);
    l
}

/// Whether the surfaces of a session fit in memory (they always do: they
/// are computed here).
/// The text that the digit key `digit` picks in the active segment of
/// `session` (its candidates rebuilt for `e` first when its boundary
/// moved): the candidate in that slot of the current page, `None` when the
/// slot is empty.
pub open spec fn digit_pick(e: InputMethodEngine, session: ConversionSession, digit: int) -> Option<Seq<char>> {
    let seg = session.segments@[session.active_segment as int];
    let ts = if seg.candidates_dirty {
        engine_conversion_texts(e, seg.reading@, e.config.num_candidates, false)
    } else {
        texts(seg.candidates.items())
    };
    let start = if seg.candidates_dirty { 0 } else { seg.candidates.page_start() as int };
    let len = if seg.candidates_dirty { CandidateList::DEFAULT_PAGE_SIZE as int } else { seg.candidates.page_len() as int };
    let index = start + digit - 1;
    if 1 <= digit <= len && index < ts.len() { Some(ts[index]) } else { None }
}

/// Whether `r` commits `t`: clearing the preedit, hiding the candidates
/// and the auxiliary text, then committing; nothing when `t` is empty.
pub open spec fn committed_display(r: EngineResult, t: Seq<char>) -> bool {
    &&& t.len() == 0 ==> r.actions@.len() == 0
    &&& t.len() > 0 ==> {
        &&& r.actions@.len() == 4
        &&& r.actions@[0] matches EngineAction::UpdatePreedit(p) && p.text_view().len() == 0
        &&& r.actions@[1] is HideCandidates
        &&& r.actions@[2] is HideAuxText
        &&& r.actions@[3] matches EngineAction::Commit(c) && c@ == t
    }
}

/// Whether `r` commits `t`: clearing the preedit, hiding the candidates
/// and the auxiliary text, then committing it (even when empty).
pub open spec fn commits(r: EngineResult, t: Seq<char>) -> bool {
    &&& r.actions@.len() == 4
    &&& r.actions@[0] matches EngineAction::UpdatePreedit(p) && p.text_view().len() == 0
    &&& r.actions@[1] is HideCandidates
    &&& r.actions@[2] is HideAuxText
    &&& r.actions@[3] matches EngineAction::Commit(c) && c@ == t
}

/// The surfaces of `segs` joined, with the one at `a` replaced by `t`.
pub open spec fn surfaces_with(segs: Seq<ConversionSegment>, a: int, t: Seq<char>) -> Seq<char> {
    surfaces_text(segs.take(a)) + t + surfaces_text(segs.skip(a + 1))
}

proof fn lemma_surfaces_concat(p: Seq<ConversionSegment>, q: Seq<ConversionSegment>)
    ensures
        surfaces_text(p + q) == surfaces_text(p) + surfaces_text(q),
    decreases q.len(),
{
    if q.len() == 0 {
        assert(p + q =~= p);
    } else {
        lemma_surfaces_concat(p, q.drop_last());
        assert((p + q).drop_last() =~= p + q.drop_last());
    }
}

/// The joined surfaces split around the segment at `a`.
proof fn lemma_surfaces_split(s: Seq<ConversionSegment>, a: int)
    requires
        0 <= a < s.len(),
    ensures
        surfaces_text(s) == surfaces_with(s, a, s[a].surface()),
{
    lemma_surfaces_concat(s.take(a + 1), s.skip(a + 1));
    assert(s.take(a + 1) + s.skip(a + 1) =~= s);
    assert(s.take(a + 1).drop_last() =~= s.take(a));
    assert(s.take(a + 1).last() == s[a]);
}

fn surfaces_fit(session: &ConversionSession)
    ensures
        surfaces_text(session.segments@).len() <= usize::MAX,
{
    let t = session.selected_text();
    let v = chars_of(t.as_str());
    let n = v.len();
    assert(surfaces_text(session.segments@).len() == n);
}

proof fn lemma_lattice_picks_len(paths: Seq<crate::lattice::PathView>)
    ensures
        lattice_picks(paths).len() <= paths.len(),
    decreases paths.len(),
{
    if paths.len() > 0 {
        lemma_lattice_picks_len(paths.drop_last());
    }
}

impl InputMethodEngine {
    /// The options of `span` before ranking (see [`raw_span_options`]).
    fn span_option_list(&self, span: &str) -> (out: Vec<RankedText>)
        ensures
            out@.map_values(|r: RankedText| ranked_view(r)) == raw_span_options(self.dicts, span@),
            forall|j: int| 0 <= j < out@.len() ==> #[trigger] out@[j].cost <= 0xFFFF_FFFF,
    {
        let dict = self.dictionary_lattice_candidates(span, MAX_SEGMENT_CANDIDATES);
        let ghost paths = engine_lattice_paths(self.dicts, span@, MAX_SEGMENT_CANDIDATES);
        let ghost dt = pick_texts(lattice_picks(paths));
        proof {
            lemma_lattice_sorted(engine_layers(self.dicts), span@, engine_limits(MAX_SEGMENT_CANDIDATES));
            lemma_lattice_picks_len(paths);
            assert forall|k: int| 0 <= k < dict@.len() implies #[trigger] dict@[k].text@ == dt[k] by {
                assert(picks_of(dict@)[k] == (dict@[k].text@, opt_view(dict@[k].description)));
            }
        }
        assert(dict@.len() <= 5);
        let mut out: Vec<RankedText> = Vec::new();
        let mut k: usize = 0;
        while k < dict.len()
            invariant
                k <= dict@.len(),
                dict@.len() <= 5,
                dt.len() == dict@.len(),
                forall|j: int| 0 <= j < dict@.len() ==> #[trigger] dict@[j].text@ == dt[j],
                out@.map_values(|r: RankedText| ranked_view(r)) == dictionary_options(dt).take(k as int),
                forall|j: int| 0 <= j < out@.len() ==> #[trigger] out@[j].cost <= 0xFFFF_FFFF,
            decreases dict@.len() - k,
        {
            let ghost before = out@.map_values(|r: RankedText| ranked_view(r));
            let cost: u64 = 8 * (k as u64) + 3;
            let text = copy_str(dict[k].text.as_str());
            assert(text@ == dt[k as int]);
            out.push(RankedText { text, cost });
            assert(dictionary_options(dt)[k as int] == (dt[k as int], 8 * k + 3));
            assert(out@.map_values(|r: RankedText| ranked_view(r)) =~= before.push((dt[k as int], 8 * k + 3)));
            assert(dictionary_options(dt).take(k + 1) =~= dictionary_options(dt).take(k as int).push(dictionary_options(dt)[k as int]));
            k += 1;
        }
        assert(dictionary_options(dt).take(k as int) =~= dictionary_options(dt));
        let ghost base = out@.map_values(|r: RankedText| ranked_view(r));
        out.push(RankedText { text: copy_str(span), cost: 32 });
        let kata = hiragana_to_katakana(span);
        assert(kata@ =~= katakana_seq(span@));
        if !str_eq(kata.as_str(), span) {
            out.push(RankedText { text: kata, cost: 34 });
            assert(out@.map_values(|r: RankedText| ranked_view(r)) =~= base + seq![(span@, 32int)] + seq![(katakana_seq(span@), 34int)]);
        } else {
            assert(out@.map_values(|r: RankedText| ranked_view(r)) =~= base + seq![(span@, 32int)] + Seq::<(Seq<char>, int)>::empty());
        }
        out
    }

    /// The combined candidates of a long reading (see [`hybrid_texts`]).
    fn build_hybrid_texts(&self, reading: &str) -> (out: Vec<String>)
        ensures
            crate::text_scan::texts_of(out@) == hybrid_texts(self.dicts, self.config.composing_chunk_len, reading@),
    {
        if !contains_kana(reading) {
            let none: Vec<String> = Vec::new();
            assert(crate::text_scan::texts_of(none@) =~= Seq::<Seq<char>>::empty());
            return none;
        }
        let paths = self.dictionary_lattice_paths(reading, 1);
        let mut bounds: Vec<usize> = Vec::new();
        if paths.len() > 0 {
            let ghost sv = crate::lattice::path_views(paths@)[0].2;
            assert(sv == crate::lattice::segment_views(paths@[0].segments@));
            let segs = &paths[0].segments;
            let mut j: usize = 0;
            while j < segs.len()
                invariant
                    j <= segs@.len(),
                    sv == crate::lattice::segment_views(segs@),
                    bounds@ == sv.take(j as int).map_values(|g: SegmentView| g.1 as usize),
                decreases segs@.len() - j,
            {
                bounds.push(segs[j].char_end);
                assert(sv[j as int].1 == segs@[j as int].char_end as int);
                assert(bounds@ =~= sv.take(j + 1).map_values(|g: SegmentView| g.1 as usize));
                j += 1;
            }
            assert(sv.take(j as int) =~= sv);
        } else {
            assert(bounds@ =~= Seq::<usize>::empty());
        }
        assert(bounds@ == hybrid_boundaries(self.dicts, reading@));
        let spans = split_conversion_reading(reading, self.config.composing_chunk_len, bounds.as_slice());
        let ghost sp = spans@.map_values(|s: crate::long_conversion::ConversionSpan| span_view(s));
        assert(sp == hybrid_spans(self.dicts, self.config.composing_chunk_len, reading@));
        if spans.len() <= 1 || spans.len() > 0xFFFF_FFFF {
            let none: Vec<String> = Vec::new();
            assert(crate::text_scan::texts_of(none@) =~= Seq::<Seq<char>>::empty());
            return none;
        }
        let ghost choices_spec = span_choices(self.dicts, sp);
        let mut choices: Vec<Vec<RankedText>> = Vec::new();
        let mut k: usize = 0;
        while k < spans.len()
            invariant
                k <= spans@.len(),
                spans@.len() <= 0xFFFF_FFFF,
                sp == spans@.map_values(|s: crate::long_conversion::ConversionSpan| span_view(s)),
                choices_spec == span_choices(self.dicts, sp),
                choices@.map_values(|v: Vec<RankedText>| v@.map_values(|r: RankedText| ranked_view(r))) == choices_spec.take(k as int),
                forall|i: int, j: int| 0 <= i < choices@.len() && 0 <= j < choices@[i]@.len() ==> #[trigger] choices@[i]@[j].cost
                    <= 0xFFFF_FFFF,
            decreases spans@.len() - k,
        {
            let ghost before = choices@;
            let ghost bv = choices@.map_values(|v: Vec<RankedText>| v@.map_values(|r: RankedText| ranked_view(r)));
            let span = &spans[k];
            assert(sp[k as int] == (span.text@, span.passthrough));
            assert(choices_spec[k as int] == (if span.passthrough {
                seq![(span.text@, 0int)]
            } else {
                take_at_most(dedup_texts(sort_by_cost(raw_span_options(self.dicts, span.text@))), MAX_SEGMENT_CANDIDATES as nat)
            }));
            if span.passthrough {
                let mut v: Vec<RankedText> = Vec::new();
                v.push(RankedText { text: copy_str(span.text.as_str()), cost: 0 });
                assert(v@.map_values(|r: RankedText| ranked_view(r)) =~= choices_spec[k as int]);
                choices.push(v);
            } else {
                let raw = self.span_option_list(span.text.as_str());
                let ranked = rank_options(&raw, MAX_SEGMENT_CANDIDATES);
                assert(ranked@.map_values(|r: RankedText| ranked_view(r)) == choices_spec[k as int]);
                choices.push(ranked);
            }
            assert(choices@.map_values(|v: Vec<RankedText>| v@.map_values(|r: RankedText| ranked_view(r)))
                =~= bv.push(choices_spec[k as int]));
            assert(choices_spec.take(k + 1) =~= choices_spec.take(k as int).push(choices_spec[k as int]));
            assert forall|i: int, j: int| 0 <= i < choices@.len() && 0 <= j < choices@[i]@.len() implies #[trigger] choices@[i]@[j].cost
                <= 0xFFFF_FFFF by {
                if i < k {
                    assert(choices@[i] == before[i]);
                }
            }
            k += 1;
        }
        assert(choices_spec.take(k as int) =~= choices_spec);
        let combined = combine_segment_options(&choices, MAX_SEARCH_STATES, MAX_FINAL_CANDIDATES);
        let ghost cv = combined@.map_values(|r: RankedText| ranked_view(r));
        let mut out: Vec<String> = Vec::new();
        let mut i: usize = 0;
        while i < combined.len()
            invariant
                i <= combined@.len(),
                cv == combined@.map_values(|r: RankedText| ranked_view(r)),
                crate::text_scan::texts_of(out@) == cv.take(i as int).map_values(|x: (Seq<char>, int)| x.0),
            decreases combined@.len() - i,
        {
            let ghost before = crate::text_scan::texts_of(out@);
            let t = copy_str(combined[i].text.as_str());
            assert(t@ == cv[i as int].0);
            out.push(t);
            assert(crate::text_scan::texts_of(out@) =~= before.push(cv[i as int].0));
            assert(cv.take(i + 1) =~= cv.take(i as int).push(cv[i as int]));
            assert(crate::text_scan::texts_of(out@) =~= cv.take(i + 1).map_values(|x: (Seq<char>, int)| x.0));
            i += 1;
        }
        assert(cv.take(i as int) =~= cv);
        out
    }
}

impl InputMethodEngine {
    /// Candidates for the explicit conversion of `reading`: the learned ones
    /// (unless `skip_learning`), the user dictionary's, the dictionary
    /// lattice's taken in turn with the combined span candidates of a long
    /// reading, the system dictionary's, then the hiragana reading and its
    /// katakana, each text once. Pure-kana candidates without a description
    /// are described by their width and script.
    pub fn build_conversion_candidates(&self, reading: &str, num_candidates: usize, skip_learning: bool) -> (out: Vec<ConversionCandidate>)
        ensures
            ctexts(out@) == engine_conversion_texts(*self, reading@, num_candidates, skip_learning),
    {
        let none: Vec<String> = Vec::new();
        assert(texts_of(none@) =~= Seq::<Seq<char>>::empty());
        self.build_conversion_candidates_with_model(reading, num_candidates, skip_learning, &none)
    }

    /// As [`InputMethodEngine::build_conversion_candidates`], with the
    /// model's beam `model` (best first) among the generated candidates.
    pub fn build_conversion_candidates_with_model(
        &self,
        reading: &str,
        num_candidates: usize,
        skip_learning: bool,
        model: &Vec<String>,
    ) -> (out: Vec<ConversionCandidate>)
        ensures
            ctexts(out@) == engine_conversion_texts_with(*self, reading@, num_candidates, skip_learning, texts_of(model@)),
    {
        let mut builder: Vec<ConversionCandidate> = Vec::new();
        let ghost lt = learned_conversion_texts(*self, reading@, skip_learning);
        if !skip_learning {
            let learned = self.lookup_learning_candidates(reading);
            assert(texts(learned@) =~= lt);
            let mut i: usize = 0;
            while i < learned.len()
                invariant
                    i <= learned@.len(),
                    ctexts(builder@) == texts(learned@.take(i as int)),
                decreases learned@.len() - i,
            {
                let c = &learned[i];
                let own_reading = match &c.reading {
                    Some(r) => if str_eq(r.as_str(), reading) { None } else { Some(copy_str(r.as_str())) },
                    None => None,
                };
                let ghost before = builder@;
                builder.push(ConversionCandidate {
                    text: copy_str(c.text.as_str()),
                    source: CandidateSource::Learning,
                    reading: own_reading,
                    description: None,
                });
                assert(ctexts(builder@) =~= ctexts(before).push(c.text@));
                assert(texts(learned@.take(i + 1)) =~= texts(learned@.take(i as int)).push(c.text@));
                i += 1;
            }
            assert(learned@.take(i as int) =~= learned@);
        } else {
            assert(ctexts(builder@) =~= lt);
        }
        assert(ctexts(builder@) == lt);

        // Dictionary results: the user dictionary's come right after the
        // learned ones, the system dictionary's after the generated ones.
        let results = self.search_dictionaries(reading, usize::MAX);
        let ghost d = pick_texts(dictionary_picks(self.dicts, reading@, usize::MAX as int));
        let ghost u = user_picks(self.dicts, reading@, usize::MAX as int).len() as int;
        assert(d.len() == results@.len());
        proof {
            crate::engine_dictionaries::lemma_take_new_grows(
                user_picks(self.dicts, reading@, usize::MAX as int),
                crate::engine_dictionaries::by_score(crate::engine_dictionaries::found(self.dicts.system, reading@)),
                usize::MAX as int,
            );
        }
        assert(forall|k: int| 0 <= k < results@.len() ==> #[trigger] d[k] == results@[k].text@) by {
            assert forall|k: int| 0 <= k < results@.len() implies #[trigger] d[k] == results@[k].text@ by {
                assert(picks_of(results@)[k] == (results@[k].text@, opt_view(results@[k].description)));
            }
        }
        let mut i: usize = 0;
        while i < results.len()
            invariant
                i <= results@.len(),
                d.len() == results@.len(),
                forall|k: int| 0 <= k < results@.len() ==> #[trigger] d[k] == results@[k].text@,
                forall|k: int| 0 <= k < results@.len() ==> (#[trigger] results@[k]).source == (if k < u {
                    CandidateSource::UserDictionary
                } else {
                    CandidateSource::Dictionary
                }),
                0 <= u <= d.len(),
                ctexts(builder@) == append_dedup_texts(lt, d.take(if i < u { i as int } else { u })),
            decreases results@.len() - i,
        {
            if results[i].source == CandidateSource::UserDictionary {
                assert(i < u);
                assert(d.take(i + 1).drop_last() =~= d.take(i as int));
                push_dedup(&mut builder, &results[i]);
            }
            i += 1;
        }
        let ghost a = append_dedup_texts(lt, d.take(u));
        assert(ctexts(builder@) == a);

        let lattice = self.dictionary_lattice_candidates(reading, MAX_FINAL_CANDIDATES);
        let ghost lat = pick_texts(lattice_picks(engine_lattice_paths(self.dicts, reading@, MAX_FINAL_CANDIDATES)));
        assert(ctexts(lattice@) =~= lat) by {
            assert forall|k: int| 0 <= k < lattice@.len() implies #[trigger] ctexts(lattice@)[k] == lat[k] by {
                assert(picks_of(lattice@)[k] == (lattice@[k].text@, opt_view(lattice@[k].description)));
            }
        }
        let hybrid = self.build_hybrid_texts(reading);
        let ghost hyb = texts_of(hybrid@);
        let ghost mt = texts_of(model@);
        let n1 = if model.len() < lattice.len() { lattice.len() } else { model.len() };
        let n = if n1 < hybrid.len() { hybrid.len() } else { n1 };
        assert(n == longest(mt.len(), lat.len(), hyb.len()));
        let mut generated: Vec<ConversionCandidate> = Vec::new();
        let mut g: usize = 0;
        while g < n
            invariant
                g <= n,
                n == longest(mt.len(), lat.len(), hyb.len()),
                ctexts(lattice@) == lat,
                hyb == texts_of(hybrid@),
                mt == texts_of(model@),
                ctexts(generated@) == append_dedup_texts(Seq::empty(), interleaved_upto(mt, lat, hyb, g as nat)),
            decreases n - g,
        {
            let ghost before = interleaved_upto(mt, lat, hyb, g as nat);
            let ghost m1 = if g < model.len() { before.push(mt[g as int]) } else { before };
            if g < model.len() {
                let c = ConversionCandidate::new(copy_str(model[g].as_str()), CandidateSource::Model);
                assert(c.text@ == mt[g as int]);
                push_dedup(&mut generated, &c);
                assert(m1.drop_last() =~= before);
            }
            assert(ctexts(generated@) == append_dedup_texts(Seq::empty(), m1));
            let ghost m2 = if g < lattice.len() { m1.push(lat[g as int]) } else { m1 };
            if g < lattice.len() {
                push_dedup(&mut generated, &lattice[g]);
                assert(m2.drop_last() =~= m1);
            }
            assert(ctexts(generated@) == append_dedup_texts(Seq::empty(), m2));
            let ghost m3 = if g < hybrid.len() { m2.push(hyb[g as int]) } else { m2 };
            if g < hybrid.len() {
                let c = ConversionCandidate::new(copy_str(hybrid[g].as_str()), CandidateSource::Hybrid);
                assert(c.text@ == hyb[g as int]);
                push_dedup(&mut generated, &c);
                assert(m3.drop_last() =~= m2);
            }
            assert(ctexts(generated@) == append_dedup_texts(Seq::empty(), m3));
            assert(interleaved_upto(mt, lat, hyb, (g + 1) as nat) =~= m3);
            g += 1;
        }
        let limit = if num_candidates < MAX_FINAL_CANDIDATES { num_candidates } else { MAX_FINAL_CANDIDATES };
        generated.truncate(limit);
        let ghost gen = generated_texts_with(*self, reading@, num_candidates, texts_of(model@));
        assert(ctexts(generated@) =~= gen);
        if generated.len() == 0 {
            if builder.len() == 0 {
                builder.push(ConversionCandidate::new(copy_str(reading), CandidateSource::Fallback));
                assert(ctexts(builder@) =~= seq![reading@]);
            }
        } else {
            let mut k: usize = 0;
            while k < generated.len()
                invariant
                    k <= generated@.len(),
                    ctexts(generated@) == gen,
                    ctexts(builder@) == append_dedup_texts(a, gen.take(k as int)),
                decreases generated@.len() - k,
            {
                assert(gen.take(k + 1).drop_last() =~= gen.take(k as int));
                push_dedup(&mut builder, &generated[k]);
                k += 1;
            }
            assert(gen.take(k as int) =~= gen);
        }
        let ghost b = ctexts(builder@);
        assert(d.subrange(u, u) =~= Seq::<Seq<char>>::empty());
        let mut j: usize = 0;
        while j < results.len()
            invariant
                j <= results@.len(),
                0 <= u <= d.len(),
                d.len() == results@.len(),
                forall|k: int| 0 <= k < results@.len() ==> #[trigger] d[k] == results@[k].text@,
                forall|k: int| 0 <= k < results@.len() ==> (#[trigger] results@[k]).source == (if k < u {
                    CandidateSource::UserDictionary
                } else {
                    CandidateSource::Dictionary
                }),
                ctexts(builder@) == append_dedup_texts(b, d.subrange(u, if (j as int) < u { u } else { j as int })),
            decreases results@.len() - j,
        {
            if results[j].source == CandidateSource::Dictionary {
                assert(j >= u);
                assert(d.subrange(u, j + 1).drop_last() =~= d.subrange(u, j as int));
                assert(d.subrange(u, j + 1).last() == d[j as int]);
                push_dedup(&mut builder, &results[j]);
            }
            j += 1;
        }
        assert(d.subrange(u, j as int) =~= d.skip(u));
        assert(ctexts(builder@) == append_dedup_texts(b, d.skip(u)));
        let katakana = hiragana_to_katakana(reading);
        push_fallback(&mut builder, reading);
        push_fallback(&mut builder, katakana.as_str());
        let ghost final_texts = ctexts(builder@);
        let mut k: usize = 0;
        while k < builder.len()
            invariant
                k <= builder@.len(),
                ctexts(builder@) == final_texts,
            decreases builder@.len() - k,
        {
            if builder[k].description.is_none() {
                let d = width_annotation(builder[k].text.as_str());
                if d.is_some() {
                    let mut c = builder.remove(k);
                    c.description = d;
                    builder.insert(k, c);
                    assert(ctexts(builder@) =~= final_texts);
                }
            }
            k += 1;
        }
        builder
    }

    /// A conversion session over `reading`: a single segment holding
    /// `candidates`, a single typed hiragana first, and a learned correction
    /// whose recorded context matches the editor's ahead of everything,
    /// marked `文節修正`.
    #[verifier::rlimit(40)]
    #[verifier::spinoff_prover]
    pub fn build_initial_conversion_session(&self, reading: &str, candidates: CandidateList) -> (session: ConversionSession)
        requires
            reading@.len() > 0,
            candidates.wf(),
        ensures
            session_wf(session),
            session.reading@ == reading@,
            session.segments@.len() == 1,
            session.active_segment == 0,
            session.whole_phase(),
            texts(session.segments@[0].candidates.items()) == initial_session_texts(*self, reading@, texts(candidates.items())),
            session.segments@[0].candidates.selection() == 0,
    {
        let mut items = crate::candidate::copy_candidates(candidates.candidates());
        prioritize_single_hiragana_candidate(self.input_mode, reading, &mut items);
        let ghost t1 = texts(items@);
        if let Some(cache) = &self.segment_learning {
            let left = self.left_context_char();
            let right = self.right_context_char();
            let left_ref: Option<&str> = match &left { Some(s) => Some(s.as_str()), None => None };
            let right_ref: Option<&str> = match &right { Some(s) => Some(s.as_str()), None => None };
            assert(crate::segment_learning::opt_str_view(left_ref) == self.left_hint_view());
            assert(crate::segment_learning::opt_str_view(right_ref) == self.right_hint_view());
            let learned = cache.lookup(reading, left_ref, right_ref);
            proof {
                if learned@.len() > 0 {
                    assert(learned@.map_values(|p: (LearnedSegment, u32)| p.0)[0] == learned@[0].0);
                }
            }
            if learned.len() > 0 && learned[0].1 > 0 {
                let surface = copy_str(learned[0].0.surface.as_str());
                let mut marked = Candidate::with_reading(surface.as_str(), reading);
                marked.description = Some(copy_str("文節修正"));
                proof {
                    lemma_promoted_texts(items@, surface@, marked);
                }
                promote_composing_candidate(&mut items, surface.as_str(), marked);
                let ghost t2 = texts(items@);
                let mut first = items.remove(0);
                first.description = Some(copy_str("文節修正"));
                items.insert(0, first);
                assert(texts(items@) =~= t2);
            }
        }
        assert(texts(items@) == initial_session_texts(*self, reading@, texts(candidates.items())));
        let list = CandidateList::new(items);
        let session = ConversionSession::single(copy_str(reading), list);
        proof {
            assert(session.segments@[0].candidates.wf());
        }
        session
    }

    /// Enters conversion with `session`.
    fn enter_conversion_state(&mut self, reading: &str, session: ConversionSession) -> (r: EngineResult)
        requires
            old(self).wf(),
            session_wf(session),
        ensures
            final(self).wf(),
            r.consumed,
            final(self).state == (InputState::Conversion { session }),
            final(self).input_buf == old(self).input_buf,
            final(self).romaji == old(self).romaji,
            final(self).live == old(self).live,
            final(self).composing_candidates == old(self).composing_candidates,
    {
        let preedit = session.preedit().duplicate();
        let shown = session.segments[session.active_segment].candidates.duplicate();
        let aux = self.format_aux_conversion_with_page(reading, None);
        self.state = InputState::Conversion { session };
        EngineResult::consumed()
            .with_action(EngineAction::UpdatePreedit(preedit))
            .with_action(EngineAction::ShowCandidates(shown))
            .with_action(EngineAction::UpdateAuxText(aux))
    }

    /// Space while composing: converts the reading (pending romaji ends
    /// first). When a live conversion is showing the first suggestion, the
    /// suggestions are reused and selection starts at the second;
    /// otherwise the candidates are built afresh, with the live text that
    /// was shown kept at the top.
    pub fn start_conversion(&mut self, skip_learning: bool) -> (r: EngineResult)
        requires
            old(self).wf(),
            !(old(self).state is Conversion),
        ensures
            final(self).wf(),
            r.consumed,
            old(self).input_buf.text@.len() + flushed(old(self).romaji.buffer_view()).len() <= usize::MAX
                ==> final(self).input_buf.text@ == old(self).flushed_reading(),
            final(self).romaji.buffer_view().len() == 0,
            final(self).composing_candidates is None,
            final(self).state is Conversion <==> final(self).input_buf.text@.len() > 0,
            final(self).state is Conversion ==> final(self).state->session.reading@ == final(self).input_buf.text@
                && final(self).live.text@.len() == 0,
            final(self).input_buf.text@.len() == 0 ==> r.actions@.len() == 0,
            // The candidates: the suggestions again when they are reused,
            // with selection moved on by one; otherwise built afresh with the
            // live text that was shown kept at the top, selection on the
            // second when that live text heads the list.
            final(self).state matches InputState::Conversion { session } ==> ({
                let reading = final(self).input_buf.text@;
                let list = session.segments@[0].candidates;
                let shown = old(self).live.text@;
                let ts = fresh_conversion_texts(*old(self), reading, shown, skip_learning);
                if reuses_suggestions(*old(self)) {
                    old(self).composing_candidates matches Some(l) && list.items() == l.items()
                        && list.selection() == (if l.selection() + 1 < l.items().len() { (l.selection() + 1) as int } else { l.selection() as int })
                } else if shown.len() > 0 && shown != reading && ts.len() > 0 && ts[0] == shown {
                    &&& texts(list.items()) == ts
                    &&& list.selection() == (if 1 < ts.len() { 1int } else { 0int })
                } else {
                    &&& texts(list.items()) == initial_session_texts(*old(self), reading, ts)
                    &&& list.selection() == 0
                }
            }),
    {
        self.flush_romaji_to_composed();
        let reading = copy_str(self.input_buf.text.as_str());
        if reading.as_str().is_empty() {
            self.clear_composing_candidates();
            return EngineResult::consumed();
        }
        let reuse = !self.live.text.as_str().is_empty() && self.composing_candidates_model_ready
            && match &self.composing_candidates {
                Some(l) => match l.candidates().len() > 0 {
                    true => str_eq(l.candidates()[0].text.as_str(), self.live.text.as_str()),
                    false => false,
                },
                None => false,
            };
        assert(reuse == reuses_suggestions(*old(self)));
        if reuse {
            let mut list = match &self.composing_candidates {
                Some(l) => l.duplicate(),
                None => CandidateList::new(Vec::new()),
            };
            list.move_next();
            self.clear_composing_candidates();
            self.live.clear();
            self.romaji.reset();
            let session = ConversionSession::single(copy_str(reading.as_str()), list);
            return self.enter_conversion_state(reading.as_str(), session);
        }
        self.clear_composing_candidates();
        let prev_suggest = copy_str(self.live.text.as_str());
        self.live.clear();
        self.romaji.reset();
        let mut candidates = self.build_conversion_candidates(reading.as_str(), self.config.num_candidates, skip_learning);
        assert(engine_conversion_texts(*self, reading@, self.config.num_candidates, skip_learning)
            == engine_conversion_texts(*old(self), reading@, old(self).config.num_candidates, skip_learning));
        if !prev_suggest.as_str().is_empty() && !str_eq(prev_suggest.as_str(), reading.as_str())
            && !contains_ctext(&candidates, prev_suggest.as_str()) {
            let ghost before = candidates@;
            candidates.insert(0, ConversionCandidate::new(copy_str(prev_suggest.as_str()), CandidateSource::Model));
            assert(ctexts(candidates@) =~= seq![prev_suggest@] + ctexts(before));
        }
        assert(ctexts(candidates@) == fresh_conversion_texts(*old(self), reading@, old(self).live.text@, skip_learning));
        let mut list = CandidateList::new(to_ui_candidates(&candidates, reading.as_str()));
        let live_first = !prev_suggest.as_str().is_empty() && !str_eq(prev_suggest.as_str(), reading.as_str())
            && list.candidates().len() > 0 && str_eq(list.candidates()[0].text.as_str(), prev_suggest.as_str());
        if live_first {
            // The live text was already visible: selection starts at the
            // second candidate.
            list.move_next();
            let session = ConversionSession::single(copy_str(reading.as_str()), list);
            return self.enter_conversion_state(reading.as_str(), session);
        }
        let session = self.build_initial_conversion_session(reading.as_str(), list);
        assert(initial_session_texts(*self, reading@, texts(list.items()))
            == initial_session_texts(*old(self), reading@, texts(list.items())));
        self.enter_conversion_state(reading.as_str(), session)
    }

    /// The candidate list of a segment reading as explicit conversion
    /// builds it.
    fn segment_candidates(&self, reading: &str) -> (l: CandidateList)
        ensures
            l.wf(),
            l.items().len() > 0,
            texts(l.items()) == engine_conversion_texts(*self, reading@, self.config.num_candidates, false),
            l.selection() == 0,
            l.page_len() == CandidateList::DEFAULT_PAGE_SIZE,
    {
        let built = self.build_conversion_candidates(reading, self.config.num_candidates, false);
        let ui = to_ui_candidates(&built, reading);
        proof {
            let l = learned_conversion_texts(*self, reading@, false);
            let d = pick_texts(dictionary_picks(self.dicts, reading@, usize::MAX as int));
            let u = user_picks(self.dicts, reading@, usize::MAX as int).len() as int;
            let a = append_dedup_texts(l, d.take(u));
            let g = generated_texts(*self, reading@, self.config.num_candidates);
            let b = if g.len() == 0 {
                if a.len() == 0 { seq![reading@] } else { a }
            } else {
                append_dedup_texts(a, g)
            };
            let x = push_new(append_dedup_texts(b, d.skip(u)), reading@);
            lemma_push_new_holds(x, katakana_seq(reading@));
            assert(ctexts(built@) == push_new(x, katakana_seq(reading@)));
            assert(texts(ui@).len() == ui@.len());
        }
        CandidateList::new(ui)
    }
}

// ---------------------------------------------------------------------------
// Segment boundaries
// ---------------------------------------------------------------------------

/// Moving the end of segment `a` one character left, into the next
/// segment, keeps the segments covering the reading.
#[verifier::spinoff_prover]
#[verifier::rlimit(40)]
pub proof fn lemma_shrink_into_next(reading: Seq<char>, s: Seq<ConversionSegment>, a: int, x: ConversionSegment, y: ConversionSegment)
    requires
        ranges_valid(reading, s),
        0 <= a < s.len() - 1,
        s[a].reading_range.end - s[a].reading_range.start >= 2,
        x.reading_range.start == s[a].reading_range.start,
        x.reading_range.end == s[a].reading_range.end - 1,
        x.reading@ == reading.subrange(x.reading_range.start as int, x.reading_range.end as int),
        y.reading_range.start == s[a].reading_range.end - 1,
        y.reading_range.end == s[a + 1].reading_range.end,
        y.reading@ == reading.subrange(y.reading_range.start as int, y.reading_range.end as int),
    ensures
        ranges_valid(reading, s.update(a, x).update(a + 1, y)),
{
    let t = s.update(a, x).update(a + 1, y);
    assert(s[a + 1].reading_range.start == s[a].reading_range.end);
    assert forall|i: int| 0 <= i < t.len() - 1 implies (#[trigger] t[i]).reading_range.end == t[i + 1].reading_range.start by {
        if i != a - 1 && i != a && i != a + 1 {
            assert(t[i] == s[i] && t[i + 1] == s[i + 1]);
        } else if i == a - 1 {
            assert(s[a - 1].reading_range.end == s[a].reading_range.start);
        } else if i == a + 1 {
            assert(s[a + 1].reading_range.end == s[a + 2].reading_range.start);
        }
    }
    assert forall|i: int| 0 <= i < t.len() implies {
        let r = (#[trigger] t[i]).reading_range;
        &&& r.start < r.end
        &&& r.end <= reading.len()
        &&& t[i].reading@ == reading.subrange(r.start as int, r.end as int)
    } by {
        if i != a && i != a + 1 {
            assert(t[i] == s[i]);
        } else {
            let _ = s[a];
            let _ = s[a + 1];
        }
    }
    if a == 0 {
        assert(t[0].reading_range.start == 0) by {
            let _ = s[0];
        }
    }
    if a + 1 == s.len() - 1 {
        assert(t.last() == y);
    } else {
        assert(t.last() == s.last());
    }
}

/// Splitting the last character off the last segment into a new segment
/// keeps the segments covering the reading.
#[verifier::spinoff_prover]
#[verifier::rlimit(40)]
pub proof fn lemma_shrink_last(reading: Seq<char>, s: Seq<ConversionSegment>, x: ConversionSegment, y: ConversionSegment)
    requires
        ranges_valid(reading, s),
        s.last().reading_range.end - s.last().reading_range.start >= 2,
        x.reading_range.start == s.last().reading_range.start,
        x.reading_range.end == s.last().reading_range.end - 1,
        x.reading@ == reading.subrange(x.reading_range.start as int, x.reading_range.end as int),
        y.reading_range.start == s.last().reading_range.end - 1,
        y.reading_range.end == s.last().reading_range.end,
        y.reading@ == reading.subrange(y.reading_range.start as int, y.reading_range.end as int),
    ensures
        ranges_valid(reading, s.update(s.len() - 1, x).push(y)),
{
    let a = s.len() - 1;
    let t = s.update(a, x).push(y);
    let _ = s[a];
    assert forall|i: int| 0 <= i < t.len() - 1 implies (#[trigger] t[i]).reading_range.end == t[i + 1].reading_range.start by {
        if i < a - 1 {
            assert(t[i] == s[i] && t[i + 1] == s[i + 1]);
        } else if i == a - 1 {
            assert(t[i] == s[i]);
            assert(s[a - 1].reading_range.end == s[a].reading_range.start);
        }
    }
    assert forall|i: int| 0 <= i < t.len() implies {
        let r = (#[trigger] t[i]).reading_range;
        &&& r.start < r.end
        &&& r.end <= reading.len()
        &&& t[i].reading@ == reading.subrange(r.start as int, r.end as int)
    } by {
        if i < a {
            assert(t[i] == s[i]);
        }
    }
    if a == 0 {
        assert(t[0] == x);
    } else {
        assert(t[0] == s[0]);
    }
}

/// Moving the end of segment `a` one character right, out of a next
/// segment longer than one character, keeps the segments covering the
/// reading.
#[verifier::spinoff_prover]
#[verifier::rlimit(40)]
pub proof fn lemma_grow_into_next(reading: Seq<char>, s: Seq<ConversionSegment>, a: int, x: ConversionSegment, y: ConversionSegment)
    requires
        ranges_valid(reading, s),
        0 <= a < s.len() - 1,
        s[a + 1].reading_range.end - s[a + 1].reading_range.start >= 2,
        x.reading_range.start == s[a].reading_range.start,
        x.reading_range.end == s[a].reading_range.end + 1,
        x.reading@ == reading.subrange(x.reading_range.start as int, x.reading_range.end as int),
        y.reading_range.start == s[a + 1].reading_range.start + 1,
        y.reading_range.end == s[a + 1].reading_range.end,
        y.reading@ == reading.subrange(y.reading_range.start as int, y.reading_range.end as int),
    ensures
        ranges_valid(reading, s.update(a, x).update(a + 1, y)),
{
    let t = s.update(a, x).update(a + 1, y);
    assert(s[a + 1].reading_range.start == s[a].reading_range.end);
    assert forall|i: int| 0 <= i < t.len() - 1 implies (#[trigger] t[i]).reading_range.end == t[i + 1].reading_range.start by {
        if i != a - 1 && i != a && i != a + 1 {
            assert(t[i] == s[i] && t[i + 1] == s[i + 1]);
        } else if i == a - 1 {
            assert(s[a - 1].reading_range.end == s[a].reading_range.start);
        } else if i == a + 1 {
            assert(s[a + 1].reading_range.end == s[a + 2].reading_range.start);
        }
    }
    assert forall|i: int| 0 <= i < t.len() implies {
        let r = (#[trigger] t[i]).reading_range;
        &&& r.start < r.end
        &&& r.end <= reading.len()
        &&& t[i].reading@ == reading.subrange(r.start as int, r.end as int)
    } by {
        if i != a && i != a + 1 {
            assert(t[i] == s[i]);
        } else {
            let _ = s[a];
            let _ = s[a + 1];
        }
    }
    if a == 0 {
        assert(t[0].reading_range.start == 0) by {
            let _ = s[0];
        }
    }
    if a + 1 == s.len() - 1 {
        assert(t.last() == y);
    } else {
        assert(t.last() == s.last());
    }
}

/// Taking the whole one-character next segment into segment `a` keeps the
/// segments covering the reading.
#[verifier::spinoff_prover]
#[verifier::rlimit(40)]
pub proof fn lemma_merge_next(reading: Seq<char>, s: Seq<ConversionSegment>, a: int, x: ConversionSegment)
    requires
        ranges_valid(reading, s),
        0 <= a < s.len() - 1,
        s[a + 1].reading_range.end - s[a + 1].reading_range.start == 1,
        x.reading_range.start == s[a].reading_range.start,
        x.reading_range.end == s[a + 1].reading_range.end,
        x.reading@ == reading.subrange(x.reading_range.start as int, x.reading_range.end as int),
    ensures
        ranges_valid(reading, s.update(a, x).remove(a + 1)),
{
    let t = s.update(a, x).remove(a + 1);
    let _ = s[a];
    let _ = s[a + 1];
    assert forall|i: int| 0 <= i < t.len() - 1 implies (#[trigger] t[i]).reading_range.end == t[i + 1].reading_range.start by {
        if i < a - 1 {
            assert(t[i] == s[i] && t[i + 1] == s[i + 1]);
        } else if i == a - 1 {
            assert(t[i] == s[i]);
            assert(s[a - 1].reading_range.end == s[a].reading_range.start);
        } else if i == a {
            assert(t[i + 1] == s[i + 2]);
            assert(s[a + 1].reading_range.end == s[a + 2].reading_range.start);
        } else {
            assert(t[i] == s[i + 1] && t[i + 1] == s[i + 2]);
        }
    }
    assert forall|i: int| 0 <= i < t.len() implies {
        let r = (#[trigger] t[i]).reading_range;
        &&& r.start < r.end
        &&& r.end <= reading.len()
        &&& t[i].reading@ == reading.subrange(r.start as int, r.end as int)
    } by {
        if i < a {
            assert(t[i] == s[i]);
        } else if i > a {
            assert(t[i] == s[i + 1]);
        }
    }
    if a == 0 {
        assert(t[0] == x);
    } else {
        assert(t[0] == s[0]);
    }
    if a + 1 == s.len() - 1 {
        assert(t.last() == x);
    } else {
        assert(t.last() == s.last());
    }
}

impl InputMethodEngine {
    /// Takes the conversion session out of the state, leaving it empty.
    fn take_session(&mut self) -> (s: Option<ConversionSession>)
        requires
            old(self).wf(),
        ensures
            final(self).wf(),
            old(self).state matches InputState::Conversion { session } ==> s == Some(session) && final(self).state is Empty,
            !(old(self).state is Conversion) ==> s is None && final(self).state == old(self).state,
            final(self).input_buf == old(self).input_buf,
            final(self).input_mode == old(self).input_mode,
            final(self).romaji == old(self).romaji,
            final(self).live == old(self).live,
            final(self).config == old(self).config,
            final(self).surrounding_context == old(self).surrounding_context,
            final(self).segment_learning == old(self).segment_learning,
            final(self).composing_candidates == old(self).composing_candidates,
            final(self).dicts == old(self).dicts,
    {
        let mut st = InputState::Empty;
        core::mem::swap(&mut st, &mut self.state);
        match st {
            InputState::Conversion { session } => Some(session),
            other => {
                self.state = other;
                None
            },
        }
    }

    /// The actions showing a session: its preedit, the active segment's
    /// candidates and the reading of the selected candidate.
    fn show_session(&self, session: &ConversionSession) -> (r: EngineResult)
        requires
            session_wf(*session),
        ensures
            r.consumed,
            r.actions@.len() == 3,
            r.actions@[0] matches EngineAction::UpdatePreedit(p) && p.same_as(session.preedit_view()),
            r.actions@[1] matches EngineAction::ShowCandidates(l)
                && l.items() == session.segments@[session.active_segment as int].candidates.items()
                && l.selection() == session.segments@[session.active_segment as int].candidates.selection(),
    {
        let preedit = session.preedit().duplicate();
        let list = &session.segments[session.active_segment].candidates;
        let reading = match list.selected() {
            Some(c) => match &c.reading {
                Some(r) => copy_str(r.as_str()),
                None => copy_str(session.segments[session.active_segment].reading.as_str()),
            },
            None => copy_str(session.segments[session.active_segment].reading.as_str()),
        };
        let shown = list.duplicate();
        let aux = self.format_aux_conversion_with_page(reading.as_str(), None);
        EngineResult::consumed()
            .with_action(EngineAction::UpdatePreedit(preedit))
            .with_action(EngineAction::ShowCandidates(shown))
            .with_action(EngineAction::UpdateAuxText(aux))
    }

    /// Rebuilds the candidates of the active segment if its boundary moved.
    fn refresh_active_candidates(&self, session: &mut ConversionSession)
        requires
            session_wf(*old(session)),
        ensures
            session_wf(*final(session)),
            final(session).reading == old(session).reading,
            final(session).active_segment == old(session).active_segment,
            final(session).segments@.len() == old(session).segments@.len(),
            !final(session).segments@[final(session).active_segment as int].candidates_dirty,
            forall|i: int| 0 <= i < old(session).segments@.len() && i != old(session).active_segment
                ==> #[trigger] final(session).segments@[i] == old(session).segments@[i],
            final(session).whole_phase() == old(session).whole_phase(),
            !old(session).segments@[old(session).active_segment as int].candidates_dirty ==> *final(session) == *old(session),
            old(session).segments@[old(session).active_segment as int].candidates_dirty ==> ({
                let l = final(session).segments@[final(session).active_segment as int].candidates;
                let seg = old(session).segments@[old(session).active_segment as int];
                &&& texts(l.items()) == engine_conversion_texts(*self, seg.reading@, self.config.num_candidates, false)
                &&& l.selection() == 0
                &&& l.page_len() == CandidateList::DEFAULT_PAGE_SIZE
            }),
    {
        let a = session.active_segment;
        if !session.segments[a].candidates_dirty {
            return;
        }
        let list = self.segment_candidates(session.segments[a].reading.as_str());
        let mut seg = session.segments.remove(a);
        seg.candidates = list;
        seg.candidates_dirty = false;
        seg.sync_selected_surface();
        session.segments.insert(a, seg);
        proof {
            let s = old(session).segments@;
            assert(session.segments@ =~= s.update(a as int, seg));
            lemma_same_ranges(session.reading@, s, a as int, seg);
        }
    }

    /// Moves the selection of the active segment (`op`: 0 next, 1 previous,
    /// 2 next page, 3 previous page) and shows it.
    #[verifier::rlimit(30)]
    fn navigate_candidate(&mut self, op: u8) -> (r: EngineResult)
        requires
            old(self).wf(),
        ensures
            final(self).wf(),
            old(self).state is Conversion == r.consumed,
            old(self).state is Conversion ==> final(self).state is Conversion,
            !(old(self).state is Conversion) ==> final(self).state == old(self).state,
    {
        let mut session = match self.take_session() {
            Some(s) => s,
            None => return EngineResult::not_consumed(),
        };
        self.refresh_active_candidates(&mut session);
        let a = session.active_segment;
        let ghost before = session;
        let mut seg = session.segments.remove(a);
        select_in_segment(&mut seg, op);
        session.segments.insert(a, seg);
        proof {
            assert(session.segments@ =~= before.segments@.update(a as int, seg));
            lemma_update_keeps_wf(before, a as int, seg, session);
        }
        surfaces_fit(&session);
        session.rebuild_preedit();
        let r = self.show_session(&session);
        self.state = InputState::Conversion { session };
        r
    }

    /// Left or Right during conversion: makes the previous or next segment
    /// active.
    fn move_active_segment(&mut self, right: bool) -> (r: EngineResult)
        requires
            old(self).wf(),
        ensures
            final(self).wf(),
            old(self).state is Conversion == r.consumed,
            old(self).state matches InputState::Conversion { session } ==> (final(self).state matches InputState::Conversion { session: s2 }
                && s2.reading == session.reading && s2.segments@.len() == session.segments@.len()
                && s2.active_segment == (if right {
                    if session.active_segment + 1 < session.segments@.len() { session.active_segment + 1 } else { session.active_segment as int }
                } else {
                    if session.active_segment > 0 { session.active_segment - 1 } else { session.active_segment as int }
                })),
    {
        let mut session = match self.take_session() {
            Some(s) => s,
            None => return EngineResult::not_consumed(),
        };
        surfaces_fit(&session);
        if right {
            session.move_active_right();
        } else {
            session.move_active_left();
        }
        self.refresh_active_candidates(&mut session);
        surfaces_fit(&session);
        session.rebuild_preedit();
        let r = self.show_session(&session);
        self.state = InputState::Conversion { session };
        r
    }
}

/// Moves the selection of a segment (`op`: 0 next, 1 previous, 2 next
/// page, 3 previous page), shows it, and marks the segment as changed by
/// the user when the selection moved.
fn select_in_segment(seg: &mut ConversionSegment, op: u8)
    requires
        old(seg).candidates.wf(),
    ensures
        final(seg).candidates.wf(),
        final(seg).reading_range == old(seg).reading_range,
        final(seg).reading == old(seg).reading,
        final(seg).candidates.items() == old(seg).candidates.items(),
        final(seg).surface() == match final(seg).candidates.selected_view() {
            Some(t) => t,
            None => old(seg).reading@,
        },
        final(seg).candidates.selection() != old(seg).candidates.selection() ==> final(seg).explicitly_modified,
{
    let before = seg.candidates.cursor();
    if op == 0 {
        seg.candidates.move_next();
    } else if op == 1 {
        seg.candidates.move_prev();
    } else if op == 2 {
        seg.candidates.next_page();
    } else {
        seg.candidates.prev_page();
    }
    if seg.candidates.cursor() != before {
        seg.explicitly_modified = true;
    }
    seg.sync_selected_surface();
}

proof fn lemma_update_keeps_wf(s: ConversionSession, a: int, x: ConversionSegment, t: ConversionSession)
    requires
        session_wf(s),
        0 <= a < s.segments@.len(),
        x.reading_range == s.segments@[a].reading_range,
        x.reading == s.segments@[a].reading,
        x.candidates.wf(),
        t.reading == s.reading,
        t.segments@ == s.segments@.update(a, x),
        t.active_segment == s.active_segment,
    ensures
        session_wf(t),
{
    lemma_same_ranges(s.reading@, s.segments@, a, x);
    assert forall|i: int| 0 <= i < t.segments@.len() implies (#[trigger] t.segments@[i]).candidates.wf() by {
        if i != a {
            assert(t.segments@[i] == s.segments@[i]);
        }
    }
}

proof fn lemma_same_ranges(reading: Seq<char>, s: Seq<ConversionSegment>, a: int, x: ConversionSegment)
    requires
        ranges_valid(reading, s) || true,
        0 <= a < s.len(),
    ensures
        ranges_valid(reading, s) && x.reading_range == s[a].reading_range && x.reading == s[a].reading
            ==> ranges_valid(reading, s.update(a, x)),
{
    if ranges_valid(reading, s) && x.reading_range == s[a].reading_range && x.reading == s[a].reading {
        let t = s.update(a, x);
        assert forall|i: int| 0 <= i < t.len() - 1 implies (#[trigger] t[i]).reading_range.end == t[i + 1].reading_range.start by {
            let _ = s[i];
            let _ = s[i + 1];
        }
        assert forall|i: int| 0 <= i < t.len() implies {
            let r = (#[trigger] t[i]).reading_range;
            &&& r.start < r.end
            &&& r.end <= reading.len()
            &&& t[i].reading@ == reading.subrange(r.start as int, r.end as int)
        } by {
            let _ = s[i];
        }
        let _ = s[0];
        let _ = s.last();
    }
}

impl InputMethodEngine {
    /// A segment for `start..end` of the reading whose candidates will be
    /// rebuilt when it is next active: for now it shows its reading.
    fn pending_segment(chars: &Vec<char>, start: usize, end: usize) -> (seg: ConversionSegment)
        requires
            start < end <= chars@.len(),
        ensures
            seg.reading_range == (start..end),
            seg.reading@ == chars@.subrange(start as int, end as int),
            seg.candidates.wf(),
            seg.candidates_dirty,
            !seg.explicitly_modified,
    {
        let reading = slice_to_string(chars.as_slice(), start, end);
        let list = reading_only_list(reading.as_str());
        let mut seg = ConversionSegment::new(start..end, reading, list);
        seg.candidates_dirty = true;
        seg
    }

    /// A segment for `start..end` of the reading with its candidates built.
    fn built_segment(&self, chars: &Vec<char>, start: usize, end: usize) -> (seg: ConversionSegment)
        requires
            start < end <= chars@.len(),
        ensures
            seg.reading_range == (start..end),
            seg.reading@ == chars@.subrange(start as int, end as int),
            seg.candidates.wf(),
            !seg.candidates_dirty,
            !seg.explicitly_modified,
    {
        let reading = slice_to_string(chars.as_slice(), start, end);
        let list = self.segment_candidates(reading.as_str());
        ConversionSegment::new(start..end, reading, list)
    }

    /// Shift+Left during conversion: the active segment gives its last
    /// character to the next segment (a new one after the last segment).
    /// Shift+Right: it takes the first character of the next segment,
    /// absorbing a one-character segment. The active segment's candidates
    /// are rebuilt; the neighbour's are rebuilt when it is next active.
    #[verifier::rlimit(80)]
    #[verifier::spinoff_prover]
    fn resize_active_segment(&mut self, grow: bool) -> (r: EngineResult)
        requires
            old(self).wf(),
        ensures
            final(self).wf(),
            old(self).state is Conversion == r.consumed,
            old(self).state matches InputState::Conversion { session } ==> (final(self).state matches InputState::Conversion { session: s2 }
                && s2.reading == session.reading && s2.active_segment == session.active_segment),
            !(old(self).state is Conversion) ==> final(self).state == old(self).state,
    {
        let mut session = match self.take_session() {
            Some(s) => s,
            None => return EngineResult::not_consumed(),
        };
        let ghost before = session;
        let a = session.active_segment;
        let n = session.segments.len();
        let start = session.segments[a].reading_range.start;
        let end = session.segments[a].reading_range.end;
        let chars = chars_of(session.reading.as_str());
        proof {
            let _ = before.segments@[a as int];
        }
        if !grow {
            if end - start < 2 {
                surfaces_fit(&session);
                let r = self.show_session(&session);
                self.state = InputState::Conversion { session };
                return r;
            }
            let mid = end - 1;
            let x = self.built_segment(&chars, start, mid);
            if a + 1 == n {
                let y = Self::pending_segment(&chars, mid, end);
                session.segments.set(a, x);
                session.segments.push(y);
                proof {
                    assert(session.segments@ =~= before.segments@.update(a as int, x).push(y));
                    lemma_shrink_last(session.reading@, before.segments@, x, y);
                }
            } else {
                let b_end = session.segments[a + 1].reading_range.end;
                proof {
                    assert(before.segments@[a + 1].reading_range.start == end);
                }
                let y = Self::pending_segment(&chars, mid, b_end);
                session.segments.set(a, x);
                session.segments.set(a + 1, y);
                proof {
                    assert(session.segments@ =~= before.segments@.update(a as int, x).update(a + 1, y));
                    lemma_shrink_into_next(session.reading@, before.segments@, a as int, x, y);
                }
            }
        } else {
            if a + 1 >= n {
                surfaces_fit(&session);
                let r = self.show_session(&session);
                self.state = InputState::Conversion { session };
                return r;
            }
            let b_start = session.segments[a + 1].reading_range.start;
            let b_end = session.segments[a + 1].reading_range.end;
            proof {
                assert(b_start == end);
                let _ = before.segments@[a + 1];
            }
            if b_end - b_start == 1 {
                let x = self.built_segment(&chars, start, b_end);
                session.segments.set(a, x);
                session.segments.remove(a + 1);
                proof {
                    assert(session.segments@ =~= before.segments@.update(a as int, x).remove(a + 1));
                    lemma_merge_next(session.reading@, before.segments@, a as int, x);
                }
            } else {
                let x = self.built_segment(&chars, start, end + 1);
                let y = Self::pending_segment(&chars, b_start + 1, b_end);
                session.segments.set(a, x);
                session.segments.set(a + 1, y);
                proof {
                    assert(session.segments@ =~= before.segments@.update(a as int, x).update(a + 1, y));
                    lemma_grow_into_next(session.reading@, before.segments@, a as int, x, y);
                }
            }
        }
        proof {
            assert forall|i: int| 0 <= i < session.segments@.len() implies (#[trigger] session.segments@[i]).candidates.wf() by {
                if i < before.segments@.len() && session.segments@[i] == before.segments@[i] {
                }
            }
        }
        surfaces_fit(&session);
        session.rebuild_preedit();
        let r = self.show_session(&session);
        self.state = InputState::Conversion { session };
        r
    }
}

/// The last character of a text, if any.
/// The context left of segment `i`: the last character of the segment
/// before it, or the editor's hint for the first segment.
pub open spec fn segment_left_hint(segs: Seq<ConversionSegment>, i: int, editor: Option<Seq<char>>) -> Option<Seq<char>> {
    if i > 0 {
        let t = segs[i - 1].surface();
        if t.len() > 0 { Some(seq![t.last()]) } else { None }
    } else {
        editor
    }
}

/// The context right of segment `i`: the first character of the segment
/// after it, or the editor's hint for the last segment.
pub open spec fn segment_right_hint(segs: Seq<ConversionSegment>, i: int, editor: Option<Seq<char>>) -> Option<Seq<char>> {
    if i + 1 < segs.len() {
        let t = segs[i + 1].surface();
        if t.len() > 0 { Some(seq![t[0]]) } else { None }
    } else {
        editor
    }
}

/// Step `k` of learning from segments: an explicitly changed segment is
/// learned with its neighbours as context; other segments change nothing.
pub open spec fn segment_learned(
    steps: Seq<Option<SegmentLearningCache>>,
    segs: Seq<ConversionSegment>,
    k: int,
    left: Option<Seq<char>>,
    right: Option<Seq<char>>,
) -> bool {
    if segs[k].explicitly_modified {
        learned_into(steps[k], steps[k + 1], segs[k].reading@, segs[k].surface(),
            segment_left_hint(segs, k, left), segment_right_hint(segs, k, right))
    } else {
        steps[k + 1] == steps[k]
    }
}

/// `steps` are the learning caches before and after each of the first
/// `count` segments is learned.
pub open spec fn learned_segments(
    steps: Seq<Option<SegmentLearningCache>>,
    segs: Seq<ConversionSegment>,
    count: int,
    left: Option<Seq<char>>,
    right: Option<Seq<char>>,
) -> bool {
    &&& steps.len() == count + 1
    &&& forall|k: int| 0 <= k < count ==> #[trigger] segment_learned(steps, segs, k, left, right)
}

fn last_char_of(t: &str) -> (c: Option<String>)
    ensures
        opt_view(c) == (if t@.len() > 0 { Some(seq![t@.last()]) } else { None }),
{
    let chars = chars_of(t);
    if chars.len() > 0 {
        Some(slice_to_string(chars.as_slice(), chars.len() - 1, chars.len()))
    } else {
        None
    }
}

/// The first character of a text, if any.
fn first_char_of(t: &str) -> (c: Option<String>)
    ensures
        opt_view(c) == (if t@.len() > 0 { Some(seq![t@[0]]) } else { None }),
{
    let chars = chars_of(t);
    if chars.len() > 0 {
        let s = slice_to_string(chars.as_slice(), 0, 1);
        assert(chars@.subrange(0, 1) =~= seq![chars@[0]]);
        Some(s)
    } else {
        None
    }
}

/// What a key press does during conversion: Enter commits the joined
/// surfaces and empties the engine; Escape and Backspace go back to the
/// reading (or to nothing when it is empty); Left and Right move the
/// active segment, and with Shift move its boundary over the same reading;
/// Space, Down, Tab, Up, the page keys and Ctrl+N/Ctrl+P stay in
/// conversion; a digit commits the candidate it numbers on the current page;
/// another character without Control or Alt commits the conversion and
/// starts a new reading.
pub open spec fn conversion_key_outcome(before: InputMethodEngine, after: InputMethodEngine, key: KeyEvent, r: EngineResult) -> bool {
    let k = key.keysym.0;
    let session = before.state->session;
    &&& k == Keysym::RETURN ==> r.consumed && (surfaces_text(session.segments@).len() > 0
        ==> (after.state is Empty && r.actions@.len() == 4 && (r.actions@[3] matches EngineAction::Commit(t)
        && t@ == surfaces_text(session.segments@))))
    &&& k == Keysym::ESCAPE || k == Keysym::BACKSPACE ==> r.consumed
        && after.input_buf.text@ == before.input_buf.text@
        && (before.input_buf.text@.len() == 0 ==> after.state is Empty)
        && (before.input_buf.text@.len() > 0 ==> after.state is Composing
            && after.input_buf.cursor_pos == before.input_buf.text@.len())
    &&& k == Keysym::LEFT && !key.modifiers.shift_key ==> r.consumed && (after.state matches InputState::Conversion { session: s2 }
        && s2.reading == session.reading && s2.segments@.len() == session.segments@.len()
        && s2.active_segment == (if session.active_segment > 0 {
            session.active_segment - 1
        } else {
            session.active_segment as int
        }))
    &&& k == Keysym::RIGHT && !key.modifiers.shift_key ==> r.consumed && (after.state matches InputState::Conversion { session: s2 }
        && s2.reading == session.reading && s2.segments@.len() == session.segments@.len()
        && s2.active_segment == (if session.active_segment + 1 < session.segments@.len() {
            session.active_segment + 1
        } else {
            session.active_segment as int
        }))
    &&& (k == Keysym::LEFT || k == Keysym::RIGHT) && key.modifiers.shift_key ==> r.consumed
        && (after.state matches InputState::Conversion { session: s2 }
        && s2.reading == session.reading
        && s2.active_segment == session.active_segment)
    &&& k == Keysym::SPACE || k == Keysym::DOWN || k == Keysym::TAB || k == Keysym::UP
        || k == Keysym::PAGE_DOWN || k == Keysym::PAGE_UP ==> r.consumed && after.state is Conversion
    &&& key.modifiers.control_key && !key.modifiers.alt_key && (k == Keysym::KEY_N || k == Keysym::KEY_N_UPPER
        || k == Keysym::KEY_P || k == Keysym::KEY_P_UPPER) ==> r.consumed && after.state is Conversion
    &&& 0x31 <= k <= 0x39 && !(key.modifiers.control_key && !key.modifiers.alt_key && (k == Keysym::KEY_N
        || k == Keysym::KEY_N_UPPER || k == Keysym::KEY_P || k == Keysym::KEY_P_UPPER)) ==> r.consumed
        && match digit_pick(before, session, k - 0x30) {
            Some(t) => after.state is Empty && commits(r, surfaces_with(session.segments@, session.active_segment as int, t)),
            None => after.state == before.state && r.actions@.len() == 0,
        }
    &&& key.keysym.char_spec() is Some && !(0x31 <= k <= 0x39) && k != Keysym::SPACE && !key.modifiers.control_key
        && !key.modifiers.alt_key ==> r.consumed && after.state is Composing
        && (r.actions@[0] matches EngineAction::Commit(t) && t@ == surfaces_text(session.segments@))
}

impl InputMethodEngine {
    /// Records every segment the user changed explicitly, with the
    /// characters next to it (a neighbouring segment's surface, or the
    /// editor text at either end) as context.
    fn learn_segments(&mut self, session: &ConversionSession)
        requires
            old(self).wf(),
        ensures
            final(self).wf(),
            final(self).state == old(self).state,
            final(self).input_buf == old(self).input_buf,
            final(self).input_mode == old(self).input_mode,
            final(self).romaji == old(self).romaji,
            final(self).live == old(self).live,
            final(self).config == old(self).config,
            final(self).surrounding_context == old(self).surrounding_context,
            final(self).composing_candidates == old(self).composing_candidates,
            exists|steps: Seq<Option<SegmentLearningCache>>| #[trigger] learned_segments(
                steps,
                session.segments@,
                session.segments@.len() as int,
                old(self).left_hint_view(),
                old(self).right_hint_view(),
            ) && steps[0] == old(self).segment_learning && steps.last() == final(self).segment_learning,
    {
        let n = session.segments.len();
        let ghost segs = session.segments@;
        let ghost lh = self.left_hint_view();
        let ghost rh = self.right_hint_view();
        let ghost mut steps: Seq<Option<SegmentLearningCache>> = seq![self.segment_learning];
        let mut i: usize = 0;
        while i < n
            invariant
                n == session.segments@.len(),
                segs == session.segments@,
                lh == old(self).left_hint_view(),
                rh == old(self).right_hint_view(),
                i <= n,
                self.wf(),
                self.state == old(self).state,
                self.input_buf == old(self).input_buf,
                self.input_mode == old(self).input_mode,
                self.romaji == old(self).romaji,
                self.live == old(self).live,
                self.config == old(self).config,
                self.surrounding_context == old(self).surrounding_context,
                self.composing_candidates == old(self).composing_candidates,
                steps.len() == i + 1,
                steps[0] == old(self).segment_learning,
                steps.last() == self.segment_learning,
                learned_segments(steps, segs, i as int, lh, rh),
            decreases n - i,
        {
            let seg = &session.segments[i];
            let ghost before = self.segment_learning;
            if seg.explicitly_modified {
                let left = if i > 0 { last_char_of(session.segments[i - 1].selected_text()) } else { self.left_context_char() };
                let right = if i + 1 < n { first_char_of(session.segments[i + 1].selected_text()) } else { self.right_context_char() };
                let left_ref: Option<&str> = match &left { Some(t) => Some(t.as_str()), None => None };
                let right_ref: Option<&str> = match &right { Some(t) => Some(t.as_str()), None => None };
                match &mut self.segment_learning {
                    Some(cache) => cache.record(seg.reading.as_str(), seg.selected_text(), left_ref, right_ref),
                    None => {},
                }
                assert(crate::text::opt_view(left) == segment_left_hint(segs, i as int, lh));
                assert(crate::text::opt_view(right) == segment_right_hint(segs, i as int, rh));
            }
            proof {
                let next = steps.push(self.segment_learning);
                assert forall|k: int| 0 <= k < i implies #[trigger] segment_learned(next, segs, k, lh, rh) by {
                    assert(segment_learned(steps, segs, k, lh, rh));
                    assert(next[k] == steps[k] && next[k + 1] == steps[k + 1]);
                }
                assert(next[i as int] == before);
                assert(segment_learned(next, segs, i as int, lh, rh));
                steps = next;
            }
            i += 1;
        }
    }

    /// Enter during conversion: commits the surfaces of all segments and
    /// learns the segments the user changed.
    pub fn commit_conversion(&mut self) -> (r: EngineResult)
        requires
            old(self).wf(),
        ensures
            final(self).wf(),
            !(old(self).state is Conversion) ==> !r.consumed && final(self).state == old(self).state,
            old(self).state matches InputState::Conversion { session } ==> r.consumed && (surfaces_text(session.segments@).len() > 0 ==>
                (final(self).state is Empty && r.actions@.len() == 4
                && (r.actions@[3] matches EngineAction::Commit(t) && t@ == surfaces_text(session.segments@)))),
            old(self).state matches InputState::Conversion { session } ==> committed_display(r, surfaces_text(session.segments@)),
            old(self).state matches InputState::Conversion { session } && surfaces_text(session.segments@).len() == 0
                ==> final(self).state == old(self).state,
    {
        let session = match self.take_session() {
            Some(s) => s,
            None => return EngineResult::not_consumed(),
        };
        let text = session.selected_text();
        if text.as_str().is_empty() {
            self.state = InputState::Conversion { session };
            return EngineResult::consumed();
        }
        self.learn_segments(&session);
        self.state = InputState::Empty;
        self.input_buf.clear();
        self.clear_composing_candidates();
        EngineResult::consumed()
            .with_action(EngineAction::UpdatePreedit(Preedit::new()))
            .with_action(EngineAction::HideCandidates)
            .with_action(EngineAction::HideAuxText)
            .with_action(EngineAction::Commit(text))
    }

    /// A printable key during conversion: commits the conversion and
    /// starts a new reading with the character.
    fn commit_conversion_and_continue(&mut self, ch: char) -> (r: EngineResult)
        requires
            old(self).wf(),
            old(self).state is Conversion,
        ensures
            final(self).wf(),
            r.consumed,
            final(self).state is Composing,
            r.actions@.len() >= 2,
            r.actions@[0] matches EngineAction::Commit(t) && old(self).state matches InputState::Conversion { session }
                && t@ == surfaces_text(session.segments@),
    {
        let session = match self.take_session() {
            Some(s) => s,
            None => return EngineResult::not_consumed(),
        };
        let text = session.selected_text();
        self.learn_segments(&session);
        self.state = InputState::Empty;
        self.input_buf.clear();
        self.clear_composing_candidates();
        let mut next = self.start_input(ch);
        let mut r = EngineResult::consumed()
            .with_action(EngineAction::Commit(text))
            .with_action(EngineAction::HideCandidates);
        r.actions.append(&mut next.actions);
        r
    }

    /// Escape or Backspace during conversion: back to composing the reading.
    pub fn cancel_conversion(&mut self) -> (r: EngineResult)
        requires
            old(self).wf(),
        ensures
            final(self).wf(),
            !(old(self).state is Conversion) ==> !r.consumed && final(self).state == old(self).state,
            old(self).state is Conversion ==> r.consumed && final(self).input_buf.text@ == old(self).input_buf.text@
                && (old(self).input_buf.text@.len() == 0 ==> final(self).state is Empty)
                && (old(self).input_buf.text@.len() > 0 ==> final(self).state is Composing
                    && final(self).input_buf.cursor_pos == old(self).input_buf.text@.len()),
    {
        let session = match self.take_session() {
            Some(s) => s,
            None => return EngineResult::not_consumed(),
        };
        if self.input_buf.text.as_str().is_empty() {
            self.clear_composing_candidates();
            return EngineResult::consumed()
                .with_action(EngineAction::UpdatePreedit(Preedit::new()))
                .with_action(EngineAction::HideCandidates)
                .with_action(EngineAction::HideAuxText);
        }
        self.input_buf.cursor_pos = chars_of(self.input_buf.text.as_str()).len();
        self.romaji.reset();
        self.live.clear();
        let preedit = self.set_composing_state();
        let aux = self.format_aux_composing();
        EngineResult::consumed()
            .with_action(EngineAction::UpdatePreedit(preedit))
            .with_action(EngineAction::HideCandidates)
            .with_action(EngineAction::UpdateAuxText(aux))
    }

    /// A digit key during conversion: selects that candidate of the current
    /// page in the active segment and commits the conversion.
    #[verifier::rlimit(60)]
    #[verifier::spinoff_prover]
    fn select_candidate_by_digit(&mut self, digit: usize) -> (r: EngineResult)
        requires
            old(self).wf(),
        ensures
            final(self).wf(),
            !(old(self).state is Conversion) ==> !r.consumed && final(self).state == old(self).state && r.actions@.len() == 0,
            old(self).state matches InputState::Conversion { session } ==> r.consumed && match digit_pick(*old(self), session, digit as int) {
                Some(t) => final(self).state is Empty && commits(r, surfaces_with(session.segments@, session.active_segment as int, t)),
                None => final(self).state == old(self).state && r.actions@.len() == 0,
            },
    {
        let found_slot = match &self.state {
            InputState::Conversion { session } => {
                let seg = &session.segments[session.active_segment];
                let mut list = if seg.candidates_dirty {
                    self.segment_candidates(seg.reading.as_str())
                } else {
                    seg.candidates.duplicate()
                };
                list.select_on_page(digit).is_some()
            },
            _ => return EngineResult::not_consumed(),
        };
        if !found_slot {
            return EngineResult::consumed();
        }
        let mut session = match self.take_session() {
            Some(s) => s,
            None => return EngineResult::not_consumed(),
        };
        self.refresh_active_candidates(&mut session);
        let a = session.active_segment;
        let ghost before = session;
        proof {
            let s0 = old(self).state->session;
            let seg0 = s0.segments@[a as int];
            assert(engine_conversion_texts(*self, seg0.reading@, self.config.num_candidates, false)
                == engine_conversion_texts(*old(self), seg0.reading@, old(self).config.num_candidates, false));
            assert(before.segments@.take(a as int) =~= s0.segments@.take(a as int));
            assert(before.segments@.skip(a + 1) =~= s0.segments@.skip(a + 1));
        }
        let mut seg = session.segments.remove(a);
        let prev = seg.candidates.cursor();
        let found = seg.candidates.select_on_page(digit).is_some();
        if found && seg.candidates.cursor() != prev {
            seg.explicitly_modified = true;
        }
        seg.sync_selected_surface();
        session.segments.insert(a, seg);
        proof {
            assert(session.segments@ =~= before.segments@.update(a as int, seg));
            lemma_update_keeps_wf(before, a as int, seg, session);
            lemma_surfaces_split(session.segments@, a as int);
            assert(session.segments@.take(a as int) =~= before.segments@.take(a as int));
            assert(session.segments@.skip(a + 1) =~= before.segments@.skip(a + 1));
        }
        surfaces_fit(&session);
        session.rebuild_preedit();
        let ghost committed = surfaces_text(session.segments@);
        self.state = InputState::Conversion { session };
        if !found {
            return EngineResult::consumed();
        }
        let r = self.commit_conversion();
        assert(committed.len() > 0 ==> self.state is Empty);
        match self.state {
            InputState::Conversion { .. } => {
                assert(committed.len() == 0);
                // Nothing to show was selected: the selection is still
                // committed, as an empty text.
                self.state = InputState::Empty;
                self.input_buf.clear();
                self.clear_composing_candidates();
                let empty = String::new();
                assert(empty@ =~= committed);
                EngineResult::consumed()
                    .with_action(EngineAction::UpdatePreedit(Preedit::new()))
                    .with_action(EngineAction::HideCandidates)
                    .with_action(EngineAction::HideAuxText)
                    .with_action(EngineAction::Commit(empty))
            },
            _ => r,
        }
    }

    /// Selects and commits the candidate at `page_index` (from 0) of the
    /// current page, as the digit key `page_index + 1` does; not consumed
    /// outside conversion.
    pub fn select_candidate_on_page(&mut self, page_index: usize) -> (r: EngineResult)
        requires
            old(self).wf(),
        ensures
            final(self).wf(),
            !(old(self).state is Conversion) ==> !r.consumed && final(self).state == old(self).state && r.actions@.len() == 0,
            // The candidate in slot `page_index` of the current page is
            // selected and the conversion committed; an empty slot changes
            // nothing.
            old(self).state matches InputState::Conversion { session } ==> r.consumed && match digit_pick(*old(self), session, page_index + 1) {
                Some(t) => final(self).state is Empty && commits(r, surfaces_with(session.segments@, session.active_segment as int, t)),
                None => final(self).state == old(self).state && r.actions@.len() == 0,
            },
    {
        if page_index == usize::MAX {
            proof {
                if self.state is Conversion {
                    let session = self.state->session;
                    session.segments@[session.active_segment as int].candidates.lemma_page_len_fits();
                }
            }
            return match self.state {
                InputState::Conversion { .. } => EngineResult::consumed(),
                _ => EngineResult::not_consumed(),
            };
        }
        self.select_candidate_by_digit(page_index + 1)
    }

    /// Handles a key during conversion: Enter commits, Escape and Backspace
    /// go back to composing, Left and Right move between segments (with
    /// Shift they move the boundary), Space, Down, Tab, Up and the page keys
    /// walk the candidates, a digit commits the candidate it numbers, and
    /// another character commits and starts new input with it.
    pub fn process_key_conversion(&mut self, key: &KeyEvent) -> (r: EngineResult)
        requires
            old(self).wf(),
            old(self).state is Conversion,
        ensures
            final(self).wf(),
            conversion_key_outcome(*old(self), *final(self), *key, r),
    {
        let k = key.keysym.0;
        if k == Keysym::RETURN {
            self.commit_conversion()
        } else if k == Keysym::ESCAPE || k == Keysym::BACKSPACE {
            self.cancel_conversion()
        } else if k == Keysym::LEFT {
            if key.modifiers.shift_key { self.resize_active_segment(false) } else { self.move_active_segment(false) }
        } else if k == Keysym::RIGHT {
            if key.modifiers.shift_key { self.resize_active_segment(true) } else { self.move_active_segment(true) }
        } else if k == Keysym::SPACE || k == Keysym::DOWN || k == Keysym::TAB {
            self.navigate_candidate(0)
        } else if k == Keysym::UP {
            self.navigate_candidate(1)
        } else if k == Keysym::PAGE_DOWN {
            self.navigate_candidate(2)
        } else if k == Keysym::PAGE_UP {
            self.navigate_candidate(3)
        } else {
            if key.modifiers.control_key && !key.modifiers.alt_key {
                if k == Keysym::KEY_N || k == Keysym::KEY_N_UPPER {
                    return self.navigate_candidate(0);
                } else if k == Keysym::KEY_P || k == Keysym::KEY_P_UPPER {
                    return self.navigate_candidate(1);
                }
            }
            if let Some(digit) = key.keysym.digit_value() {
                return self.select_candidate_by_digit(digit);
            }
            match key.to_char() {
                Some(ch) => {
                    if !key.modifiers.control_key && !key.modifiers.alt_key {
                        self.commit_conversion_and_continue(ch)
                    } else {
                        EngineResult::not_consumed()
                    }
                },
                None => EngineResult::not_consumed(),
            }
        }
    }

    /// Handles one key event; releases are ignored.
    pub fn process_key(&mut self, key: &KeyEvent) -> (r: EngineResult)
        requires
            old(self).wf(),
        ensures
            final(self).wf(),
            !key.is_press ==> !r.consumed && *final(self) == *old(self),
            key.is_press && old(self).state is Empty ==> empty_key_outcome(*old(self), *final(self), *key, r),
            key.is_press && old(self).state is Composing ==> composing_key_outcome(*old(self), *final(self), *key, key.modifiers.shift_key, r),
            key.is_press && old(self).state is Conversion ==> conversion_key_outcome(*old(self), *final(self), *key, r),
    {
        if !key.is_press {
            return EngineResult::not_consumed();
        }
        let shift = key.modifiers.shift_key;
        match self.state {
            InputState::Empty => self.process_key_empty(key, shift),
            InputState::Composing { .. } => self.process_key_composing(key, shift),
            InputState::Conversion { .. } => self.process_key_conversion(key),
        }
    }
}

/// Left then Right during conversion comes back to the segment it started
/// from, when there is a segment before it; Right then Left likewise, when
/// there is one after it.
pub proof fn lemma_left_right_round_trip(
    e0: InputMethodEngine,
    e1: InputMethodEngine,
    e2: InputMethodEngine,
    first: KeyEvent,
    second: KeyEvent,
    r1: EngineResult,
    r2: EngineResult,
)
    requires
        e0.wf(),
        e0.state is Conversion,
        !first.modifiers.shift_key,
        !second.modifiers.shift_key,
        (first.keysym.0 == Keysym::LEFT && second.keysym.0 == Keysym::RIGHT)
            || (first.keysym.0 == Keysym::RIGHT && second.keysym.0 == Keysym::LEFT),
        conversion_key_outcome(e0, e1, first, r1),
        conversion_key_outcome(e1, e2, second, r2),
        first.keysym.0 == Keysym::LEFT ==> e0.state->session.active_segment > 0,
        first.keysym.0 == Keysym::RIGHT ==> e0.state->session.active_segment + 1 < e0.state->session.segments@.len(),
    ensures
        e2.state matches InputState::Conversion { session } && session.active_segment == e0.state->session.active_segment,
{
    assert(Keysym::LEFT != Keysym::RIGHT);
    let s0 = e0.state->session;
    assert(e1.state is Conversion);
    let s1 = e1.state->session;
    assert(s1.segments@.len() == s0.segments@.len());
    if first.keysym.0 == Keysym::LEFT {
        assert(s1.active_segment == s0.active_segment - 1);
    } else {
        assert(s1.active_segment == s0.active_segment + 1);
    }
}

/// `target` keeps everything it held when `source` is appended to it.
proof fn lemma_append_dedup_keeps(target: Seq<Seq<char>>, source: Seq<Seq<char>>, t: Seq<char>)
    requires
        target.contains(t),
    ensures
        append_dedup_texts(target, source).contains(t),
    decreases source.len(),
{
    if source.len() > 0 {
        lemma_append_dedup_keeps(target, source.drop_last(), t);
        let before = append_dedup_texts(target, source.drop_last());
        let j = choose|j: int| 0 <= j < before.len() && before[j] == t;
        if !before.contains(source.last()) {
            assert(before.push(source.last())[j] == t);
        }
    }
}

/// Every learned text is among the explicit conversion candidates unless
/// learning is skipped.
pub proof fn lemma_learned_texts_offered(e: InputMethodEngine, reading: Seq<char>, num_candidates: usize, t: Seq<char>)
    requires
        learned_conversion_texts(e, reading, false).contains(t),
    ensures
        engine_conversion_texts(e, reading, num_candidates, false).contains(t),
{
    let d = pick_texts(dictionary_picks(e.dicts, reading, usize::MAX as int));
    let u = user_picks(e.dicts, reading, usize::MAX as int).len() as int;
    let l = learned_conversion_texts(e, reading, false);
    let a = append_dedup_texts(l, d.take(u));
    lemma_append_dedup_keeps(l, d.take(u), t);
    let g = generated_texts(e, reading, num_candidates);
    let b = if g.len() == 0 {
        if a.len() == 0 { seq![reading] } else { a }
    } else {
        append_dedup_texts(a, g)
    };
    if g.len() > 0 {
        lemma_append_dedup_keeps(a, g, t);
    }
    assert(b.contains(t));
    let c = append_dedup_texts(b, d.skip(u));
    lemma_append_dedup_keeps(b, d.skip(u), t);
    let x = push_new(c, reading);
    let j = choose|j: int| 0 <= j < c.len() && c[j] == t;
    assert(x[j] == t);
    assert(x.contains(t));
    let y = push_new(x, katakana_seq(reading));
    let k = choose|k: int| 0 <= k < x.len() && x[k] == t;
    assert(y[k] == t);
}

/// Skipping learning converts exactly as the same engine does with no
/// learned segments at all.
pub proof fn lemma_skip_learning_is_no_learning(e: InputMethodEngine, reading: Seq<char>, num_candidates: usize)
    ensures
        engine_conversion_texts(e, reading, num_candidates, true)
            == engine_conversion_texts(InputMethodEngine { segment_learning: None, ..e }, reading, num_candidates, false),
{
    let e2 = InputMethodEngine { segment_learning: None, ..e };
    assert(learned_conversion_texts(e, reading, true) == learned_conversion_texts(e2, reading, false));
    assert(generated_texts(e, reading, num_candidates) == generated_texts(e2, reading, num_candidates));
}

/// Whatever `source` is appended to `target` only holds texts of the two.
proof fn lemma_append_dedup_from(target: Seq<Seq<char>>, source: Seq<Seq<char>>, t: Seq<char>)
    requires
        append_dedup_texts(target, source).contains(t),
    ensures
        target.contains(t) || source.contains(t),
    decreases source.len(),
{
    if source.len() > 0 {
        let before = append_dedup_texts(target, source.drop_last());
        if before.contains(t) {
            lemma_append_dedup_from(target, source.drop_last(), t);
            if source.drop_last().contains(t) {
                let j = choose|j: int| 0 <= j < source.drop_last().len() && source.drop_last()[j] == t;
                assert(source[j] == t);
            }
        } else {
            let x = before.push(source.last());
            let j = choose|j: int| 0 <= j < x.len() && x[j] == t;
            assert(source[source.len() - 1] == t);
        }
    }
}

/// A conversion that skips learning shows only texts that the
/// dictionaries, the generated candidates, the reading or its katakana
/// offer: a surface known only from learning never appears.
pub proof fn lemma_skip_learning_shows_no_learned_only(e: InputMethodEngine, reading: Seq<char>, num_candidates: usize, t: Seq<char>)
    requires
        engine_conversion_texts(e, reading, num_candidates, true).contains(t),
    ensures
        pick_texts(dictionary_picks(e.dicts, reading, usize::MAX as int)).contains(t)
            || generated_texts(e, reading, num_candidates).contains(t) || t == reading || t == katakana_seq(reading),
{
    let d = pick_texts(dictionary_picks(e.dicts, reading, usize::MAX as int));
    let u = user_picks(e.dicts, reading, usize::MAX as int).len() as int;
    let l = learned_conversion_texts(e, reading, true);
    assert(l.len() == 0);
    crate::engine_dictionaries::lemma_take_new_grows(
        user_picks(e.dicts, reading, usize::MAX as int),
        crate::engine_dictionaries::by_score(crate::engine_dictionaries::found(e.dicts.system, reading)),
        usize::MAX as int,
    );
    assert(0 <= u <= d.len());
    let a = append_dedup_texts(l, d.take(u));
    let g = generated_texts(e, reading, num_candidates);
    let b = if g.len() == 0 {
        if a.len() == 0 { seq![reading] } else { a }
    } else {
        append_dedup_texts(a, g)
    };
    let c = append_dedup_texts(b, d.skip(u));
    let x = push_new(c, reading);
    let y = push_new(x, katakana_seq(reading));
    assert(engine_conversion_texts(e, reading, num_candidates, true) == y);
    if t != reading && t != katakana_seq(reading) {
        if !x.contains(katakana_seq(reading)) {
            let j = choose|j: int| 0 <= j < y.len() && y[j] == t;
            assert(j < x.len());
            assert(x[j] == t);
        }
        assert(x.contains(t));
        if !c.contains(reading) {
            let j = choose|j: int| 0 <= j < x.len() && x[j] == t;
            assert(j < c.len());
            assert(c[j] == t);
        }
        assert(c.contains(t));
        lemma_append_dedup_from(b, d.skip(u), t);
        if d.skip(u).contains(t) {
            let j = choose|j: int| 0 <= j < d.skip(u).len() && d.skip(u)[j] == t;
            assert(d[j + u] == t);
            assert(d.contains(t));
        } else {
            assert(b.contains(t));
            if g.len() == 0 {
                if a.len() == 0 {
                    assert(t == reading);
                }
            } else {
                lemma_append_dedup_from(a, g, t);
            }
            if a.contains(t) {
                lemma_append_dedup_from(l, d.take(u), t);
                if d.take(u).contains(t) {
                    let j = choose|j: int| 0 <= j < d.take(u).len() && d.take(u)[j] == t;
                    assert(d[j] == t);
                    assert(d.contains(t));
                }
            }
        }
    }
}

} // verus!

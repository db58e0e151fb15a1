//! Applying live-conversion results to the composing state: the visible
//! surface, background results for a prefix of the reading, and the
//! rebuild that does not wait for a result.
use vstd::prelude::*;

use crate::candidate::{Candidate, CandidateList};
use crate::engine::{InputMethodEngine, mode_and_reading};
use crate::state::InputState;
use crate::suggestions::{
    append_candidates_dedup, append_dedup_texts, finalize_whole_candidates, lemma_append_dedup_texts,
    lemma_promoted_texts, prioritize_single_hiragana_candidate, promote_composing_candidate, ranked_suggestions,
    should_prioritize_single_hiragana, single_hiragana, texts,
};
use crate::text_scan::texts_of;
use crate::text::{chars_of, chars_start_with, copy_str, opt_view, push_str, seq_ends_with, seq_starts_with, str_eq, string_from_chars};
use crate::types::{EngineAction, EngineResult, InputMode, LiveConversion};

verus! {

/// A live conversion's state as plain values: whether it is on, the text
/// shown, the applied reading and its converted text.
pub open spec fn live_view(l: LiveConversion) -> (bool, Seq<char>, Seq<char>, Seq<char>) {
    (l.enabled, l.text@, l.applied_reading@, l.applied_text@)
}

/// The converted texts of chunks, joined.
pub open spec fn joined_converted(chunks: Seq<crate::async_live::ComposingChunk>) -> Seq<char>
    decreases chunks.len(),
{
    if chunks.len() == 0 {
        Seq::empty()
    } else {
        joined_converted(chunks.drop_last()) + chunks.last().converted@
    }
}

/// What a background result offers for its reading: its own candidates, or
/// else its chunks' converted texts joined.
pub open spec fn offered_texts(result: crate::async_live::LiveInferenceResult) -> Seq<Seq<char>> {
    match result.candidates {
        Some(c) => texts_of(c@),
        None => seq![joined_converted(result.chunks@)],
    }
}

/// The optional text of an optional string slice.
pub open spec fn opt_str_view(o: Option<&str>) -> Option<Seq<char>> {
    match o {
        Some(s) => Some(s@),
        None => None,
    }
}

/// The surface live conversion shows for `reading`: the reading itself
/// for a single hiragana, else the model's surface, if any.
pub open spec fn preferred_surface(mode: InputMode, reading: Seq<char>, model_surface: Option<Seq<char>>) -> Option<Seq<char>> {
    if single_hiragana(mode, reading) { Some(reading) } else { model_surface }
}

/// The applied reading and text that make `surface` the live text of
/// `reading`: the given applied reading with the part of `surface` before
/// the reading's unapplied rest, when `surface` ends with that rest; else
/// the whole reading and surface.
pub open spec fn sync_target(reading: Seq<char>, applied: Seq<char>, surface: Seq<char>) -> (Seq<char>, Seq<char>) {
    let rest = reading.skip(applied.len() as int);
    if seq_starts_with(reading, applied) && seq_ends_with(surface, rest) {
        (applied, surface.take(surface.len() - rest.len()))
    } else {
        (reading, surface)
    }
}

/// The live state after making suggestion 1 (of the texts `ts`) the
/// visible surface.
pub open spec fn synced_live(
    l: (bool, Seq<char>, Seq<char>, Seq<char>),
    reading: Seq<char>,
    applied: Seq<char>,
    ts: Seq<Seq<char>>,
) -> (bool, Seq<char>, Seq<char>, Seq<char>) {
    if l.1.len() == 0 || ts.len() == 0 || l.1 == ts[0] {
        l
    } else {
        let t = sync_target(reading, applied, ts[0]);
        let text = if t.1.len() > 0 && seq_starts_with(reading, t.0) { t.1 + reading.skip(t.0.len() as int) } else { l.1 };
        (l.0, text, t.0, t.1)
    }
}

/// The live state for `reading` without a new conversion result: a single
/// hiragana shows itself; otherwise the applied conversion stays visible
/// with the rest of the reading after it, when the reading still extends
/// it; otherwise nothing is shown.
pub open spec fn unconverted_live(l: (bool, Seq<char>, Seq<char>, Seq<char>), mode: InputMode, reading: Seq<char>) -> (bool, Seq<char>, Seq<char>, Seq<char>) {
    let active = l.0 && mode != InputMode::Katakana;
    if active && single_hiragana(mode, reading) {
        (l.0, reading, reading, reading)
    } else if active && l.3.len() > 0 && seq_starts_with(reading, l.2) {
        (l.0, l.3 + reading.skip(l.2.len() as int), l.2, l.3)
    } else {
        (l.0, Seq::empty(), Seq::empty(), Seq::empty())
    }
}

/// The live state after a conversion of `result` (a prefix of `current`)
/// whose best candidate is `first`: a single hiragana shows itself;
/// otherwise the preferred surface of the converted prefix (the prefix
/// itself when there is none) is applied, followed by the rest of the
/// current reading.
pub open spec fn background_live(
    l: (bool, Seq<char>, Seq<char>, Seq<char>),
    mode: InputMode,
    result: Seq<char>,
    current: Seq<char>,
    first: Option<Seq<char>>,
) -> (bool, Seq<char>, Seq<char>, Seq<char>) {
    if !(l.0 && mode != InputMode::Katakana) {
        (l.0, Seq::empty(), Seq::empty(), Seq::empty())
    } else {
        let ar = if single_hiragana(mode, current) { current } else { result };
        let at = if single_hiragana(mode, current) {
            current
        } else {
            match preferred_surface(mode, result, first) {
                Some(s) => s,
                None => result,
            }
        };
        let text = if at.len() > 0 && seq_starts_with(current, ar) { at + current.skip(ar.len() as int) } else { l.1 };
        (l.0, text, ar, at)
    }
}

/// The part of `current` after `result` when it starts with it, else
/// nothing.
pub open spec fn unconverted_rest(result: Seq<char>, current: Seq<char>) -> Seq<char> {
    if seq_starts_with(current, result) { current.skip(result.len() as int) } else { Seq::empty() }
}

/// After syncing, the live text is suggestion 1, unless nothing was shown,
/// there is no suggestion, or suggestion 1 is empty or is exactly the
/// unconverted rest of the reading.
pub proof fn lemma_synced_live_shows_first(
    l: (bool, Seq<char>, Seq<char>, Seq<char>),
    reading: Seq<char>,
    applied: Seq<char>,
    ts: Seq<Seq<char>>,
)
    requires
        l.1.len() > 0,
        ts.len() > 0,
        ts[0].len() > 0,
        !(seq_starts_with(reading, applied) && ts[0] == reading.skip(applied.len() as int)),
    ensures
        synced_live(l, reading, applied, ts).1 == ts[0],
{
    if l.1 != ts[0] {
        let surface = ts[0];
        let rest = reading.skip(applied.len() as int);
        let t = sync_target(reading, applied, surface);
        if seq_starts_with(reading, applied) && seq_ends_with(surface, rest) {
            assert(surface.len() > rest.len()) by {
                if surface.len() == rest.len() {
                    assert(surface.subrange(0, surface.len() as int) =~= surface);
                }
            }
            assert(t.1.len() > 0);
            assert(t.1 + reading.skip(t.0.len() as int) =~= surface) by {
                assert(surface.subrange(surface.len() - rest.len(), surface.len() as int) == rest);
            }
        } else {
            assert(seq_starts_with(reading, reading)) by {
                assert(reading.subrange(0, reading.len() as int) =~= reading);
            }
            assert(reading.skip(reading.len() as int) =~= Seq::<char>::empty());
            assert(surface + Seq::<char>::empty() =~= surface);
        }
    }
}

/// `s` without its first `n` characters.
fn skip_str(s: &str, n: usize) -> (out: String)
    requires
        n <= s@.len(),
    ensures
        out@ == s@.skip(n as int),
{
    let chars = chars_of(s);
    let rest = crate::text_scan::skip_chars(chars.as_slice(), n);
    string_from_chars(rest.as_slice())
}

/// The readings of chunks, joined.
pub open spec fn joined_readings(chunks: Seq<crate::async_live::ComposingChunk>) -> Seq<char>
    decreases chunks.len(),
{
    if chunks.len() == 0 {
        Seq::empty()
    } else {
        joined_readings(chunks.drop_last()) + chunks.last().reading@
    }
}

/// What the cached conversion chunks offer for `reading`: nothing unless
/// they cover exactly that reading; a single chunk offers its candidates
/// (its conversion when it has none), several chunks their conversions
/// joined.
pub open spec fn cached_chunk_texts(chunks: Seq<crate::async_live::ComposingChunk>, reading: Seq<char>) -> Option<Seq<Seq<char>>> {
    if chunks.len() == 0 || joined_readings(chunks) != reading {
        None
    } else if chunks.len() == 1 && chunks[0].candidates@.len() > 0 {
        Some(texts_of(chunks[0].candidates@))
    } else {
        Some(seq![joined_converted(chunks)])
    }
}

/// The dictionary candidates shown while composing: one page of the user
/// dictionary's then the system dictionary's results.
pub closed spec fn dict_suggestion_texts(dicts: crate::engine::EngineDictionaries, reading: Seq<char>) -> Seq<Seq<char>> {
    crate::conversion::pick_texts(crate::engine_dictionaries::dictionary_picks(dicts, reading, CandidateList::DEFAULT_PAGE_SIZE as int))
}

impl InputMethodEngine {
    /// The texts the cached chunks offer for `reading` (see
    /// [`cached_chunk_texts`]).
    pub fn cached_chunk_candidates(&self, reading: &str) -> (out: Option<Vec<String>>)
        ensures
            match out {
                Some(v) => cached_chunk_texts(self.chunks@, reading@) == Some(texts_of(v@)),
                None => cached_chunk_texts(self.chunks@, reading@) is None,
            },
    {
        let n = self.chunks.len();
        if n == 0 {
            return None;
        }
        let mut joined = String::new();
        let mut converted = String::new();
        let mut k: usize = 0;
        while k < n
            invariant
                n == self.chunks@.len(),
                k <= n,
                joined@ == joined_readings(self.chunks@.take(k as int)),
                converted@ == joined_converted(self.chunks@.take(k as int)),
            decreases n - k,
        {
            assert(self.chunks@.take(k + 1).drop_last() =~= self.chunks@.take(k as int));
            push_str(&mut joined, self.chunks[k].reading.as_str());
            push_str(&mut converted, self.chunks[k].converted.as_str());
            k += 1;
        }
        assert(self.chunks@.take(n as int) =~= self.chunks@);
        if !str_eq(joined.as_str(), reading) {
            return None;
        }
        if n == 1 && self.chunks[0].candidates.len() > 0 {
            let mut out: Vec<String> = Vec::new();
            let cands = &self.chunks[0].candidates;
            let mut i: usize = 0;
            while i < cands.len()
                invariant
                    i <= cands@.len(),
                    texts_of(out@) == texts_of(cands@.take(i as int)),
                decreases cands@.len() - i,
            {
                let ghost before = texts_of(out@);
                let t = copy_str(cands[i].as_str());
                out.push(t);
                assert(texts_of(out@) =~= before.push(cands@[i as int]@));
                assert(cands@.take(i + 1) =~= cands@.take(i as int).push(cands@[i as int]));
                assert(texts_of(out@) =~= texts_of(cands@.take(i + 1)));
                i += 1;
            }
            assert(cands@.take(i as int) =~= cands@);
            return Some(out);
        }
        let mut out: Vec<String> = Vec::new();
        out.push(converted);
        assert(texts_of(out@) =~= seq![joined_converted(self.chunks@)]);
        Some(out)
    }

    /// One page of dictionary candidates for `reading` (see
    /// [`dict_suggestion_texts`]).
    pub fn lookup_dict_candidates(&self, reading: &str) -> (out: Vec<Candidate>)
        ensures
            texts(out@) == dict_suggestion_texts(self.dicts, reading@),
    {
        let found = self.search_dictionaries(reading, CandidateList::DEFAULT_PAGE_SIZE);
        let ghost d = dict_suggestion_texts(self.dicts, reading@);
        assert forall|k: int| 0 <= k < found@.len() implies #[trigger] found@[k].text@ == d[k] by {
            assert(crate::engine_dictionaries::picks_of(found@)[k] == (found@[k].text@, opt_view(found@[k].description)));
        }
        let mut out: Vec<Candidate> = Vec::new();
        let mut i: usize = 0;
        while i < found.len()
            invariant
                i <= found@.len(),
                d.len() == found@.len(),
                forall|k: int| 0 <= k < found@.len() ==> #[trigger] found@[k].text@ == d[k],
                texts(out@) == d.take(i as int),
            decreases found@.len() - i,
        {
            let c = &found[i];
            let ghost before = texts(out@);
            out.push(Candidate {
                text: copy_str(c.text.as_str()),
                reading: Some(copy_str(reading)),
                source_label: None,
                description: crate::candidate::copy_opt(&c.description),
            });
            assert(texts(out@) =~= before.push(d[i as int]));
            assert(d.take(i + 1) =~= d.take(i as int).push(d[i as int]));
            i += 1;
        }
        assert(d.take(i as int) =~= d);
        out
    }

    /// The surface live conversion shows for `reading` (see
    /// [`preferred_surface`]).
    pub fn preferred_live_surface(&self, reading: &str, model_surface: Option<&str>) -> (r: Option<String>)
        ensures
            opt_view(r) == preferred_surface(self.input_mode, reading@, opt_str_view(model_surface)),
    {
        if should_prioritize_single_hiragana(self.input_mode, reading) {
            return Some(copy_str(reading));
        }
        match model_surface {
            Some(s) => Some(copy_str(s)),
            None => None,
        }
    }

    /// Makes the visible live surface candidate 1 again after the list was
    /// filtered and ranked, keeping the applied reading when candidate 1
    /// still ends with the unapplied rest of the reading.
    pub fn sync_live_surface_to_first_candidate(&mut self, reading: &str, applied_reading: &str, candidates: &Vec<Candidate>)
        requires
            old(self).wf(),
        ensures
            final(self).wf(),
            live_view(final(self).live) == synced_live(live_view(old(self).live), reading@, applied_reading@, texts(candidates@)),
            final(self).state == old(self).state,
            final(self).input_buf == old(self).input_buf,
            final(self).input_mode == old(self).input_mode,
            final(self).romaji == old(self).romaji,
            final(self).composing_candidates == old(self).composing_candidates,
            final(self).composing_candidates_model_ready == old(self).composing_candidates_model_ready,
            final(self).segment_learning == old(self).segment_learning,
            final(self).chunks == old(self).chunks,
    {
        if self.live.text.as_str().is_empty() || candidates.len() == 0 {
            return;
        }
        let surface = candidates[0].text.as_str();
        if str_eq(self.live.text.as_str(), surface) {
            return;
        }
        let r = chars_of(reading);
        let a = chars_of(applied_reading);
        let s = chars_of(surface);
        let mut target_reading = copy_str(reading);
        let mut target_text = copy_str(surface);
        if chars_start_with(r.as_slice(), a.as_slice()) {
            let rest = crate::text_scan::skip_chars(r.as_slice(), a.len());
            if rest.len() <= s.len() {
                let tail = crate::text_scan::skip_chars(s.as_slice(), s.len() - rest.len());
                if crate::text::chars_eq(tail.as_slice(), rest.as_slice()) {
                    let head = crate::text_scan::take_chars(s.as_slice(), s.len() - rest.len());
                    target_reading = copy_str(applied_reading);
                    target_text = string_from_chars(head.as_slice());
                }
            }
        }
        proof {
            let rest = reading@.skip(applied_reading@.len() as int);
            if seq_starts_with(reading@, applied_reading@) && seq_ends_with(surface@, rest) {
                assert(surface@.skip(surface@.len() - rest.len()) =~= surface@.subrange(surface@.len() - rest.len(), surface@.len() as int));
            }
        }
        self.live.set_applied_prefix(target_reading, target_text);
        self.live.rebuild_for_reading(reading);
        proof {
            let t = sync_target(reading@, applied_reading@, surface@);
            assert(reading@.subrange(t.0.len() as int, reading@.len() as int) =~= reading@.skip(t.0.len() as int));
        }
    }

    /// Rebuilds the composing preedit and suggestions without waiting for
    /// a model result: the converted prefix stays visible with the newly
    /// typed rest of the reading after it (see [`unconverted_live`]), the
    /// suggestions are the learned ones and one page of dictionary
    /// candidates, ranked (see [`ranked_suggestions`]),
    /// not final, and the live text then becomes suggestion 1.
    #[verifier::rlimit(50)]
    #[verifier::spinoff_prover]
    pub fn refresh_without_model(&mut self) -> (r: EngineResult)
        requires
            old(self).wf(),
            !(old(self).state is Conversion),
        ensures
            final(self).wf(),
            r.consumed,
            final(self).state is Composing,
            final(self).input_buf == old(self).input_buf,
            final(self).input_mode == old(self).input_mode,
            final(self).romaji == old(self).romaji,
            final(self).shows_composing(),
            final(self).composing_display(r, final(self).composing_aux()),
            ({
                let reading = old(self).input_buf.text@;
                let l1 = unconverted_live(live_view(old(self).live), old(self).input_mode, reading);
                let list = ranked_suggestions(old(self).input_mode, reading, l1.1, old(self).plain_suggestion_texts(reading));
                &&& (list.len() == 0 ==> final(self).composing_candidates is None && live_view(final(self).live) == l1)
                &&& (list.len() > 0 ==> (final(self).composing_candidates matches Some(l) && texts(l.items()) == list
                    && l.selection() == 0 && !final(self).composing_candidates_model_ready
                    && live_view(final(self).live) == synced_live(l1, reading, reading, list)))
            }),
    {
        let reading = copy_str(self.input_buf.text.as_str());
        let mut candidates = self.plain_suggestion_candidates(reading.as_str());
        let ghost learned = texts(candidates@);
        let live_active = self.live.enabled && self.input_mode != InputMode::Katakana;
        let preferred = if live_active { self.preferred_live_surface(reading.as_str(), None) } else { None };
        match preferred {
            Some(surface) => {
                self.live.set_applied_prefix(copy_str(reading.as_str()), surface);
                assert(reading@.subrange(0, reading@.len() as int) =~= reading@);
                self.live.rebuild_for_reading(reading.as_str());
                assert(reading@.subrange(reading@.len() as int, reading@.len() as int) =~= Seq::<char>::empty());
                assert(reading@ + Seq::<char>::empty() =~= reading@);
            },
            None => {
                if !live_active || !self.live.rebuild_for_reading(reading.as_str()) {
                    self.live.clear();
                }
            },
        }
        let ghost l1 = live_view(self.live);
        assert(l1 == unconverted_live(live_view(old(self).live), old(self).input_mode, reading@)) by {
            let l = live_view(old(self).live);
            assert(reading@.subrange(l.2.len() as int, reading@.len() as int) =~= reading@.skip(l.2.len() as int));
        }
        if !self.live.text.as_str().is_empty() {
            let live_text = copy_str(self.live.text.as_str());
            let fallback = Candidate::with_reading(live_text.as_str(), reading.as_str());
            proof {
                lemma_promoted_texts(candidates@, live_text@, fallback);
            }
            promote_composing_candidate(&mut candidates, live_text.as_str(), fallback);
        }
        prioritize_single_hiragana_candidate(self.input_mode, reading.as_str(), &mut candidates);
        finalize_whole_candidates(self.input_mode, reading.as_str(), &mut candidates);
        assert(texts(candidates@) == ranked_suggestions(self.input_mode, reading@, l1.1, learned));
        if candidates.len() == 0 {
            let preedit = self.set_composing_state();
            self.clear_composing_candidates();
            let aux = self.format_aux_composing();
            return EngineResult::consumed()
                .with_action(EngineAction::UpdatePreedit(preedit))
                .with_action(EngineAction::HideCandidates)
                .with_action(EngineAction::UpdateAuxText(aux));
        }
        self.sync_live_surface_to_first_candidate(reading.as_str(), reading.as_str(), &candidates);
        let preedit = self.set_composing_state();
        let shown = self.set_composing_candidates(CandidateList::new(candidates));
        let aux = self.format_aux_composing();
        EngineResult::consumed()
            .with_action(EngineAction::UpdatePreedit(preedit))
            .with_action(EngineAction::ShowCandidates(shown))
            .with_action(EngineAction::UpdateAuxText(aux))
    }

    /// Applies a background conversion of `result_reading`, a prefix of the
    /// reading `current_reading` typed since, whose candidates are
    /// `prefix_candidates`: the converted prefix becomes the live text with
    /// the newer rest of the reading after it (see [`background_live`]),
    /// and the suggestions become the learned ones followed by the prefix
    /// candidates with that rest and one page of dictionary candidates,
    /// ranked (see [`ranked_suggestions`]); the
    /// live text then becomes suggestion 1. The suggestions are final only
    /// when the result covers the whole reading.
    #[verifier::rlimit(50)]
    #[verifier::spinoff_prover]
    pub fn apply_background_candidates(&mut self, result_reading: String, current_reading: String, prefix_candidates: Vec<String>) -> (r: EngineResult)
        requires
            old(self).wf(),
            !(old(self).state is Conversion),
        ensures
            final(self).wf(),
            r.consumed,
            final(self).state is Composing,
            final(self).input_buf == old(self).input_buf,
            final(self).input_mode == old(self).input_mode,
            final(self).romaji == old(self).romaji,
            final(self).shows_composing(),
            final(self).composing_display(r, mode_and_reading(final(self).indicator_for(current_reading@),
                current_reading@ + final(self).romaji.buffer_view())),
            ({
                let first = if prefix_candidates@.len() > 0 { Some(prefix_candidates@[0]@) } else { None };
                let l1 = background_live(live_view(old(self).live), old(self).input_mode, result_reading@, current_reading@, first);
                let rest = unconverted_rest(result_reading@, current_reading@);
                let whole = texts_of(prefix_candidates@).map_values(|p: Seq<char>| p + rest);
                let list = ranked_suggestions(old(self).input_mode, current_reading@, l1.1,
                    append_dedup_texts(append_dedup_texts(old(self).learned_texts(current_reading@), whole),
                        dict_suggestion_texts(old(self).dicts, current_reading@)));
                &&& final(self).composing_candidates matches Some(l) && texts(l.items()) == list && l.selection() == 0
                &&& live_view(final(self).live) == synced_live(l1, current_reading@, result_reading@, list)
                &&& final(self).composing_candidates_model_ready == (result_reading@ == current_reading@)
            }),
    {
        let suffix = if crate::text::str_starts_with(current_reading.as_str(), result_reading.as_str()) {
            skip_str(current_reading.as_str(), chars_of(result_reading.as_str()).len())
        } else {
            String::new()
        };
        assert(suffix@ == unconverted_rest(result_reading@, current_reading@));
        let ghost first = if prefix_candidates@.len() > 0 { Some(prefix_candidates@[0]@) } else { None };
        if self.live.enabled && self.input_mode != InputMode::Katakana {
            match self.preferred_live_surface(current_reading.as_str(), None) {
                Some(surface) => {
                    self.live.set_applied_prefix(copy_str(current_reading.as_str()), surface);
                },
                None => {
                    let first_candidate = if prefix_candidates.len() > 0 { Some(prefix_candidates[0].as_str()) } else { None };
                    assert(opt_str_view(first_candidate) == first);
                    let applied = match self.preferred_live_surface(result_reading.as_str(), first_candidate) {
                        Some(s) => s,
                        None => copy_str(result_reading.as_str()),
                    };
                    self.live.set_applied_prefix(copy_str(result_reading.as_str()), applied);
                },
            }
            let ghost before = live_view(self.live);
            self.live.rebuild_for_reading(current_reading.as_str());
            assert(current_reading@.subrange(before.2.len() as int, current_reading@.len() as int)
                =~= current_reading@.skip(before.2.len() as int));
        } else {
            self.live.clear();
        }
        let ghost l1 = live_view(self.live);
        assert(l1 == background_live(live_view(old(self).live), old(self).input_mode, result_reading@, current_reading@, first));
        let mut all = self.lookup_learning_candidates(current_reading.as_str());
        let ghost learned = all@;
        assert(texts(learned) == old(self).learned_texts(current_reading@));
        let ghost whole_texts = texts_of(prefix_candidates@).map_values(|p: Seq<char>| p + suffix@);
        let mut whole: Vec<Candidate> = Vec::new();
        let mut k: usize = 0;
        while k < prefix_candidates.len()
            invariant
                k <= prefix_candidates@.len(),
                whole_texts == texts_of(prefix_candidates@).map_values(|p: Seq<char>| p + suffix@),
                texts(whole@) == whole_texts.take(k as int),
            decreases prefix_candidates@.len() - k,
        {
            let mut text = copy_str(prefix_candidates[k].as_str());
            push_str(&mut text, suffix.as_str());
            let ghost prev = whole@;
            whole.push(Candidate::with_reading(text.as_str(), current_reading.as_str()));
            assert(texts(whole@) =~= texts(prev).push(text@));
            assert(whole_texts.take(k + 1) =~= whole_texts.take(k as int).push(whole_texts[k as int]));
            k += 1;
        }
        assert(whole_texts.take(k as int) =~= whole_texts);
        proof {
            lemma_append_dedup_texts(learned, whole@);
        }
        append_candidates_dedup(&mut all, whole);
        let ghost with_whole = all@;
        assert(texts(with_whole) == append_dedup_texts(old(self).learned_texts(current_reading@), whole_texts));
        let dict = self.lookup_dict_candidates(current_reading.as_str());
        proof {
            lemma_append_dedup_texts(with_whole, dict@);
        }
        append_candidates_dedup(&mut all, dict);
        let ghost merged_texts = texts(all@);
        assert(merged_texts == append_dedup_texts(append_dedup_texts(old(self).learned_texts(current_reading@), whole_texts),
            dict_suggestion_texts(old(self).dicts, current_reading@)));
        if !self.live.text.as_str().is_empty() {
            let live_text = copy_str(self.live.text.as_str());
            let fallback = Candidate::with_reading(live_text.as_str(), current_reading.as_str());
            proof {
                lemma_promoted_texts(all@, live_text@, fallback);
            }
            promote_composing_candidate(&mut all, live_text.as_str(), fallback);
        }
        prioritize_single_hiragana_candidate(self.input_mode, current_reading.as_str(), &mut all);
        finalize_whole_candidates(self.input_mode, current_reading.as_str(), &mut all);
        assert(texts(all@) == ranked_suggestions(self.input_mode, current_reading@, l1.1, merged_texts));
        self.sync_live_surface_to_first_candidate(current_reading.as_str(), result_reading.as_str(), &all);
        let preedit = self.set_composing_state();
        let shown = self.set_composing_candidates(CandidateList::new(all));
        if str_eq(result_reading.as_str(), current_reading.as_str()) {
            self.composing_candidates_model_ready = true;
        }
        let aux = self.format_aux_suggest(current_reading.as_str());
        EngineResult::consumed()
            .with_action(EngineAction::UpdatePreedit(preedit))
            .with_action(EngineAction::ShowCandidates(shown))
            .with_action(EngineAction::UpdateAuxText(aux))
    }

    /// Applies a completed background conversion to the reading prefix it
    /// covers; `None` (and nothing changed) when the result is stale: from
    /// a cancelled revision, outside composing, or for a reading the input
    /// no longer starts with. Without candidates of its own the result
    /// offers its chunks' converted texts joined. The result is applied as
    /// [`apply_background_candidates`] applies it, and its chunks and its
/// inference time are kept.
    #[verifier::rlimit(50)]
    #[verifier::spinoff_prover]
    pub fn poll_live_conversion(&mut self, result: crate::async_live::LiveInferenceResult) -> (r: Option<EngineResult>)
        requires
            old(self).wf(),
        ensures
            final(self).wf(),
            r is None <==> (result.revision <= old(self).live_cancel_revision || !(old(self).state is Composing)
                || !seq_starts_with(old(self).input_buf.text@, result.reading@)),
            r is None ==> *final(self) == *old(self),
            r matches Some(res) ==> res.consumed && final(self).state is Composing
                && final(self).chunks == result.chunks && final(self).conversion_ms == result.conversion_ms
                && final(self).input_buf == old(self).input_buf,
            r is Some ==> ({
                let offered = offered_texts(result);
                let current = old(self).input_buf.text@;
                let first = if offered.len() > 0 { Some(offered[0]) } else { None };
                let l1 = background_live(live_view(old(self).live), old(self).input_mode, result.reading@, current, first);
                let rest = unconverted_rest(result.reading@, current);
                let whole = offered.map_values(|p: Seq<char>| p + rest);
                let list = ranked_suggestions(old(self).input_mode, current, l1.1,
                    append_dedup_texts(append_dedup_texts(old(self).learned_texts(current), whole),
                        dict_suggestion_texts(old(self).dicts, current)));
                &&& final(self).composing_candidates matches Some(l) && texts(l.items()) == list && l.selection() == 0
                &&& live_view(final(self).live) == synced_live(l1, current, result.reading@, list)
                &&& final(self).composing_candidates_model_ready == (result.reading@ == current)
            }),
    {
        let composing = match &self.state {
            InputState::Composing { .. } => true,
            _ => false,
        };
        if result.revision <= self.live_cancel_revision || !composing
            || !crate::text::str_starts_with(self.input_buf.text.as_str(), result.reading.as_str()) {
            return None;
        }
        let crate::async_live::LiveInferenceResult { revision: _, reading, chunks, candidates, conversion_ms } = result;
        let mut top = String::new();
        let mut k: usize = 0;
        while k < chunks.len()
            invariant
                k <= chunks@.len(),
                top@ == joined_converted(chunks@.take(k as int)),
            decreases chunks@.len() - k,
        {
            assert(chunks@.take(k + 1).drop_last() =~= chunks@.take(k as int));
            push_str(&mut top, chunks[k].converted.as_str());
            k += 1;
        }
        assert(chunks@.take(k as int) =~= chunks@);
        let offered = match candidates {
            Some(c) => c,
            None => {
                let mut v: Vec<String> = Vec::new();
                v.push(top);
                v
            },
        };
        let current = copy_str(self.input_buf.text.as_str());
        assert(texts_of(offered@) =~= offered_texts(result));
        let applied = self.apply_background_candidates(reading, current, offered);
        self.chunks = chunks;
        self.conversion_ms = conversion_ms;
        Some(applied)
    }
}

} // verus!

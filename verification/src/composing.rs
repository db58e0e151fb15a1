//! Typing a reading: the empty and composing states of the engine.
use vstd::prelude::*;

use crate::candidate::{Candidate, CandidateList};
use crate::engine::{InputMethodEngine, katakana_seq};
use crate::live_update::{cached_chunk_texts, dict_suggestion_texts, live_view, preferred_surface, synced_live};
use crate::text_scan::texts_of;
use crate::input_buffer::inserted_at;
use crate::kana::{half_kana_seq, hiragana_to_half_katakana, hiragana_to_katakana, katakana_to_hiragana, kata_to_hira_char};
use crate::keycode::{KeyEvent, Keysym};
use crate::preedit::{AttributeType, Preedit, PreeditAttribute};
use crate::romaji::{RomajiConverter, flushed, step};
use crate::segment_learning::{evicted, upserted, LearnedSegment, SegmentLearningCache, ranked};
use crate::state::InputState;
use crate::suggestions::{
    append_candidates_dedup, append_dedup_texts, finalize_whole_candidates, lemma_append_dedup_texts, lemma_promoted_texts,
    prioritize_single_hiragana_candidate,
    promote_composing_candidate, ranked_suggestions, should_prioritize_single_hiragana, single_hiragana, texts,
};
use crate::text::{chars_of, copy_str, opt_view, push_char, str_eq};
use crate::types::{EngineAction, EngineResult, InputMode};

verus! {

/// The form in which F6, F7 and F8 commit the reading.
#[derive(Debug, Clone, Copy, PartialEq, Eq, Structural)]
pub enum ComposingCommitForm {
    Hiragana,
    FullKatakana,
    HalfKatakana,
}

/// `reading` in the given form.
pub open spec fn commit_form(form: ComposingCommitForm, reading: Seq<char>) -> Seq<char> {
    match form {
        ComposingCommitForm::Hiragana => reading.map_values(|c: char| kata_to_hira_char(c)),
        ComposingCommitForm::FullKatakana => katakana_seq(reading),
        ComposingCommitForm::HalfKatakana => half_kana_seq(reading),
    }
}

/// Learning went from `before` to `after` by counting one use of `surface`
/// for `reading` in the context `left`, `right` (at some time), then
/// dropping the least recently used entries beyond capacity; no cache stays
/// no cache.
pub open spec fn learned_into(
    before: Option<SegmentLearningCache>,
    after: Option<SegmentLearningCache>,
    reading: Seq<char>,
    surface: Seq<char>,
    left: Option<Seq<char>>,
    right: Option<Seq<char>>,
) -> bool {
    match before {
        None => after is None,
        Some(c) => after matches Some(c2) && c2.capacity() == c.capacity() && c2.dirty_flag()
            && exists|now: u64, mid: Seq<LearnedSegment>|
                #[trigger] upserted(c.entries(), mid, reading, surface, left, right, now) && c2.entries() == evicted(
                    mid,
                    c.capacity(),
                ),
    }
}

/// Distinct surfaces of learned entries, first occurrence kept.
pub open spec fn distinct_surfaces(s: Seq<LearnedSegment>) -> Seq<Seq<char>>
    decreases s.len(),
{
    if s.len() == 0 {
        Seq::empty()
    } else {
        let before = distinct_surfaces(s.drop_last());
        if before.contains(s.last().surface@) { before } else { before.push(s.last().surface@) }
    }
}

/// What a key press does when nothing is being typed: Ctrl+Space starts a
/// reading with a full-width space; a bare Space commits a half-width space
/// in hiragana mode and is passed on in the other modes; another printable
/// key without Control or Alt starts a reading; every other key is passed on
/// and changes nothing.
pub open spec fn empty_key_outcome(before: InputMethodEngine, after: InputMethodEngine, key: KeyEvent, r: EngineResult) -> bool {
    &&& key.modifiers.control_key && key.keysym.0 == Keysym::SPACE ==> r.consumed
        && after.input_buf.text@ == seq!['\u{3000}'] && after.state is Composing
    &&& !key.modifiers.control_key && !key.modifiers.alt_key && key.keysym.0 == Keysym::SPACE ==>
        (before.input_mode == InputMode::Hiragana ==> (r.consumed && r.actions@.len() == 1
            && (r.actions@[0] matches EngineAction::Commit(t) && t@ == seq![' '])))
        && (before.input_mode != InputMode::Hiragana ==> !r.consumed && after == before)
    &&& key.keysym.char_spec() is Some && key.keysym.0 != Keysym::SPACE && !key.modifiers.control_key
        && !key.modifiers.alt_key ==> r.consumed && after.state is Composing
    &&& key.keysym.char_spec() is None || (key.modifiers.control_key && key.keysym.0 != Keysym::SPACE)
        || (!key.modifiers.control_key && key.modifiers.alt_key) ==> !r.consumed && after == before
}

/// Whether Enter commits the suggestion the user opted into.
pub open spec fn commits_selected(e: InputMethodEngine) -> bool {
    e.composing_candidate_selected && (e.composing_candidates matches Some(l) && l.selected_view() is Some)
}

/// What Enter commits when no suggestion is opted into: the reading, with
/// pending romaji ended, in katakana in katakana mode; otherwise the live
/// text when there is one, else the reading.
pub open spec fn enter_text(e: InputMethodEngine) -> Seq<char> {
    let reading = e.flushed_reading();
    if e.input_mode == InputMode::Katakana {
        katakana_seq(reading)
    } else if e.live.text@.len() > 0 {
        e.live.text@
    } else {
        reading
    }
}

/// Ctrl with A, B, E or F moves the caret while composing.
pub open spec fn caret_shortcut(k: u32) -> bool {
    k == Keysym::KEY_A || k == Keysym::KEY_A_UPPER || k == Keysym::KEY_B || k == Keysym::KEY_B_UPPER
        || k == Keysym::KEY_E || k == Keysym::KEY_E_UPPER || k == Keysym::KEY_F || k == Keysym::KEY_F_UPPER
}

/// The keys other than characters that composing handles.
pub open spec fn composing_special(k: u32) -> bool {
    k == Keysym::RETURN || k == Keysym::ESCAPE || k == Keysym::BACKSPACE || k == Keysym::DELETE || k == Keysym::F6
        || k == Keysym::F7 || k == Keysym::F8 || k == Keysym::F9 || k == Keysym::F10 || k == Keysym::TAB
        || k == Keysym::DOWN || k == Keysym::UP || k == Keysym::LEFT || k == Keysym::RIGHT || k == Keysym::HOME
        || k == Keysym::END
}

/// Typing `c` went from `before` to `after`: as typed at the caret in
/// alphabet mode, otherwise through romaji conversion (the kana it gives
/// are inserted at the caret, the rest stays pending).
pub open spec fn typed_into(before: InputMethodEngine, after: InputMethodEngine, c: char) -> bool {
    let st = step(before.romaji.buffer_view(), c);
    &&& before.input_mode != InputMode::Alphabet ==> after.romaji.buffer_view() == st.1
    &&& before.input_mode != InputMode::Alphabet && before.input_buf.text@.len() + st.0.len() <= usize::MAX
        ==> after.input_buf.text@ == inserted_at(before.input_buf.text@, before.input_buf.cursor_pos as int, st.0)
    &&& before.input_mode == InputMode::Alphabet && before.input_buf.text@.len() + 1 <= usize::MAX
        ==> after.input_buf.text@ == inserted_at(before.input_buf.text@, before.input_buf.cursor_pos as int, seq![c])
}

/// What a key press does while composing: Enter commits and empties the
/// engine; F6, F7 and F8 commit the reading in hiragana, katakana and
/// half-width katakana; Home and Ctrl+A move the caret to the start, End
/// and Ctrl+E to the end; Backspace, Delete, F9, F10 and the arrow keys
/// are always taken. A character typed without Control or Alt goes into
/// the reading (a shifted letter switches to alphabet mode); with Control
/// (other than the caret shortcuts) or Alt it is passed on. Space types a
/// space in alphabet mode, Ctrl+Space a full-width space, and otherwise
/// Space converts unless a suggestion is opted into. Escape is passed on
/// unless it cancels live conversion; Tab, Down and Up walk the
/// suggestions when there are any; other keys are passed on.
pub open spec fn composing_key_outcome(before: InputMethodEngine, after: InputMethodEngine, key: KeyEvent, shift: bool, r: EngineResult) -> bool {
    let fits = before.input_buf.text@.len() + flushed(before.romaji.buffer_view()).len() <= usize::MAX;
    let k = key.keysym.0;
    let ctrl = key.modifiers.control_key;
    let alt = key.modifiers.alt_key;
    let suggestions = (before.composing_candidates matches Some(l) && l.items().len() > 0);
    &&& key.keysym.char_spec() is Some && k != Keysym::SPACE && !ctrl && !alt ==> {
        let c = key.keysym.char_spec()->0;
        &&& r.consumed
        &&& shift_letter(c, shift) ==> after.input_mode == InputMode::Alphabet
        &&& !shift_letter(c, shift) ==> after.input_mode == before.input_mode && typed_into(before, after, c)
    }
    &&& key.keysym.char_spec() is Some && k != Keysym::SPACE && ((ctrl && !caret_shortcut(k)) || (!ctrl && alt))
        ==> !r.consumed && after == before
    &&& key.keysym.char_spec() is None && !composing_special(k) ==> !r.consumed && after == before
    &&& k == Keysym::SPACE && !ctrl && before.input_mode == InputMode::Alphabet ==> r.consumed && typed_into(before, after, ' ')
    &&& k == Keysym::SPACE && !ctrl && before.input_mode != InputMode::Alphabet && !before.composing_candidate_selected
        && fits ==> r.consumed && (after.state is Conversion <==> before.flushed_reading().len() > 0)
    &&& k == Keysym::SPACE && ctrl ==> r.consumed && after.state is Composing
    &&& k == Keysym::ESCAPE && !(before.live.enabled && before.input_mode == InputMode::Hiragana) ==> !r.consumed && after == before
    &&& (k == Keysym::TAB || k == Keysym::DOWN || k == Keysym::UP) ==> (r.consumed <==> suggestions)
        && (!suggestions ==> after == before)
    &&& k == Keysym::RETURN ==> r.consumed && after.state is Empty
    &&& !key.modifiers.control_key && k == Keysym::F6 && fits ==>
        (r.actions@[0] matches EngineAction::Commit(t) && t@ == commit_form(ComposingCommitForm::Hiragana, before.flushed_reading()))
    &&& !key.modifiers.control_key && k == Keysym::F7 && fits ==>
        (r.actions@[0] matches EngineAction::Commit(t) && t@ == commit_form(ComposingCommitForm::FullKatakana, before.flushed_reading()))
    &&& !key.modifiers.control_key && k == Keysym::F8 && fits ==>
        (r.actions@[0] matches EngineAction::Commit(t) && t@ == commit_form(ComposingCommitForm::HalfKatakana, before.flushed_reading()))
    &&& (k == Keysym::HOME || (key.modifiers.control_key && (k == Keysym::KEY_A || k == Keysym::KEY_A_UPPER))) ==>
        r.consumed && after.state is Composing && after.input_buf.cursor_pos == 0
    &&& (k == Keysym::END || (key.modifiers.control_key && (k == Keysym::KEY_E || k == Keysym::KEY_E_UPPER))) && fits ==>
        r.consumed && after.state is Composing && after.input_buf.text@ == before.flushed_reading()
            && after.input_buf.cursor_pos == before.input_buf.text@.len()
    &&& (k == Keysym::BACKSPACE || k == Keysym::DELETE || k == Keysym::F9 || k == Keysym::F10 || k == Keysym::LEFT
        || k == Keysym::RIGHT) ==> r.consumed
}

/// Most learned candidates shown for one reading.
pub const MAX_LEARNING_CANDIDATES: usize = 3;

/// Whether an input event typed a letter with Shift (an upper-case keysym,
/// or Shift held on a letter).
pub open spec fn shift_letter(c: char, shift: bool) -> bool {
    ('A' <= c && c <= 'Z') || (shift && (('a' <= c && c <= 'z') || ('A' <= c && c <= 'Z')))
}

fn to_upper_ascii(c: char) -> (u: char)
    ensures
        ('a' <= c && c <= 'z') ==> u as u32 == c as u32 - 32,
        !('a' <= c && c <= 'z') ==> u == c,
{
    if 'a' <= c && c <= 'z' {
        let v: u8 = (c as u32 - 32) as u8;
        v as char
    } else {
        c
    }
}

fn char_string(c: char) -> (s: String)
    ensures
        s@ == seq![c],
{
    let mut s = String::new();
    push_char(&mut s, c);
    s
}

impl InputMethodEngine {
    /// The reading once pending romaji ends (see [`flushed`]), inserted at
    /// the caret.
    pub open spec fn flushed_reading(&self) -> Seq<char> {
        inserted_at(self.input_buf.text@, self.input_buf.cursor_pos as int, flushed(self.romaji.buffer_view()))
    }

    /// Moves the pending romaji, as it ends, into the reading at the caret.
    pub fn flush_romaji_to_composed(&mut self)
        requires
            old(self).wf(),
        ensures
            final(self).wf(),
            final(self).romaji.buffer_view().len() == 0,
            old(self).input_buf.text@.len() + flushed(old(self).romaji.buffer_view()).len() <= usize::MAX
                ==> final(self).input_buf.text@ == old(self).flushed_reading(),
            final(self).state == old(self).state,
            final(self).input_mode == old(self).input_mode,
            final(self).live == old(self).live,
            final(self).config == old(self).config,
            final(self).surrounding_context == old(self).surrounding_context,
            final(self).segment_learning == old(self).segment_learning,
            final(self).composing_candidates == old(self).composing_candidates,
            final(self).composing_candidate_selected == old(self).composing_candidate_selected,
            final(self).composing_candidates_model_ready == old(self).composing_candidates_model_ready,
            final(self).dicts == old(self).dicts,
    {
        let tail = self.romaji.flush();
        if !tail.as_str().is_empty() {
            self.input_buf.insert(tail.as_str());
        } else {
            proof {
                assert(inserted_at(self.input_buf.text@, self.input_buf.cursor_pos as int, tail@) =~= self.input_buf.text@);
            }
        }
    }

    /// Back to the empty state when nothing is typed any more.
    pub fn try_reset_if_empty(&mut self) -> (r: Option<EngineResult>)
        requires
            old(self).wf(),
        ensures
            final(self).wf(),
            r is Some == (old(self).input_buf.text@.len() == 0 && old(self).romaji.buffer_view().len() == 0),
            r is Some ==> final(self).state is Empty && final(self).composing_candidates is None
                && final(self).live.text@.len() == 0 && r.unwrap().consumed,
            final(self).input_buf == old(self).input_buf,
            final(self).romaji == old(self).romaji,
            final(self).input_mode == old(self).input_mode,
            r is None ==> *final(self) == *old(self),
    {
        if !self.input_buf.text.as_str().is_empty() || !self.romaji.buffer().is_empty() {
            return None;
        }
        self.state = InputState::Empty;
        self.live.clear();
        self.clear_composing_candidates();
        Some(EngineResult::consumed()
            .with_action(EngineAction::UpdatePreedit(Preedit::new()))
            .with_action(EngineAction::HideCandidates)
            .with_action(EngineAction::HideAuxText))
    }

    /// Handles a key when nothing is being typed.
    pub fn process_key_empty(&mut self, key: &KeyEvent, shift_active: bool) -> (r: EngineResult)
        requires
            old(self).wf(),
            old(self).state is Empty,
        ensures
            final(self).wf(),
            empty_key_outcome(*old(self), *final(self), *key, r),
    {
        if key.modifiers.control_key && key.keysym.0 == Keysym::SPACE {
            self.romaji.reset();
            self.input_buf.clear();
            self.input_buf.insert("\u{3000}");
            proof {
                reveal_strlit("\u{3000}");
                assert(self.input_buf.text@ =~= seq!['\u{3000}']);
            }
            let preedit = self.set_composing_state();
            let aux = self.format_aux_composing();
            return EngineResult::consumed()
                .with_action(EngineAction::UpdatePreedit(preedit))
                .with_action(EngineAction::UpdateAuxText(aux));
        }
        if key.keysym.0 == Keysym::SPACE && !key.modifiers.control_key && !key.modifiers.alt_key {
            if self.input_mode == InputMode::Hiragana {
                return EngineResult::consumed().with_action(EngineAction::Commit(char_string(' ')));
            } else {
                return EngineResult::not_consumed();
            }
        }
        if let Some(ch) = key.to_char() {
            if !key.modifiers.control_key && !key.modifiers.alt_key {
                let is_shift_alpha = ('A' <= ch && ch <= 'Z') || (shift_active && (('a' <= ch && ch <= 'z') || ('A' <= ch && ch <= 'Z')));
                if is_shift_alpha && self.input_mode != InputMode::Alphabet {
                    self.input_mode = InputMode::Alphabet;
                }
                let ch = if self.input_mode == InputMode::Alphabet && is_shift_alpha { to_upper_ascii(ch) } else { ch };
                return self.start_input(ch);
            }
        }
        EngineResult::not_consumed()
    }

    /// Starts a new reading with `ch`: as typed in alphabet mode, otherwise
    /// through romaji conversion.
    pub fn start_input(&mut self, ch: char) -> (r: EngineResult)
        requires
            old(self).wf(),
            !(old(self).state is Conversion),
        ensures
            final(self).wf(),
            r.consumed,
            final(self).state is Composing,
            final(self).input_mode == old(self).input_mode,
            old(self).input_mode == InputMode::Alphabet ==> final(self).input_buf.text@ == seq![ch]
                && final(self).romaji.buffer_view().len() == 0,
            old(self).input_mode != InputMode::Alphabet ==> final(self).input_buf.text@ == step(Seq::empty(), ch).0
                && final(self).romaji.buffer_view() == step(Seq::empty(), ch).1,
            final(self).input_buf.cursor_pos == final(self).input_buf.text@.len(),
    {
        self.romaji.reset();
        self.input_buf.clear();
        if self.input_mode == InputMode::Alphabet {
            let s = char_string(ch);
            self.input_buf.insert(s.as_str());
            assert(self.input_buf.text@ =~= seq![ch]);
        } else {
            let emitted = self.romaji.push(ch);
            self.input_buf.insert(emitted.as_str());
            assert(self.input_buf.text@ =~= emitted@);
        }
        let preedit = self.set_composing_state();
        let aux = self.format_aux_composing();
        EngineResult::consumed()
            .with_action(EngineAction::UpdatePreedit(preedit))
            .with_action(EngineAction::UpdateAuxText(aux))
    }

    /// Inserts a full-width space at the caret.
    pub fn input_fullwidth_space(&mut self) -> (r: EngineResult)
        requires
            old(self).wf(),
            old(self).state is Composing,
        ensures
            final(self).wf(),
            r.consumed,
            final(self).state is Composing,
            old(self).input_buf.text@.len() + 1 <= usize::MAX ==> final(self).input_buf.text@ == inserted_at(
                old(self).input_buf.text@,
                old(self).input_buf.cursor_pos as int,
                seq!['\u{3000}'],
            ) && final(self).input_buf.cursor_pos == old(self).input_buf.cursor_pos + 1,
    {
        proof {
            reveal_strlit("\u{3000}");
        }
        self.input_buf.insert("\u{3000}");
        self.refresh_input_state()
    }

    /// Types `ch` while composing: as typed in alphabet mode, otherwise
    /// through romaji conversion, whose output goes in at the caret.
    pub fn input_char(&mut self, ch: char) -> (r: EngineResult)
        requires
            old(self).wf(),
            old(self).state is Composing,
        ensures
            final(self).wf(),
            r.consumed,
            typed_into(*old(self), *final(self), ch),
            final(self).input_mode == old(self).input_mode,
    {
        if self.input_mode == InputMode::Alphabet {
            let s = char_string(ch);
            self.input_buf.insert(s.as_str());
            return self.refresh_input_state();
        }
        let emitted = self.romaji.push(ch);
        if !emitted.as_str().is_empty() {
            self.input_buf.insert(emitted.as_str());
        } else {
            assert(inserted_at(self.input_buf.text@, self.input_buf.cursor_pos as int, emitted@) =~= self.input_buf.text@);
        }
        if let Some(result) = self.try_reset_if_empty() {
            return result;
        }
        self.refresh_input_state()
    }

    /// Learned candidates for `reading` in the editor context, strongest
    /// context first, each surface once, at most three.
    pub fn lookup_learning_candidates(&self, reading: &str) -> (out: Vec<Candidate>)
        ensures
            self.segment_learning is None ==> out@.len() == 0,
            self.segment_learning matches Some(cache) ==> texts(out@) == crate::suggestions::at_most(
                distinct_surfaces(ranked(cache.entries(), reading@, self.left_hint_view(), self.right_hint_view())),
                MAX_LEARNING_CANDIDATES as nat),
            forall|i: int| 0 <= i < out@.len() ==> opt_view((#[trigger] out@[i]).reading) == Some(reading@),
    {
        let mut out: Vec<Candidate> = Vec::new();
        let cache = match &self.segment_learning {
            Some(c) => c,
            None => return out,
        };
        let left = self.left_context_char();
        let right = self.right_context_char();
        let left_ref: Option<&str> = match &left { Some(s) => Some(s.as_str()), None => None };
        let right_ref: Option<&str> = match &right { Some(s) => Some(s.as_str()), None => None };
        let results = cache.lookup(reading, left_ref, right_ref);
        let ghost rk = ranked(cache.entries(), reading@, self.left_hint_view(), self.right_hint_view());
        assert(results@.map_values(|p: (LearnedSegment, u32)| p.0) == rk);
        let mut i: usize = 0;
        while i < results.len()
            invariant
                i <= results@.len(),
                results@.map_values(|p: (LearnedSegment, u32)| p.0) == rk,
                texts(out@) == crate::suggestions::at_most(distinct_surfaces(rk.take(i as int)), MAX_LEARNING_CANDIDATES as nat),
                forall|k: int| 0 <= k < out@.len() ==> opt_view((#[trigger] out@[k]).reading) == Some(reading@),
            decreases results@.len() - i,
        {
            proof {
                assert(rk.take(i + 1).drop_last() =~= rk.take(i as int));
                assert(rk[i as int] == results@[i as int].0);
                lemma_distinct_len(rk.take(i as int));
            }
            let surface = &results[i].0.surface;
            if out.len() < MAX_LEARNING_CANDIDATES {
                let mut seen = false;
                let mut k: usize = 0;
                while k < out.len()
                    invariant
                        k <= out@.len(),
                        seen == exists|j: int| 0 <= j < k && (#[trigger] out@[j]).text@ == surface@,
                    decreases out@.len() - k,
                {
                    if str_eq(out[k].text.as_str(), surface.as_str()) {
                        seen = true;
                    }
                    k += 1;
                }
                proof {
                    let d = distinct_surfaces(rk.take(i as int));
                    assert(texts(out@) == d);
                    assert(d.contains(surface@) == seen) by {
                        if seen {
                            let j = choose|j: int| 0 <= j < out@.len() && (#[trigger] out@[j]).text@ == surface@;
                            assert(texts(out@)[j] == surface@);
                        }
                        if d.contains(surface@) {
                            let j = choose|j: int| 0 <= j < d.len() && d[j] == surface@;
                            assert(out@[j].text@ == texts(out@)[j]);
                        }
                    }
                }
                if !seen {
                    let ghost before = out@;
                    out.push(Candidate {
                        text: copy_str(surface.as_str()),
                        reading: Some(copy_str(reading)),
                        source_label: Some(copy_str("学習")),
                        description: None,
                    });
                    assert(texts(out@) =~= texts(before).push(surface@));
                }
            }
            i += 1;
        }
        assert(rk.take(i as int) =~= rk);
        out
    }

    /// Makes `list` the composing suggestions, not yet opted into, and
    /// returns a copy of it.
    pub fn set_composing_candidates(&mut self, list: CandidateList) -> (shown: CandidateList)
        requires
            old(self).wf(),
            list.wf(),
        ensures
            final(self).wf(),
            shown.items() == list.items() && shown.selection() == list.selection(),
            final(self).composing_candidates matches Some(l) && l.items() == list.items() && l.selection() == list.selection(),
            !final(self).composing_candidate_selected,
            !final(self).composing_candidates_model_ready,
            final(self).state == old(self).state,
            final(self).input_buf == old(self).input_buf,
            final(self).input_mode == old(self).input_mode,
            final(self).romaji == old(self).romaji,
            final(self).live == old(self).live,
            final(self).chunks == old(self).chunks,
    {
        let shown = list.duplicate();
        self.composing_candidates = Some(list);
        self.composing_candidate_selected = false;
        self.composing_candidates_model_ready = false;
        shown
    }

    /// The texts of the learned candidates for `reading`.
    pub open spec fn learned_texts(&self, reading: Seq<char>) -> Seq<Seq<char>> {
        match self.segment_learning {
            Some(cache) => crate::suggestions::at_most(
                distinct_surfaces(ranked(cache.entries(), reading, self.left_hint_view(), self.right_hint_view())),
                MAX_LEARNING_CANDIDATES as nat),
            None => Seq::empty(),
        }
    }

    /// The live text shown for `reading` before suggestions are ranked,
    /// when no conversion result is at hand: a single hiragana shows
    /// itself, anything else nothing.
    pub open spec fn plain_live_text(&self, reading: Seq<char>) -> Seq<char> {
        if self.live.enabled && self.input_mode != InputMode::Katakana && single_hiragana(self.input_mode, reading) {
            reading
        } else {
            Seq::empty()
        }
    }

    /// Whether a refresh keeps the display as it is: alphabet mode with
    /// live text and no kana left to convert.
    pub open spec fn keeps_alphabet_display(&self) -> bool {
        &&& self.input_mode == InputMode::Alphabet
        &&& self.live.text@.len() > 0
        &&& !exists|i: int| 0 <= i < self.input_buf.text@.len() && crate::kana::is_kana_char(#[trigger] self.input_buf.text@[i])
    }

    /// Whether a refresh converts the reading: it is not empty, and in
    /// alphabet mode it still holds kana.
    pub open spec fn converts_reading(&self) -> bool {
        self.input_buf.text@.len() > 0 && (self.input_mode != InputMode::Alphabet
            || exists|i: int| 0 <= i < self.input_buf.text@.len() && crate::kana::is_kana_char(#[trigger] self.input_buf.text@[i]))
    }

    /// What the cached model conversion offers for a refresh: the texts of
    /// [`cached_chunk_texts`] when the reading is converted.
    pub open spec fn refresh_model_texts(&self) -> Option<Seq<Seq<char>>> {
        if self.converts_reading() { cached_chunk_texts(self.chunks@, self.input_buf.text@) } else { None }
    }

    /// The suggestion texts before ranking when no model result is at hand:
    /// the learned ones, then one page of dictionary candidates.
    pub open spec fn plain_suggestion_texts(&self, reading: Seq<char>) -> Seq<Seq<char>> {
        append_dedup_texts(self.learned_texts(reading), dict_suggestion_texts(self.dicts, reading))
    }

    /// The suggestion texts before ranking with the model's texts `model`:
    /// learned ones, then the model's, then one page of dictionary
    /// candidates.
    pub open spec fn model_suggestion_texts(&self, reading: Seq<char>, model: Seq<Seq<char>>) -> Seq<Seq<char>> {
        append_dedup_texts(append_dedup_texts(self.learned_texts(reading), model), dict_suggestion_texts(self.dicts, reading))
    }

    /// The live text a model result gives: a single hiragana shows itself,
    /// otherwise the model's first text.
    pub open spec fn model_live_text(&self, reading: Seq<char>, model: Seq<Seq<char>>) -> Seq<char> {
        match preferred_surface(self.input_mode, reading, if model.len() > 0 { Some(model[0]) } else { None }) {
            Some(t) => t,
            None => Seq::empty(),
        }
    }

    /// Rebuilds the composing preedit and suggestions for the current
    /// reading. In alphabet mode with live text and no kana left the
    /// display stays. When the cached model chunks cover the reading, their
    /// texts are offered (see [`InputMethodEngine::refresh_with_model_texts`]);
    /// otherwise the learned and dictionary candidates are (see
    /// [`InputMethodEngine::refresh_without_model_texts`]). A reading that is
    /// not converted drops the cached chunks.
    pub fn refresh_input_state(&mut self) -> (r: EngineResult)
        requires
            old(self).wf(),
            !(old(self).state is Conversion),
        ensures
            final(self).wf(),
            r.consumed,
            final(self).state is Composing,
            final(self).input_buf == old(self).input_buf,
            final(self).input_mode == old(self).input_mode,
            final(self).romaji == old(self).romaji,
            final(self).shows_composing(),
            old(self).keeps_alphabet_display() ==> final(self).composing_candidates == old(self).composing_candidates
                && final(self).live == old(self).live && r.actions@.len() == 1
                && (r.actions@[0] matches EngineAction::UpdatePreedit(p) && final(self).is_composing_preedit(p)),
            !old(self).keeps_alphabet_display() ==> final(self).composing_display(r, final(self).composing_aux()),
            !old(self).keeps_alphabet_display() && !old(self).converts_reading() ==> final(self).chunks@.len() == 0,
            !old(self).keeps_alphabet_display() && old(self).converts_reading() ==> final(self).chunks == old(self).chunks,
            !old(self).keeps_alphabet_display() ==> match old(self).refresh_model_texts() {
                None => old(self).refreshed_without_model(*final(self)),
                Some(model) => old(self).refreshed_with_model(*final(self), model),
            },
    {
        if self.input_mode == InputMode::Alphabet && !self.live.text.as_str().is_empty()
            && !crate::kana::contains_kana(self.input_buf.text.as_str()) {
            let preedit = self.set_composing_state();
            return EngineResult::consumed().with_action(EngineAction::UpdatePreedit(preedit));
        }
        let reading = copy_str(self.input_buf.text.as_str());
        let convert = !reading.as_str().is_empty()
            && (self.input_mode != InputMode::Alphabet || crate::kana::contains_kana(reading.as_str()));
        assert(convert == old(self).converts_reading());
        if !convert {
            self.chunks = Vec::new();
        }
        let cached = if convert { self.cached_chunk_candidates(reading.as_str()) } else { None };
        match cached {
            None => self.refresh_without_model_texts(reading),
            Some(model) => self.refresh_with_model_texts(reading, model),
        }
    }

    /// What a refresh without model texts leaves: the live text of a single
    /// hiragana (or none) replaced by suggestion 1 when they differ, and the
    /// learned and dictionary candidates ranked (see [`ranked_suggestions`]),
    /// final; no suggestions when there are none.
    pub open spec fn refreshed_without_model(&self, after: InputMethodEngine) -> bool {
        let reading = self.input_buf.text@;
        let live0 = self.plain_live_text(reading);
        let list = ranked_suggestions(self.input_mode, reading, live0, self.plain_suggestion_texts(reading));
        &&& after.live.text@ == (if live0.len() > 0 && list.len() > 0 && list[0].len() > 0 { list[0] } else { live0 })
        &&& (list.len() == 0 ==> after.composing_candidates is None)
        &&& (list.len() > 0 ==> (after.composing_candidates matches Some(l) && texts(l.items()) == list
            && l.selection() == 0 && after.composing_candidates_model_ready))
    }

    /// What a refresh with the model's texts `model` leaves: during live
    /// conversion the live text is the model's (see
    /// [`InputMethodEngine::model_live_text`]) synced to suggestion 1;
    /// otherwise there is none. The suggestions are the learned, model and
    /// dictionary candidates ranked (see [`ranked_suggestions`]), final.
    pub open spec fn refreshed_with_model(&self, after: InputMethodEngine, model: Seq<Seq<char>>) -> bool {
        let reading = self.input_buf.text@;
        let live_on = self.live.enabled && self.input_mode != InputMode::Katakana;
        let live0 = if live_on { self.model_live_text(reading, model) } else { Seq::empty() };
        let list = ranked_suggestions(self.input_mode, reading, live0, self.model_suggestion_texts(reading, model));
        &&& after.composing_candidates matches Some(l) && texts(l.items()) == list && l.selection() == 0
        &&& after.composing_candidates_model_ready
        &&& live_on ==> live_view(after.live) == synced_live(
            (self.live.enabled, live0, self.live.applied_reading@, self.live.applied_text@),
            reading,
            reading,
            list,
        )
        &&& !live_on ==> after.live.text@.len() == 0
    }

    /// The learned candidates of `reading`, then one page of dictionary
    /// candidates (see [`InputMethodEngine::plain_suggestion_texts`]).
    pub(crate) fn plain_suggestion_candidates(&self, reading: &str) -> (out: Vec<Candidate>)
        ensures
            texts(out@) == self.plain_suggestion_texts(reading@),
    {
        let mut all = self.lookup_learning_candidates(reading);
        let ghost learned = all@;
        assert(texts(learned) =~= self.learned_texts(reading@));
        let dict = self.lookup_dict_candidates(reading);
        proof {
            lemma_append_dedup_texts(learned, dict@);
        }
        append_candidates_dedup(&mut all, dict);
        all
    }

    /// Refreshes with the learned and dictionary candidates of `reading`,
    /// the current reading.
    #[verifier::rlimit(100)]
    #[verifier::spinoff_prover]
    fn refresh_without_model_texts(&mut self, reading: String) -> (r: EngineResult)
        requires
            old(self).wf(),
            !(old(self).state is Conversion),
            reading@ == old(self).input_buf.text@,
        ensures
            final(self).wf(),
            r.consumed,
            final(self).state is Composing,
            final(self).input_buf == old(self).input_buf,
            final(self).input_mode == old(self).input_mode,
            final(self).romaji == old(self).romaji,
            final(self).chunks == old(self).chunks,
            final(self).shows_composing(),
            final(self).composing_display(r, final(self).composing_aux()),
            old(self).refreshed_without_model(*final(self)),
    {
        let ghost chunks0 = self.chunks;
        let mut all = self.plain_suggestion_candidates(reading.as_str());
        let ghost merged = texts(all@);
        if self.live.enabled && self.input_mode != InputMode::Katakana {
            self.live.text = if should_prioritize_single_hiragana(self.input_mode, reading.as_str()) {
                copy_str(reading.as_str())
            } else {
                String::new()
            };
        } else {
            self.live.clear();
        }
        let ghost live0 = self.live.text@;
        assert(live0 == old(self).plain_live_text(reading@));
        if !self.live.text.as_str().is_empty() {
            let live_text = copy_str(self.live.text.as_str());
            let fallback = Candidate::with_reading(live_text.as_str(), reading.as_str());
            proof {
                lemma_promoted_texts(all@, live_text@, fallback);
            }
            promote_composing_candidate(&mut all, live_text.as_str(), fallback);
        }
        prioritize_single_hiragana_candidate(self.input_mode, reading.as_str(), &mut all);
        finalize_whole_candidates(self.input_mode, reading.as_str(), &mut all);
        assert(texts(all@) == ranked_suggestions(self.input_mode, reading@, live0, merged));
        assert(self.chunks == chunks0);
        if all.len() == 0 {
            let preedit = self.set_composing_state();
            self.clear_composing_candidates();
            let aux = self.format_aux_composing();
            return EngineResult::consumed()
                .with_action(EngineAction::UpdatePreedit(preedit))
                .with_action(EngineAction::HideCandidates)
                .with_action(EngineAction::UpdateAuxText(aux));
        }
        assert(all@[0].text@ == texts(all@)[0]);
        if !self.live.text.as_str().is_empty() && !str_eq(self.live.text.as_str(), all[0].text.as_str()) {
            let first = copy_str(all[0].text.as_str());
            self.live.set_applied_prefix(copy_str(reading.as_str()), first);
            assert(reading@.subrange(0, reading@.len() as int) =~= reading@);
            assert(reading@.subrange(reading@.len() as int, reading@.len() as int) =~= Seq::<char>::empty());
            assert(first@ + Seq::<char>::empty() =~= first@);
            self.live.rebuild_for_reading(reading.as_str());
        }
        let ghost live_final = self.live.text@;
        let preedit = self.set_composing_state();
        let list = CandidateList::new(all);
        let shown = self.set_composing_candidates(list);
        self.composing_candidates_model_ready = true;
        assert(self.live.text@ == live_final);
        let aux = self.format_aux_composing();
        EngineResult::consumed()
            .with_action(EngineAction::UpdatePreedit(preedit))
            .with_action(EngineAction::ShowCandidates(shown))
            .with_action(EngineAction::UpdateAuxText(aux))
    }

    /// Refreshes with the model's texts `model` for `reading`, the current
    /// reading.
    #[verifier::rlimit(40)]
    #[verifier::spinoff_prover]
    fn refresh_with_model_texts(&mut self, reading: String, model: Vec<String>) -> (r: EngineResult)
        requires
            old(self).wf(),
            !(old(self).state is Conversion),
            reading@ == old(self).input_buf.text@,
        ensures
            final(self).wf(),
            r.consumed,
            final(self).state is Composing,
            final(self).input_buf == old(self).input_buf,
            final(self).input_mode == old(self).input_mode,
            final(self).romaji == old(self).romaji,
            final(self).chunks == old(self).chunks,
            final(self).shows_composing(),
            final(self).composing_display(r, final(self).composing_aux()),
            old(self).refreshed_with_model(*final(self), texts_of(model@)),
    {
        let ghost mt = texts_of(model@);
        let mut all = self.lookup_learning_candidates(reading.as_str());
        let ghost learned = all@;
        assert(texts(learned) =~= old(self).learned_texts(reading@));
        let mut from_model: Vec<Candidate> = Vec::new();
        let mut k: usize = 0;
        while k < model.len()
            invariant
                k <= model@.len(),
                mt == texts_of(model@),
                texts(from_model@) == mt.take(k as int),
            decreases model@.len() - k,
        {
            let ghost before = texts(from_model@);
            from_model.push(Candidate::with_reading(model[k].as_str(), reading.as_str()));
            assert(texts(from_model@) =~= before.push(mt[k as int]));
            assert(mt.take(k + 1) =~= mt.take(k as int).push(mt[k as int]));
            k += 1;
        }
        assert(mt.take(k as int) =~= mt);
        proof {
            lemma_append_dedup_texts(learned, from_model@);
        }
        append_candidates_dedup(&mut all, from_model);
        let ghost with_model = all@;
        let dict = self.lookup_dict_candidates(reading.as_str());
        proof {
            lemma_append_dedup_texts(with_model, dict@);
        }
        append_candidates_dedup(&mut all, dict);
        let ghost merged = texts(all@);
        assert(merged == old(self).model_suggestion_texts(reading@, mt));
        let live_on = self.live.enabled && self.input_mode != InputMode::Katakana;
        if live_on {
            let first: Option<&str> = if model.len() > 0 { Some(model[0].as_str()) } else { None };
            assert(crate::live_update::opt_str_view(first) == (if mt.len() > 0 { Some(mt[0]) } else { None::<Seq<char>> }));
            self.live.text = match self.preferred_live_surface(reading.as_str(), first) {
                Some(t) => t,
                None => String::new(),
            };
        } else {
            self.live.clear();
        }
        let ghost live0 = self.live.text@;
        let ghost l1 = live_view(self.live);
        assert(live0 == (if live_on { old(self).model_live_text(reading@, mt) } else { Seq::<char>::empty() }));
        if !self.live.text.as_str().is_empty() {
            let live_text = copy_str(self.live.text.as_str());
            let fallback = Candidate::with_reading(live_text.as_str(), reading.as_str());
            proof {
                lemma_promoted_texts(all@, live_text@, fallback);
            }
            promote_composing_candidate(&mut all, live_text.as_str(), fallback);
        }
        prioritize_single_hiragana_candidate(self.input_mode, reading.as_str(), &mut all);
        finalize_whole_candidates(self.input_mode, reading.as_str(), &mut all);
        assert(texts(all@) == ranked_suggestions(self.input_mode, reading@, live0, merged));
        if live_on {
            self.sync_live_surface_to_first_candidate(reading.as_str(), reading.as_str(), &all);
        }
        let ghost live_final = self.live;
        let preedit = self.set_composing_state();
        let shown = self.set_composing_candidates(CandidateList::new(all));
        self.composing_candidates_model_ready = true;
        assert(self.live == live_final);
        let aux = self.format_aux_suggest(reading.as_str());
        EngineResult::consumed()
            .with_action(EngineAction::UpdatePreedit(preedit))
            .with_action(EngineAction::ShowCandidates(shown))
            .with_action(EngineAction::UpdateAuxText(aux))
    }

    /// Commits the reading in the form F6 (hiragana), F7 (katakana) or F8
    /// (half-width katakana) asks for, pending romaji included, and goes back
    /// to the empty state (alphabet mode ends).
    pub fn commit_composing_as(&mut self, form: ComposingCommitForm) -> (r: EngineResult)
        requires
            old(self).wf(),
            !(old(self).state is Conversion),
        ensures
            final(self).wf(),
            r.consumed,
            r.actions@.len() == 4,
            old(self).input_buf.text@.len() + flushed(old(self).romaji.buffer_view()).len() <= usize::MAX ==>
                (r.actions@[0] matches EngineAction::Commit(t) && t@ == commit_form(form, old(self).flushed_reading())),
            r.actions@[1] matches EngineAction::UpdatePreedit(p) && p.text_view().len() == 0,
            r.actions@[2] is HideCandidates,
            r.actions@[3] is HideAuxText,
            final(self).state is Empty,
            final(self).input_buf.text@.len() == 0,
            final(self).romaji.buffer_view().len() == 0,
            final(self).input_mode == (if old(self).input_mode == InputMode::Alphabet { InputMode::Hiragana } else { old(self).input_mode }),
    {
        self.flush_romaji_to_composed();
        let reading = copy_str(self.input_buf.text.as_str());
        let text = match form {
            ComposingCommitForm::Hiragana => katakana_to_hiragana(reading.as_str()),
            ComposingCommitForm::FullKatakana => hiragana_to_katakana(reading.as_str()),
            ComposingCommitForm::HalfKatakana => hiragana_to_half_katakana(reading.as_str()),
        };
        self.romaji.reset();
        self.input_buf.clear();
        self.live.clear();
        self.clear_composing_candidates();
        self.state = InputState::Empty;
        if self.input_mode == InputMode::Alphabet {
            self.input_mode = InputMode::Hiragana;
        }
        EngineResult::consumed()
            .with_action(EngineAction::Commit(text))
            .with_action(EngineAction::UpdatePreedit(Preedit::new()))
            .with_action(EngineAction::HideCandidates)
            .with_action(EngineAction::HideAuxText)
    }

    /// Commits the suggestion the user opted into, if any, learning it for
    /// the reading in the editor context.
    fn commit_selected_composing_candidate(&mut self) -> (r: Option<EngineResult>)
        requires
            old(self).wf(),
            !(old(self).state is Conversion),
        ensures
            final(self).wf(),
            r is None ==> *final(self) == *old(self),
            r is None <==> !(old(self).composing_candidate_selected && (old(self).composing_candidates matches Some(l)
                && l.selected_view() is Some)),
            r is Some ==> old(self).composing_candidate_selected,
            r matches Some(res) ==> (res.consumed && final(self).state is Empty
                && res.actions@.len() == 4 && (res.actions@[1] matches EngineAction::Commit(t)
                && (old(self).composing_candidates matches Some(l) && l.selected_view() == Some(t@)))),
            r is Some ==> {
                let t = old(self).composing_candidates.unwrap().selected_view().unwrap();
                &&& final(self).input_buf.text@.len() == 0
                &&& final(self).input_buf.cursor_pos == 0
                &&& final(self).romaji.buffer_view().len() == 0
                &&& final(self).live.text@.len() == 0
                &&& final(self).composing_candidates is None
                &&& !final(self).composing_candidate_selected
                &&& final(self).input_mode == (if old(self).input_mode == InputMode::Alphabet {
                    InputMode::Hiragana
                } else {
                    old(self).input_mode
                })
                &&& t != old(self).input_buf.text@ ==> learned_into(old(self).segment_learning,
                    final(self).segment_learning, old(self).input_buf.text@, t, old(self).left_hint_view(),
                    old(self).right_hint_view())
                &&& t == old(self).input_buf.text@ ==> final(self).segment_learning == old(self).segment_learning
            },
    {
        if !self.composing_candidate_selected {
            return None;
        }
        let text = match &self.composing_candidates {
            Some(list) => match list.selected_text() {
                Some(t) => copy_str(t),
                None => return None,
            },
            None => return None,
        };
        let reading = copy_str(self.input_buf.text.as_str());
        if !str_eq(text.as_str(), reading.as_str()) {
            self.record_segment(reading.as_str(), text.as_str());
        }
        self.romaji.reset();
        self.input_buf.clear();
        self.live.clear();
        self.clear_composing_candidates();
        self.state = InputState::Empty;
        if self.input_mode == InputMode::Alphabet {
            self.input_mode = InputMode::Hiragana;
        }
        Some(EngineResult::consumed()
            .with_action(EngineAction::UpdatePreedit(Preedit::new()))
            .with_action(EngineAction::Commit(text))
            .with_action(EngineAction::HideCandidates)
            .with_action(EngineAction::HideAuxText))
    }

    /// Records a chosen surface for a reading typed in the editor context,
    /// when learning is on.
    pub fn record_segment(&mut self, reading: &str, surface: &str)
        requires
            old(self).wf(),
        ensures
            final(self).wf(),
            final(self).state == old(self).state,
            final(self).input_buf == old(self).input_buf,
            final(self).input_mode == old(self).input_mode,
            final(self).romaji == old(self).romaji,
            final(self).live == old(self).live,
            final(self).config == old(self).config,
            final(self).surrounding_context == old(self).surrounding_context,
            final(self).composing_candidates == old(self).composing_candidates,
            final(self).composing_candidate_selected == old(self).composing_candidate_selected,
            final(self).composing_candidates_model_ready == old(self).composing_candidates_model_ready,
            old(self).segment_learning is None ==> final(self).segment_learning is None,
            old(self).segment_learning is Some ==> final(self).segment_learning is Some,
            learned_into(old(self).segment_learning, final(self).segment_learning, reading@, surface@,
                old(self).left_hint_view(), old(self).right_hint_view()),
    {
        let left = self.left_context_char();
        let right = self.right_context_char();
        let left_ref: Option<&str> = match &left { Some(s) => Some(s.as_str()), None => None };
        let right_ref: Option<&str> = match &right { Some(s) => Some(s.as_str()), None => None };
        match &mut self.segment_learning {
            Some(cache) => cache.record(reading, surface, left_ref, right_ref),
            None => {},
        }
    }

    /// Commits what is being composed: the suggestion opted into, else the
    /// katakana reading in katakana mode, else the live conversion, else the
    /// reading, pending romaji included.
    pub fn commit_composing(&mut self) -> (r: EngineResult)
        requires
            old(self).wf(),
            !(old(self).state is Conversion),
        ensures
            final(self).wf(),
            r.consumed,
            final(self).state is Empty,
            final(self).input_buf.text@.len() == 0,
            final(self).live.text@.len() == 0,
            final(self).composing_candidates is None,
            // An opted-into suggestion is committed as it is.
            commits_selected(*old(self)) ==> r.actions@.len() == 4 && (r.actions@[1] matches EngineAction::Commit(t)
                && (old(self).composing_candidates matches Some(l) && l.selected_view() == Some(t@))),
            // Otherwise the reading, the live text or the katakana reading.
            !commits_selected(*old(self))
                && old(self).input_buf.text@.len() + flushed(old(self).romaji.buffer_view()).len() <= usize::MAX ==> {
                let t = enter_text(*old(self));
                &&& t.len() == 0 ==> r.actions@.len() == 2 && r.actions@[0] is HideCandidates && r.actions@[1] is HideAuxText
                    && final(self).input_mode == old(self).input_mode
                &&& t.len() > 0 ==> {
                    &&& r.actions@.len() == 4
                    &&& r.actions@[0] matches EngineAction::UpdatePreedit(p) && p.text_view().len() == 0
                    &&& r.actions@[1] matches EngineAction::Commit(c) && c@ == t
                    &&& r.actions@[2] is HideCandidates
                    &&& r.actions@[3] is HideAuxText
                    &&& final(self).input_mode == (if old(self).input_mode == InputMode::Alphabet {
                        InputMode::Hiragana
                    } else {
                        old(self).input_mode
                    })
                }
            },
    {
        if let Some(result) = self.commit_selected_composing_candidate() {
            return result;
        }
        self.flush_romaji_to_composed();
        let reading = copy_str(self.input_buf.text.as_str());
        let text = if self.input_mode == InputMode::Katakana {
            hiragana_to_katakana(reading.as_str())
        } else if !self.live.text.as_str().is_empty() {
            copy_str(self.live.text.as_str())
        } else {
            copy_str(reading.as_str())
        };
        if text.as_str().is_empty() {
            self.state = InputState::Empty;
            self.input_buf.clear();
            self.live.clear();
            self.clear_composing_candidates();
            return EngineResult::consumed()
                .with_action(EngineAction::HideCandidates)
                .with_action(EngineAction::HideAuxText);
        }
        self.romaji.reset();
        self.input_buf.clear();
        self.live.clear();
        self.clear_composing_candidates();
        self.state = InputState::Empty;
        if self.input_mode == InputMode::Alphabet {
            self.input_mode = InputMode::Hiragana;
        }
        EngineResult::consumed()
            .with_action(EngineAction::UpdatePreedit(Preedit::new()))
            .with_action(EngineAction::Commit(text))
            .with_action(EngineAction::HideCandidates)
            .with_action(EngineAction::HideAuxText)
    }

    /// Leaves live conversion and suggestion selection, keeping the raw
    /// reading as ordinary composing text.
    fn cancel_live_composing(&mut self) -> (r: EngineResult)
        requires
            old(self).wf(),
            !(old(self).state is Conversion),
        ensures
            final(self).wf(),
            r.consumed,
            final(self).state is Composing,
            final(self).live.text@.len() == 0,
            final(self).composing_candidates is None,
            final(self).input_buf == old(self).input_buf,
    {
        self.live.clear();
        self.clear_composing_candidates();
        let preedit = self.set_composing_state();
        let aux = self.format_aux_composing();
        EngineResult::consumed()
            .with_action(EngineAction::UpdatePreedit(preedit))
            .with_action(EngineAction::HideCandidates)
            .with_action(EngineAction::UpdateAuxText(aux))
    }

    /// Shows the suggestion list with its selection as the preedit.
    pub fn update_composing_candidate_selection(&mut self, candidates: CandidateList) -> (r: EngineResult)
        requires
            old(self).wf(),
            candidates.wf(),
            old(self).state is Composing,
        ensures
            final(self).wf(),
            r.consumed,
            final(self).state matches InputState::Composing { preedit, .. }
                && preedit.text_view() == (match candidates.selected_view() { Some(t) => t, None => Seq::<char>::empty() }),
            final(self).composing_candidates matches Some(l) && l.items() == candidates.items() && l.selection() == candidates.selection(),
            final(self).input_buf == old(self).input_buf,
            final(self).composing_candidate_selected == old(self).composing_candidate_selected,
    {
        let selected_text = match candidates.selected_text() {
            Some(t) => copy_str(t),
            None => String::new(),
        };
        let reading = match candidates.selected() {
            Some(c) => match &c.reading {
                Some(r) => copy_str(r.as_str()),
                None => copy_str(self.input_buf.text.as_str()),
            },
            None => copy_str(self.input_buf.text.as_str()),
        };
        let shown = candidates.duplicate();
        self.composing_candidates = Some(candidates);
        let n = chars_of(selected_text.as_str()).len();
        let mut preedit = Preedit::with_text(selected_text.as_str());
        let mut attrs: Vec<PreeditAttribute> = Vec::new();
        attrs.push(PreeditAttribute::new(0, n, AttributeType::Highlight));
        preedit.set_attributes(attrs);
        let copy = preedit.duplicate();
        match &mut self.state {
            InputState::Composing { preedit: p, .. } => {
                *p = copy;
            },
            _ => {},
        }
        let aux = self.format_aux_conversion_with_page(reading.as_str(), None);
        EngineResult::consumed()
            .with_action(EngineAction::UpdatePreedit(preedit))
            .with_action(EngineAction::ShowCandidates(shown))
            .with_action(EngineAction::UpdateAuxText(aux))
    }

    /// Tab or Down while composing: the first press opts into the visible
    /// suggestion, later presses move to the next one; past the last one,
    /// or with a live conversion already showing the first, explicit
    /// conversion starts.
    fn select_next_composing_candidate(&mut self) -> (r: EngineResult)
        requires
            old(self).wf(),
            old(self).state is Composing,
        ensures
            final(self).wf(),
            !(old(self).composing_candidates matches Some(l) && l.items().len() > 0) ==> !r.consumed && *final(self)
                == *old(self),
            old(self).composing_candidates is Some && old(self).composing_candidates.unwrap().items().len() > 0 ==> {
                let l = old(self).composing_candidates.unwrap();
                let converts = (old(self).live.text@.len() > 0 && old(self).composing_candidates_model_ready)
                    || (old(self).composing_candidate_selected && l.selection() + 1 >= l.items().len());
                &&& r.consumed
                &&& converts ==> final(self).composing_candidates is None && final(self).romaji.buffer_view().len() == 0
                    && (final(self).state is Conversion <==> final(self).input_buf.text@.len() > 0)
                &&& !converts ==> {
                    &&& final(self).composing_candidate_selected
                    &&& final(self).input_buf == old(self).input_buf
                    &&& final(self).composing_candidates matches Some(l2) && l2.items() == l.items()
                        && l2.selection() == (if old(self).composing_candidate_selected { (l.selection() + 1) as int } else {
                        l.selection() as int
                    })
                    &&& final(self).state matches InputState::Composing { preedit, .. } && preedit.text_view()
                        == l.items()[final(self).composing_candidates.unwrap().selection() as int].text@
                }
            },
    {
        let mut candidates = match &self.composing_candidates {
            Some(l) => l.duplicate(),
            None => return EngineResult::not_consumed(),
        };
        if candidates.is_empty() {
            return EngineResult::not_consumed();
        }
        if !self.live.text.as_str().is_empty() && self.composing_candidates_model_ready {
            return self.start_conversion(false);
        }
        if self.composing_candidate_selected {
            if candidates.cursor() >= candidates.len() - 1 {
                return self.start_conversion(false);
            }
            candidates.move_next();
        } else {
            self.composing_candidate_selected = true;
        }
        self.update_composing_candidate_selection(candidates)
    }

    /// Up while composing: the first press opts into the visible
    /// suggestion, later presses move back.
    fn select_prev_composing_candidate(&mut self) -> (r: EngineResult)
        requires
            old(self).wf(),
            old(self).state is Composing,
        ensures
            final(self).wf(),
            !(old(self).composing_candidates matches Some(l) && l.items().len() > 0) ==> !r.consumed && *final(self)
                == *old(self),
            old(self).composing_candidates is Some && old(self).composing_candidates.unwrap().items().len() > 0 ==> {
                let l = old(self).composing_candidates.unwrap();
                &&& r.consumed
                &&& final(self).composing_candidate_selected
                &&& final(self).input_buf == old(self).input_buf
                &&& final(self).composing_candidates matches Some(l2) && l2.items() == l.items() && l2.selection() == (if old(
                    self,
                ).composing_candidate_selected && l.selection() > 0 {
                    l.selection() - 1
                } else {
                    l.selection() as int
                })
                &&& final(self).state matches InputState::Composing { preedit, .. } && preedit.text_view()
                    == l.items()[final(self).composing_candidates.unwrap().selection() as int].text@
            },
    {
        let mut candidates = match &self.composing_candidates {
            Some(l) => l.duplicate(),
            None => return EngineResult::not_consumed(),
        };
        if candidates.is_empty() {
            return EngineResult::not_consumed();
        }
        if self.composing_candidate_selected {
            candidates.move_prev();
        } else {
            self.composing_candidate_selected = true;
        }
        self.update_composing_candidate_selection(candidates)
    }

    /// Moves the caret to `new_pos` (pending romaji ends first).
    fn move_caret(&mut self, new_pos: usize) -> (r: EngineResult)
        requires
            old(self).wf(),
            !(old(self).state is Conversion),
        ensures
            final(self).wf(),
            r.consumed,
            final(self).state is Composing,
            final(self).romaji.buffer_view().len() == 0,
            final(self).live.text@.len() == 0,
            final(self).input_mode == old(self).input_mode,
            old(self).input_buf.text@.len() + flushed(old(self).romaji.buffer_view()).len() <= usize::MAX
                ==> final(self).input_buf.text@ == old(self).flushed_reading(),
            new_pos <= final(self).input_buf.text@.len() ==> final(self).input_buf.cursor_pos == new_pos,
    {
        if !self.romaji.buffer().is_empty() {
            self.flush_romaji_to_composed();
        } else {
            proof {
                assert(flushed(self.romaji.buffer_view()) =~= Seq::<char>::empty());
                assert(inserted_at(self.input_buf.text@, self.input_buf.cursor_pos as int, Seq::<char>::empty())
                    =~= self.input_buf.text@);
            }
        }
        self.live.clear();
        if new_pos <= chars_of(self.input_buf.text.as_str()).len() {
            self.input_buf.cursor_pos = new_pos;
        }
        let preedit = self.set_composing_state();
        let aux = self.format_aux_composing();
        EngineResult::consumed()
            .with_action(EngineAction::UpdatePreedit(preedit))
            .with_action(EngineAction::HideCandidates)
            .with_action(EngineAction::UpdateAuxText(aux))
    }

    /// Moves the caret one character left (pending romaji ends first).
    pub fn move_caret_left(&mut self) -> (r: EngineResult)
        requires
            old(self).wf(),
            !(old(self).state is Conversion),
        ensures
            final(self).wf(),
            r.consumed,
            final(self).state is Composing,
            final(self).romaji.buffer_view().len() == 0,
            final(self).live.text@.len() == 0,
            old(self).input_buf.text@.len() + flushed(old(self).romaji.buffer_view()).len() <= usize::MAX ==> {
                &&& final(self).input_buf.text@ == old(self).flushed_reading()
                &&& final(self).input_buf.cursor_pos == if old(self).input_buf.cursor_pos > 0 {
                    old(self).input_buf.cursor_pos - 1
                } else {
                    0
                }
            },
    {
        let pos = if self.input_buf.cursor_pos > 0 { self.input_buf.cursor_pos - 1 } else { 0 };
        self.move_caret(pos)
    }

    /// Moves the caret one character right, up to the end of the reading as
    /// it was (pending romaji ends first).
    pub fn move_caret_right(&mut self) -> (r: EngineResult)
        requires
            old(self).wf(),
            !(old(self).state is Conversion),
        ensures
            final(self).wf(),
            r.consumed,
            final(self).state is Composing,
            final(self).romaji.buffer_view().len() == 0,
            final(self).live.text@.len() == 0,
            old(self).input_buf.text@.len() + flushed(old(self).romaji.buffer_view()).len() <= usize::MAX ==> {
                &&& final(self).input_buf.text@ == old(self).flushed_reading()
                &&& final(self).input_buf.cursor_pos == if old(self).input_buf.cursor_pos < old(self).input_buf.text@.len() {
                    old(self).input_buf.cursor_pos + 1
                } else {
                    old(self).input_buf.text@.len() as int
                }
            },
    {
        let total = chars_of(self.input_buf.text.as_str()).len();
        let pos = if self.input_buf.cursor_pos < total { self.input_buf.cursor_pos + 1 } else { total };
        self.move_caret(pos)
    }

    /// Moves the caret to the start (pending romaji ends first).
    pub fn move_caret_home(&mut self) -> (r: EngineResult)
        requires
            old(self).wf(),
            !(old(self).state is Conversion),
        ensures
            final(self).wf(),
            r.consumed,
            final(self).state is Composing,
            final(self).input_buf.cursor_pos == 0,
            final(self).romaji.buffer_view().len() == 0,
            final(self).live.text@.len() == 0,
            old(self).input_buf.text@.len() + flushed(old(self).romaji.buffer_view()).len() <= usize::MAX
                ==> final(self).input_buf.text@ == old(self).flushed_reading(),
    {
        self.move_caret(0)
    }

    /// Moves the caret to where the reading ended before pending romaji is
    /// ended (which then ends first).
    pub fn move_caret_end(&mut self) -> (r: EngineResult)
        requires
            old(self).wf(),
            !(old(self).state is Conversion),
        ensures
            final(self).wf(),
            r.consumed,
            final(self).state is Composing,
            final(self).romaji.buffer_view().len() == 0,
            final(self).live.text@.len() == 0,
            old(self).input_buf.text@.len() + flushed(old(self).romaji.buffer_view()).len() <= usize::MAX ==> {
                &&& final(self).input_buf.text@ == old(self).flushed_reading()
                &&& final(self).input_buf.cursor_pos == old(self).input_buf.text@.len()
            },
    {
        let total = chars_of(self.input_buf.text.as_str()).len();
        self.move_caret(total)
    }

    /// After a deletion left valid unfinished romaji (`s`, `sh`) just before
    /// the caret, moves it back into the romaji converter so the next vowel
    /// completes it. True when something was moved. Either way the reading
    /// with the pending romaji at the caret is the reading as it was.
    fn restore_pending_romaji_before_cursor(&mut self) -> (restored: bool)
        requires
            old(self).wf(),
        ensures
            final(self).wf(),
            final(self).state == old(self).state,
            final(self).input_mode == old(self).input_mode,
            final(self).live == old(self).live,
            inserted_at(final(self).input_buf.text@, final(self).input_buf.cursor_pos as int, final(self).romaji.buffer_view())
                == old(self).input_buf.text@,
            !restored ==> final(self).input_buf == old(self).input_buf && final(self).romaji.buffer_view().len() == 0,
    {
        self.romaji.reset();
        proof {
            assert(inserted_at(self.input_buf.text@, self.input_buf.cursor_pos as int, Seq::<char>::empty())
                =~= self.input_buf.text@);
        }
        if self.input_mode != InputMode::Hiragana || self.input_buf.cursor_pos == 0 {
            return false;
        }
        let chars = chars_of(self.input_buf.text.as_str());
        let cursor = self.input_buf.cursor_pos;
        let mut ascii_start: usize = cursor;
        while ascii_start > 0 && 'a' <= chars[ascii_start - 1] && chars[ascii_start - 1] <= 'z'
            invariant
                ascii_start <= cursor <= chars@.len(),
            decreases ascii_start,
        {
            ascii_start -= 1;
        }
        let mut start = ascii_start;
        while start < cursor
            invariant
                ascii_start <= start <= cursor <= chars@.len(),
                chars@ == self.input_buf.text@,
                chars@ == old(self).input_buf.text@,
                cursor == self.input_buf.cursor_pos,
                self.input_buf == old(self).input_buf,
                self.romaji.buffer_view().len() == 0,
                self.wf(),
                self.state == old(self).state,
                self.input_mode == old(self).input_mode,
                self.live == old(self).live,
            decreases cursor - start,
        {
            let mut converter = RomajiConverter::new();
            let mut emitted_any = false;
            let mut k = start;
            while k < cursor
                invariant
                    start <= k <= cursor <= chars@.len(),
                decreases cursor - k,
            {
                let e = converter.push(chars[k]);
                if !e.as_str().is_empty() {
                    emitted_any = true;
                }
                k += 1;
            }
            let suffix = crate::text::slice_to_string(chars.as_slice(), start, cursor);
            if !emitted_any && str_eq(converter.buffer(), suffix.as_str()) {
                let ghost orig = chars@;
                let mut n = cursor - start;
                while n > 0
                    invariant
                        n <= cursor - start,
                        start <= cursor <= orig.len(),
                        self.input_buf.wf(),
                        self.input_buf.text@ == orig.take(start as int) + orig.skip(start + (cursor - start - n)),
                        self.state == old(self).state,
                        self.input_mode == old(self).input_mode,
                        self.live == old(self).live,
                        self.wf(),
                    decreases n,
                {
                    let ghost before = self.input_buf.text@;
                    self.input_buf.remove_char_at(start);
                    proof {
                        let m = start + (cursor - start - n);
                        assert(before.len() == orig.len() - (m - start));
                        assert(start < before.len());
                        assert(before.remove(start as int) =~= orig.take(start as int) + orig.skip(m + 1));
                    }
                    n -= 1;
                }
                assert(orig.take(start as int) + orig.skip(cursor as int) == self.input_buf.text@);
                if start <= chars_of(self.input_buf.text.as_str()).len() {
                    self.input_buf.cursor_pos = start;
                }
                self.romaji = converter;
                proof {
                    assert(self.romaji.buffer_view() == orig.subrange(start as int, cursor as int));
                    assert(inserted_at(self.input_buf.text@, start as int, orig.subrange(start as int, cursor as int))
                        =~= orig);
                }
                return true;
            }
            start += 1;
        }
        false
    }

    /// Backspace while composing: removes the last pending romaji character,
    /// else the character before the caret (and any unfinished romaji that
    /// then ends the reading before the caret becomes pending again).
    pub fn backspace_composing(&mut self) -> (r: EngineResult)
        requires
            old(self).wf(),
            !(old(self).state is Conversion),
        ensures
            final(self).wf(),
            r.consumed,
            old(self).romaji.buffer_view().len() > 0 ==> final(self).input_buf == old(self).input_buf
                && final(self).romaji.buffer_view() == old(self).romaji.buffer_view().drop_last()
                && final(self).live.text@.len() == 0,
            old(self).romaji.buffer_view().len() == 0 && old(self).input_buf.cursor_pos == 0 ==> *final(self) == *old(self),
            old(self).romaji.buffer_view().len() == 0 && old(self).input_buf.cursor_pos > 0 ==> {
                &&& inserted_at(final(self).input_buf.text@, final(self).input_buf.cursor_pos as int, final(self).romaji.buffer_view())
                    == old(self).input_buf.text@.remove(old(self).input_buf.cursor_pos - 1)
                &&& (old(self).input_buf.text@.len() == 1 ==> final(self).state is Empty)
                &&& (old(self).input_buf.text@.len() > 1 ==> final(self).state is Composing)
            },
    {
        if !self.romaji.buffer().is_empty() {
            self.romaji.backspace();
            self.live.clear();
            self.clear_composing_candidates();
            if let Some(result) = self.try_reset_if_empty() {
                return result;
            }
            let preedit = self.set_composing_state();
            let aux = self.format_aux_composing();
            return EngineResult::consumed()
                .with_action(EngineAction::UpdatePreedit(preedit))
                .with_action(EngineAction::UpdateAuxText(aux));
        }
        if self.input_buf.cursor_pos > 0 {
            self.input_buf.remove_char_before_cursor();
        } else {
            return EngineResult::consumed();
        }
        let restored = self.restore_pending_romaji_before_cursor();
        proof {
            if self.input_buf.text@.len() == 0 && self.romaji.buffer_view().len() == 0 {
                assert(inserted_at(self.input_buf.text@, self.input_buf.cursor_pos as int, self.romaji.buffer_view())
                    =~= Seq::<char>::empty());
            }
            if old(self).input_buf.text@.len() > 1 {
                assert(old(self).input_buf.text@.remove(old(self).input_buf.cursor_pos - 1).len() > 0);
                assert(inserted_at(self.input_buf.text@, self.input_buf.cursor_pos as int, self.romaji.buffer_view()).len()
                    == self.input_buf.text@.len() + self.romaji.buffer_view().len());
            }
        }
        if let Some(result) = self.try_reset_if_empty() {
            return result;
        }
        if restored {
            self.live.clear();
            self.clear_composing_candidates();
            let preedit = self.set_composing_state();
            let aux = self.format_aux_composing();
            return EngineResult::consumed()
                .with_action(EngineAction::UpdatePreedit(preedit))
                .with_action(EngineAction::HideCandidates)
                .with_action(EngineAction::UpdateAuxText(aux));
        }
        self.refresh_input_state()
    }

    /// Delete while composing: removes the character at the caret (nothing
    /// while romaji is pending or the caret is at the end).
    pub fn delete_composing(&mut self) -> (r: EngineResult)
        requires
            old(self).wf(),
            !(old(self).state is Conversion),
        ensures
            final(self).wf(),
            r.consumed,
            old(self).romaji.buffer_view().len() > 0 ==> *final(self) == *old(self),
            old(self).romaji.buffer_view().len() == 0 && old(self).input_buf.cursor_pos == old(self).input_buf.text@.len()
                ==> final(self).input_buf.text@ == old(self).input_buf.text@ && final(self).state == old(self).state,
            old(self).romaji.buffer_view().len() == 0 && old(self).input_buf.cursor_pos < old(self).input_buf.text@.len() ==> {
                &&& final(self).input_buf.text@ == old(self).input_buf.text@.remove(old(self).input_buf.cursor_pos as int)
                &&& final(self).input_buf.cursor_pos == old(self).input_buf.cursor_pos
                &&& final(self).romaji.buffer_view().len() == 0
                &&& (old(self).input_buf.text@.len() == 1 ==> final(self).state is Empty)
                &&& (old(self).input_buf.text@.len() > 1 ==> final(self).state is Composing)
            },
    {
        if !self.romaji.buffer().is_empty() {
            return EngineResult::consumed();
        }
        if self.input_buf.remove_char_at_cursor().is_none() {
            return EngineResult::consumed();
        }
        if let Some(result) = self.try_reset_if_empty() {
            return result;
        }
        self.refresh_input_state()
    }

    /// Handles a key while composing.
    pub fn process_key_composing(&mut self, key: &KeyEvent, shift_active: bool) -> (r: EngineResult)
        requires
            old(self).wf(),
            old(self).state is Composing,
        ensures
            final(self).wf(),
            composing_key_outcome(*old(self), *final(self), *key, shift_active, r),
    {
        if key.modifiers.control_key {
            let k = key.keysym.0;
            if k == Keysym::SPACE {
                return self.input_fullwidth_space();
            } else if k == Keysym::KEY_A || k == Keysym::KEY_A_UPPER {
                return self.move_caret_home();
            } else if k == Keysym::KEY_B || k == Keysym::KEY_B_UPPER {
                return self.move_caret_left();
            } else if k == Keysym::KEY_E || k == Keysym::KEY_E_UPPER {
                return self.move_caret_end();
            } else if k == Keysym::KEY_F || k == Keysym::KEY_F_UPPER {
                return self.move_caret_right();
            }
        }
        let k = key.keysym.0;
        if k == Keysym::RETURN {
            self.commit_composing()
        } else if k == Keysym::ESCAPE {
            if self.live.enabled && self.input_mode == InputMode::Hiragana {
                self.cancel_live_composing()
            } else {
                EngineResult::not_consumed()
            }
        } else if k == Keysym::BACKSPACE {
            self.backspace_composing()
        } else if k == Keysym::DELETE {
            self.delete_composing()
        } else if k == Keysym::F6 {
            self.commit_composing_as(ComposingCommitForm::Hiragana)
        } else if k == Keysym::F7 {
            self.commit_composing_as(ComposingCommitForm::FullKatakana)
        } else if k == Keysym::F8 {
            self.commit_composing_as(ComposingCommitForm::HalfKatakana)
        } else if k == Keysym::F9 || k == Keysym::F10 {
            EngineResult::consumed()
        } else if k == Keysym::SPACE && self.input_mode == InputMode::Alphabet {
            self.input_char(' ')
        } else if k == Keysym::TAB || k == Keysym::DOWN {
            self.select_next_composing_candidate()
        } else if k == Keysym::UP {
            self.select_prev_composing_candidate()
        } else if k == Keysym::SPACE && self.composing_candidate_selected {
            self.select_next_composing_candidate()
        } else if k == Keysym::SPACE {
            self.start_conversion(false)
        } else if k == Keysym::LEFT {
            self.move_caret_left()
        } else if k == Keysym::RIGHT {
            self.move_caret_right()
        } else if k == Keysym::HOME {
            self.move_caret_home()
        } else if k == Keysym::END {
            self.move_caret_end()
        } else {
            match key.to_char() {
                Some(ch) => {
                    if key.modifiers.control_key || key.modifiers.alt_key {
                        return EngineResult::not_consumed();
                    }
                    let is_shift_alpha = ('A' <= ch && ch <= 'Z') || (shift_active && (('a' <= ch && ch <= 'z') || ('A' <= ch && ch <= 'Z')));
                    if is_shift_alpha && self.input_mode != InputMode::Alphabet {
                        self.input_mode = InputMode::Alphabet;
                        self.flush_romaji_to_composed();
                        self.live.clear();
                    }
                    let ch = if self.input_mode == InputMode::Alphabet && is_shift_alpha { to_upper_ascii(ch) } else { ch };
                    self.input_char(ch)
                },
                None => EngineResult::not_consumed(),
            }
        }
    }
}

proof fn lemma_distinct_len(s: Seq<LearnedSegment>)
    ensures
        distinct_surfaces(s).len() <= s.len(),
    decreases s.len(),
{
    if s.len() > 0 {
        lemma_distinct_len(s.drop_last());
    }
}

} // verus!

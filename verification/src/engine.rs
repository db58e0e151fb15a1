//! The input-method engine: key events in; preedit, candidates and commits
//! out. This module holds the engine's state, what it shows, and the
//! editor context; composing and conversion have modules of their own.
use vstd::prelude::*;

use crate::candidate::CandidateList;
use crate::dict::Dictionary;
use crate::input_buffer::InputBuffer;
use crate::kana::{hira_to_kata_char, hiragana_to_katakana};
use crate::preedit::{AttributeType, Preedit, PreeditAttribute};
use crate::romaji::RomajiConverter;
use crate::segment_learning::SegmentLearningCache;
use crate::state::{ConversionSession, InputState, ranges_valid};
use crate::text::{chars_of, copy_str, push_char, push_str, seq_starts_with, slice_to_string};
use crate::async_live::ComposingChunk;
use crate::types::{EngineAction, EngineConfig, EngineResult, InputMode, LiveConversion, SurroundingContext};

verus! {

/// `s` with hiragana letters spelled in katakana.
pub open spec fn katakana_seq(s: Seq<char>) -> Seq<char> {
    s.map_values(|c: char| hira_to_kata_char(c))
}

/// The last `n` characters of `s` (all of it when shorter).
pub open spec fn last_chars(s: Seq<char>, n: nat) -> Seq<char> {
    if s.len() > n { s.subrange(s.len() - n, s.len() as int) } else { s }
}

/// The first `n` characters of `s` (all of it when shorter).
pub open spec fn first_chars(s: Seq<char>, n: nat) -> Seq<char> {
    if s.len() > n { s.take(n as int) } else { s }
}

/// A conversion session the engine can work on: its segments cover the
/// reading, one of them is active, and every candidate list is valid.
pub open spec fn session_wf(s: ConversionSession) -> bool {
    &&& ranges_valid(s.reading@, s.segments@)
    &&& s.active_segment < s.segments@.len()
    &&& forall|i: int| 0 <= i < s.segments@.len() ==> (#[trigger] s.segments@[i]).candidates.wf()
}

/// Text shown before and after a mode indicator: the indicator, a space and
/// the reading, leaving out whichever is empty.
pub open spec fn mode_and_reading(indicator: Seq<char>, reading: Seq<char>) -> Seq<char> {
    if indicator.len() == 0 {
        reading
    } else if reading.len() == 0 {
        indicator
    } else {
        indicator + seq![' '] + reading
    }
}

/// The indicator of an input mode: `[A]` for alphabet, `[カ]` for katakana,
/// nothing for hiragana.
pub open spec fn mode_indicator_seq(mode: InputMode) -> Seq<char> {
    match mode {
        InputMode::Alphabet => seq!['[', 'A', ']'],
        InputMode::Katakana => seq!['[', 'カ', ']'],
        InputMode::Hiragana => Seq::empty(),
    }
}

/// The indicator shown once live conversion covers the whole reading.
pub open spec fn finished_indicator() -> Seq<char> {
    seq!['\u{2705}', '\u{FE0F}']
}

/// The indicator shown during conversion.
pub open spec fn conversion_indicator() -> Seq<char> {
    seq!['[', '変', '換', ']']
}

/// The editor context as it is kept: at most `max` characters on each
/// side, the ones nearest the cursor, and nothing for an empty side.
pub open spec fn kept_context(left: Seq<char>, right: Seq<char>, max: nat) -> (Option<Seq<char>>, Option<Seq<char>>) {
    (
        if left.len() == 0 { None } else { Some(last_chars(left, max)) },
        if right.len() == 0 { None } else { Some(first_chars(right, max)) },
    )
}

/// The dictionaries the engine converts with.
pub struct EngineDictionaries {
    /// The user's own entries; they rank first.
    pub user: Option<Dictionary>,
    pub system: Option<Dictionary>,
}

/// The IME engine.
pub struct InputMethodEngine {
    pub state: InputState,
    pub input_mode: InputMode,
    /// The composed reading and the caret in it.
    pub input_buf: InputBuffer,
    /// Romaji typed but not yet converted.
    pub romaji: RomajiConverter,
    pub live: LiveConversion,
    pub config: EngineConfig,
    /// Text around the cursor in the editor.
    pub surrounding_context: Option<SurroundingContext>,
    /// Learned segment corrections, when learning is on.
    pub segment_learning: Option<SegmentLearningCache>,
    /// Suggestions shown while composing.
    pub composing_candidates: Option<CandidateList>,
    /// Whether the user opted into the composing suggestions (Tab, Up).
    pub composing_candidate_selected: bool,
    /// Whether the composing suggestions are final for the current reading.
    pub composing_candidates_model_ready: bool,
    /// Chunks of the last applied background conversion.
    pub chunks: Vec<ComposingChunk>,
    /// Background results of this revision or older are stale.
    pub live_cancel_revision: u64,
    pub dicts: EngineDictionaries,
    /// Inference time, in milliseconds, of the last applied background
    /// conversion.
    pub conversion_ms: u64,
}

impl InputMethodEngine {
    /// The engine's state is consistent: the caret lies in the reading, the
    /// candidate lists are valid and a conversion session covers its
    /// reading.
    pub open spec fn wf(&self) -> bool {
        &&& self.input_buf.wf()
        &&& (self.composing_candidates matches Some(l) ==> l.wf())
        &&& (self.state matches InputState::Conversion { session } ==> session_wf(session))
    }

    /// A reading part as displayed: in katakana in katakana mode.
    pub open spec fn shown(&self, s: Seq<char>) -> Seq<char> {
        if self.input_mode == InputMode::Katakana { katakana_seq(s) } else { s }
    }

    /// The composed text as displayed: the reading before the caret, the
    /// pending romaji, then the rest of the reading.
    pub open spec fn input_display(&self) -> Seq<char> {
        let t = self.input_buf.text@;
        let k = self.input_buf.cursor_pos as int;
        self.shown(t.take(k)) + self.romaji.buffer_view() + self.shown(t.skip(k))
    }

    /// The composing preedit text: the live conversion followed by pending
    /// romaji when there is one, else the composed text.
    pub open spec fn composing_text(&self) -> Seq<char> {
        if self.live.text@.len() > 0 { self.live.text@ + self.romaji.buffer_view() } else { self.input_display() }
    }

    /// The caret of the composing preedit.
    pub open spec fn composing_caret(&self) -> nat {
        if self.live.text@.len() > 0 {
            (self.live.text@.len() + self.romaji.buffer_view().len()) as nat
        } else {
            (self.input_buf.cursor_pos + self.romaji.buffer_view().len()) as nat
        }
    }

    /// Characters of the composing preedit covered by an applied live
    /// conversion result.
    pub open spec fn completed_len(&self) -> nat {
        let len = self.composing_text().len();
        if self.live.text@.len() > 0 && self.live.applied_reading@.len() > 0
            && seq_starts_with(self.input_buf.text@, self.live.applied_reading@) {
            if self.live.applied_text@.len() < len { self.live.applied_text@.len() } else { len }
        } else {
            0
        }
    }

    /// Attributes of the composing preedit: during live conversion the
    /// converted part is underlined and the rest dotted; otherwise all of
    /// it is underlined.
    pub open spec fn composing_attrs(&self) -> Seq<PreeditAttribute> {
        let len = self.composing_text().len();
        if self.live.enabled && (self.input_mode == InputMode::Hiragana || self.input_mode == InputMode::Alphabet) {
            let c = self.completed_len();
            (if c > 0 { seq![PreeditAttribute { start: 0, end: c as usize, attr_type: AttributeType::Underline }] } else { Seq::empty() })
                + (if c < len { seq![PreeditAttribute { start: c as usize, end: len as usize, attr_type: AttributeType::UnderlineDotted }] } else { Seq::empty() })
        } else {
            seq![PreeditAttribute { start: 0, end: len as usize, attr_type: AttributeType::Underline }]
        }
    }

    /// Whether live conversion covers the whole hiragana `reading` with no
    /// romaji pending.
    pub open spec fn live_finished(&self, reading: Seq<char>) -> bool {
        &&& self.input_mode == InputMode::Hiragana
        &&& self.live.enabled
        &&& reading.len() > 0
        &&& self.romaji.buffer_view().len() == 0
        &&& self.live.applied_reading@ == reading
        &&& self.live.applied_text@.len() > 0
    }

    /// The indicator shown while composing `reading`.
    pub open spec fn indicator_for(&self, reading: Seq<char>) -> Seq<char> {
        if self.live_finished(reading) { finished_indicator() } else { mode_indicator_seq(self.input_mode) }
    }

    /// The auxiliary text while composing: the indicator and the reading
    /// with pending romaji.
    pub open spec fn composing_aux(&self) -> Seq<char> {
        mode_and_reading(self.indicator_for(self.input_buf.text@), self.input_buf.text@ + self.romaji.buffer_view())
    }

    /// Whether `p` shows the composing preedit: its text, caret and
    /// attributes.
    pub open spec fn is_composing_preedit(&self, p: Preedit) -> bool {
        p.text_view() == self.composing_text() && p.caret_pos() == self.composing_caret() && p.attrs() == self.composing_attrs()
    }

    /// Whether the engine is composing and its state holds the composing
    /// preedit.
    pub open spec fn shows_composing(&self) -> bool {
        self.state matches InputState::Composing { preedit, .. } && self.is_composing_preedit(preedit)
    }

    /// Whether `r` hands the frontend what the engine shows while composing:
    /// the composing preedit, then the suggestions (or hiding the window
    /// when there are none), then the auxiliary text `aux`.
    pub open spec fn composing_display(&self, r: EngineResult, aux: Seq<char>) -> bool {
        &&& r.actions@.len() == 3
        &&& r.actions@[0] matches EngineAction::UpdatePreedit(p) && self.is_composing_preedit(p)
        &&& match self.composing_candidates {
            Some(l) => r.actions@[1] matches EngineAction::ShowCandidates(c) && c.items() == l.items() && c.selection() == l.selection(),
            None => r.actions@[1] is HideCandidates,
        }
        &&& r.actions@[2] matches EngineAction::UpdateAuxText(a) && a@ == aux
    }

    /// An engine with nothing typed, in hiragana mode, with the default
    /// configuration and no learning.
    pub fn new() -> (e: Self)
        ensures
            e.wf(),
            e.state is Empty,
            e.input_mode == InputMode::Hiragana,
            e.input_buf.text@.len() == 0,
            e.romaji.buffer_view().len() == 0,
            e.config == (EngineConfig {
                num_candidates: 9,
                live_num_candidates: 3,
                display_context_len: 10,
                max_api_context_len: 10,
                composing_chunk_len: 30,
                live_conversion: false,
            }),
            !e.live.enabled,
            e.live.text@.len() == 0,
            e.surrounding_context is None,
            e.segment_learning is None,
            e.composing_candidates is None,
            e.dicts.user is None,
            e.dicts.system is None,
    {
        let config = EngineConfig::default();
        InputMethodEngine {
            state: InputState::Empty,
            input_mode: InputMode::Hiragana,
            input_buf: InputBuffer::new(),
            romaji: RomajiConverter::new(),
            live: LiveConversion::new(config.live_conversion),
            config,
            surrounding_context: None,
            segment_learning: None,
            composing_candidates: None,
            composing_candidate_selected: false,
            composing_candidates_model_ready: false,
            chunks: Vec::new(),
            live_cancel_revision: 0,
            dicts: EngineDictionaries { user: None, system: None },
            conversion_ms: 0,
        }
    }

    /// Abandons any input: back to the empty state. The editor context,
    /// the mode, the configuration and learning are kept.
    pub fn reset(&mut self)
        requires
            old(self).wf(),
        ensures
            final(self).wf(),
            final(self).state is Empty,
            final(self).input_buf.text@.len() == 0,
            final(self).romaji.buffer_view().len() == 0,
            final(self).live.text@.len() == 0,
            final(self).composing_candidates is None,
            final(self).input_mode == old(self).input_mode,
            final(self).config == old(self).config,
            final(self).surrounding_context == old(self).surrounding_context,
            final(self).segment_learning == old(self).segment_learning,
    {
        self.state = InputState::Empty;
        self.input_buf.clear();
        self.romaji.reset();
        self.live.clear();
        self.clear_composing_candidates();
    }

    /// The current state.
    pub fn state(&self) -> (s: &InputState)
        ensures
            *s == self.state,
    {
        &self.state
    }

    /// The current preedit, if any.
    pub fn preedit(&self) -> (p: Option<&Preedit>)
        ensures
            match self.state {
                InputState::Empty => p is None,
                InputState::Composing { preedit, .. } => p == Some(&preedit),
                InputState::Conversion { session } => p == Some(&session.preedit_view()),
            },
    {
        self.state.preedit()
    }

    /// Candidates of the active conversion segment, if converting.
    pub fn candidates(&self) -> (c: Option<&CandidateList>)
        ensures
            match self.state {
                InputState::Conversion { session } => match c {
                    Some(x) => session.active_segment < session.segments@.len()
                        && *x == session.segments@[session.active_segment as int].candidates,
                    None => session.active_segment >= session.segments@.len(),
                },
                _ => c is None,
            },
    {
        self.state.candidates()
    }

    /// Drops the composing suggestions.
    pub fn clear_composing_candidates(&mut self)
        ensures
            final(self).composing_candidates is None,
            !final(self).composing_candidate_selected,
            !final(self).composing_candidates_model_ready,
            final(self).state == old(self).state,
            final(self).input_buf == old(self).input_buf,
            final(self).input_mode == old(self).input_mode,
            final(self).romaji == old(self).romaji,
            final(self).live == old(self).live,
            final(self).config == old(self).config,
            final(self).surrounding_context == old(self).surrounding_context,
            final(self).segment_learning == old(self).segment_learning,
            final(self).dicts == old(self).dicts,
            final(self).chunks == old(self).chunks,
    {
        self.composing_candidates = None;
        self.composing_candidate_selected = false;
        self.composing_candidates_model_ready = false;
    }

    /// Records the editor text around the cursor, keeping at most
    /// `max_api_context_len` characters next to the cursor on each side.
    pub fn set_surrounding_context(&mut self, left: &str, right: &str)
        ensures
            final(self).surrounding_context matches Some(ctx)
                && (crate::text::opt_view(ctx.left), crate::text::opt_view(ctx.right))
                    == kept_context(left@, right@, old(self).config.max_api_context_len as nat),
            final(self).state == old(self).state,
            final(self).input_buf == old(self).input_buf,
            final(self).input_mode == old(self).input_mode,
            final(self).romaji == old(self).romaji,
            final(self).live == old(self).live,
            final(self).config == old(self).config,
            final(self).segment_learning == old(self).segment_learning,
            final(self).composing_candidates == old(self).composing_candidates,
            final(self).composing_candidate_selected == old(self).composing_candidate_selected,
            final(self).composing_candidates_model_ready == old(self).composing_candidates_model_ready,
    {
        let max = self.config.max_api_context_len;
        let l = chars_of(left);
        let r = chars_of(right);
        let kept_left = if l.len() == 0 {
            None
        } else if l.len() > max {
            Some(slice_to_string(l.as_slice(), l.len() - max, l.len()))
        } else {
            Some(copy_str(left))
        };
        let kept_right = if r.len() == 0 {
            None
        } else if r.len() > max {
            Some(slice_to_string(r.as_slice(), 0, max))
        } else {
            Some(copy_str(right))
        };
        proof {
            assert(r@.subrange(0, max as int) =~= right@.take(max as int));
        }
        self.surrounding_context = Some(SurroundingContext { left: kept_left, right: kept_right });
    }

    /// The last `max_api_context_len` characters of `context`.
    pub fn truncate_context(&self, context: &str) -> (out: String)
        ensures
            out@ == last_chars(context@, self.config.max_api_context_len as nat),
    {
        let chars = chars_of(context);
        let max = self.config.max_api_context_len;
        if chars.len() > max {
            slice_to_string(chars.as_slice(), chars.len() - max, chars.len())
        } else {
            copy_str(context)
        }
    }

    /// The left editor context passed to conversion.
    pub fn truncate_context_for_api(&self) -> (out: String)
        ensures
            out@ == match self.surrounding_context {
                Some(ctx) => match ctx.left {
                    Some(l) => last_chars(l@, self.config.max_api_context_len as nat),
                    None => Seq::empty(),
                },
                None => Seq::empty(),
            },
    {
        match &self.surrounding_context {
            Some(ctx) => match &ctx.left {
                Some(l) => self.truncate_context(l.as_str()),
                None => String::new(),
            },
            None => String::new(),
        }
    }

    /// The character just left of the cursor in the editor, if any.
    pub open spec fn left_hint_view(&self) -> Option<Seq<char>> {
        match self.surrounding_context {
            Some(ctx) => match ctx.left {
                Some(l) => if l@.len() > 0 { Some(seq![l@.last()]) } else { None },
                None => None,
            },
            None => None,
        }
    }

    /// The character just right of the cursor in the editor, if any.
    pub open spec fn right_hint_view(&self) -> Option<Seq<char>> {
        match self.surrounding_context {
            Some(ctx) => match ctx.right {
                Some(r) => if r@.len() > 0 { Some(seq![r@[0]]) } else { None },
                None => None,
            },
            None => None,
        }
    }

    /// The character just left of the cursor in the editor, if any.
    pub fn left_context_char(&self) -> (c: Option<String>)
        ensures
            crate::text::opt_view(c) == self.left_hint_view(),
    {
        match &self.surrounding_context {
            Some(ctx) => match &ctx.left {
                Some(l) => {
                    let chars = chars_of(l.as_str());
                    if chars.len() > 0 {
                        Some(slice_to_string(chars.as_slice(), chars.len() - 1, chars.len()))
                    } else {
                        None
                    }
                },
                None => None,
            },
            None => None,
        }
    }

    /// The character just right of the cursor in the editor, if any.
    pub fn right_context_char(&self) -> (c: Option<String>)
        ensures
            crate::text::opt_view(c) == self.right_hint_view(),
    {
        match &self.surrounding_context {
            Some(ctx) => match &ctx.right {
                Some(r) => {
                    let chars = chars_of(r.as_str());
                    if chars.len() > 0 {
                        let s = slice_to_string(chars.as_slice(), 0, 1);
                        assert(chars@.subrange(0, 1) =~= seq![chars@[0]]);
                        Some(s)
                    } else {
                        None
                    }
                },
                None => None,
            },
            None => None,
        }
    }

    // -----------------------------------------------------------------------
    // Display
    // -----------------------------------------------------------------------

    fn shown_text(&self, s: &[char]) -> (out: String)
        ensures
            out@ == self.shown(s@),
    {
        let t = crate::text::string_from_chars(s);
        if self.input_mode == InputMode::Katakana {
            hiragana_to_katakana(t.as_str())
        } else {
            t
        }
    }

    /// The composed text as displayed (see [`Self::input_display`]).
    pub fn build_input_display(&self) -> (out: String)
        requires
            self.input_buf.wf(),
        ensures
            out@ == self.input_display(),
    {
        let chars = chars_of(self.input_buf.text.as_str());
        let k = self.input_buf.cursor_pos;
        let before = slice_to_string(chars.as_slice(), 0, k);
        let after = slice_to_string(chars.as_slice(), k, chars.len());
        let before_chars = chars_of(before.as_str());
        let after_chars = chars_of(after.as_str());
        let mut out = self.shown_text(before_chars.as_slice());
        push_str(&mut out, self.romaji.buffer());
        let tail = self.shown_text(after_chars.as_slice());
        push_str(&mut out, tail.as_str());
        proof {
            assert(chars@.subrange(0, k as int) =~= self.input_buf.text@.take(k as int));
            assert(chars@.subrange(k as int, chars@.len() as int) =~= self.input_buf.text@.skip(k as int));
        }
        out
    }

    /// The caret of the composed text as displayed.
    pub fn display_caret_position(&self) -> (c: usize)
        requires
            self.input_buf.wf(),
        ensures
            c == self.input_buf.cursor_pos + self.romaji.buffer_view().len(),
    {
        let chars = chars_of(self.input_buf.text.as_str());
        let k = self.input_buf.cursor_pos;
        let mut head: Vec<char> = Vec::new();
        let mut i: usize = 0;
        while i < k
            invariant
                i <= k <= chars@.len(),
                head@.len() == i,
            decreases k - i,
        {
            head.push(chars[i]);
            i += 1;
        }
        let b = chars_of(self.romaji.buffer());
        let mut j: usize = 0;
        while j < b.len()
            invariant
                j <= b@.len(),
                head@.len() == k + j,
            decreases b@.len() - j,
        {
            head.push(b[j]);
            j += 1;
        }
        head.len()
    }

    /// The preedit shown while composing (see [`Self::composing_text`],
    /// [`Self::composing_caret`] and [`Self::composing_attrs`]).
    pub fn build_composing_preedit(&self) -> (p: Preedit)
        requires
            self.input_buf.wf(),
        ensures
            p.text_view() == self.composing_text(),
            p.caret_pos() == self.composing_caret(),
            p.attrs() == self.composing_attrs(),
    {
        let (display, caret) = if !self.live.text.as_str().is_empty() {
            let mut d = copy_str(self.live.text.as_str());
            push_str(&mut d, self.romaji.buffer());
            let n = chars_of(d.as_str()).len();
            (d, n)
        } else {
            (self.build_input_display(), self.display_caret_position())
        };
        let len = chars_of(display.as_str()).len();
        let mut preedit = Preedit::with_text(display.as_str());
        preedit.set_caret(caret);
        if self.live.enabled && (self.input_mode == InputMode::Hiragana || self.input_mode == InputMode::Alphabet) {
            let text_chars = chars_of(self.input_buf.text.as_str());
            let applied = chars_of(self.live.applied_reading.as_str());
            let completed_len = if !self.live.text.as_str().is_empty() && applied.len() > 0
                && crate::text::chars_start_with(text_chars.as_slice(), applied.as_slice()) {
                let a = chars_of(self.live.applied_text.as_str()).len();
                if a < len { a } else { len }
            } else {
                0
            };
            let mut attributes: Vec<PreeditAttribute> = Vec::new();
            if completed_len > 0 {
                attributes.push(PreeditAttribute::underline(0, completed_len));
            }
            if completed_len < len {
                attributes.push(PreeditAttribute::new(completed_len, len, AttributeType::UnderlineDotted));
            }
            assert(attributes@ =~= self.composing_attrs());
            preedit.set_attributes(attributes);
        } else {
            let mut attributes: Vec<PreeditAttribute> = Vec::new();
            attributes.push(PreeditAttribute::underline(0, len));
            assert(attributes@ =~= self.composing_attrs());
            preedit.set_attributes(attributes);
        }
        preedit
    }

    /// Enters (or stays in) composing, showing the composing preedit, and
    /// returns that preedit.
    pub fn set_composing_state(&mut self) -> (p: Preedit)
        requires
            old(self).wf(),
        ensures
            final(self).wf(),
            p.text_view() == old(self).composing_text(),
            p.caret_pos() == old(self).composing_caret(),
            p.attrs() == old(self).composing_attrs(),
            final(self).state matches InputState::Composing { preedit, romaji_buffer }
                && preedit.same_as(p) && romaji_buffer@ == old(self).romaji.buffer_view(),
            final(self).input_buf == old(self).input_buf,
            final(self).input_mode == old(self).input_mode,
            final(self).romaji == old(self).romaji,
            final(self).live == old(self).live,
            final(self).config == old(self).config,
            final(self).surrounding_context == old(self).surrounding_context,
            final(self).segment_learning == old(self).segment_learning,
            final(self).composing_candidates == old(self).composing_candidates,
            final(self).composing_candidate_selected == old(self).composing_candidate_selected,
            final(self).composing_candidates_model_ready == old(self).composing_candidates_model_ready,
            final(self).chunks == old(self).chunks,
            final(self).dicts == old(self).dicts,
    {
        let preedit = self.build_composing_preedit();
        self.state = InputState::Composing { preedit: preedit.duplicate(), romaji_buffer: copy_str(self.romaji.buffer()) };
        preedit
    }

    /// The mode indicator (see [`mode_indicator_seq`]).
    pub fn mode_indicator(&self) -> (s: String)
        ensures
            s@ == mode_indicator_seq(self.input_mode),
    {
        match self.input_mode {
            InputMode::Alphabet => {
                let s = copy_str("[A]");
                proof {
                    reveal_strlit("[A]");
                }
                assert(s@ =~= seq!['[', 'A', ']']);
                s
            },
            InputMode::Katakana => {
                let s = copy_str("[カ]");
                proof {
                    reveal_strlit("[カ]");
                }
                assert(s@ =~= seq!['[', 'カ', ']']);
                s
            },
            InputMode::Hiragana => String::new(),
        }
    }

    fn format_mode_and_reading(indicator: &str, reading: &str) -> (s: String)
        ensures
            s@ == mode_and_reading(indicator@, reading@),
    {
        if indicator.is_empty() {
            copy_str(reading)
        } else if reading.is_empty() {
            copy_str(indicator)
        } else {
            let mut s = copy_str(indicator);
            push_char(&mut s, ' ');
            push_str(&mut s, reading);
            s
        }
    }

    fn composing_indicator(&self, reading: &str) -> (s: String)
        ensures
            s@ == self.indicator_for(reading@),
    {
        let finished = self.input_mode == InputMode::Hiragana && self.live.enabled && !reading.is_empty()
            && self.romaji.buffer().is_empty() && crate::text::str_eq(self.live.applied_reading.as_str(), reading)
            && !self.live.applied_text.as_str().is_empty();
        if finished {
            let mut s = String::new();
            push_char(&mut s, '\u{2705}');
            push_char(&mut s, '\u{FE0F}');
            assert(s@ =~= finished_indicator());
            s
        } else {
            self.mode_indicator()
        }
    }

    fn reading_with_romaji_buffer(&self, reading: &str) -> (s: String)
        ensures
            s@ == reading@ + self.romaji.buffer_view(),
    {
        let mut s = copy_str(reading);
        push_str(&mut s, self.romaji.buffer());
        s
    }

    /// Auxiliary text while composing: the mode indicator (or the finished
    /// mark of live conversion) and the reading with pending romaji.
    pub fn format_aux_composing(&self) -> (s: String)
        ensures
            s@ == mode_and_reading(self.indicator_for(self.input_buf.text@), self.input_buf.text@ + self.romaji.buffer_view()),
    {
        let reading = self.reading_with_romaji_buffer(self.input_buf.text.as_str());
        let indicator = self.composing_indicator(self.input_buf.text.as_str());
        Self::format_mode_and_reading(indicator.as_str(), reading.as_str())
    }

    /// Auxiliary text during conversion: `[変換]` and the reading.
    pub fn format_aux_conversion_with_page(&self, reading: &str, _candidates: Option<&CandidateList>) -> (s: String)
        ensures
            s@ == mode_and_reading(conversion_indicator(), reading@),
    {
        let mut ind = String::new();
        push_char(&mut ind, '[');
        push_char(&mut ind, '変');
        push_char(&mut ind, '換');
        push_char(&mut ind, ']');
        assert(ind@ =~= conversion_indicator());
        Self::format_mode_and_reading(ind.as_str(), reading)
    }

    /// Auxiliary text while suggestions are shown for `reading`.
    pub fn format_aux_suggest(&self, reading: &str) -> (s: String)
        ensures
            s@ == mode_and_reading(self.indicator_for(reading@), reading@ + self.romaji.buffer_view()),
    {
        let indicator = self.composing_indicator(reading);
        let display_reading = self.reading_with_romaji_buffer(reading);
        Self::format_mode_and_reading(indicator.as_str(), display_reading.as_str())
    }
}

} // verus!

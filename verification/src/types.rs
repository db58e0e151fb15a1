//! What the engine hands to the frontend, its configuration, and the small
//! pieces of state it keeps between keys.
use vstd::prelude::*;

use crate::candidate::{Candidate, CandidateList};
use crate::preedit::Preedit;
use crate::settings::Settings;
use crate::text::{chars_of, copy_str, opt_view, seq_starts_with, push_chars};

verus! {

/// An action for the frontend to perform.
#[derive(Debug)]
pub enum EngineAction {
    /// Show this preedit.
    UpdatePreedit(Preedit),
    /// Show the candidate window with these candidates.
    ShowCandidates(CandidateList),
    /// Hide the candidate window.
    HideCandidates,
    /// Insert this text into the application.
    Commit(String),
    /// Show this auxiliary text (reading, mode indicator).
    UpdateAuxText(String),
    /// Hide the auxiliary text.
    HideAuxText,
}

/// The outcome of one key event.
#[derive(Debug)]
pub struct EngineResult {
    /// Whether the IME used the key.
    pub consumed: bool,
    /// Actions for the frontend, in order.
    pub actions: Vec<EngineAction>,
}

impl EngineResult {
    /// The key was used; nothing to do.
    pub fn consumed() -> (r: Self)
        ensures
            r.consumed,
            r.actions@.len() == 0,
    {
        EngineResult { consumed: true, actions: Vec::new() }
    }

    /// The key was not used.
    pub fn not_consumed() -> (r: Self)
        ensures
            !r.consumed,
            r.actions@.len() == 0,
    {
        EngineResult { consumed: false, actions: Vec::new() }
    }

    /// The same result with `action` appended.
    pub fn with_action(self, action: EngineAction) -> (r: Self)
        ensures
            r.consumed == self.consumed,
            r.actions@ == self.actions@.push(action),
    {
        let mut r = self;
        r.actions.push(action);
        r
    }
}

/// Text around the cursor in the editor.
#[derive(Debug)]
pub struct SurroundingContext {
    /// Text before the cursor (`None` when empty).
    pub left: Option<String>,
    /// Text after the cursor (`None` when empty).
    pub right: Option<String>,
}

/// Configuration of the engine.
#[derive(Debug, Clone, Copy, PartialEq, Eq, Structural)]
pub struct EngineConfig {
    /// Candidates for explicit conversion (Space).
    pub num_candidates: usize,
    /// Model candidates during live conversion.
    pub live_num_candidates: usize,
    /// Longest context shown.
    pub display_context_len: usize,
    /// Longest context passed to conversion.
    pub max_api_context_len: usize,
    /// Longest reading converted by the model in one call.
    pub composing_chunk_len: usize,
    /// Whether live conversion is on at startup.
    pub live_conversion: bool,
}

impl EngineConfig {
    /// The engine configuration for these user settings: context is passed
    /// only when the user allows it.
    pub fn from_settings(settings: &Settings) -> (c: Self)
        ensures
            c.num_candidates == settings.conversion.num_candidates,
            c.live_num_candidates == settings.conversion.live_num_candidates,
            c.display_context_len == 10,
            c.max_api_context_len == (if settings.conversion.use_context { settings.conversion.max_context_length } else { 0 }),
            c.composing_chunk_len == settings.conversion.composing_chunk_len,
            c.live_conversion == settings.conversion.live_conversion,
    {
        EngineConfig {
            num_candidates: settings.conversion.num_candidates,
            live_num_candidates: settings.conversion.live_num_candidates,
            display_context_len: 10,
            max_api_context_len: if settings.conversion.use_context { settings.conversion.max_context_length } else { 0 },
            composing_chunk_len: settings.conversion.composing_chunk_len,
            live_conversion: settings.conversion.live_conversion,
        }
    }
}

impl Default for EngineConfig {
    fn default() -> (c: Self)
        ensures
            c == (EngineConfig {
                num_candidates: 9,
                live_num_candidates: 3,
                display_context_len: 10,
                max_api_context_len: 10,
                composing_chunk_len: 30,
                live_conversion: false,
            }),
    {
        EngineConfig {
            num_candidates: 9,
            live_num_candidates: 3,
            display_context_len: 10,
            max_api_context_len: 10,
            composing_chunk_len: 30,
            live_conversion: false,
        }
    }
}

/// How typed characters are entered.
#[derive(Debug, Clone, Copy, PartialEq, Eq, Structural)]
pub enum InputMode {
    /// Romaji is converted to hiragana (the default).
    Hiragana,
    /// The preedit shows katakana instead of hiragana.
    Katakana,
    /// Characters are entered as typed.
    Alphabet,
}

/// Live conversion: whether it is on, the converted text shown, and the
/// reading prefix that a conversion result covered.
#[derive(Debug)]
pub struct LiveConversion {
    pub enabled: bool,
    /// Converted text shown in the preedit (empty when none).
    pub text: String,
    /// Reading covered by the last applied conversion result.
    pub applied_reading: String,
    /// Converted text of `applied_reading`.
    pub applied_text: String,
}

impl LiveConversion {
    /// Live conversion switched on or off, with nothing converted yet.
    pub fn new(enabled: bool) -> (l: Self)
        ensures
            l.enabled == enabled,
            l.text@.len() == 0,
            l.applied_reading@.len() == 0,
            l.applied_text@.len() == 0,
    {
        LiveConversion { enabled, text: String::new(), applied_reading: String::new(), applied_text: String::new() }
    }

    /// Forgets the converted text and the applied result.
    pub fn clear(&mut self)
        ensures
            final(self).enabled == old(self).enabled,
            final(self).text@.len() == 0,
            final(self).applied_reading@.len() == 0,
            final(self).applied_text@.len() == 0,
    {
        self.text = String::new();
        self.applied_reading = String::new();
        self.applied_text = String::new();
    }

    /// Records that `reading` converted to `text`.
    pub fn set_applied_prefix(&mut self, reading: String, text: String)
        ensures
            final(self).enabled == old(self).enabled,
            final(self).text == old(self).text,
            final(self).applied_reading == reading,
            final(self).applied_text == text,
    {
        self.applied_reading = reading;
        self.applied_text = text;
    }

    /// Shows the applied conversion followed by the part of `reading` typed
    /// after it; false (and nothing changed) when `reading` does not extend
    /// the applied reading or nothing was applied.
    pub fn rebuild_for_reading(&mut self, reading: &str) -> (ok: bool)
        ensures
            final(self).enabled == old(self).enabled,
            final(self).applied_reading == old(self).applied_reading,
            final(self).applied_text == old(self).applied_text,
            ok == (old(self).applied_text@.len() > 0 && seq_starts_with(reading@, old(self).applied_reading@)),
            ok ==> final(self).text@ == old(self).applied_text@ + reading@.subrange(old(self).applied_reading@.len() as int, reading@.len() as int),
            !ok ==> final(self).text == old(self).text,
    {
        let r = chars_of(reading);
        let a = chars_of(self.applied_reading.as_str());
        if self.applied_text.as_str().is_empty() || !crate::text::chars_start_with(r.as_slice(), a.as_slice()) {
            return false;
        }
        let mut t = copy_str(self.applied_text.as_str());
        let mut rest: Vec<char> = Vec::new();
        let mut i: usize = a.len();
        while i < r.len()
            invariant
                a@.len() <= i <= r@.len(),
                rest@ == r@.subrange(a@.len() as int, i as int),
            decreases r@.len() - i,
        {
            rest.push(r[i]);
            assert(r@.subrange(a@.len() as int, i + 1) =~= r@.subrange(a@.len() as int, i as int).push(r@[i as int]));
            i += 1;
        }
        push_chars(&mut t, rest.as_slice());
        self.text = t;
        true
    }
}

/// Where a conversion candidate came from.
#[derive(Debug, Clone, Copy, PartialEq, Eq, Structural)]
pub enum CandidateSource {
    Learning,
    UserDictionary,
    Model,
    Dictionary,
    /// Spans of a long reading converted on their own and combined.
    Hybrid,
    Fallback,
}

/// A conversion candidate before it is shown.
#[derive(Debug)]
pub struct ConversionCandidate {
    pub text: String,
    pub source: CandidateSource,
    /// The reading, when it differs from the reading converted.
    pub reading: Option<String>,
    pub description: Option<String>,
}

impl ConversionCandidate {
    pub fn new(text: String, source: CandidateSource) -> (c: Self)
        ensures
            c.text == text,
            c.source == source,
            c.reading is None,
            c.description is None,
    {
        ConversionCandidate { text, source, reading: None, description: None }
    }

    /// The candidate as shown: its own reading if it has one, else
    /// `reading`; no source label.
    pub fn into_ui_candidate(self, reading: &str) -> (c: Candidate)
        ensures
            c.text == self.text,
            opt_view(c.reading) == Some(match self.reading { Some(r) => r@, None => reading@ }),
            c.source_label is None,
            c.description == self.description,
    {
        let r = match self.reading {
            Some(r) => r,
            None => copy_str(reading),
        };
        Candidate { text: self.text, reading: Some(r), source_label: None, description: self.description }
    }
}

} // verus!

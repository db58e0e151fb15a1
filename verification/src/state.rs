//! Input state machine: the states of the IME and the explicit conversion
//! session with its segments.
use vstd::prelude::*;

use crate::candidate::CandidateList;
use crate::preedit::{AttributeType, Preedit, PreeditSegment, segments_attributes, segments_text};
use crate::text::{chars_eq, chars_of, copy_str, push_str};

verus! {

/// One independently selectable span within an explicit conversion.
#[derive(Debug)]
pub struct ConversionSegment {
    /// Character range in [`ConversionSession::reading`].
    pub reading_range: core::ops::Range<usize>,
    pub reading: String,
    pub candidates: CandidateList,
    /// Surface currently shown for this segment, kept apart from the
    /// candidate cursor so rebuilding alternatives never changes the preedit.
    pub selected_surface: String,
    /// The reading boundary changed and alternatives must be rebuilt before
    /// the next candidate-navigation operation.
    pub candidates_dirty: bool,
    /// Whether the user explicitly changed this segment during conversion.
    pub explicitly_modified: bool,
}

impl ConversionSegment {
    /// The surface shown for this segment.
    pub open spec fn surface(&self) -> Seq<char> {
        self.selected_surface@
    }

    /// A segment showing the selected candidate, or the reading when there is
    /// none.
    pub fn new(reading_range: core::ops::Range<usize>, reading: String, candidates: CandidateList) -> (s: Self)
        ensures
            s.reading_range == reading_range,
            s.reading == reading,
            s.candidates.items() == candidates.items(),
            s.candidates.selection() == candidates.selection(),
            s.candidates.page_len() == candidates.page_len(),
            s.surface() == match candidates.selected_view() {
                Some(t) => t,
                None => reading@,
            },
            !s.candidates_dirty,
            !s.explicitly_modified,
    {
        let selected_surface = match candidates.selected_text() {
            Some(t) => copy_str(t),
            None => reading.clone(),
        };
        ConversionSegment {
            reading_range,
            reading,
            candidates,
            selected_surface,
            candidates_dirty: false,
            explicitly_modified: false,
        }
    }

    /// The surface shown for this segment.
    pub fn selected_text(&self) -> (t: &str)
        ensures
            t@ == self.surface(),
    {
        self.selected_surface.as_str()
    }

    /// Show the selected candidate (or the reading when none is selected).
    pub fn sync_selected_surface(&mut self)
        ensures
            final(self).reading_range == old(self).reading_range,
            final(self).reading == old(self).reading,
            final(self).candidates == old(self).candidates,
            final(self).candidates_dirty == old(self).candidates_dirty,
            final(self).explicitly_modified == old(self).explicitly_modified,
            final(self).surface() == match old(self).candidates.selected_view() {
                Some(t) => t,
                None => old(self).reading@,
            },
    {
        self.selected_surface = match self.candidates.selected_text() {
            Some(t) => copy_str(t),
            None => self.reading.clone(),
        };
    }
}

/// Every segment covers the next non-empty part of the reading, in order,
/// and together they cover it exactly once.
pub open spec fn ranges_valid(reading: Seq<char>, segs: Seq<ConversionSegment>) -> bool {
    &&& segs.len() > 0
    &&& segs[0].reading_range.start == 0
    &&& segs.last().reading_range.end == reading.len()
    &&& forall|i: int| 0 <= i < segs.len() - 1 ==> (#[trigger] segs[i]).reading_range.end == segs[i + 1].reading_range.start
    &&& forall|i: int| 0 <= i < segs.len() ==> {
        let r = (#[trigger] segs[i]).reading_range;
        &&& r.start < r.end
        &&& r.end <= reading.len()
        &&& segs[i].reading@ == reading.subrange(r.start as int, r.end as int)
    }
}

/// Surfaces of the segments, concatenated.
pub open spec fn surfaces_text(segs: Seq<ConversionSegment>) -> Seq<char>
    decreases segs.len(),
{
    if segs.len() == 0 {
        Seq::empty()
    } else {
        surfaces_text(segs.drop_last()) + segs.last().surface()
    }
}

/// Preedit segments for a conversion: the active segment highlighted, the
/// others underlined.
pub open spec fn preedit_segments_for(segs: Seq<ConversionSegment>, active: int, texts: Seq<PreeditSegment>) -> bool {
    &&& texts.len() == segs.len()
    &&& forall|i: int| 0 <= i < segs.len() ==> (#[trigger] texts[i]).text@ == segs[i].surface() && texts[i].attr_type == (
        if i == active { AttributeType::Highlight } else { AttributeType::Underline })
}

/// What moving the active segment one step right (or left) did: the
/// reading, the segments and the phase stay; when there is a segment on
/// that side it becomes active and the preedit is rebuilt for it, otherwise
/// nothing changes.
pub open spec fn moved_active(before: ConversionSession, after: ConversionSession, right: bool, moved: bool) -> bool {
    &&& after.reading == before.reading
    &&& after.segments == before.segments
    &&& after.whole_phase() == before.whole_phase()
    &&& moved == (if right { before.active_segment + 1 < before.segments@.len() } else { before.active_segment > 0 })
    &&& moved ==> after.active_segment == (if right { before.active_segment + 1 } else { before.active_segment - 1 })
        && after.preedit_matches()
    &&& !moved ==> after.active_segment == before.active_segment && after.preedit_view() == before.preedit_view()
}

proof fn lemma_segments_text_same(t1: Seq<PreeditSegment>, t2: Seq<PreeditSegment>)
    requires
        t1.len() == t2.len(),
        forall|i: int| 0 <= i < t1.len() ==> (#[trigger] t1[i]).text@ == t2[i].text@ && t1[i].attr_type == t2[i].attr_type,
    ensures
        segments_text(t1) == segments_text(t2),
        segments_attributes(t1) == segments_attributes(t2),
    decreases t1.len(),
{
    if t1.len() > 0 {
        lemma_segments_text_same(t1.drop_last(), t2.drop_last());
        assert(t1.last() == t1[t1.len() - 1]);
    }
}

/// Two sessions with the same segments and active segment whose preedits
/// both show their segments show the same preedit.
proof fn lemma_matching_preedits_agree(a: ConversionSession, b: ConversionSession)
    requires
        a.preedit_matches(),
        b.preedit_matches(),
        a.segments == b.segments,
        a.active_segment == b.active_segment,
    ensures
        a.preedit_view().same_as(b.preedit_view()),
{
    let ta = choose|texts: Seq<PreeditSegment>| {
        &&& preedit_segments_for(a.segments@, a.active_segment as int, texts)
        &&& a.preedit_view().text_view() == segments_text(texts)
        &&& a.preedit_view().attrs() == segments_attributes(texts)
        &&& a.preedit_view().caret_pos() == if a.active_segment < a.segments@.len() {
            surfaces_text(a.segments@.take(a.active_segment + 1)).len()
        } else {
            0
        }
    };
    let tb = choose|texts: Seq<PreeditSegment>| {
        &&& preedit_segments_for(b.segments@, b.active_segment as int, texts)
        &&& b.preedit_view().text_view() == segments_text(texts)
        &&& b.preedit_view().attrs() == segments_attributes(texts)
        &&& b.preedit_view().caret_pos() == if b.active_segment < b.segments@.len() {
            surfaces_text(b.segments@.take(b.active_segment + 1)).len()
        } else {
            0
        }
    };
    assert forall|i: int| 0 <= i < ta.len() implies (#[trigger] ta[i]).text@ == tb[i].text@ && ta[i].attr_type == tb[i].attr_type by {
        assert(ta[i].text@ == a.segments@[i].surface());
        assert(tb[i].text@ == b.segments@[i].surface());
    }
    lemma_segments_text_same(ta, tb);
}

/// Moving the active segment right and then left again (or left and then
/// right), from a session whose preedit shows its segments and with a
/// segment on that side, comes back to the same active segment and shows
/// the same preedit: text, caret and attributes.
pub proof fn lemma_move_there_and_back(
    s0: ConversionSession,
    s1: ConversionSession,
    s2: ConversionSession,
    right_first: bool,
    m1: bool,
    m2: bool,
)
    requires
        s0.preedit_matches(),
        s0.active_segment < s0.segments@.len(),
        right_first ==> s0.active_segment + 1 < s0.segments@.len(),
        !right_first ==> s0.active_segment > 0,
        moved_active(s0, s1, right_first, m1),
        moved_active(s1, s2, !right_first, m2),
    ensures
        m1 && m2,
        s2.active_segment == s0.active_segment,
        s2.segments == s0.segments,
        s2.preedit_view().same_as(s0.preedit_view()),
{
    lemma_matching_preedits_agree(s2, s0);
}

/// Complete state for an explicit kana-kanji conversion.
#[derive(Debug)]
pub struct ConversionSession {
    pub reading: String,
    pub segments: Vec<ConversionSegment>,
    pub active_segment: usize,
    /// True while the user walks the whole-reading candidates.
    pub whole_candidate_phase: bool,
    pub preedit: Preedit,
}

impl ConversionSession {
    pub open spec fn whole_phase(&self) -> bool {
        self.whole_candidate_phase
    }

    pub open spec fn preedit_view(&self) -> Preedit {
        self.preedit
    }

    /// The preedit shows every segment's surface, the active one
    /// highlighted, with the caret after the active segment.
    pub open spec fn preedit_matches(&self) -> bool {
        exists|texts: Seq<PreeditSegment>| {
            &&& preedit_segments_for(self.segments@, self.active_segment as int, texts)
            &&& self.preedit_view().text_view() == segments_text(texts)
            &&& self.preedit_view().attrs() == segments_attributes(texts)
            &&& self.preedit_view().caret_pos() == if self.active_segment < self.segments@.len() {
                surfaces_text(self.segments@.take(self.active_segment + 1)).len()
            } else {
                0
            }
        }
    }

    /// A session with one segment covering the whole reading; its ranges
    /// are valid exactly when the reading is not empty.
    pub fn single(reading: String, candidates: CandidateList) -> (s: Self)
        ensures
            s.reading == reading,
            s.segments@.len() == 1,
            s.active_segment == 0,
            s.whole_phase(),
            s.segments@[0].reading_range == (0..reading@.len() as usize),
            s.segments@[0].reading == reading,
            ranges_valid(s.reading@, s.segments@) == (reading@.len() > 0),
            s.segments@[0].candidates.items() == candidates.items(),
            s.segments@[0].candidates.selection() == candidates.selection(),
            s.segments@[0].candidates.page_len() == candidates.page_len(),
            s.segments@[0].surface() == match candidates.selected_view() {
                Some(t) => t,
                None => reading@,
            },
            s.preedit_view().text_view() == s.segments@[0].surface(),
            s.preedit_view().caret_pos() == s.segments@[0].surface().len(),
            s.preedit_view().attrs() == seq![crate::preedit::PreeditAttribute {
                start: 0,
                end: s.segments@[0].surface().len() as usize,
                attr_type: AttributeType::Highlight,
            }],
    {
        let reading_len = chars_of(reading.as_str()).len();
        let selected = match candidates.selected_text() {
            Some(t) => copy_str(t),
            None => reading.clone(),
        };
        let selected_len = chars_of(selected.as_str()).len();
        let segment = ConversionSegment::new(0..reading_len, reading.clone(), candidates);
        let mut pieces: Vec<PreeditSegment> = Vec::new();
        pieces.push(PreeditSegment::highlighted(selected.as_str()));
        proof {
            let p = pieces@;
            assert(p.drop_last() =~= Seq::<PreeditSegment>::empty());
            assert(segments_text(p.drop_last()) =~= Seq::<char>::empty());
            assert(segments_attributes(p.drop_last()) =~= Seq::<crate::preedit::PreeditAttribute>::empty());
            assert(p.last().text@ == selected@);
            assert(segments_text(p) =~= selected@);
        }
        let preedit = Preedit::from_segments(pieces, selected_len);
        let mut segments = Vec::new();
        segments.push(segment);
        proof {
            assert(reading@.subrange(0, reading@.len() as int) =~= reading@);
            if reading@.len() == 0 {
                assert(!(segments@[0].reading_range.start < segments@[0].reading_range.end));
            }
        }
        ConversionSession { reading, segments, active_segment: 0, whole_candidate_phase: true, preedit }
    }

    /// A session over the given segments, the first one active.
    pub fn segmented(reading: String, segments: Vec<ConversionSegment>) -> (s: Self)
        requires
            ranges_valid(reading@, segments@),
            surfaces_text(segments@).len() <= usize::MAX,
        ensures
            s.reading == reading,
            s.segments == segments,
            s.active_segment == 0,
            !s.whole_phase(),
            s.preedit_matches(),
    {
        let mut session = ConversionSession {
            reading,
            segments,
            active_segment: 0,
            whole_candidate_phase: false,
            preedit: Preedit::new(),
        };
        session.rebuild_preedit();
        session
    }

    /// The preedit.
    pub fn preedit(&self) -> (p: &Preedit)
        ensures
            *p == self.preedit_view(),
    {
        &self.preedit
    }

    /// The preedit, for replacement.
    pub fn preedit_mut(&mut self) -> (p: &mut Preedit)
        ensures
            *p == old(self).preedit_view(),
            final(self).preedit_view() == *final(p),
            final(self).reading == old(self).reading,
            final(self).segments == old(self).segments,
            final(self).active_segment == old(self).active_segment,
            final(self).whole_phase() == old(self).whole_phase(),
    {
        &mut self.preedit
    }

    /// The active segment.
    pub fn active(&self) -> (s: Option<&ConversionSegment>)
        ensures
            match s {
                Some(x) => self.active_segment < self.segments@.len() && *x == self.segments@[self.active_segment as int],
                None => self.active_segment >= self.segments@.len(),
            },
    {
        if self.active_segment < self.segments.len() {
            Some(&self.segments[self.active_segment])
        } else {
            None
        }
    }

    /// Candidates of the active segment.
    pub fn candidates(&self) -> (c: Option<&CandidateList>)
        ensures
            match c {
                Some(x) => self.active_segment < self.segments@.len() && *x == self.segments@[self.active_segment as int].candidates,
                None => self.active_segment >= self.segments@.len(),
            },
    {
        if self.active_segment < self.segments.len() {
            Some(&self.segments[self.active_segment].candidates)
        } else {
            None
        }
    }

    /// The active segment, for changing it in place.
    pub fn active_mut(&mut self) -> (s: Option<&mut ConversionSegment>)
        ensures
            match s {
                Some(x) => {
                    &&& old(self).active_segment < old(self).segments@.len()
                    &&& *x == old(self).segments@[old(self).active_segment as int]
                    &&& final(self).segments@ == old(self).segments@.update(old(self).active_segment as int, *final(x))
                    &&& final(self).active_segment == old(self).active_segment
                    &&& final(self).reading == old(self).reading
                    &&& final(self).whole_candidate_phase == old(self).whole_candidate_phase
                    &&& final(self).preedit == old(self).preedit
                },
                None => old(self).active_segment >= old(self).segments@.len() && *final(self) == *old(self),
            },
    {
        if self.active_segment < self.segments.len() {
            Some(&mut self.segments[self.active_segment])
        } else {
            None
        }
    }

    /// The active segment's candidates, for changing them in place.
    pub fn candidates_mut(&mut self) -> (c: Option<&mut CandidateList>)
        ensures
            match c {
                Some(x) => {
                    let a = old(self).active_segment as int;
                    &&& old(self).active_segment < old(self).segments@.len()
                    &&& *x == old(self).segments@[a].candidates
                    &&& final(self).segments@ == old(self).segments@.update(a, ConversionSegment { candidates: *final(x), ..old(self).segments@[a] })
                    &&& final(self).active_segment == old(self).active_segment
                    &&& final(self).reading == old(self).reading
                    &&& final(self).whole_candidate_phase == old(self).whole_candidate_phase
                    &&& final(self).preedit == old(self).preedit
                },
                None => old(self).active_segment >= old(self).segments@.len() && *final(self) == *old(self),
            },
    {
        if self.active_segment < self.segments.len() {
            Some(&mut self.segments[self.active_segment].candidates)
        } else {
            None
        }
    }

    /// Whether the user is still walking the whole-reading candidates.
    pub fn is_whole_candidate_phase(&self) -> (b: bool)
        ensures
            b == self.whole_phase(),
    {
        self.whole_candidate_phase
    }

    /// Leave the whole-reading candidate phase.
    pub fn finish_whole_candidate_phase(&mut self)
        ensures
            !final(self).whole_phase(),
            final(self).reading == old(self).reading,
            final(self).segments == old(self).segments,
            final(self).active_segment == old(self).active_segment,
            final(self).preedit_view() == old(self).preedit_view(),
    {
        self.whole_candidate_phase = false;
    }

    /// Surfaces of every segment, concatenated.
    pub fn selected_text(&self) -> (t: String)
        ensures
            t@ == surfaces_text(self.segments@),
    {
        let mut t = String::new();
        let mut i: usize = 0;
        while i < self.segments.len()
            invariant
                i <= self.segments@.len(),
                t@ == surfaces_text(self.segments@.take(i as int)),
            decreases self.segments@.len() - i,
        {
            assert(self.segments@.take(i + 1).drop_last() =~= self.segments@.take(i as int));
            push_str(&mut t, self.segments[i].selected_text());
            i += 1;
        }
        assert(self.segments@.take(i as int) =~= self.segments@);
        t
    }

    /// Make the previous segment active; false at the first one.
    pub fn move_active_left(&mut self) -> (moved: bool)
        requires
            surfaces_text(old(self).segments@).len() <= usize::MAX,
        ensures
            moved_active(*old(self), *final(self), false, moved),
    {
        if self.active_segment == 0 {
            return false;
        }
        self.active_segment -= 1;
        self.rebuild_preedit();
        true
    }

    /// Make the next segment active; false at the last one.
    pub fn move_active_right(&mut self) -> (moved: bool)
        requires
            surfaces_text(old(self).segments@).len() <= usize::MAX,
        ensures
            moved_active(*old(self), *final(self), true, moved),
    {
        if self.segments.len() == 0 || self.active_segment >= self.segments.len() - 1 {
            return false;
        }
        self.active_segment += 1;
        self.rebuild_preedit();
        true
    }

    /// Every segment covers the next non-empty part of the reading and
    /// together they cover it exactly once.
    pub fn ranges_are_valid(&self) -> (b: bool)
        ensures
            b == ranges_valid(self.reading@, self.segments@),
    {
        let n = self.segments.len();
        if n == 0 {
            return false;
        }
        let reading_chars = chars_of(self.reading.as_str());
        let mut expected_start: usize = 0;
        let mut i: usize = 0;
        while i < n
            invariant
                n == self.segments@.len(),
                n > 0,
                reading_chars@ == self.reading@,
                i <= n,
                i == 0 ==> expected_start == 0,
                i > 0 ==> expected_start == self.segments@[i - 1].reading_range.end,
                self.segments@[0].reading_range.start == 0 || i == 0,
                forall|j: int| 0 <= j < i - 1 ==> (#[trigger] self.segments@[j]).reading_range.end == self.segments@[j + 1].reading_range.start,
                forall|j: int| 0 <= j < i ==> {
                    let r = (#[trigger] self.segments@[j]).reading_range;
                    &&& r.start < r.end
                    &&& r.end <= self.reading@.len()
                    &&& self.segments@[j].reading@ == self.reading@.subrange(r.start as int, r.end as int)
                },
            decreases n - i,
        {
            let r = &self.segments[i].reading_range;
            if r.start != expected_start || r.start >= r.end || r.end > reading_chars.len() {
                proof {
                    if i > 0 && r.start != expected_start {
                        assert(self.segments@[i - 1].reading_range.end != self.segments@[i as int].reading_range.start);
                    }
                }
                return false;
            }
            let seg_chars = chars_of(self.segments[i].reading.as_str());
            let mut expected: Vec<char> = Vec::new();
            let mut k = r.start;
            while k < r.end
                invariant
                    r.start <= k <= r.end <= reading_chars@.len(),
                    expected@ == reading_chars@.subrange(r.start as int, k as int),
                decreases r.end - k,
            {
                expected.push(reading_chars[k]);
                assert(reading_chars@.subrange(r.start as int, k as int).push(reading_chars@[k as int]) =~= reading_chars@.subrange(r.start as int, k + 1));
                k += 1;
            }
            if !chars_eq(seg_chars.as_slice(), expected.as_slice()) {
                return false;
            }
            expected_start = r.end;
            i += 1;
        }
        expected_start == reading_chars.len()
    }

    /// Rebuild the preedit from the segment surfaces: the active segment is
    /// highlighted and the caret sits after it.
    pub fn rebuild_preedit(&mut self)
        requires
            surfaces_text(old(self).segments@).len() <= usize::MAX,
        ensures
            final(self).reading == old(self).reading,
            final(self).segments == old(self).segments,
            final(self).active_segment == old(self).active_segment,
            final(self).whole_phase() == old(self).whole_phase(),
            final(self).preedit_matches(),
    {
        let mut position: usize = 0;
        let mut caret: usize = 0;
        let mut pieces: Vec<PreeditSegment> = Vec::new();
        let ghost segs = self.segments@;
        let mut index: usize = 0;
        while index < self.segments.len()
            invariant
                segs == self.segments@,
                surfaces_text(segs).len() <= usize::MAX,
                index <= segs.len(),
                pieces@.len() == index,
                forall|i: int| 0 <= i < index ==> (#[trigger] pieces@[i]).text@ == segs[i].surface() && pieces@[i].attr_type == (
                    if i == self.active_segment { AttributeType::Highlight } else { AttributeType::Underline }),
                segments_text(pieces@) == surfaces_text(segs.take(index as int)),
                position == surfaces_text(segs.take(index as int)).len(),
                caret == if self.active_segment < index { surfaces_text(segs.take(self.active_segment + 1)).len() } else { 0 },
            decreases segs.len() - index,
        {
            proof {
                lemma_surfaces_prefix_len(segs, index + 1);
                assert(segs.take(index + 1).drop_last() =~= segs.take(index as int));
            }
            let text = copy_str(self.segments[index].selected_text());
            let n = chars_of(text.as_str()).len();
            position = position + n;
            if index == self.active_segment {
                caret = position;
            }
            let attr = if index == self.active_segment { AttributeType::Highlight } else { AttributeType::Underline };
            let ghost before = pieces@;
            pieces.push(PreeditSegment::new(text, attr));
            proof {
                assert(pieces@.drop_last() =~= before);
            }
            index += 1;
        }
        proof {
            assert(segs.take(segs.len() as int) =~= segs);
        }
        self.preedit = Preedit::from_segments(pieces, caret);
        proof {
            assert(preedit_segments_for(self.segments@, self.active_segment as int, pieces@));
        }
    }
}

proof fn lemma_surfaces_prefix_len(segs: Seq<ConversionSegment>, k: int)
    requires
        0 <= k <= segs.len(),
    ensures
        surfaces_text(segs.take(k)).len() <= surfaces_text(segs).len(),
    decreases segs.len() - k,
{
    if k < segs.len() {
        lemma_surfaces_prefix_len(segs, k + 1);
        assert(segs.take(k + 1).drop_last() =~= segs.take(k));
    } else {
        assert(segs.take(k) =~= segs);
    }
}

/// The current state of the IME.
#[derive(Debug)]
pub enum InputState {
    /// No input, waiting for the user to type.
    Empty,
    /// Building preedit text (hiragana, katakana or alphabet).
    Composing {
        preedit: Preedit,
        /// Unconverted romaji (e.g. `k` waiting for the next character).
        romaji_buffer: String,
    },
    /// Selecting from conversion candidates.
    Conversion { session: ConversionSession },
}

impl InputState {
    /// Whether the engine is idle.
    pub fn is_empty(&self) -> (b: bool)
        ensures
            b == (*self is Empty),
    {
        match self {
            InputState::Empty => true,
            _ => false,
        }
    }

    /// The current preedit, if any.
    pub fn preedit(&self) -> (p: Option<&Preedit>)
        ensures
            match *self {
                InputState::Empty => p is None,
                InputState::Composing { preedit, .. } => p == Some(&preedit),
                InputState::Conversion { session } => p == Some(&session.preedit_view()),
            },
    {
        match self {
            InputState::Empty => None,
            InputState::Composing { preedit, .. } => Some(preedit),
            InputState::Conversion { session } => Some(session.preedit()),
        }
    }

    /// The current preedit, for replacement.
    pub fn preedit_mut(&mut self) -> (p: Option<&mut Preedit>)
        ensures
            match *old(self) {
                InputState::Empty => p is None && *final(self) is Empty,
                InputState::Composing { preedit, romaji_buffer } => p matches Some(q) && *q == preedit
                    && *final(self) == (InputState::Composing { preedit: *final(q), romaji_buffer }),
                InputState::Conversion { session } => p matches Some(q) && *q == session.preedit_view()
                    && (*final(self) matches InputState::Conversion { session: s2 } && s2.preedit_view() == *final(q)
                        && s2.reading == session.reading && s2.segments == session.segments
                        && s2.active_segment == session.active_segment && s2.whole_phase() == session.whole_phase()),
            },
    {
        match self {
            InputState::Empty => None,
            InputState::Composing { preedit, .. } => Some(preedit),
            InputState::Conversion { session } => Some(session.preedit_mut()),
        }
    }

    /// The active conversion segment's candidates, for changing them in
    /// place; `None` outside conversion.
    pub fn candidates_mut(&mut self) -> (c: Option<&mut CandidateList>)
        ensures
            match *old(self) {
                InputState::Conversion { session } => match c {
                    Some(x) => {
                        let a = session.active_segment as int;
                        &&& session.active_segment < session.segments@.len()
                        &&& *x == session.segments@[a].candidates
                        &&& *final(self) matches InputState::Conversion { session: after }
                        &&& after.segments@ == session.segments@.update(a, ConversionSegment { candidates: *final(x), ..session.segments@[a] })
                        &&& after.active_segment == session.active_segment
                        &&& after.reading == session.reading
                        &&& after.whole_candidate_phase == session.whole_candidate_phase
                        &&& after.preedit == session.preedit
                    },
                    None => session.active_segment >= session.segments@.len() && *final(self) == *old(self),
                },
                _ => c is None && *final(self) == *old(self),
            },
    {
        match self {
            InputState::Conversion { session } => session.candidates_mut(),
            _ => None,
        }
    }

    /// Candidates of the active conversion segment.
    pub fn candidates(&self) -> (c: Option<&CandidateList>)
        ensures
            match *self {
                InputState::Conversion { session } => match c {
                    Some(x) => session.active_segment < session.segments@.len()
                        && *x == session.segments@[session.active_segment as int].candidates,
                    None => session.active_segment >= session.segments@.len(),
                },
                _ => c is None,
            },
    {
        match self {
            InputState::Conversion { session } => session.candidates(),
            _ => None,
        }
    }
}

} // verus!

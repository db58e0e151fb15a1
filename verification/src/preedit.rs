//! The preedit: text being composed, its caret and display attributes.
use vstd::prelude::*;

use crate::text::{chars_of, copy_str, push_str};

verus! {

/// How a preedit range is drawn.
#[derive(Debug, Clone, Copy, PartialEq, Eq, Structural)]
pub enum AttributeType {
    Underline,
    UnderlineDotted,
    Highlight,
}

/// A display attribute over the character range `start..end`.
#[derive(Debug, Clone, Copy, PartialEq, Eq, Structural)]
pub struct PreeditAttribute {
    pub start: usize,
    pub end: usize,
    pub attr_type: AttributeType,
}

impl PreeditAttribute {
    pub fn new(start: usize, end: usize, attr_type: AttributeType) -> (a: Self)
        ensures
            a == (PreeditAttribute { start, end, attr_type }),
    {
        PreeditAttribute { start, end, attr_type }
    }

    pub fn underline(start: usize, end: usize) -> (a: Self)
        ensures
            a == (PreeditAttribute { start, end, attr_type: AttributeType::Underline }),
    {
        PreeditAttribute { start, end, attr_type: AttributeType::Underline }
    }
}

/// A run of preedit text drawn one way.
#[derive(Debug, Clone, PartialEq, Eq)]
pub struct PreeditSegment {
    pub text: String,
    pub attr_type: AttributeType,
}

impl PreeditSegment {
    pub fn new(text: String, attr_type: AttributeType) -> (s: Self)
        ensures
            s.text == text,
            s.attr_type == attr_type,
    {
        PreeditSegment { text, attr_type }
    }

    pub fn highlighted(text: &str) -> (s: Self)
        ensures
            s.text@ == text@,
            s.attr_type == AttributeType::Highlight,
    {
        PreeditSegment { text: copy_str(text), attr_type: AttributeType::Highlight }
    }
}

/// Text of segments, concatenated.
pub open spec fn segments_text(segs: Seq<PreeditSegment>) -> Seq<char>
    decreases segs.len(),
{
    if segs.len() == 0 {
        Seq::empty()
    } else {
        segments_text(segs.drop_last()) + segs.last().text@
    }
}

/// One attribute per segment, over the characters that segment occupies.
pub open spec fn segments_attributes(segs: Seq<PreeditSegment>) -> Seq<PreeditAttribute>
    decreases segs.len(),
{
    if segs.len() == 0 {
        Seq::empty()
    } else {
        let start = segments_text(segs.drop_last()).len();
        segments_attributes(segs.drop_last()).push(PreeditAttribute {
            start: start as usize,
            end: (start + segs.last().text@.len()) as usize,
            attr_type: segs.last().attr_type,
        })
    }
}

/// The composed text shown inline in the editor.
#[derive(Debug, Clone)]
pub struct Preedit {
    text: String,
    caret: usize,
    attributes: Vec<PreeditAttribute>,
}

impl Preedit {
    pub closed spec fn text_view(&self) -> Seq<char> {
        self.text@
    }

    pub closed spec fn caret_pos(&self) -> nat {
        self.caret as nat
    }

    pub closed spec fn attrs(&self) -> Seq<PreeditAttribute> {
        self.attributes@
    }

    /// Whether two preedits show the same thing.
    pub open spec fn same_as(&self, other: Preedit) -> bool {
        self.text_view() == other.text_view() && self.caret_pos() == other.caret_pos() && self.attrs() == other.attrs()
    }

    /// An empty preedit.
    pub fn new() -> (p: Self)
        ensures
            p.text_view().len() == 0,
            p.caret_pos() == 0,
            p.attrs().len() == 0,
    {
        Preedit { text: String::new(), caret: 0, attributes: Vec::new() }
    }

    /// A preedit showing `text` with the caret at its end and no attributes.
    pub fn with_text(text: &str) -> (p: Self)
        ensures
            p.text_view() == text@,
            p.caret_pos() == text@.len(),
            p.attrs().len() == 0,
    {
        let n = chars_of(text).len();
        Preedit { text: copy_str(text), caret: n, attributes: Vec::new() }
    }

    /// A preedit showing `text` underlined, with the caret at its end.
    pub fn with_text_underlined(text: &str) -> (p: Self)
        ensures
            p.text_view() == text@,
            p.caret_pos() == text@.len(),
            p.attrs() == seq![PreeditAttribute { start: 0, end: text@.len() as usize, attr_type: AttributeType::Underline }],
    {
        let n = chars_of(text).len();
        let mut attributes = Vec::new();
        attributes.push(PreeditAttribute::underline(0, n));
        Preedit { text: copy_str(text), caret: n, attributes }
    }

    /// A preedit made of segments, each with its own attribute.
    pub fn from_segments(segments: Vec<PreeditSegment>, caret: usize) -> (p: Self)
        requires
            segments_text(segments@).len() <= usize::MAX,
        ensures
            p.text_view() == segments_text(segments@),
            p.caret_pos() == caret,
            p.attrs() == segments_attributes(segments@),
    {
        let mut text = String::new();
        let mut attributes: Vec<PreeditAttribute> = Vec::new();
        let mut position: usize = 0;
        let mut i: usize = 0;
        while i < segments.len()
            invariant
                i <= segments@.len(),
                segments_text(segments@).len() <= usize::MAX,
                text@ == segments_text(segments@.take(i as int)),
                position == text@.len(),
                attributes@ == segments_attributes(segments@.take(i as int)),
            decreases segments@.len() - i,
        {
            proof {
                lemma_segments_text_prefix_len(segments@, i as int + 1);
                assert(segments@.take(i + 1).drop_last() =~= segments@.take(i as int));
            }
            let n = chars_of(segments[i].text.as_str()).len();
            push_str(&mut text, segments[i].text.as_str());
            attributes.push(PreeditAttribute { start: position, end: position + n, attr_type: segments[i].attr_type });
            position = position + n;
            i += 1;
        }
        assert(segments@.take(segments@.len() as int) =~= segments@);
        Preedit { text, caret, attributes }
    }

    /// The text.
    pub fn text(&self) -> (t: &str)
        ensures
            t@ == self.text_view(),
    {
        self.text.as_str()
    }

    /// Caret position in characters.
    pub fn caret(&self) -> (c: usize)
        ensures
            c == self.caret_pos(),
    {
        self.caret
    }

    /// Move the caret.
    pub fn set_caret(&mut self, caret: usize)
        ensures
            final(self).text_view() == old(self).text_view(),
            final(self).attrs() == old(self).attrs(),
            final(self).caret_pos() == caret,
    {
        self.caret = caret;
    }

    /// Display attributes.
    pub fn attributes(&self) -> (a: &Vec<PreeditAttribute>)
        ensures
            a@ == self.attrs(),
    {
        &self.attributes
    }

    /// Replace the display attributes.
    pub fn set_attributes(&mut self, attributes: Vec<PreeditAttribute>)
        ensures
            final(self).text_view() == old(self).text_view(),
            final(self).caret_pos() == old(self).caret_pos(),
            final(self).attrs() == attributes@,
    {
        self.attributes = attributes;
    }

    /// Whether there is no text.
    pub fn is_empty(&self) -> (b: bool)
        ensures
            b == (self.text_view().len() == 0),
    {
        self.text.as_str().is_empty()
    }

    /// An independent copy.
    pub fn duplicate(&self) -> (p: Self)
        ensures
            p.text_view() == self.text_view(),
            p.caret_pos() == self.caret_pos(),
            p.attrs() == self.attrs(),
    {
        let mut attributes: Vec<PreeditAttribute> = Vec::new();
        let mut i: usize = 0;
        while i < self.attributes.len()
            invariant
                i <= self.attributes@.len(),
                attributes@ == self.attributes@.take(i as int),
            decreases self.attributes@.len() - i,
        {
            attributes.push(self.attributes[i]);
            assert(self.attributes@.take(i + 1) =~= self.attributes@.take(i as int).push(self.attributes@[i as int]));
            i += 1;
        }
        assert(self.attributes@.take(i as int) =~= self.attributes@);
        Preedit { text: self.text.clone(), caret: self.caret, attributes }
    }
}

proof fn lemma_segments_text_prefix_len(segs: Seq<PreeditSegment>, k: int)
    requires
        0 <= k <= segs.len(),
    ensures
        segments_text(segs.take(k)).len() <= segments_text(segs).len(),
    decreases segs.len() - k,
{
    if k < segs.len() {
        lemma_segments_text_prefix_len(segs, k + 1);
        assert(segs.take(k + 1).drop_last() =~= segs.take(k));
    } else {
        assert(segs.take(k) =~= segs);
    }
}

} // verus!

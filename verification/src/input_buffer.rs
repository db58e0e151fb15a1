//! The composed reading and the caret inside it.
use vstd::prelude::*;

use crate::text::{chars_of, string_from_chars};

verus! {

/// Composed text (hiragana, or what alphabet mode typed) with a caret
/// counted in characters.
#[derive(Debug)]
pub struct InputBuffer {
    pub text: String,
    pub cursor_pos: usize,
}

/// `s` with `t` inserted at position `i`.
pub open spec fn inserted_at(s: Seq<char>, i: int, t: Seq<char>) -> Seq<char> {
    s.subrange(0, i) + t + s.subrange(i, s.len() as int)
}

impl InputBuffer {
    /// The caret lies within the text.
    pub open spec fn wf(&self) -> bool {
        self.cursor_pos <= self.text@.len()
    }

    /// An empty buffer.
    pub fn new() -> (b: Self)
        ensures
            b.text@.len() == 0,
            b.cursor_pos == 0,
    {
        InputBuffer { text: String::new(), cursor_pos: 0 }
    }

    /// Empties the buffer.
    pub fn clear(&mut self)
        ensures
            final(self).text@.len() == 0,
            final(self).cursor_pos == 0,
    {
        self.text = String::new();
        self.cursor_pos = 0;
    }

    /// Inserts `s` at the caret and moves the caret after it. A text whose
    /// length would not fit in `usize` is left as it is.
    pub fn insert(&mut self, s: &str)
        requires
            old(self).wf(),
        ensures
            final(self).wf(),
            old(self).text@.len() + s@.len() <= usize::MAX ==> final(self).text@ == inserted_at(old(self).text@, old(self).cursor_pos as int, s@)
                && final(self).cursor_pos == old(self).cursor_pos + s@.len(),
            old(self).text@.len() + s@.len() > usize::MAX ==> final(self).text@ == old(self).text@ && final(self).cursor_pos == old(self).cursor_pos,
    {
        let chars = chars_of(self.text.as_str());
        let add = chars_of(s);
        if add.len() > usize::MAX - chars.len() {
            return;
        }
        let mut out: Vec<char> = Vec::new();
        let mut i: usize = 0;
        while i < self.cursor_pos
            invariant
                i <= self.cursor_pos <= chars@.len(),
                out@ == chars@.subrange(0, i as int),
            decreases self.cursor_pos - i,
        {
            out.push(chars[i]);
            assert(chars@.subrange(0, i + 1) =~= chars@.subrange(0, i as int).push(chars@[i as int]));
            i += 1;
        }
        let mut j: usize = 0;
        while j < add.len()
            invariant
                j <= add@.len(),
                out@ == chars@.subrange(0, self.cursor_pos as int) + add@.subrange(0, j as int),
            decreases add@.len() - j,
        {
            out.push(add[j]);
            assert(add@.subrange(0, j + 1) =~= add@.subrange(0, j as int).push(add@[j as int]));
            j += 1;
        }
        let mut k: usize = self.cursor_pos;
        while k < chars.len()
            invariant
                self.cursor_pos <= k <= chars@.len(),
                out@ == chars@.subrange(0, self.cursor_pos as int) + add@ + chars@.subrange(self.cursor_pos as int, k as int),
            decreases chars@.len() - k,
        {
            assert(add@.subrange(0, add@.len() as int) =~= add@);
            out.push(chars[k]);
            assert(chars@.subrange(self.cursor_pos as int, k + 1) =~= chars@.subrange(self.cursor_pos as int, k as int).push(chars@[k as int]));
            k += 1;
        }
        assert(add@.subrange(0, add@.len() as int) =~= add@);
        self.text = string_from_chars(out.as_slice());
        self.cursor_pos = self.cursor_pos + add.len();
    }

    /// Removes the character at position `index`; the caret stays where it
    /// is unless it is past the new end.
    pub fn remove_char_at(&mut self, index: usize) -> (removed: Option<char>)
        requires
            old(self).wf(),
        ensures
            index < old(self).text@.len() ==> removed == Some(old(self).text@[index as int])
                && final(self).text@ == old(self).text@.remove(index as int),
            index >= old(self).text@.len() ==> removed is None && final(self).text@ == old(self).text@,
            final(self).cursor_pos == (if old(self).cursor_pos > final(self).text@.len() { final(self).text@.len() as usize } else { old(self).cursor_pos }),
            final(self).wf(),
    {
        let mut chars = chars_of(self.text.as_str());
        if index >= chars.len() {
            return None;
        }
        let c = chars.remove(index);
        self.text = string_from_chars(chars.as_slice());
        if self.cursor_pos > chars.len() {
            self.cursor_pos = chars.len();
        }
        Some(c)
    }

    /// Removes the character before the caret and moves the caret back.
    pub fn remove_char_before_cursor(&mut self) -> (removed: Option<char>)
        requires
            old(self).wf(),
        ensures
            final(self).wf(),
            old(self).cursor_pos == 0 ==> removed is None && final(self).text@ == old(self).text@ && final(self).cursor_pos == 0,
            old(self).cursor_pos > 0 ==> removed == Some(old(self).text@[old(self).cursor_pos - 1])
                && final(self).text@ == old(self).text@.remove(old(self).cursor_pos - 1)
                && final(self).cursor_pos == old(self).cursor_pos - 1,
    {
        if self.cursor_pos == 0 {
            return None;
        }
        let at = self.cursor_pos - 1;
        let r = self.remove_char_at(at);
        self.cursor_pos = at;
        r
    }

    /// Removes the character at the caret; the caret stays.
    pub fn remove_char_at_cursor(&mut self) -> (removed: Option<char>)
        requires
            old(self).wf(),
        ensures
            final(self).wf(),
            final(self).cursor_pos == old(self).cursor_pos,
            old(self).cursor_pos < old(self).text@.len() ==> removed == Some(old(self).text@[old(self).cursor_pos as int])
                && final(self).text@ == old(self).text@.remove(old(self).cursor_pos as int),
            old(self).cursor_pos == old(self).text@.len() ==> removed is None && final(self).text@ == old(self).text@,
    {
        let pos = self.cursor_pos;
        self.remove_char_at(pos)
    }
}

} // verus!

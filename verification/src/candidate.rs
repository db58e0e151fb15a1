//! Conversion candidates and the paged candidate list shown to the user.
use vstd::prelude::*;

use crate::text::{copy_str, opt_view};

verus! {

/// One candidate shown in the candidate window.
#[derive(Debug, Clone, PartialEq, Eq)]
pub struct Candidate {
    pub text: String,
    pub reading: Option<String>,
    /// Where the candidate came from (learning, dictionary, model, ...).
    pub source_label: Option<String>,
    pub description: Option<String>,
}

/// A copy of an optional string.
pub fn copy_opt(s: &Option<String>) -> (r: Option<String>)
    ensures
        r == *s,
{
    match s {
        Some(t) => Some(t.clone()),
        None => None,
    }
}

impl Candidate {
    /// A plain candidate for `text` read as `reading`.
    pub fn with_reading(text: &str, reading: &str) -> (c: Self)
        ensures
            c.text@ == text@,
            opt_view(c.reading) == Some(reading@),
            c.source_label is None,
            c.description is None,
    {
        Candidate { text: copy_str(text), reading: Some(copy_str(reading)), source_label: None, description: None }
    }

    /// An independent copy.
    pub fn duplicate(&self) -> (c: Self)
        ensures
            c == *self,
    {
        Candidate {
            text: self.text.clone(),
            reading: copy_opt(&self.reading),
            source_label: copy_opt(&self.source_label),
            description: copy_opt(&self.description),
        }
    }
}

/// A copy of a candidate vector.
pub fn copy_candidates(v: &Vec<Candidate>) -> (r: Vec<Candidate>)
    ensures
        r@ == v@,
{
    let mut r: Vec<Candidate> = Vec::new();
    let mut i: usize = 0;
    while i < v.len()
        invariant
            i <= v@.len(),
            r@ == v@.take(i as int),
        decreases v@.len() - i,
    {
        r.push(v[i].duplicate());
        assert(v@.take(i + 1) =~= v@.take(i as int).push(v@[i as int]));
        i += 1;
    }
    assert(v@.take(i as int) =~= v@);
    r
}

/// Candidates with a selection cursor, shown a page at a time.
#[derive(Debug)]
pub struct CandidateList {
    candidates: Vec<Candidate>,
    cursor: usize,
    page_size: usize,
}

impl CandidateList {
    /// Candidates shown per page.
    pub const DEFAULT_PAGE_SIZE: usize = 9;

    /// The candidates, in order.
    pub closed spec fn items(&self) -> Seq<Candidate> {
        self.candidates@
    }

    /// Index of the selected candidate.
    pub closed spec fn selection(&self) -> nat {
        self.cursor as nat
    }

    /// Candidates per page.
    pub closed spec fn page_len(&self) -> nat {
        self.page_size as nat
    }

    /// The cursor is on a candidate (or at 0 for an empty list), and pages
    /// are non-empty.
    pub open spec fn wf(&self) -> bool {
        &&& self.page_len() > 0
        &&& (self.items().len() == 0 ==> self.selection() == 0)
        &&& (self.items().len() > 0 ==> self.selection() < self.items().len())
    }

    /// A page holds at most as many candidates as a machine word counts.
    pub proof fn lemma_page_len_fits(&self)
        ensures
            self.page_len() <= usize::MAX,
    {
    }

    /// First index of the page holding the cursor.
    pub open spec fn page_start(&self) -> nat {
        ((self.selection() / self.page_len()) * self.page_len()) as nat
    }

    /// Text of the selected candidate, if any.
    pub open spec fn selected_view(&self) -> Option<Seq<char>> {
        if self.selection() < self.items().len() {
            Some(self.items()[self.selection() as int].text@)
        } else {
            None
        }
    }

    /// A list with the first candidate selected.
    pub fn new(candidates: Vec<Candidate>) -> (l: Self)
        ensures
            l.wf(),
            l.items() == candidates@,
            l.selection() == 0,
            l.page_len() == Self::DEFAULT_PAGE_SIZE,
    {
        CandidateList { candidates, cursor: 0, page_size: Self::DEFAULT_PAGE_SIZE }
    }

    /// Plain candidates for the given texts.
    pub fn from_strings(texts: Vec<&str>) -> (l: Self)
        ensures
            l.wf(),
            l.selection() == 0,
            l.page_len() == Self::DEFAULT_PAGE_SIZE,
            l.items().len() == texts@.len(),
            forall|i: int| 0 <= i < texts@.len() ==> (#[trigger] l.items()[i]).text@ == texts@[i]@
                && l.items()[i].reading is None && l.items()[i].source_label is None
                && l.items()[i].description is None,
    {
        let mut candidates: Vec<Candidate> = Vec::new();
        let mut i: usize = 0;
        while i < texts.len()
            invariant
                i <= texts@.len(),
                candidates@.len() == i,
                forall|j: int| 0 <= j < i ==> (#[trigger] candidates@[j]).text@ == texts@[j]@
                    && candidates@[j].reading is None && candidates@[j].source_label is None
                    && candidates@[j].description is None,
            decreases texts@.len() - i,
        {
            candidates.push(Candidate { text: copy_str(texts[i]), reading: None, source_label: None, description: None });
            i += 1;
        }
        Self::new(candidates)
    }

    /// Plain candidates for the given texts, all read as `reading`.
    pub fn from_strings_with_reading(texts: Vec<&str>, reading: &str) -> (l: Self)
        ensures
            l.wf(),
            l.selection() == 0,
            l.page_len() == Self::DEFAULT_PAGE_SIZE,
            l.items().len() == texts@.len(),
            forall|i: int| 0 <= i < texts@.len() ==> (#[trigger] l.items()[i]).text@ == texts@[i]@
                && opt_view(l.items()[i].reading) == Some(reading@)
                && l.items()[i].source_label is None && l.items()[i].description is None,
    {
        let mut candidates: Vec<Candidate> = Vec::new();
        let mut i: usize = 0;
        while i < texts.len()
            invariant
                i <= texts@.len(),
                candidates@.len() == i,
                forall|j: int| 0 <= j < i ==> (#[trigger] candidates@[j]).text@ == texts@[j]@
                    && opt_view(candidates@[j].reading) == Some(reading@)
                    && candidates@[j].source_label is None && candidates@[j].description is None,
            decreases texts@.len() - i,
        {
            candidates.push(Candidate::with_reading(texts[i], reading));
            i += 1;
        }
        Self::new(candidates)
    }

    /// An independent copy.
    pub fn duplicate(&self) -> (l: Self)
        ensures
            l.items() == self.items(),
            l.selection() == self.selection(),
            l.page_len() == self.page_len(),
    {
        CandidateList { candidates: copy_candidates(&self.candidates), cursor: self.cursor, page_size: self.page_size }
    }

    /// The candidates, in order.
    pub fn candidates(&self) -> (r: &Vec<Candidate>)
        ensures
            r@ == self.items(),
    {
        &self.candidates
    }

    /// Number of candidates.
    pub fn len(&self) -> (n: usize)
        ensures
            n == self.items().len(),
    {
        self.candidates.len()
    }

    /// Whether there are no candidates.
    pub fn is_empty(&self) -> (b: bool)
        ensures
            b == (self.items().len() == 0),
    {
        self.candidates.len() == 0
    }

    /// Index of the selected candidate.
    pub fn cursor(&self) -> (c: usize)
        ensures
            c == self.selection(),
    {
        self.cursor
    }

    /// The selected candidate.
    pub fn selected(&self) -> (c: Option<&Candidate>)
        ensures
            match c {
                Some(x) => self.selection() < self.items().len() && *x == self.items()[self.selection() as int],
                None => self.selection() >= self.items().len(),
            },
    {
        if self.cursor < self.candidates.len() {
            Some(&self.candidates[self.cursor])
        } else {
            None
        }
    }

    /// Text of the selected candidate.
    pub fn selected_text(&self) -> (t: Option<&str>)
        ensures
            match t {
                Some(x) => self.selected_view() == Some(x@),
                None => self.selected_view() is None,
            },
    {
        if self.cursor < self.candidates.len() {
            Some(self.candidates[self.cursor].text.as_str())
        } else {
            None
        }
    }

    /// Select the next candidate; false (and no change) at the last one.
    pub fn move_next(&mut self) -> (moved: bool)
        requires
            old(self).wf(),
        ensures
            final(self).wf(),
            final(self).items() == old(self).items(),
            final(self).page_len() == old(self).page_len(),
            moved == (old(self).selection() + 1 < old(self).items().len()),
            final(self).selection() == if moved { old(self).selection() + 1 } else { old(self).selection() },
    {
        if self.candidates.len() > 0 && self.cursor < self.candidates.len() - 1 {
            self.cursor += 1;
            true
        } else {
            false
        }
    }

    /// Selects the candidate at `index`; false (and no change) when there is
    /// none there.
    pub fn select(&mut self, index: usize) -> (selected: bool)
        requires
            old(self).wf(),
        ensures
            final(self).wf(),
            final(self).items() == old(self).items(),
            final(self).page_len() == old(self).page_len(),
            selected == (index < old(self).items().len()),
            final(self).selection() == if selected { index as nat } else { old(self).selection() },
    {
        if index < self.candidates.len() {
            self.cursor = index;
            true
        } else {
            false
        }
    }

    /// Select the previous candidate; false (and no change) at the first one.
    pub fn move_prev(&mut self) -> (moved: bool)
        requires
            old(self).wf(),
        ensures
            final(self).wf(),
            final(self).items() == old(self).items(),
            final(self).page_len() == old(self).page_len(),
            moved == (old(self).selection() > 0),
            final(self).selection() == if moved { (old(self).selection() - 1) as nat } else { old(self).selection() },
    {
        if self.cursor > 0 {
            self.cursor -= 1;
            true
        } else {
            false
        }
    }

    /// Select the first candidate of the next page, if there is one.
    pub fn next_page(&mut self) -> (moved: bool)
        requires
            old(self).wf(),
        ensures
            final(self).wf(),
            final(self).items() == old(self).items(),
            final(self).page_len() == old(self).page_len(),
            moved == (old(self).page_start() + old(self).page_len() < old(self).items().len()),
            final(self).selection() == if moved { old(self).page_start() + old(self).page_len() } else { old(self).selection() },
    {
        proof {
            let c = self.cursor as int;
            let p = self.page_size as int;
            vstd::arithmetic::div_mod::lemma_fundamental_div_mod(c, p);
            vstd::arithmetic::div_mod::lemma_mod_bound(c, p);
            vstd::arithmetic::div_mod::lemma_div_pos_is_pos(c, p);
            vstd::arithmetic::mul::lemma_mul_is_commutative(c / p, p);
            vstd::arithmetic::mul::lemma_mul_nonnegative(c / p, p);
        }
        let start = self.cursor - self.cursor % self.page_size;
        if start < self.candidates.len() && self.page_size < self.candidates.len() - start {
            self.cursor = start + self.page_size;
            true
        } else {
            false
        }
    }

    /// Select the first candidate of the previous page, if there is one.
    pub fn prev_page(&mut self) -> (moved: bool)
        requires
            old(self).wf(),
        ensures
            final(self).wf(),
            final(self).items() == old(self).items(),
            final(self).page_len() == old(self).page_len(),
            moved == (old(self).page_start() >= old(self).page_len()),
            final(self).selection() == if moved { (old(self).page_start() - old(self).page_len()) as nat } else { old(self).selection() },
    {
        proof {
            let c = self.cursor as int;
            let p = self.page_size as int;
            vstd::arithmetic::div_mod::lemma_fundamental_div_mod(c, p);
            vstd::arithmetic::div_mod::lemma_mod_bound(c, p);
            vstd::arithmetic::div_mod::lemma_div_pos_is_pos(c, p);
            vstd::arithmetic::mul::lemma_mul_is_commutative(c / p, p);
            vstd::arithmetic::mul::lemma_mul_nonnegative(c / p, p);
        }
        let start = self.cursor - self.cursor % self.page_size;
        if start >= self.page_size {
            self.cursor = start - self.page_size;
            true
        } else {
            false
        }
    }

    /// Select candidate `digit` (1-based) of the current page.
    pub fn select_on_page(&mut self, digit: usize) -> (c: Option<&Candidate>)
        requires
            old(self).wf(),
        ensures
            final(self).wf(),
            final(self).items() == old(self).items(),
            final(self).page_len() == old(self).page_len(),
            ({
                let index = old(self).page_start() + digit - 1;
                let ok = 1 <= digit <= old(self).page_len() && index < old(self).items().len();
                &&& (ok ==> final(self).selection() == index && c == Some(&old(self).items()[index]))
                &&& (!ok ==> final(self).selection() == old(self).selection() && c is None)
            }),
    {
        proof {
            let c = self.cursor as int;
            let p = self.page_size as int;
            vstd::arithmetic::div_mod::lemma_fundamental_div_mod(c, p);
            vstd::arithmetic::div_mod::lemma_mod_bound(c, p);
            vstd::arithmetic::div_mod::lemma_div_pos_is_pos(c, p);
            vstd::arithmetic::mul::lemma_mul_is_commutative(c / p, p);
            vstd::arithmetic::mul::lemma_mul_nonnegative(c / p, p);
        }
        let start = self.cursor - self.cursor % self.page_size;
        if digit >= 1 && digit <= self.page_size && digit - 1 < self.candidates.len() - start {
            self.cursor = start + digit - 1;
            Some(&self.candidates[self.cursor])
        } else {
            None
        }
    }
}

} // verus!

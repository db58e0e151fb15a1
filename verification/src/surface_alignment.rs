//! Partial alignment between a whole converted surface and the candidates
//! of reading segments: exact candidate matches become their own pieces,
//! and regions that no candidate explains stay merged in one coarse piece,
//! so no surface is ever split by character count alone.
use vstd::prelude::*;

use crate::candidate::CandidateList;
use crate::suggestions::texts;
use crate::text::chars_of;

verus! {

/// One piece of an alignment.
#[derive(Debug, PartialEq, Eq)]
pub enum PartialSurfaceAlignment {
    /// Candidate `candidate_index` of segment `segment_index` spells the
    /// surface characters `surface_range` exactly.
    Exact { segment_index: usize, candidate_index: usize, surface_range: core::ops::Range<usize> },
    /// Segments `segment_range` together account for `surface_range`,
    /// without an exact match.
    Unmatched { segment_range: core::ops::Range<usize>, surface_range: core::ops::Range<usize> },
}

/// The score of an alignment: exact segments, surface characters they
/// cover, and unmatched pieces.
pub type Score = (nat, nat, nat);

/// Whether score `a` beats score `b`: more exact segments, then more
/// characters covered exactly, then fewer unmatched pieces.
pub open spec fn better(a: Score, b: Score) -> bool {
    a.0 > b.0 || (a.0 == b.0 && (a.1 > b.1 || (a.1 == b.1 && a.2 < b.2)))
}

/// `next` replaces `acc` when there is no `acc` yet or `next` is better.
pub open spec fn consider(acc: Option<(Score, Seq<PartialSurfaceAlignment>)>, next: (Score, Seq<PartialSurfaceAlignment>)) -> Option<(Score, Seq<PartialSurfaceAlignment>)> {
    match acc {
        None => Some(next),
        Some(a) => if better(next.0, a.0) { Some(next) } else { acc },
    }
}

/// Whether `cand` is a non-empty candidate spelled by `s` from `p` on.
pub open spec fn spells_at(s: Seq<char>, p: int, cand: Seq<char>) -> bool {
    cand.len() > 0 && p + cand.len() <= s.len() && s.subrange(p, p + cand.len()) == cand
}

/// The measure that every step of the search decreases.
pub open spec fn remaining(c: Seq<Seq<Seq<char>>>, s: Seq<char>, i: nat, p: nat) -> nat {
    ((c.len() - i) + (s.len() - p)) as nat
}

/// The best alignment of segments `i..` with surface characters `p..`:
/// `None` when they cannot be aligned (exactly one side exhausted).
pub open spec fn align_best(c: Seq<Seq<Seq<char>>>, s: Seq<char>, i: nat, p: nat) -> Option<(Score, Seq<PartialSurfaceAlignment>)>
    decreases remaining(c, s, i, p), 3nat, 0nat,
{
    if i == c.len() && p == s.len() {
        Some(((0nat, 0nat, 0nat), Seq::empty()))
    } else if i >= c.len() || p >= s.len() {
        None
    } else {
        align_outer(c, s, i, p, i + 1, align_exact(c, s, i, p, 0, None))
    }
}

/// Tries the exact candidates `k..` of segment `i` at surface position `p`,
/// in order, keeping the best result.
pub open spec fn align_exact(c: Seq<Seq<Seq<char>>>, s: Seq<char>, i: nat, p: nat, k: nat, acc: Option<(Score, Seq<PartialSurfaceAlignment>)>) -> Option<(Score, Seq<PartialSurfaceAlignment>)>
    decreases remaining(c, s, i, p), 1nat, (if i < c.len() && k < c[i as int].len() { c[i as int].len() - k } else { 0 }) as nat,
{
    if i >= c.len() || p >= s.len() || k >= c[i as int].len() {
        acc
    } else {
        let cand = c[i as int][k as int];
        let next = if spells_at(s, p as int, cand) {
            match align_best(c, s, i + 1, p + cand.len()) {
                Some(r) => consider(acc, ((r.0.0 + 1, r.0.1 + cand.len(), r.0.2), seq![PartialSurfaceAlignment::Exact {
                    segment_index: i as usize,
                    candidate_index: k as usize,
                    surface_range: (p as usize)..((p + cand.len()) as usize),
                }] + r.1)),
                None => acc,
            }
        } else {
            acc
        };
        align_exact(c, s, i, p, k + 1, next)
    }
}

/// Tries unmatched pieces covering segments `i..se` (for `se` from the
/// given one up to the last segment), keeping the best result.
pub open spec fn align_outer(c: Seq<Seq<Seq<char>>>, s: Seq<char>, i: nat, p: nat, se: nat, acc: Option<(Score, Seq<PartialSurfaceAlignment>)>) -> Option<(Score, Seq<PartialSurfaceAlignment>)>
    decreases remaining(c, s, i, p), 2nat, (if se <= c.len() { c.len() + 1 - se } else { 0 }) as nat,
{
    if i >= c.len() || p >= s.len() || se > c.len() || se <= i {
        acc
    } else {
        align_outer(c, s, i, p, se + 1, align_inner(c, s, i, p, se, p + 1, acc))
    }
}

/// Tries unmatched pieces covering segments `i..se` and surface characters
/// `p..pe` (for `pe` from the given one up to the end), keeping the best.
pub open spec fn align_inner(c: Seq<Seq<Seq<char>>>, s: Seq<char>, i: nat, p: nat, se: nat, pe: nat, acc: Option<(Score, Seq<PartialSurfaceAlignment>)>) -> Option<(Score, Seq<PartialSurfaceAlignment>)>
    decreases remaining(c, s, i, p), 1nat, (if pe <= s.len() { s.len() + 1 - pe } else { 0 }) as nat,
{
    if i >= c.len() || p >= s.len() || se > c.len() || se <= i || pe > s.len() || pe <= p {
        acc
    } else {
        let next = match align_best(c, s, se, pe) {
            Some(r) => consider(acc, ((r.0.0, r.0.1, r.0.2 + 1), seq![PartialSurfaceAlignment::Unmatched {
                segment_range: (i as usize)..(se as usize),
                surface_range: (p as usize)..(pe as usize),
            }] + r.1)),
            None => acc,
        };
        align_inner(c, s, i, p, se, pe + 1, next)
    }
}

/// The candidate texts of each list.
pub open spec fn candidate_texts(lists: Seq<CandidateList>) -> Seq<Seq<Seq<char>>> {
    lists.map_values(|l: CandidateList| texts(l.items()))
}

/// A score within what segments `i..` and characters `p..` allow.
pub open spec fn bounded(r: Option<(Score, Seq<PartialSurfaceAlignment>)>, c: Seq<Seq<Seq<char>>>, s: Seq<char>, i: nat, p: nat) -> bool {
    r matches Some(x) ==> x.0.0 <= c.len() - i && x.0.1 <= s.len() - p && x.0.2 <= c.len() - i
}

proof fn lemma_best_bounded(c: Seq<Seq<Seq<char>>>, s: Seq<char>, i: nat, p: nat)
    requires
        i <= c.len(),
        p <= s.len(),
    ensures
        bounded(align_best(c, s, i, p), c, s, i, p),
    decreases remaining(c, s, i, p), 3nat, 0nat,
{
    if i == c.len() && p == s.len() {
    } else if i >= c.len() || p >= s.len() {
    } else {
        lemma_exact_bounded(c, s, i, p, 0, None);
        lemma_outer_bounded(c, s, i, p, i + 1, align_exact(c, s, i, p, 0, None));
    }
}

proof fn lemma_exact_bounded(c: Seq<Seq<Seq<char>>>, s: Seq<char>, i: nat, p: nat, k: nat, acc: Option<(Score, Seq<PartialSurfaceAlignment>)>)
    requires
        i <= c.len(),
        p <= s.len(),
        bounded(acc, c, s, i, p),
    ensures
        bounded(align_exact(c, s, i, p, k, acc), c, s, i, p),
    decreases remaining(c, s, i, p), 1nat, (if i < c.len() && k < c[i as int].len() { c[i as int].len() - k } else { 0 }) as nat,
{
    if i >= c.len() || p >= s.len() || k >= c[i as int].len() {
    } else {
        let cand = c[i as int][k as int];
        let next = if spells_at(s, p as int, cand) {
            match align_best(c, s, i + 1, p + cand.len()) {
                Some(r) => consider(acc, ((r.0.0 + 1, r.0.1 + cand.len(), r.0.2), seq![PartialSurfaceAlignment::Exact {
                    segment_index: i as usize,
                    candidate_index: k as usize,
                    surface_range: (p as usize)..((p + cand.len()) as usize),
                }] + r.1)),
                None => acc,
            }
        } else {
            acc
        };
        if spells_at(s, p as int, cand) {
            lemma_best_bounded(c, s, i + 1, p + cand.len());
        }
        lemma_exact_bounded(c, s, i, p, k + 1, next);
    }
}

proof fn lemma_outer_bounded(c: Seq<Seq<Seq<char>>>, s: Seq<char>, i: nat, p: nat, se: nat, acc: Option<(Score, Seq<PartialSurfaceAlignment>)>)
    requires
        i <= c.len(),
        p <= s.len(),
        bounded(acc, c, s, i, p),
    ensures
        bounded(align_outer(c, s, i, p, se, acc), c, s, i, p),
    decreases remaining(c, s, i, p), 2nat, (if se <= c.len() { c.len() + 1 - se } else { 0 }) as nat,
{
    if i >= c.len() || p >= s.len() || se > c.len() || se <= i {
    } else {
        lemma_inner_bounded(c, s, i, p, se, p + 1, acc);
        lemma_outer_bounded(c, s, i, p, se + 1, align_inner(c, s, i, p, se, p + 1, acc));
    }
}

proof fn lemma_inner_bounded(c: Seq<Seq<Seq<char>>>, s: Seq<char>, i: nat, p: nat, se: nat, pe: nat, acc: Option<(Score, Seq<PartialSurfaceAlignment>)>)
    requires
        i <= c.len(),
        p <= s.len(),
        bounded(acc, c, s, i, p),
    ensures
        bounded(align_inner(c, s, i, p, se, pe, acc), c, s, i, p),
    decreases remaining(c, s, i, p), 1nat, (if pe <= s.len() { s.len() + 1 - pe } else { 0 }) as nat,
{
    if i >= c.len() || p >= s.len() || se > c.len() || se <= i || pe > s.len() || pe <= p {
    } else {
        let next = match align_best(c, s, se, pe) {
            Some(r) => consider(acc, ((r.0.0, r.0.1, r.0.2 + 1), seq![PartialSurfaceAlignment::Unmatched {
                segment_range: (i as usize)..(se as usize),
                surface_range: (p as usize)..(pe as usize),
            }] + r.1)),
            None => acc,
        };
        lemma_best_bounded(c, s, se, pe);
        lemma_inner_bounded(c, s, i, p, se, pe + 1, next);
    }
}

/// `pieces` align segments `i..` with surface characters `p..`: each piece
/// starts where the one before it ended, an exact piece's candidate spells
/// its characters, an unmatched piece covers at least one segment and one
/// character, and together they end at the last segment and character.
pub open spec fn tiles(c: Seq<Seq<Seq<char>>>, s: Seq<char>, i: nat, p: nat, pieces: Seq<PartialSurfaceAlignment>) -> bool
    decreases pieces.len(),
{
    if pieces.len() == 0 {
        i == c.len() && p == s.len()
    } else {
        match pieces[0] {
            PartialSurfaceAlignment::Exact { segment_index, candidate_index, surface_range } => {
                &&& segment_index == i
                &&& i < c.len()
                &&& candidate_index < c[i as int].len()
                &&& surface_range.start == p
                &&& spells_at(s, p as int, c[i as int][candidate_index as int])
                &&& surface_range.end == p + c[i as int][candidate_index as int].len()
                &&& tiles(c, s, i + 1, surface_range.end as nat, pieces.skip(1))
            },
            PartialSurfaceAlignment::Unmatched { segment_range, surface_range } => {
                &&& segment_range.start == i
                &&& i < segment_range.end <= c.len()
                &&& surface_range.start == p
                &&& p < surface_range.end <= s.len()
                &&& tiles(c, s, segment_range.end as nat, surface_range.end as nat, pieces.skip(1))
            },
        }
    }
}

/// The score of an alignment: exact pieces, characters they cover, and
/// unmatched pieces.
pub open spec fn score_of(pieces: Seq<PartialSurfaceAlignment>) -> Score
    decreases pieces.len(),
{
    if pieces.len() == 0 {
        (0nat, 0nat, 0nat)
    } else {
        let r = score_of(pieces.skip(1));
        match pieces[0] {
            PartialSurfaceAlignment::Exact { surface_range, .. } =>
                (r.0 + 1, r.1 + (surface_range.end - surface_range.start) as nat, r.2),
            PartialSurfaceAlignment::Unmatched { .. } => (r.0, r.1, r.2 + 1),
        }
    }
}

/// Segment and candidate counts and the surface length fit in `usize`.
pub open spec fn fits(c: Seq<Seq<Seq<char>>>, s: Seq<char>) -> bool {
    &&& c.len() <= usize::MAX
    &&& s.len() <= usize::MAX
    &&& forall|j: int| 0 <= j < c.len() ==> (#[trigger] c[j]).len() <= usize::MAX
}

/// A result is sound: its pieces align what they claim to, and its score
/// is theirs.
pub open spec fn sound(r: Option<(Score, Seq<PartialSurfaceAlignment>)>, c: Seq<Seq<Seq<char>>>, s: Seq<char>, i: nat, p: nat) -> bool {
    r matches Some(x) ==> tiles(c, s, i, p, x.1) && x.0 == score_of(x.1)
}

/// Prepending a piece to a sound result.
proof fn lemma_prepend_piece(piece: PartialSurfaceAlignment, rest: Seq<PartialSurfaceAlignment>)
    ensures
        (seq![piece] + rest).skip(1) == rest,
        (seq![piece] + rest)[0] == piece,
        (seq![piece] + rest).len() > 0,
{
    assert((seq![piece] + rest).skip(1) =~= rest);
}

/// The best alignment is a sound one.
pub proof fn lemma_best_sound(c: Seq<Seq<Seq<char>>>, s: Seq<char>, i: nat, p: nat)
    requires
        fits(c, s),
        i <= c.len(),
        p <= s.len(),
    ensures
        sound(align_best(c, s, i, p), c, s, i, p),
    decreases remaining(c, s, i, p), 3nat, 0nat,
{
    if i == c.len() && p == s.len() {
    } else if i >= c.len() || p >= s.len() {
    } else {
        lemma_exact_sound(c, s, i, p, 0, None);
        lemma_outer_sound(c, s, i, p, i + 1, align_exact(c, s, i, p, 0, None));
    }
}

proof fn lemma_exact_sound(c: Seq<Seq<Seq<char>>>, s: Seq<char>, i: nat, p: nat, k: nat, acc: Option<(Score, Seq<PartialSurfaceAlignment>)>)
    requires
        fits(c, s),
        i <= c.len(),
        p <= s.len(),
        sound(acc, c, s, i, p),
    ensures
        sound(align_exact(c, s, i, p, k, acc), c, s, i, p),
    decreases remaining(c, s, i, p), 1nat, (if i < c.len() && k < c[i as int].len() { c[i as int].len() - k } else { 0 }) as nat,
{
    if i >= c.len() || p >= s.len() || k >= c[i as int].len() {
    } else {
        let cand = c[i as int][k as int];
        if spells_at(s, p as int, cand) {
            lemma_best_sound(c, s, i + 1, p + cand.len());
            match align_best(c, s, i + 1, p + cand.len()) {
                Some(r) => {
                    let piece = PartialSurfaceAlignment::Exact {
                        segment_index: i as usize,
                        candidate_index: k as usize,
                        surface_range: (p as usize)..((p + cand.len()) as usize),
                    };
                    lemma_prepend_piece(piece, r.1);
                },
                None => {},
            }
        }
        let next = if spells_at(s, p as int, cand) {
            match align_best(c, s, i + 1, p + cand.len()) {
                Some(r) => consider(acc, ((r.0.0 + 1, r.0.1 + cand.len(), r.0.2), seq![PartialSurfaceAlignment::Exact {
                    segment_index: i as usize,
                    candidate_index: k as usize,
                    surface_range: (p as usize)..((p + cand.len()) as usize),
                }] + r.1)),
                None => acc,
            }
        } else {
            acc
        };
        lemma_exact_sound(c, s, i, p, k + 1, next);
    }
}

proof fn lemma_outer_sound(c: Seq<Seq<Seq<char>>>, s: Seq<char>, i: nat, p: nat, se: nat, acc: Option<(Score, Seq<PartialSurfaceAlignment>)>)
    requires
        fits(c, s),
        i <= c.len(),
        p <= s.len(),
        sound(acc, c, s, i, p),
    ensures
        sound(align_outer(c, s, i, p, se, acc), c, s, i, p),
    decreases remaining(c, s, i, p), 2nat, (if se <= c.len() { c.len() + 1 - se } else { 0 }) as nat,
{
    if i >= c.len() || p >= s.len() || se > c.len() || se <= i {
    } else {
        lemma_inner_sound(c, s, i, p, se, p + 1, acc);
        lemma_outer_sound(c, s, i, p, se + 1, align_inner(c, s, i, p, se, p + 1, acc));
    }
}

proof fn lemma_inner_sound(c: Seq<Seq<Seq<char>>>, s: Seq<char>, i: nat, p: nat, se: nat, pe: nat, acc: Option<(Score, Seq<PartialSurfaceAlignment>)>)
    requires
        fits(c, s),
        i <= c.len(),
        p <= s.len(),
        sound(acc, c, s, i, p),
    ensures
        sound(align_inner(c, s, i, p, se, pe, acc), c, s, i, p),
    decreases remaining(c, s, i, p), 1nat, (if pe <= s.len() { s.len() + 1 - pe } else { 0 }) as nat,
{
    if i >= c.len() || p >= s.len() || se > c.len() || se <= i || pe > s.len() || pe <= p {
    } else {
        lemma_best_sound(c, s, se, pe);
        match align_best(c, s, se, pe) {
            Some(r) => {
                let piece = PartialSurfaceAlignment::Unmatched {
                    segment_range: (i as usize)..(se as usize),
                    surface_range: (p as usize)..(pe as usize),
                };
                lemma_prepend_piece(piece, r.1);
            },
            None => {},
        }
        let next = match align_best(c, s, se, pe) {
            Some(r) => consider(acc, ((r.0.0, r.0.1, r.0.2 + 1), seq![PartialSurfaceAlignment::Unmatched {
                segment_range: (i as usize)..(se as usize),
                surface_range: (p as usize)..(pe as usize),
            }] + r.1)),
            None => acc,
        };
        lemma_inner_sound(c, s, i, p, se, pe + 1, next);
    }
}

/// `a` scores at least as well as `b`.
pub open spec fn at_least(a: Score, b: Score) -> bool {
    !better(b, a)
}

/// `r` is an alignment scoring at least `x`.
pub open spec fn covers(r: Option<(Score, Seq<PartialSurfaceAlignment>)>, x: Score) -> bool {
    r matches Some(z) && at_least(z.0, x)
}

/// The score of starting with exact candidate `k` of segment `i`.
pub open spec fn exact_option(c: Seq<Seq<Seq<char>>>, s: Seq<char>, i: nat, p: nat, k: nat) -> Score {
    let len = c[i as int][k as int].len();
    let y = align_best(c, s, i + 1, p + len).unwrap();
    (y.0.0 + 1, y.0.1 + len, y.0.2)
}

/// The score of starting with one unmatched piece that ends at segment
/// `se` and character `pe`.
pub open spec fn unmatched_option(c: Seq<Seq<Seq<char>>>, s: Seq<char>, se: nat, pe: nat) -> Score {
    let y = align_best(c, s, se, pe).unwrap();
    (y.0.0, y.0.1, y.0.2 + 1)
}

proof fn lemma_consider_covers(acc: Option<(Score, Seq<PartialSurfaceAlignment>)>, next: (Score, Seq<PartialSurfaceAlignment>))
    ensures
        covers(consider(acc, next), next.0),
        acc matches Some(a) ==> covers(consider(acc, next), a.0),
{
}

proof fn lemma_exact_covers(c: Seq<Seq<Seq<char>>>, s: Seq<char>, i: nat, p: nat, k: nat, acc: Option<(Score, Seq<PartialSurfaceAlignment>)>)
    requires
        i < c.len(),
        p < s.len(),
    ensures
        acc matches Some(a) ==> covers(align_exact(c, s, i, p, k, acc), a.0),
        forall|kk: nat| k <= kk < c[i as int].len() && spells_at(s, p as int, c[i as int][kk as int])
            && align_best(c, s, i + 1, p + c[i as int][kk as int].len()) is Some
            ==> covers(align_exact(c, s, i, p, k, acc), #[trigger] exact_option(c, s, i, p, kk)),
    decreases c[i as int].len() - k,
{
    if k < c[i as int].len() {
        let cand = c[i as int][k as int];
        let next = if spells_at(s, p as int, cand) {
            match align_best(c, s, i + 1, p + cand.len()) {
                Some(r) => consider(acc, ((r.0.0 + 1, r.0.1 + cand.len(), r.0.2), seq![PartialSurfaceAlignment::Exact {
                    segment_index: i as usize,
                    candidate_index: k as usize,
                    surface_range: (p as usize)..((p + cand.len()) as usize),
                }] + r.1)),
                None => acc,
            }
        } else {
            acc
        };
        if spells_at(s, p as int, cand) {
            match align_best(c, s, i + 1, p + cand.len()) {
                Some(r) => {
                    lemma_consider_covers(acc, ((r.0.0 + 1, r.0.1 + cand.len(), r.0.2), seq![PartialSurfaceAlignment::Exact {
                        segment_index: i as usize,
                        candidate_index: k as usize,
                        surface_range: (p as usize)..((p + cand.len()) as usize),
                    }] + r.1));
                },
                None => {},
            }
        }
        lemma_exact_covers(c, s, i, p, k + 1, next);
    }
}

proof fn lemma_inner_covers(c: Seq<Seq<Seq<char>>>, s: Seq<char>, i: nat, p: nat, se: nat, pe: nat, acc: Option<(Score, Seq<PartialSurfaceAlignment>)>)
    requires
        i < se <= c.len(),
        p < s.len(),
        p < pe,
    ensures
        acc matches Some(a) ==> covers(align_inner(c, s, i, p, se, pe, acc), a.0),
        forall|pe2: nat| pe <= pe2 <= s.len() && align_best(c, s, se, pe2) is Some
            ==> covers(align_inner(c, s, i, p, se, pe, acc), #[trigger] unmatched_option(c, s, se, pe2)),
    decreases s.len() + 1 - pe,
{
    if pe <= s.len() {
        let next = match align_best(c, s, se, pe) {
            Some(r) => consider(acc, ((r.0.0, r.0.1, r.0.2 + 1), seq![PartialSurfaceAlignment::Unmatched {
                segment_range: (i as usize)..(se as usize),
                surface_range: (p as usize)..(pe as usize),
            }] + r.1)),
            None => acc,
        };
        match align_best(c, s, se, pe) {
            Some(r) => {
                lemma_consider_covers(acc, ((r.0.0, r.0.1, r.0.2 + 1), seq![PartialSurfaceAlignment::Unmatched {
                    segment_range: (i as usize)..(se as usize),
                    surface_range: (p as usize)..(pe as usize),
                }] + r.1));
            },
            None => {},
        }
        lemma_inner_covers(c, s, i, p, se, pe + 1, next);
    }
}

proof fn lemma_outer_covers(c: Seq<Seq<Seq<char>>>, s: Seq<char>, i: nat, p: nat, se: nat, acc: Option<(Score, Seq<PartialSurfaceAlignment>)>)
    requires
        i < se,
        i < c.len(),
        p < s.len(),
    ensures
        acc matches Some(a) ==> covers(align_outer(c, s, i, p, se, acc), a.0),
        forall|se2: nat, pe2: nat| se <= se2 <= c.len() && p < pe2 <= s.len() && align_best(c, s, se2, pe2) is Some
            ==> covers(align_outer(c, s, i, p, se, acc), #[trigger] unmatched_option(c, s, se2, pe2)),
    decreases c.len() + 1 - se,
{
    if se <= c.len() {
        let inner = align_inner(c, s, i, p, se, p + 1, acc);
        lemma_inner_covers(c, s, i, p, se, p + 1, acc);
        lemma_outer_covers(c, s, i, p, se + 1, inner);
    }
}

/// No alignment of segments `i..` with characters `p..` scores better than
/// the best one: it has the most exact segments, then the most characters
/// covered exactly, then the fewest unmatched pieces.
pub proof fn lemma_best_optimal(c: Seq<Seq<Seq<char>>>, s: Seq<char>, i: nat, p: nat, pieces: Seq<PartialSurfaceAlignment>)
    requires
        tiles(c, s, i, p, pieces),
    ensures
        covers(align_best(c, s, i, p), score_of(pieces)),
    decreases remaining(c, s, i, p),
{
    if pieces.len() == 0 {
    } else {
        let rest = pieces.skip(1);
        let r = score_of(rest);
        match pieces[0] {
            PartialSurfaceAlignment::Exact { segment_index, candidate_index, surface_range } => {
                let k = candidate_index as nat;
                let len = c[i as int][k as int].len();
                lemma_best_optimal(c, s, i + 1, p + len, rest);
                lemma_exact_covers(c, s, i, p, 0, None);
                assert(covers(align_exact(c, s, i, p, 0, None), exact_option(c, s, i, p, k)));
                let ex = align_exact(c, s, i, p, 0, None);
                lemma_outer_covers(c, s, i, p, i + 1, ex);
            },
            PartialSurfaceAlignment::Unmatched { segment_range, surface_range } => {
                let se = segment_range.end as nat;
                let pe = surface_range.end as nat;
                lemma_best_optimal(c, s, se, pe, rest);
                let ex = align_exact(c, s, i, p, 0, None);
                lemma_outer_covers(c, s, i, p, i + 1, ex);
                assert(covers(align_outer(c, s, i, p, i + 1, ex), unmatched_option(c, s, se, pe)));
            },
        }
    }
}

/// Pieces `j` and `j + 1`, both unmatched, joined into one unmatched
/// piece.
pub open spec fn merge_at(pieces: Seq<PartialSurfaceAlignment>, j: int) -> Seq<PartialSurfaceAlignment> {
    match (pieces[j], pieces[j + 1]) {
        (PartialSurfaceAlignment::Unmatched { segment_range: sa, surface_range: fa },
         PartialSurfaceAlignment::Unmatched { segment_range: sb, surface_range: fb }) =>
            pieces.take(j) + seq![PartialSurfaceAlignment::Unmatched { segment_range: sa.start..sb.end, surface_range: fa.start..fb.end }]
                + pieces.skip(j + 2),
        _ => pieces,
    }
}

proof fn lemma_merge_tiles(c: Seq<Seq<Seq<char>>>, s: Seq<char>, i: nat, p: nat, pieces: Seq<PartialSurfaceAlignment>, j: int)
    requires
        tiles(c, s, i, p, pieces),
        0 <= j < pieces.len() - 1,
        pieces[j] is Unmatched,
        pieces[j + 1] is Unmatched,
    ensures
        tiles(c, s, i, p, merge_at(pieces, j)),
        score_of(merge_at(pieces, j)) == (score_of(pieces).0, score_of(pieces).1, (score_of(pieces).2 - 1) as nat),
        score_of(pieces).2 > 0,
    decreases j,
{
    let m = merge_at(pieces, j);
    reveal_with_fuel(tiles, 3);
    reveal_with_fuel(score_of, 3);
    if j == 0 {
        let rest = pieces.skip(1);
        assert(rest[0] == pieces[1]);
        assert(rest.skip(1) =~= pieces.skip(2));
        assert(m.skip(1) =~= pieces.skip(2));
    } else {
        let rest = pieces.skip(1);
        assert(rest[j - 1] == pieces[j]);
        assert(rest[j] == pieces[j + 1]);
        let (i2, p2): (nat, nat) = match pieces[0] {
            PartialSurfaceAlignment::Exact { surface_range, .. } => (i + 1, surface_range.end as nat),
            PartialSurfaceAlignment::Unmatched { segment_range, surface_range } => (segment_range.end as nat, surface_range.end as nat),
        };
        lemma_merge_tiles(c, s, i2, p2, rest, j - 1);
        assert(m[0] == pieces[0]);
        assert(m.skip(1) =~= merge_at(rest, j - 1));
    }
}

/// In the best alignment no two unmatched pieces are neighbours: a region
/// no candidate explains stays one coarse piece.
pub proof fn lemma_best_keeps_unmatched_merged(c: Seq<Seq<Seq<char>>>, s: Seq<char>, i: nat, p: nat)
    requires
        fits(c, s),
        i <= c.len(),
        p <= s.len(),
    ensures
        align_best(c, s, i, p) matches Some(x) ==> forall|j: int| 0 <= j < x.1.len() - 1
            ==> !((#[trigger] x.1[j]) is Unmatched && x.1[j + 1] is Unmatched),
{
    lemma_best_sound(c, s, i, p);
    match align_best(c, s, i, p) {
        Some(x) => {
            assert forall|j: int| 0 <= j < x.1.len() - 1 implies !((#[trigger] x.1[j]) is Unmatched && x.1[j + 1] is Unmatched) by {
                if x.1[j] is Unmatched && x.1[j + 1] is Unmatched {
                    lemma_merge_tiles(c, s, i, p, x.1, j);
                    lemma_best_optimal(c, s, i, p, merge_at(x.1, j));
                }
            }
        },
        None => {},
    }
}

/// A computed alignment: its score and pieces.
struct Cell {
    exact: usize,
    chars: usize,
    unmatched: usize,
    pieces: Vec<PartialSurfaceAlignment>,
}

spec fn cell_view(o: Option<Cell>) -> Option<(Score, Seq<PartialSurfaceAlignment>)> {
    match o {
        Some(x) => Some(((x.exact as nat, x.chars as nat, x.unmatched as nat), x.pieces@)),
        None => None,
    }
}

fn copy_piece(p: &PartialSurfaceAlignment) -> (q: PartialSurfaceAlignment)
    ensures
        q == *p,
{
    match p {
        PartialSurfaceAlignment::Exact { segment_index, candidate_index, surface_range } => PartialSurfaceAlignment::Exact {
            segment_index: *segment_index,
            candidate_index: *candidate_index,
            surface_range: surface_range.start..surface_range.end,
        },
        PartialSurfaceAlignment::Unmatched { segment_range, surface_range } => PartialSurfaceAlignment::Unmatched {
            segment_range: segment_range.start..segment_range.end,
            surface_range: surface_range.start..surface_range.end,
        },
    }
}

/// `first` followed by a copy of `rest`.
fn prepend(first: PartialSurfaceAlignment, rest: &Vec<PartialSurfaceAlignment>) -> (v: Vec<PartialSurfaceAlignment>)
    ensures
        v@ == seq![first] + rest@,
{
    let mut v: Vec<PartialSurfaceAlignment> = Vec::new();
    v.push(first);
    let mut i: usize = 0;
    while i < rest.len()
        invariant
            i <= rest@.len(),
            v@ == seq![first] + rest@.take(i as int),
        decreases rest@.len() - i,
    {
        v.push(copy_piece(&rest[i]));
        assert(rest@.take(i + 1) =~= rest@.take(i as int).push(rest@[i as int]));
        assert(v@ =~= seq![first] + rest@.take(i + 1));
        i += 1;
    }
    assert(rest@.take(i as int) =~= rest@);
    v
}

fn consider_exec(acc: Option<Cell>, next: Cell) -> (r: Option<Cell>)
    ensures
        cell_view(r) == consider(cell_view(acc), cell_view(Some(next)).unwrap()),
{
    match acc {
        None => Some(next),
        Some(a) => {
            let better = next.exact > a.exact || (next.exact == a.exact && (next.chars > a.chars
                || (next.chars == a.chars && next.unmatched < a.unmatched)));
            if better { Some(next) } else { Some(a) }
        },
    }
}

fn spells_at_exec(s: &Vec<char>, p: usize, cand: &Vec<char>) -> (b: bool)
    requires
        p <= s@.len(),
    ensures
        b == spells_at(s@, p as int, cand@),
{
    let n = s.len();
    if cand.len() == 0 || cand.len() > n - p {
        return false;
    }
    let mut k: usize = 0;
    while k < cand.len()
        invariant
            n == s@.len(),
            p + cand@.len() <= n,
            k <= cand@.len(),
            forall|j: int| 0 <= j < k ==> s@[p + j] == cand@[j],
        decreases cand@.len() - k,
    {
        if s[p + k] != cand[k] {
            assert(s@.subrange(p as int, p + cand@.len())[k as int] != cand@[k as int]);
            return false;
        }
        k += 1;
    }
    assert(s@.subrange(p as int, p + cand@.len()) =~= cand@);
    true
}

/// The table holds the best alignment of every segment start from `from`
/// on with every surface position: row `r` is segment `c.len() - r`,
/// column `col` is surface position `s.len() - col`.
spec fn table_ok(table: Seq<Vec<Option<Cell>>>, c: Seq<Seq<Seq<char>>>, s: Seq<char>, from: nat) -> bool {
    &&& from <= c.len()
    &&& table.len() == c.len() - from + 1
    &&& forall|r: int| 0 <= r < table.len() ==> (#[trigger] table[r])@.len() == s.len() + 1
    &&& forall|r: int, col: int| 0 <= r < table.len() && 0 <= col <= s.len()
        ==> cell_view(#[trigger] table[r]@[col]) == align_best(c, s, (c.len() - r) as nat, (s.len() - col) as nat)
}

fn copy_cell(o: &Option<Cell>) -> (r: Option<Cell>)
    ensures
        cell_view(r) == cell_view(*o),
{
    match o {
        Some(x) => {
            let mut pieces: Vec<PartialSurfaceAlignment> = Vec::new();
            let mut i: usize = 0;
            while i < x.pieces.len()
                invariant
                    i <= x.pieces@.len(),
                    pieces@ == x.pieces@.take(i as int),
                decreases x.pieces@.len() - i,
            {
                pieces.push(copy_piece(&x.pieces[i]));
                assert(x.pieces@.take(i + 1) =~= x.pieces@.take(i as int).push(x.pieces@[i as int]));
                i += 1;
            }
            assert(x.pieces@.take(i as int) =~= x.pieces@);
            Some(Cell { exact: x.exact, chars: x.chars, unmatched: x.unmatched, pieces })
        },
        None => None,
    }
}

/// The candidate texts as character sequences.
spec fn cand_view(cands: Seq<Vec<Vec<char>>>) -> Seq<Seq<Seq<char>>> {
    cands.map_values(|l: Vec<Vec<char>>| l@.map_values(|t: Vec<char>| t@))
}

/// The best alignment at segment `i` and surface position `p`, from the
/// table of later segments.
#[verifier::rlimit(40)]
fn align_cell(table: &Vec<Vec<Option<Cell>>>, cands: &Vec<Vec<Vec<char>>>, s: &Vec<char>, i: usize, p: usize) -> (r: Option<Cell>)
    requires
        i < cands@.len(),
        p < s@.len(),
        table_ok(table@, cand_view(cands@), s@, (i + 1) as nat),
    ensures
        cell_view(r) == align_best(cand_view(cands@), s@, i as nat, p as nat),
{
    let ghost c = cand_view(cands@);
    let nc = cands.len();
    let ns = s.len();
    let mut acc: Option<Cell> = None;
    let ghost goal = align_best(c, s@, i as nat, p as nat);
    let mut k: usize = 0;
    while k < cands[i].len()
        invariant
            i < nc == cands@.len() == c.len(),
            p < ns == s@.len(),
            c == cand_view(cands@),
            table_ok(table@, c, s@, (i + 1) as nat),
            k <= cands@[i as int]@.len(),
            goal == align_outer(c, s@, i as nat, p as nat, (i + 1) as nat, align_exact(c, s@, i as nat, p as nat, k as nat, cell_view(acc))),
            bounded(cell_view(acc), c, s@, i as nat, p as nat),
        decreases cands@[i as int]@.len() - k,
    {
        let cand = &cands[i][k];
        assert(c[i as int][k as int] == cand@);
        if spells_at_exec(s, p, cand) {
            let q = p + cand.len();
            proof {
                lemma_best_bounded(c, s@, (i + 1) as nat, q as nat);
                let _ = table@[nc - (i + 1)]@[ns - q];
            }
            let sub = copy_cell(&table[nc - (i + 1)][ns - q]);
            match sub {
                Some(x) => {
                    let piece = PartialSurfaceAlignment::Exact { segment_index: i, candidate_index: k, surface_range: p..q };
                    let pieces = prepend(piece, &x.pieces);
                    let next = Cell { exact: x.exact + 1, chars: x.chars + cand.len(), unmatched: x.unmatched, pieces };
                    acc = consider_exec(acc, next);
                },
                None => {},
            }
        }
        k += 1;
    }
    // Unmatched pieces: segments `i..se_end`, characters `p..pe_end`.
    let mut se: usize = i;
    while se < nc
        invariant
            i < nc == c.len(),
            p < ns == s@.len(),
            table_ok(table@, c, s@, (i + 1) as nat),
            i <= se <= nc,
            goal == align_outer(c, s@, i as nat, p as nat, (se + 1) as nat, cell_view(acc)),
            bounded(cell_view(acc), c, s@, i as nat, p as nat),
        decreases nc - se,
    {
        let se_end = se + 1;
        let mut pe: usize = p;
        while pe < ns
            invariant
                i < nc == c.len(),
                p < ns == s@.len(),
                table_ok(table@, c, s@, (i + 1) as nat),
                i < se_end <= nc,
                p <= pe <= ns,
                goal == align_outer(c, s@, i as nat, p as nat, (se_end + 1) as nat, align_inner(c, s@, i as nat, p as nat, se_end as nat, (pe + 1) as nat, cell_view(acc))),
                bounded(cell_view(acc), c, s@, i as nat, p as nat),
            decreases ns - pe,
        {
            let pe_end = pe + 1;
            proof {
                lemma_best_bounded(c, s@, se_end as nat, pe_end as nat);
                let _ = table@[nc - se_end]@[ns - pe_end];
            }
            let sub = copy_cell(&table[nc - se_end][ns - pe_end]);
            match sub {
                Some(x) => {
                    let piece = PartialSurfaceAlignment::Unmatched { segment_range: i..se_end, surface_range: p..pe_end };
                    let pieces = prepend(piece, &x.pieces);
                    let next = Cell { exact: x.exact, chars: x.chars, unmatched: x.unmatched + 1, pieces };
                    acc = consider_exec(acc, next);
                },
                None => {},
            }
            pe = pe_end;
        }
        se = se_end;
    }
    acc
}

/// Aligns as much of `surface` as possible with the segments' candidates
/// (see [`align_best`]); `None` for an empty surface, no segments, or no
/// alignment.
pub fn partially_align_surface_to_candidates(surface: &str, candidate_lists: &[CandidateList]) -> (r: Option<Vec<PartialSurfaceAlignment>>)
    ensures
        surface@.len() == 0 || candidate_lists@.len() == 0 ==> r is None,
        surface@.len() > 0 && candidate_lists@.len() > 0 ==> match align_best(candidate_texts(candidate_lists@), surface@, 0, 0) {
            Some(x) => r matches Some(v) && v@ == x.1,
            None => r is None,
        },
{
    if surface.is_empty() || candidate_lists.len() == 0 {
        return None;
    }
    let s = chars_of(surface);
    let mut cands: Vec<Vec<Vec<char>>> = Vec::new();
    let mut li: usize = 0;
    while li < candidate_lists.len()
        invariant
            li <= candidate_lists@.len(),
            cand_view(cands@) == candidate_texts(candidate_lists@.take(li as int)),
        decreases candidate_lists@.len() - li,
    {
        let list = candidate_lists[li].candidates();
        let mut row: Vec<Vec<char>> = Vec::new();
        let mut k: usize = 0;
        while k < list.len()
            invariant
                k <= list@.len(),
                row@.map_values(|t: Vec<char>| t@) == texts(list@.take(k as int)),
            decreases list@.len() - k,
        {
            let ghost before = row@;
            row.push(chars_of(list[k].text.as_str()));
            assert(row@.map_values(|t: Vec<char>| t@) =~= before.map_values(|t: Vec<char>| t@).push(list@[k as int].text@));
            assert(texts(list@.take(k + 1)) =~= texts(list@.take(k as int)).push(list@[k as int].text@));
            k += 1;
        }
        assert(list@.take(k as int) =~= list@);
        let ghost before = cands@;
        cands.push(row);
        assert(cand_view(cands@) =~= cand_view(before).push(texts(candidate_lists@[li as int].items())));
        assert(candidate_texts(candidate_lists@.take(li + 1)) =~= candidate_texts(candidate_lists@.take(li as int)).push(texts(candidate_lists@[li as int].items())));
        li += 1;
    }
    assert(candidate_lists@.take(li as int) =~= candidate_lists@);
    let ghost c = cand_view(cands@);
    assert(c == candidate_texts(candidate_lists@));
    let nc = cands.len();
    let ns = s.len();
    // The first row: no segment left, so only the empty rest aligns.
    let mut table: Vec<Vec<Option<Cell>>> = Vec::new();
    let mut last: Vec<Option<Cell>> = Vec::new();
    last.push(Some(Cell { exact: 0, chars: 0, unmatched: 0, pieces: Vec::new() }));
    assert(cell_view(last@[0]) =~= align_best(c, s@, nc as nat, ns as nat));
    let mut q: usize = 0;
    while q < ns
        invariant
            q <= ns == s@.len(),
            nc == c.len(),
            last@.len() == q + 1,
            forall|j: int| 0 <= j <= q ==> #[trigger] cell_view(last@[j]) == align_best(c, s@, nc as nat, (ns - j) as nat),
        decreases ns - q,
    {
        last.push(None);
        q += 1;
    }
    table.push(last);
    let mut i: usize = nc;
    while i > 0
        invariant
            i <= nc == c.len(),
            ns == s@.len(),
            c == cand_view(cands@),
            table_ok(table@, c, s@, i as nat),
        decreases i,
    {
        let seg = i - 1;
        let mut row: Vec<Option<Cell>> = Vec::new();
        row.push(None);
        let mut q: usize = 0;
        while q < ns
            invariant
                seg < nc == c.len(),
                ns == s@.len(),
                c == cand_view(cands@),
                table_ok(table@, c, s@, (seg + 1) as nat),
                q <= ns,
                row@.len() == q + 1,
                forall|j: int| 0 <= j <= q ==> #[trigger] cell_view(row@[j]) == align_best(c, s@, seg as nat, (ns - j) as nat),
            decreases ns - q,
        {
            let cell = align_cell(&table, &cands, &s, seg, ns - (q + 1));
            row.push(cell);
            q += 1;
        }
        table.push(row);
        i = seg;
    }
    proof {
        let _ = table@[nc as int]@[ns as int];
    }
    let top = copy_cell(&table[nc][ns]);
    match top {
        Some(x) => Some(x.pieces),
        None => None,
    }
}

} // verus!

//! Conservative reading alternatives for common Japanese spelling mistakes
//! (`ず` / `づ` confusion), and merging of model beams.
use vstd::prelude::*;

use crate::text::{chars_of, push_str, str_eq, string_from_chars};

verus! {

/// One conversion proposed by the kana-kanji model.
#[derive(Debug, Clone, PartialEq, Eq)]
pub struct ModelCandidate {
    pub text: String,
}

impl ModelCandidate {
    /// A candidate with the given text.
    pub fn new(text: &str) -> (r: Self)
        ensures
            r.text@ == text@,
    {
        ModelCandidate { text: crate::text::copy_str(text) }
    }

    /// An independent copy of this candidate.
    pub fn duplicate(&self) -> (r: Self)
        ensures
            r == *self,
    {
        ModelCandidate { text: self.text.clone() }
    }
}

/// Characters that are commonly confused: ず/づ and ズ/ヅ.
pub open spec fn is_zu_du(c: char) -> bool {
    c == 'ず' || c == 'づ' || c == 'ズ' || c == 'ヅ'
}

/// The other member of a confusable pair.
pub open spec fn zu_du_swap(c: char) -> char {
    if c == 'ず' {
        'づ'
    } else if c == 'づ' {
        'ず'
    } else if c == 'ズ' {
        'ヅ'
    } else if c == 'ヅ' {
        'ズ'
    } else {
        c
    }
}

/// Positions (in order) of the confusable characters of `s`.
pub open spec fn zu_du_positions(s: Seq<char>) -> Seq<int>
    decreases s.len(),
{
    if s.len() == 0 {
        Seq::empty()
    } else if is_zu_du(s.last()) {
        zu_du_positions(s.drop_last()).push(s.len() - 1)
    } else {
        zu_du_positions(s.drop_last())
    }
}

/// `s` with the character at `i` replaced by its confusable partner.
pub open spec fn flip_at(s: Seq<char>, i: int) -> Seq<char> {
    s.update(i, zu_du_swap(s[i]))
}

/// The original reading first, then the readings with one confusable
/// character swapped (in position order), then with two swapped; at most four
/// readings in all.
pub open spec fn zu_du_variants(s: Seq<char>) -> Seq<Seq<char>> {
    let p = zu_du_positions(s);
    if p.len() == 0 {
        seq![s]
    } else if p.len() == 1 {
        seq![s, flip_at(s, p[0])]
    } else if p.len() == 2 {
        seq![s, flip_at(s, p[0]), flip_at(s, p[1]), flip_at(flip_at(s, p[0]), p[1])]
    } else {
        seq![s, flip_at(s, p[0]), flip_at(s, p[1]), flip_at(s, p[2])]
    }
}

proof fn lemma_positions_bounds(s: Seq<char>)
    ensures
        forall|k: int| 0 <= k < zu_du_positions(s).len() ==> 0 <= #[trigger] zu_du_positions(s)[k] < s.len()
            && is_zu_du(s[zu_du_positions(s)[k]]),
        forall|a: int, b: int| 0 <= a < b < zu_du_positions(s).len() ==> zu_du_positions(s)[a] < zu_du_positions(s)[b],
        zu_du_positions(s).len() <= s.len(),
    decreases s.len(),
{
    if s.len() > 0 {
        lemma_positions_bounds(s.drop_last());
    }
}

proof fn lemma_positions_prefix(s: Seq<char>, n: int)
    requires
        0 <= n <= s.len(),
    ensures
        zu_du_positions(s.take(n)) == zu_du_positions(s).filter(|k: int| k < n),
    decreases s.len(),
{
    if s.len() == 0 {
        assert(s.take(n) =~= s);
        assert(zu_du_positions(s).filter(|k: int| k < n) =~= Seq::<int>::empty());
    } else if n == s.len() {
        assert(s.take(n) =~= s);
        lemma_positions_bounds(s);
        lemma_filter_all(zu_du_positions(s), n);
    } else {
        assert(s.drop_last().take(n) =~= s.take(n));
        lemma_positions_prefix(s.drop_last(), n);
        let q = zu_du_positions(s.drop_last());
        if is_zu_du(s.last()) {
            reveal(Seq::filter);
            assert(q.push(s.len() - 1).drop_last() =~= q);
        }
    }
}

proof fn lemma_filter_all(p: Seq<int>, n: int)
    requires
        forall|k: int| 0 <= k < p.len() ==> #[trigger] p[k] < n,
    ensures
        p.filter(|k: int| k < n) == p,
    decreases p.len(),
{
    reveal(Seq::filter);
    if p.len() > 0 {
        lemma_filter_all(p.drop_last(), n);
        assert(p.drop_last().push(p.last()) =~= p);
    } else {
        assert(p.filter(|k: int| k < n) =~= p);
    }
}

fn swap_char(c: char) -> (r: char)
    ensures
        r == zu_du_swap(c),
{
    if c == 'ず' {
        'づ'
    } else if c == 'づ' {
        'ず'
    } else if c == 'ズ' {
        'ヅ'
    } else if c == 'ヅ' {
        'ズ'
    } else {
        c
    }
}

/// The original reading plus at most three `ず`/`づ` alternatives.
///
/// The original spelling always stays first. Alternatives with one changed
/// character come before the alternative with two changed characters, so a
/// long input cannot cause unbounded model or dictionary work.
pub fn zu_du_reading_variants(reading: &str) -> (out: Vec<String>)
    ensures
        out@.len() == zu_du_variants(reading@).len(),
        forall|i: int| 0 <= i < out@.len() ==> #[trigger] out@[i]@ == zu_du_variants(reading@)[i],
{
    let original = chars_of(reading);
    let ghost s = original@;
    // Positions of the first three confusable characters.
    let mut positions: Vec<usize> = Vec::new();
    let mut i: usize = 0;
    while i < original.len() && positions.len() < 3
        invariant
            s == original@,
            i <= s.len(),
            positions.len() <= 3,
            positions@.map_values(|k: usize| k as int) == zu_du_positions(s.take(i as int)),
            forall|k: int| 0 <= k < positions@.len() ==> positions@[k] < i,
        decreases s.len() - i,
    {
        let c = original[i];
        let ghost before = positions@;
        if c == 'ず' || c == 'づ' || c == 'ズ' || c == 'ヅ' {
            positions.push(i);
            assert(positions@.map_values(|k: usize| k as int) =~= before.map_values(|k: usize| k as int).push(i as int));
        }
        assert(s.take(i + 1).drop_last() =~= s.take(i as int));
        i += 1;
    }
    proof {
        lemma_positions_prefix(s, i as int);
        lemma_positions_bounds(s);
        let full = zu_du_positions(s);
        let got = positions@.map_values(|k: usize| k as int);
        if i < s.len() {
            // three positions were found before the end
            assert(got.len() == 3);
        } else {
            assert(s.take(i as int) =~= s);
        }
        // the first min(3, n) positions agree
        assert forall|k: int| 0 <= k < got.len() implies got[k] == full[k] by {
            lemma_filter_prefix_agrees(full, i as int, k);
        }
        if i >= s.len() {
            assert(got =~= full);
        }
    }
    let mut out: Vec<String> = Vec::new();
    out.push(string_from_chars(original.as_slice()));
    let n = positions.len();
    if n >= 1 {
        let mut v = original.clone();
        let p0 = positions[0];
        v.set(p0, swap_char(original[p0]));
        out.push(string_from_chars(v.as_slice()));
        proof { assert(v@ =~= flip_at(s, zu_du_positions(s)[0])); }
    }
    if n >= 2 {
        let mut v = original.clone();
        let p1 = positions[1];
        v.set(p1, swap_char(original[p1]));
        out.push(string_from_chars(v.as_slice()));
        proof { assert(v@ =~= flip_at(s, zu_du_positions(s)[1])); }
    }
    if n == 2 {
        let mut v = original.clone();
        let p0 = positions[0];
        let p1 = positions[1];
        v.set(p0, swap_char(original[p0]));
        v.set(p1, swap_char(original[p1]));
        out.push(string_from_chars(v.as_slice()));
        proof {
            assert(v@ =~= flip_at(flip_at(s, zu_du_positions(s)[0]), zu_du_positions(s)[1]));
        }
    }
    if n == 3 {
        let mut v = original.clone();
        let p2 = positions[2];
        v.set(p2, swap_char(original[p2]));
        out.push(string_from_chars(v.as_slice()));
        proof { assert(v@ =~= flip_at(s, zu_du_positions(s)[2])); }
    }
    proof {
        let full = zu_du_positions(s);
        if n == 0 {
            assert(full.len() == 0);
        } else if n == 1 {
            assert(full.len() == 1);
        } else if n == 2 {
            assert(full.len() == 2);
        } else {
            assert(full.len() >= 3);
        }
    }
    out
}

proof fn lemma_filter_prefix_agrees(p: Seq<int>, n: int, k: int)
    requires
        forall|a: int, b: int| 0 <= a < b < p.len() ==> p[a] < p[b],
        0 <= k < p.filter(|x: int| x < n).len(),
    ensures
        p.filter(|x: int| x < n)[k] == p[k],
    decreases p.len(),
{
    reveal(Seq::filter);
    if p.len() > 0 {
        let q = p.drop_last();
        assert forall|a: int, b: int| 0 <= a < b < q.len() implies q[a] < q[b] by {
            assert(q[a] == p[a] && q[b] == p[b]);
        }
        if p.last() < n {
            // every element is below n, the filter keeps everything
            assert forall|j: int| 0 <= j < p.len() implies #[trigger] p[j] < n by {
                if j < p.len() - 1 {
                    assert(p[j] < p[p.len() - 1]);
                }
            }
            lemma_filter_all(p, n);
        } else {
            assert(p.filter(|x: int| x < n) == q.filter(|x: int| x < n));
            lemma_filter_prefix_agrees(q, n, k);
            lemma_filter_len_le(q, n);
        }
    }
}

proof fn lemma_filter_len_le(p: Seq<int>, n: int)
    ensures
        p.filter(|x: int| x < n).len() <= p.len(),
    decreases p.len(),
{
    reveal(Seq::filter);
    if p.len() > 0 {
        lemma_filter_len_le(p.drop_last(), n);
    }
}

/// Round-robin order over the beams: rank 0 of every beam (in beam order),
/// then rank 1, and so on; `slot` counts positions over the beams.
pub open spec fn round_robin(groups: Seq<Seq<ModelCandidate>>, slots: nat) -> Seq<ModelCandidate>
    decreases slots,
{
    if slots == 0 || groups.len() == 0 {
        Seq::empty()
    } else {
        let k = (slots - 1) as int;
        let rank = k / groups.len() as int;
        let g = k % groups.len() as int;
        let before = round_robin(groups, (slots - 1) as nat);
        if rank < groups[g].len() {
            before.push(groups[g][rank])
        } else {
            before
        }
    }
}

/// Whether some candidate of `s` has the text `t`.
pub open spec fn has_text(s: Seq<ModelCandidate>, t: Seq<char>) -> bool {
    exists|i: int| 0 <= i < s.len() && #[trigger] s[i].text@ == t
}

/// Keep only the first candidate of each text.
pub open spec fn dedup_by_text(s: Seq<ModelCandidate>) -> Seq<ModelCandidate>
    decreases s.len(),
{
    if s.len() == 0 {
        Seq::empty()
    } else {
        let d = dedup_by_text(s.drop_last());
        if has_text(d, s.last().text@) {
            d
        } else {
            d.push(s.last())
        }
    }
}

/// The longest beam.
pub open spec fn max_group_len(groups: Seq<Seq<ModelCandidate>>) -> nat
    decreases groups.len(),
{
    if groups.len() == 0 {
        0
    } else {
        let m = max_group_len(groups.drop_last());
        if groups.last().len() > m { groups.last().len() } else { m }
    }
}

/// Candidates interleaved by rank, de-duplicated by text, at most `limit`.
pub open spec fn interleaved(groups: Seq<Seq<ModelCandidate>>, limit: nat) -> Seq<ModelCandidate> {
    let all = dedup_by_text(round_robin(groups, max_group_len(groups) * groups.len()));
    if all.len() <= limit { all } else { all.take(limit as int) }
}

proof fn lemma_dedup_monotone(s: Seq<ModelCandidate>, x: ModelCandidate)
    ensures
        dedup_by_text(s.push(x)) == dedup_by_text(s) || dedup_by_text(s.push(x)) == dedup_by_text(s).push(x),
{
    assert(s.push(x).drop_last() =~= s);
}

proof fn lemma_round_robin_grows(groups: Seq<Seq<ModelCandidate>>, a: nat, b: nat)
    requires
        a <= b,
    ensures
        dedup_by_text(round_robin(groups, a)).len() <= dedup_by_text(round_robin(groups, b)).len(),
        dedup_by_text(round_robin(groups, b)).take(dedup_by_text(round_robin(groups, a)).len() as int)
            == dedup_by_text(round_robin(groups, a)),
    decreases b - a,
{
    if a < b {
        lemma_round_robin_grows(groups, a, (b - 1) as nat);
        let da = dedup_by_text(round_robin(groups, a));
        let d1 = dedup_by_text(round_robin(groups, (b - 1) as nat));
        let d2 = dedup_by_text(round_robin(groups, b));
        if groups.len() > 0 {
            let k = (b - 1) as int;
            let rank = k / groups.len() as int;
            let g = k % groups.len() as int;
            if rank < groups[g].len() {
                lemma_dedup_monotone(round_robin(groups, (b - 1) as nat), groups[g][rank]);
            }
        }
        assert(d2.take(da.len() as int) =~= d1.take(da.len() as int));
    } else {
        assert(dedup_by_text(round_robin(groups, a)).take(dedup_by_text(round_robin(groups, a)).len() as int)
            =~= dedup_by_text(round_robin(groups, a)));
    }
}

fn contains_text(merged: &Vec<ModelCandidate>, text: &String) -> (r: bool)
    ensures
        r == has_text(merged@, text@),
{
    let mut i: usize = 0;
    while i < merged.len()
        invariant
            i <= merged@.len(),
            forall|j: int| 0 <= j < i ==> merged@[j].text@ != text@,
        decreases merged@.len() - i,
    {
        if str_eq(merged[i].text.as_str(), text.as_str()) {
            return true;
        }
        i += 1;
    }
    false
}

fn max_len(groups: &Vec<Vec<ModelCandidate>>) -> (m: usize)
    ensures
        m == max_group_len(groups@.map_values(|g: Vec<ModelCandidate>| g@)),
{
    let ghost gs = groups@.map_values(|g: Vec<ModelCandidate>| g@);
    let mut m: usize = 0;
    let mut i: usize = 0;
    while i < groups.len()
        invariant
            i <= groups@.len(),
            gs == groups@.map_values(|g: Vec<ModelCandidate>| g@),
            m == max_group_len(gs.take(i as int)),
        decreases groups@.len() - i,
    {
        assert(gs.take(i + 1).drop_last() =~= gs.take(i as int));
        if groups[i].len() > m {
            m = groups[i].len();
        }
        i += 1;
    }
    assert(gs.take(groups@.len() as int) =~= gs);
    m
}

/// Interleave model beams by rank while keeping the original-reading beam
/// first, skipping texts already taken, and stopping at `limit` candidates.
/// This reserves visible space for a corrected-reading result without letting
/// typo correction replace the ordinary top candidate.
pub fn interleave_model_candidates(groups: Vec<Vec<ModelCandidate>>, limit: usize) -> (out: Vec<
    ModelCandidate,
>)
    ensures
        out@ == interleaved(groups@.map_values(|g: Vec<ModelCandidate>| g@), limit as nat),
{
    let ghost gs = groups@.map_values(|g: Vec<ModelCandidate>| g@);
    let ghost total = (max_group_len(gs) * gs.len()) as nat;
    let mut merged: Vec<ModelCandidate> = Vec::new();
    if limit == 0 {
        proof {
            assert(interleaved(gs, 0) =~= Seq::<ModelCandidate>::empty());
        }
        return merged;
    }
    let max_rank = max_len(&groups);
    let mut rank: usize = 0;
    while rank < max_rank
        invariant
            gs == groups@.map_values(|g: Vec<ModelCandidate>| g@),
            max_rank == max_group_len(gs),
            total == max_group_len(gs) * gs.len(),
            rank <= max_rank,
            limit > 0,
            merged@ == dedup_by_text(round_robin(gs, (rank * gs.len()) as nat)),
            merged@.len() < limit,
        decreases max_rank - rank,
    {
        let mut g: usize = 0;
        while g < groups.len()
            invariant
                gs == groups@.map_values(|g: Vec<ModelCandidate>| g@),
                max_rank == max_group_len(gs),
                total == max_group_len(gs) * gs.len(),
                rank < max_rank,
                g <= gs.len(),
                limit > 0,
                merged@ == dedup_by_text(round_robin(gs, (rank * gs.len() + g) as nat)),
                merged@.len() < limit,
            decreases gs.len() - g,
        {
            let ghost slot = (rank * gs.len() + g) as nat;
            proof {
                assert(gs.len() > 0);
                vstd::arithmetic::div_mod::lemma_fundamental_div_mod_converse(
                    slot as int, gs.len() as int, rank as int, g as int);
                assert(round_robin(gs, slot + 1).len() >= 0);
                assert((rank + 1) * gs.len() <= max_rank * gs.len()) by (nonlinear_arith)
                    requires rank + 1 <= max_rank;
                assert((rank + 1) * gs.len() == rank * gs.len() + gs.len()) by (nonlinear_arith);
            }
            if rank < groups[g].len() {
                let candidate = groups[g][rank].duplicate();
                proof {
                    assert(candidate == gs[g as int][rank as int]);
                    assert(round_robin(gs, (slot + 1) as nat) == round_robin(gs, slot).push(candidate));
                    assert(round_robin(gs, slot).push(candidate).drop_last() =~= round_robin(gs, slot));
                }
                if !contains_text(&merged, &candidate.text) {
                    merged.push(candidate);
                    if merged.len() == limit {
                        proof {
                            lemma_round_robin_grows(gs, (slot + 1) as nat, total);
                            let all = dedup_by_text(round_robin(gs, total));
                            assert(all.take(limit as int) =~= merged@);
                        }
                        return merged;
                    }
                }
            } else {
                proof {
                    assert(round_robin(gs, (slot + 1) as nat) == round_robin(gs, slot));
                }
            }
            g += 1;
        }
        proof {
            assert((rank + 1) * gs.len() == rank * gs.len() + gs.len()) by (nonlinear_arith);
        }
        rank += 1;
    }
    proof {
        assert(merged@ == dedup_by_text(round_robin(gs, total)));
    }
    merged
}

/// Candidate annotation used only when an alternative spelling produced the
/// result. An existing dictionary description is kept in front of it.
pub fn correction_description(existing: Option<String>, corrected_reading: &str) -> (out: Option<
    String,
>)
    ensures
        out matches Some(d) && d@ == match existing {
            Some(e) => e@ + " / "@ + "ず・づ補正: "@ + corrected_reading@,
            None => "ず・づ補正: "@ + corrected_reading@,
        },
{
    let ghost existing_view = existing;
    let mut text = match existing {
        Some(e) => {
            let mut t = e;
            push_str(&mut t, " / ");
            t
        },
        None => String::new(),
    };
    push_str(&mut text, "ず・づ補正: ");
    push_str(&mut text, corrected_reading);
    proof {
        match existing_view {
            Some(e) => {
                assert(text@ =~= e@ + " / "@ + "ず・づ補正: "@ + corrected_reading@);
            },
            None => {
                assert(text@ =~= "ず・づ補正: "@ + corrected_reading@);
            },
        }
    }
    Some(text)
}

} // verus!

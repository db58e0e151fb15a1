//! Checks and alignment for the live conversion surface.
//!
//! Partial conversion boundaries come from the most likely converted
//! sentence. A morphological analyzer splits that surface into tokens with
//! dictionary readings; exact token readings anchor the original composing
//! reading, and only mismatched tokens get an approximate reading span.
use vstd::prelude::*;

use crate::kana::{katakana_to_hiragana, kata_to_hira_char, nfkc, normalize_nfkc};
use crate::text::{chars_eq, chars_of};

verus! {

/// Wave-dash characters (`〜` U+301C and `～` U+FF5E).
pub open spec fn is_wave_dash(c: char) -> bool {
    c == '〜' || c == '～'
}

/// Number of wave-dash characters in `s`.
pub open spec fn wave_dash_count(s: Seq<char>) -> nat
    decreases s.len(),
{
    if s.len() == 0 {
        0
    } else {
        wave_dash_count(s.drop_last()) + if is_wave_dash(s.last()) { 1nat } else { 0nat }
    }
}

fn count_wave_dashes(s: &Vec<char>) -> (n: usize)
    ensures
        n == wave_dash_count(s@),
{
    let mut n: usize = 0;
    let mut i: usize = 0;
    while i < s.len()
        invariant
            i <= s@.len(),
            n == wave_dash_count(s@.take(i as int)),
            n <= i,
        decreases s@.len() - i,
    {
        assert(s@.take(i + 1).drop_last() =~= s@.take(i as int));
        if s[i] == '〜' || s[i] == '～' {
            n += 1;
        }
        i += 1;
    }
    assert(s@.take(s@.len() as int) =~= s@);
    n
}

/// Whether the converted surface keeps the number of wave-dash characters of
/// the reading. `〜` and `～` count alike: the model may normalize one into
/// the other, but must not add or remove one.
pub fn wave_dash_count_matches(surface: &str, reading: &str) -> (r: bool)
    ensures
        r == (wave_dash_count(surface@) == wave_dash_count(reading@)),
{
    let s = chars_of(surface);
    let t = chars_of(reading);
    count_wave_dashes(&s) == count_wave_dashes(&t)
}

/// Characters treated as kana when checking a model candidate.
pub open spec fn is_checkable_kana(c: char) -> bool {
    let v = c as u32;
    (0x3041 <= v && v <= 0x3096) || (0x309D <= v && v <= 0x309F) || (0x30A1 <= v && v <= 0x30FA)
        || v == 0x30FC || (0x30FD <= v && v <= 0x30FF)
}

/// Every character of `s` is checkable kana.
pub open spec fn is_kana_only(s: Seq<char>) -> bool {
    forall|i: int| 0 <= i < s.len() ==> is_checkable_kana(#[trigger] s[i])
}

/// Katakana letters of `s` replaced by hiragana.
pub open spec fn to_hiragana(s: Seq<char>) -> Seq<char> {
    s.map_values(|c: char| kata_to_hira_char(c))
}

/// The conservative reading check for a model candidate: both texts are
/// non-empty, the wave-dash count is kept, and a candidate that is kana only
/// after NFKC normalization spells the reading (compared in hiragana, after
/// NFKC normalization). Candidates with other characters (such as kanji) are
/// kept, since their reading cannot be checked in isolation.
pub open spec fn preserves_reading(surface: Seq<char>, reading: Seq<char>) -> bool {
    &&& surface.len() > 0
    &&& reading.len() > 0
    &&& wave_dash_count(surface) == wave_dash_count(reading)
    &&& (is_kana_only(nfkc(surface)) ==> to_hiragana(nfkc(surface)) == to_hiragana(nfkc(reading)))
}

fn kana_only(s: &Vec<char>) -> (r: bool)
    ensures
        r == is_kana_only(s@),
{
    let mut i: usize = 0;
    while i < s.len()
        invariant
            i <= s@.len(),
            forall|j: int| 0 <= j < i ==> is_checkable_kana(#[trigger] s@[j]),
        decreases s@.len() - i,
    {
        let v = s[i] as u32;
        if !((0x3041 <= v && v <= 0x3096) || (0x309D <= v && v <= 0x309F) || (0x30A1 <= v && v
            <= 0x30FA) || v == 0x30FC || (0x30FD <= v && v <= 0x30FF)) {
            return false;
        }
        i += 1;
    }
    true
}

/// Whether a model candidate survives the conservative reading check.
///
/// Wave-dash characters must be kept by count, so `だから` → `だから〜` is
/// rejected. Kana-only output is compared exactly after width and script
/// normalization, so `だけど` → `だし` is rejected while `ダケド` and `ﾀﾞｹﾄﾞ`
/// stay. Output with kanji is kept: a surface tokenized in isolation cannot
/// tell readings such as `後` (`あと` / `のち`) apart.
pub fn model_candidate_preserves_reading(surface: &str, reading: &str) -> (r: bool)
    ensures
        r == preserves_reading(surface@, reading@),
{
    if surface.is_empty() || reading.is_empty() {
        return false;
    }
    if !wave_dash_count_matches(surface, reading) {
        return false;
    }
    let normalized_surface = normalize_nfkc(surface);
    let ns = chars_of(normalized_surface.as_str());
    if !kana_only(&ns) {
        return true;
    }
    let normalized_reading = normalize_nfkc(reading);
    let a = katakana_to_hiragana(normalized_surface.as_str());
    let b = katakana_to_hiragana(normalized_reading.as_str());
    let ac = chars_of(a.as_str());
    let bc = chars_of(b.as_str());
    chars_eq(ac.as_slice(), bc.as_slice())
}

/// Kanji (CJK unified ideographs, extension A, compatibility ideographs and
/// the supplementary ideograph planes).
pub open spec fn is_kanji(c: char) -> bool {
    let v = c as u32;
    (0x3400 <= v && v <= 0x4DBF) || (0x4E00 <= v && v <= 0x9FFF) || (0xF900 <= v && v <= 0xFAFF)
        || (0x20000 <= v && v <= 0x2FA1F)
}

/// Whether the text holds a kanji.
pub fn contains_kanji(text: &str) -> (r: bool)
    ensures
        r == (exists|i: int| 0 <= i < text@.len() && is_kanji(#[trigger] text@[i])),
{
    let chars = chars_of(text);
    let mut i: usize = 0;
    while i < chars.len()
        invariant
            chars@ == text@,
            i <= chars@.len(),
            forall|j: int| 0 <= j < i ==> !is_kanji(#[trigger] chars@[j]),
        decreases chars@.len() - i,
    {
        let v = chars[i] as u32;
        if (0x3400 <= v && v <= 0x4DBF) || (0x4E00 <= v && v <= 0x9FFF) || (0xF900 <= v && v
            <= 0xFAFF) || (0x20000 <= v && v <= 0x2FA1F) {
            assert(is_kanji(chars@[i as int]));
            return true;
        }
        i += 1;
    }
    false
}

/// The reading a surface can stand for by itself: its hiragana spelling when
/// it holds no kanji (kana, punctuation, spaces and Latin text read as
/// written), none otherwise.
pub fn fallback_reading(surface: &str) -> (r: Option<String>)
    ensures
        (exists|i: int| 0 <= i < surface@.len() && is_kanji(#[trigger] surface@[i])) ==> r is None,
        !(exists|i: int| 0 <= i < surface@.len() && is_kanji(#[trigger] surface@[i])) ==> (r matches Some(
            t,
        ) && t@ == to_hiragana(surface@)),
{
    if contains_kanji(surface) {
        None
    } else {
        Some(katakana_to_hiragana(surface))
    }
}

pub open spec fn min_nat(a: nat, b: nat) -> nat {
    if a <= b { a } else { b }
}

/// Levenshtein distance (insertions, deletions and substitutions of one
/// character, each costing one).
pub open spec fn levenshtein(a: Seq<char>, b: Seq<char>) -> nat
    decreases a.len() + b.len(),
{
    if a.len() == 0 {
        b.len()
    } else if b.len() == 0 {
        a.len()
    } else if a.last() == b.last() {
        levenshtein(a.drop_last(), b.drop_last())
    } else {
        1 + min_nat(
            min_nat(levenshtein(a.drop_last(), b.drop_last()), levenshtein(a.drop_last(), b)),
            levenshtein(a, b.drop_last()),
        )
    }
}

proof fn lemma_levenshtein_bound(a: Seq<char>, b: Seq<char>)
    ensures
        levenshtein(a, b) <= a.len() + b.len(),
    decreases a.len() + b.len(),
{
    if a.len() > 0 && b.len() > 0 {
        lemma_levenshtein_bound(a.drop_last(), b.drop_last());
        lemma_levenshtein_bound(a.drop_last(), b);
        lemma_levenshtein_bound(a, b.drop_last());
    }
}

/// Edit distance between two character sequences.
pub fn edit_distance(left: &[char], right: &[char]) -> (d: usize)
    requires
        left@.len() + right@.len() < usize::MAX,
    ensures
        d == levenshtein(left@, right@),
{
    let n = right.len();
    let mut previous: Vec<usize> = Vec::new();
    let mut j: usize = 0;
    while j <= n
        invariant
            n == right@.len(),
            left@.len() + right@.len() < usize::MAX,
            j <= n + 1,
            previous@.len() == j,
            forall|k: int| 0 <= k < j ==> previous@[k] == levenshtein(left@.take(0), right@.take(k)),
        decreases n + 1 - j,
    {
        proof {
            assert(left@.take(0).len() == 0);
        }
        previous.push(j);
        j += 1;
    }
    let mut i: usize = 0;
    while i < left.len()
        invariant
            n == right@.len(),
            left@.len() + right@.len() < usize::MAX,
            i <= left@.len(),
            previous@.len() == n + 1,
            forall|k: int| 0 <= k <= n ==> previous@[k] == levenshtein(left@.take(i as int), right@.take(k)),
        decreases left@.len() - i,
    {
        let ghost a = left@.take(i + 1);
        let mut current: Vec<usize> = Vec::new();
        proof {
            assert(right@.take(0).len() == 0);
            assert(a.len() == i + 1);
        }
        current.push(i + 1);
        let mut k: usize = 0;
        while k < n
            invariant
                n == right@.len(),
                left@.len() + right@.len() < usize::MAX,
                i < left@.len(),
                a == left@.take(i + 1),
                k <= n,
                previous@.len() == n + 1,
                forall|m: int| 0 <= m <= n ==> previous@[m] == levenshtein(left@.take(i as int), right@.take(m)),
                current@.len() == k + 1,
                forall|m: int| 0 <= m <= k ==> current@[m] == levenshtein(a, right@.take(m)),
            decreases n - k,
        {
            let ghost b = right@.take(k + 1);
            proof {
                assert(a.drop_last() =~= left@.take(i as int));
                assert(b.drop_last() =~= right@.take(k as int));
                assert(a.last() == left@[i as int]);
                assert(b.last() == right@[k as int]);
                lemma_levenshtein_bound(left@.take(i as int), right@.take(k as int));
                lemma_levenshtein_bound(left@.take(i as int), b);
                lemma_levenshtein_bound(a, right@.take(k as int));
            }
            let value = if left[i] == right[k] {
                previous[k]
            } else {
                let mut m = previous[k];
                if previous[k + 1] < m {
                    m = previous[k + 1];
                }
                if current[k] < m {
                    m = current[k];
                }
                1 + m
            };
            current.push(value);
            k += 1;
        }
        previous = current;
        i += 1;
    }
    proof {
        assert(left@.take(left@.len() as int) =~= left@);
        assert(right@.take(n as int) =~= right@);
    }
    previous[n]
}

/// Lexicographic cost of a reading alignment: first the number of tokens
/// whose reading does not match, then the total edit distance, then the total
/// length difference.
#[derive(Debug, Clone, Copy, Default, PartialEq, Eq)]
pub struct AlignmentScore {
    pub mismatched_tokens: usize,
    pub edit_distance: usize,
    pub length_delta: usize,
}

impl AlignmentScore {
    /// Fieldwise sum of two scores.
    pub fn add(self, other: Self) -> (r: Self)
        requires
            self.mismatched_tokens + other.mismatched_tokens <= usize::MAX,
            self.edit_distance + other.edit_distance <= usize::MAX,
            self.length_delta + other.length_delta <= usize::MAX,
        ensures
            r.mismatched_tokens == self.mismatched_tokens + other.mismatched_tokens,
            r.edit_distance == self.edit_distance + other.edit_distance,
            r.length_delta == self.length_delta + other.length_delta,
    {
        AlignmentScore {
            mismatched_tokens: self.mismatched_tokens + other.mismatched_tokens,
            edit_distance: self.edit_distance + other.edit_distance,
            length_delta: self.length_delta + other.length_delta,
        }
    }

    /// Strictly better (lexicographically smaller) than `other`.
    pub fn less_than(self, other: Self) -> (r: bool)
        ensures
            r == score_lt(self, other),
    {
        self.mismatched_tokens < other.mismatched_tokens || (self.mismatched_tokens
            == other.mismatched_tokens && (self.edit_distance < other.edit_distance || (
        self.edit_distance == other.edit_distance && self.length_delta < other.length_delta)))
    }
}

/// Lexicographic order on alignment scores.
pub open spec fn score_lt(a: AlignmentScore, b: AlignmentScore) -> bool {
    a.mismatched_tokens < b.mismatched_tokens || (a.mismatched_tokens == b.mismatched_tokens && (
    a.edit_distance < b.edit_distance || (a.edit_distance == b.edit_distance && a.length_delta
        < b.length_delta)))
}

/// A surface token from morphological analysis with its expected reading (in
/// hiragana) when one is known.
#[derive(Debug, Clone, PartialEq, Eq)]
pub struct AnalyzedToken {
    pub surface: String,
    pub reading: Option<Vec<char>>,
}

pub open spec fn abs_diff(a: int, b: int) -> nat {
    if a >= b { (a - b) as nat } else { (b - a) as nat }
}

/// Cost of giving `token` the reading `assigned`.
pub open spec fn token_cost(token: AnalyzedToken, assigned: Seq<char>) -> AlignmentScore {
    match token.reading {
        None => {
            let d = abs_diff(token.surface@.len() as int, assigned.len() as int);
            AlignmentScore { mismatched_tokens: 1, edit_distance: d as usize, length_delta: d as usize }
        },
        Some(expected) => {
            let d = levenshtein(expected@, assigned);
            AlignmentScore {
                mismatched_tokens: if d != 0 { 1 } else { 0 },
                edit_distance: d as usize,
                length_delta: abs_diff(expected@.len() as int, assigned.len() as int) as usize,
            }
        },
    }
}

/// The cost of giving `token` the reading `assigned`: one mismatched token
/// when the token's reading is unknown or differs, plus the edit distance and
/// the length difference.
pub fn token_score(token: &AnalyzedToken, assigned: &[char]) -> (r: AlignmentScore)
    requires
        assigned@.len() <= 0x1000_0000,
        token.surface@.len() <= 0x1000_0000,
        token.reading matches Some(e) ==> e@.len() <= 0x1000_0000,
    ensures
        r == token_cost(*token, assigned@),
{
    match &token.reading {
        None => {
            let surface_len = chars_of(token.surface.as_str()).len();
            let d = if surface_len >= assigned.len() {
                surface_len - assigned.len()
            } else {
                assigned.len() - surface_len
            };
            AlignmentScore { mismatched_tokens: 1, edit_distance: d, length_delta: d }
        },
        Some(expected) => {
            let distance = edit_distance(expected.as_slice(), assigned);
            let delta = if expected.len() >= assigned.len() {
                expected.len() - assigned.len()
            } else {
                assigned.len() - expected.len()
            };
            AlignmentScore {
                mismatched_tokens: if distance != 0 { 1 } else { 0 },
                edit_distance: distance,
                length_delta: delta,
            }
        },
    }
}

/// A DP cell: the best score of a prefix alignment and where the last
/// token's reading range starts.
pub type AlignmentCell = Option<(AlignmentScore, usize)>;

pub open spec fn zero_score() -> AlignmentScore {
    AlignmentScore { mismatched_tokens: 0, edit_distance: 0, length_delta: 0 }
}

pub open spec fn score_add(a: AlignmentScore, b: AlignmentScore) -> AlignmentScore {
    AlignmentScore {
        mismatched_tokens: (a.mismatched_tokens + b.mismatched_tokens) as usize,
        edit_distance: (a.edit_distance + b.edit_distance) as usize,
        length_delta: (a.length_delta + b.length_delta) as usize,
    }
}

/// Best alignment of the first `t` tokens onto `reading[..e]`: the lowest
/// score, ties going to the earliest start of the last token's range.
pub open spec fn align_cell(tokens: Seq<AnalyzedToken>, reading: Seq<char>, t: nat, e: nat) -> AlignmentCell
    decreases t, 0nat, e,
{
    if t == 0 {
        if e == 0 { Some((zero_score(), 0usize)) } else { None }
    } else {
        align_relax(tokens, reading, (t - 1) as nat, e, e + 1)
    }
}

/// The best cell for token `t` ending at `e` among the starts `s < k`.
pub open spec fn align_relax(tokens: Seq<AnalyzedToken>, reading: Seq<char>, t: nat, e: nat, k: nat) -> AlignmentCell
    decreases t, 1nat, k,
{
    if k == 0 || e > reading.len() {
        None
    } else {
        let before = align_relax(tokens, reading, t, e, (k - 1) as nat);
        let s = (k - 1) as nat;
        if s > e {
            before
        } else {
            match align_cell(tokens, reading, t, s) {
                None => before,
                Some(p) => {
                    let c = score_add(p.0, token_cost(tokens[t as int], reading.subrange(s as int, e as int)));
                    match before {
                        None => Some((c, s as usize)),
                        Some(b) => if score_lt(c, b.0) { Some((c, s as usize)) } else { before },
                    }
                },
            }
        }
    }
}

/// Reading ranges read back from the DP, last token first: the range of
/// token `t - 1` ends at `end`.
pub open spec fn align_backtrack(tokens: Seq<AnalyzedToken>, reading: Seq<char>, t: nat, end: nat) -> Option<Seq<(usize, usize)>>
    decreases t,
{
    if t == 0 {
        if end == 0 { Some(Seq::empty()) } else { None }
    } else {
        match align_cell(tokens, reading, t, end) {
            None => None,
            Some(cell) => {
                if cell.1 > end {
                    None
                } else {
                    match align_backtrack(tokens, reading, (t - 1) as nat, cell.1 as nat) {
                        None => None,
                        Some(rest) => Some(rest.push((cell.1, end as usize))),
                    }
                }
            },
        }
    }
}

/// The alignment of all tokens onto the whole reading.
pub open spec fn best_alignment(tokens: Seq<AnalyzedToken>, reading: Seq<char>) -> Option<Seq<(usize, usize)>> {
    if tokens.len() == 0 || reading.len() == 0 {
        None
    } else {
        align_backtrack(tokens, reading, tokens.len() as nat, reading.len() as nat)
    }
}

/// Size limits under which every score sum fits in a `usize`.
pub open spec fn alignment_sizes_ok(tokens: Seq<AnalyzedToken>, reading: Seq<char>) -> bool {
    &&& tokens.len() <= 0x4000
    &&& reading.len() <= 0x4000
    &&& forall|i: int| 0 <= i < tokens.len() ==> (#[trigger] tokens[i]).surface@.len() <= 0x4000 && (
        tokens[i].reading matches Some(r) ==> r@.len() <= 0x4000)
}

proof fn lemma_cost_bound(token: AnalyzedToken, assigned: Seq<char>)
    requires
        token.surface@.len() <= 0x4000,
        token.reading matches Some(r) ==> r@.len() <= 0x4000,
        assigned.len() <= 0x4000,
    ensures
        token_cost(token, assigned).mismatched_tokens <= 1,
        token_cost(token, assigned).edit_distance <= 0x8000,
        token_cost(token, assigned).length_delta <= 0x8000,
{
    match token.reading {
        Some(r) => {
            lemma_levenshtein_bound(r@, assigned);
        },
        None => {},
    }
}

/// Scores of cells for `t` tokens are bounded by `t` times the per-token bound.
proof fn lemma_cell_bound(tokens: Seq<AnalyzedToken>, reading: Seq<char>, t: nat, e: nat)
    requires
        alignment_sizes_ok(tokens, reading),
        t <= tokens.len(),
    ensures
        align_cell(tokens, reading, t, e) matches Some(c) ==> c.0.mismatched_tokens <= t && c.0.edit_distance
            <= t * 0x8000 && c.0.length_delta <= t * 0x8000 && c.1 <= e,
    decreases t, 0nat, e,
{
    if t > 0 {
        lemma_relax_bound(tokens, reading, (t - 1) as nat, e, e + 1);
    }
}

proof fn lemma_relax_bound(tokens: Seq<AnalyzedToken>, reading: Seq<char>, t: nat, e: nat, k: nat)
    requires
        alignment_sizes_ok(tokens, reading),
        t < tokens.len(),
    ensures
        align_relax(tokens, reading, t, e, k) matches Some(c) ==> c.0.mismatched_tokens <= t + 1
            && c.0.edit_distance <= (t + 1) * 0x8000 && c.0.length_delta <= (t + 1) * 0x8000 && c.1 <= e && c.1 < k,
    decreases t, 1nat, k,
{
    if k > 0 && e <= reading.len() {
        lemma_relax_bound(tokens, reading, t, e, (k - 1) as nat);
        let s = (k - 1) as nat;
        if s <= e {
            lemma_cell_bound(tokens, reading, t, s);
            lemma_cost_bound(tokens[t as int], reading.subrange(s as int, e as int));
            assert((t + 1) * 0x8000 == t * 0x8000 + 0x8000) by (nonlinear_arith);
        }
    }
}

fn sub_chars(v: &Vec<char>, start: usize, end: usize) -> (out: Vec<char>)
    requires
        start <= end <= v@.len(),
    ensures
        out@ == v@.subrange(start as int, end as int),
{
    let mut out: Vec<char> = Vec::new();
    let mut i = start;
    while i < end
        invariant
            start <= i <= end <= v@.len(),
            out@ == v@.subrange(start as int, i as int),
        decreases end - i,
    {
        out.push(v[i]);
        assert(v@.subrange(start as int, i as int).push(v@[i as int]) =~= v@.subrange(start as int, i + 1));
        i += 1;
    }
    out
}

/// Assign the original reading across the surface tokens.
///
/// The dynamic program first minimizes the number of mismatched tokens, which
/// keeps exact words on both sides fixed and makes the smallest local region
/// absorb a reading discrepancy; edit distance and length difference break
/// ties. A token with no counterpart in the input may get an empty range.
/// The result lists one `(start, end)` character range per token.
pub fn align_to_original_reading(tokens: &Vec<AnalyzedToken>, reading_chars: &Vec<char>) -> (r: Option<
    Vec<(usize, usize)>,
>)
    requires
        alignment_sizes_ok(tokens@, reading_chars@),
    ensures
        match r {
            None => best_alignment(tokens@, reading_chars@) is None,
            Some(v) => best_alignment(tokens@, reading_chars@) == Some(v@),
        },
{
    let ghost tk = tokens@;
    let ghost rd = reading_chars@;
    if tokens.len() == 0 || reading_chars.len() == 0 {
        return None;
    }
    let n = reading_chars.len();
    let nt = tokens.len();
    // states[t][e] for t in 0..=nt
    let mut states: Vec<Vec<AlignmentCell>> = Vec::new();
    let mut first: Vec<AlignmentCell> = Vec::new();
    let mut e: usize = 0;
    while e <= n
        invariant
            n == rd.len(),
            n <= 0x4000,
            e <= n + 1,
            first@.len() == e,
            forall|x: int| 0 <= x < e ==> first@[x] == align_cell(tk, rd, 0, x as nat),
        decreases n + 1 - e,
    {
        if e == 0 {
            first.push(Some((AlignmentScore { mismatched_tokens: 0, edit_distance: 0, length_delta: 0 }, 0)));
        } else {
            first.push(None);
        }
        e += 1;
    }
    states.push(first);
    let mut t: usize = 0;
    while t < nt
        invariant
            tk == tokens@,
            rd == reading_chars@,
            n == rd.len(),
            nt == tk.len(),
            alignment_sizes_ok(tk, rd),
            t <= nt,
            states@.len() == t + 1,
            forall|a: int| 0 <= a <= t ==> #[trigger] states@[a]@.len() == n + 1,
                forall|a: int, x: int| 0 <= a <= t && 0 <= x <= n ==> #[trigger] states@[a]@[x] == align_cell(tk, rd, a as nat, x as nat),
        decreases nt - t,
    {
        let mut next: Vec<AlignmentCell> = Vec::new();
        let mut x: usize = 0;
        while x <= n
            invariant
                n == rd.len(),
                n <= 0x4000,
                x <= n + 1,
                next@.len() == x,
                forall|y: int| 0 <= y < x ==> next@[y] is None,
            decreases n + 1 - x,
        {
            next.push(None);
            x += 1;
        }
        proof {
            assert(states@[t as int]@.len() == n + 1);
        }
        let mut s: usize = 0;
        while s <= n
            invariant
                tk == tokens@,
                rd == reading_chars@,
                n == rd.len(),
                nt == tk.len(),
                alignment_sizes_ok(tk, rd),
                t < nt,
                s <= n + 1,
                states@.len() == t + 1,
                forall|a: int| 0 <= a <= t ==> #[trigger] states@[a]@.len() == n + 1,
                forall|a: int, x: int| 0 <= a <= t && 0 <= x <= n ==> #[trigger] states@[a]@[x] == align_cell(tk, rd, a as nat, x as nat),
                next@.len() == n + 1,
                forall|y: int| 0 <= y <= n ==> #[trigger] next@[y] == align_relax(tk, rd, t as nat, y as nat,
                    if s <= y + 1 { s as nat } else { (y + 1) as nat }),
            decreases n + 1 - s,
        {
            proof {
                assert(states@[t as int]@.len() == n + 1);
            }
            let cell = states[t][s];
            match cell {
                None => {
                    proof {
                        assert forall|y: int| 0 <= y <= n implies #[trigger] next@[y] == align_relax(tk, rd, t as nat, y as nat,
                            if s + 1 <= y + 1 { (s + 1) as nat } else { (y + 1) as nat }) by {
                            if s <= y {
                                assert(align_cell(tk, rd, t as nat, s as nat) is None);
                            }
                        }
                    }
                },
                Some(previous) => {
                    proof {
                        lemma_cell_bound(tk, rd, t as nat, s as nat);
                        assert(t * 0x8000 <= 0x4000 * 0x8000) by (nonlinear_arith) requires t <= 0x4000;
                    }
                    let mut end: usize = s;
                    while end <= n
                        invariant
                            tk == tokens@,
                            rd == reading_chars@,
                            n == rd.len(),
                            alignment_sizes_ok(tk, rd),
                            t < nt,
                            nt == tk.len(),
                            s <= end <= n + 1,
                            s <= n,
                            Some(previous) == align_cell(tk, rd, t as nat, s as nat),
                            previous.0.mismatched_tokens <= t,
                            previous.0.edit_distance <= 0x4000 * 0x8000,
                            previous.0.length_delta <= 0x4000 * 0x8000,
                            next@.len() == n + 1,
                            forall|y: int| 0 <= y <= n ==> #[trigger] next@[y] == align_relax(tk, rd, t as nat, y as nat,
                                if y < s { (y + 1) as nat } else if y < end { (s + 1) as nat } else { s as nat }),
                        decreases n + 1 - end,
                    {
                        let assigned = sub_chars(reading_chars, s, end);
                        proof {
                            assert(tk[t as int].surface@.len() <= 0x4000);
                            lemma_cost_bound(tk[t as int], assigned@);
                        }
                        let cost = token_score(&tokens[t], assigned.as_slice());
                        let score = previous.0.add(cost);
                        let replace = match next[end] {
                            None => true,
                            Some(current) => score.less_than(current.0),
                        };
                        if replace {
                            next.set(end, Some((score, s)));
                        }
                        proof {
                            assert forall|y: int| 0 <= y <= n implies #[trigger] next@[y] == align_relax(tk, rd, t as nat, y as nat,
                                if y < s { (y + 1) as nat } else if y < end + 1 { (s + 1) as nat } else { s as nat }) by {
                                if y == end {
                                    assert(score == score_add(previous.0, token_cost(tk[t as int], rd.subrange(s as int, y))));
                                }
                            }
                        }
                        end += 1;
                    }
                    proof {
                        assert forall|y: int| 0 <= y <= n implies #[trigger] next@[y] == align_relax(tk, rd, t as nat, y as nat,
                            if s + 1 <= y + 1 { (s + 1) as nat } else { (y + 1) as nat }) by {
                            if y < s {
                                assert(align_relax(tk, rd, t as nat, y as nat, (y + 1) as nat) == align_relax(tk, rd, t as nat, y as nat, (y + 1) as nat));
                            }
                        }
                    }
                },
            }
            s += 1;
        }
        states.push(next);
        proof {
            assert forall|a: int| 0 <= a <= t + 1 implies #[trigger] states@[a]@.len() == n + 1 by {
                if a == t + 1 {
                    assert(states@[a]@ == next@);
                }
            }
            assert forall|a: int, x: int| 0 <= a <= t + 1 && 0 <= x <= n implies #[trigger] states@[a]@[x]
                == align_cell(tk, rd, a as nat, x as nat) by {
                if a == t + 1 {
                    assert(states@[a]@ == next@);
                }
            }
        }
        t += 1;
    }
    // read back the ranges
    let mut ranges: Vec<(usize, usize)> = Vec::new();
    let mut reading_end: usize = n;
    let mut k: usize = nt;
    while k > 0
        invariant
            tk == tokens@,
            rd == reading_chars@,
            n == rd.len(),
            nt == tk.len(),
            nt > 0,
            alignment_sizes_ok(tk, rd),
            k <= nt,
            reading_end <= n,
            states@.len() == nt + 1,
            forall|a: int| 0 <= a <= nt ==> #[trigger] states@[a]@.len() == n + 1,
                forall|a: int, x: int| 0 <= a <= nt && 0 <= x <= n ==> #[trigger] states@[a]@[x] == align_cell(tk, rd, a as nat, x as nat),
            ranges@.len() == nt - k,
            best_alignment(tk, rd) == (match align_backtrack(tk, rd, k as nat, reading_end as nat) {
                None => None,
                Some(rest) => Some(rest + ranges@.reverse()),
            }),
        decreases k,
    {
        proof {
            assert(states@[k as int]@.len() == n + 1);
        }
        let cell = states[k][reading_end];
        match cell {
            None => {
                return None;
            },
            Some(c) => {
                proof {
                    lemma_cell_bound(tk, rd, k as nat, reading_end as nat);
                }
                let ghost old_ranges = ranges@;
                ranges.push((c.1, reading_end));
                proof {
                    assert(ranges@.reverse() =~= seq![(c.1, reading_end)] + old_ranges.reverse());
                    match align_backtrack(tk, rd, (k - 1) as nat, c.1 as nat) {
                        None => {},
                        Some(rest) => {
                            assert(rest.push((c.1, reading_end)) + old_ranges.reverse() =~= rest + ranges@.reverse());
                        },
                    }
                }
                reading_end = c.1;
            },
        }
        k -= 1;
    }
    if reading_end != 0 {
        return None;
    }
    let mut out: Vec<(usize, usize)> = Vec::new();
    let mut i = ranges.len();
    while i > 0
        invariant
            i <= ranges@.len(),
            out@ == ranges@.reverse().take((ranges@.len() - i) as int),
        decreases i,
    {
        i -= 1;
        out.push(ranges[i]);
        assert(ranges@.reverse().take((ranges@.len() - i) as int) =~= ranges@.reverse().take((ranges@.len() - i - 1) as int).push(ranges@[i as int]));
    }
    proof {
        assert(ranges@.reverse().take(ranges@.len() as int) =~= ranges@.reverse());
        assert(Seq::<(usize, usize)>::empty() + ranges@.reverse() =~= ranges@.reverse());
    }
    Some(out)
}

proof fn lemma_backtrack_partition(tokens: Seq<AnalyzedToken>, reading: Seq<char>, t: nat, end: nat)
    requires
        align_backtrack(tokens, reading, t, end) is Some,
        end <= usize::MAX,
    ensures
        ({
            let rs = align_backtrack(tokens, reading, t, end)->0;
            &&& rs.len() == t
            &&& forall|i: int| 0 <= i < rs.len() ==> (#[trigger] rs[i]).0 <= rs[i].1
            &&& forall|i: int| 0 <= i < rs.len() - 1 ==> (#[trigger] rs[i]).1 == rs[i + 1].0
            &&& t > 0 ==> rs[0].0 == 0 && rs[rs.len() - 1].1 == end
        }),
    decreases t,
{
    if t > 0 {
        let cell = align_cell(tokens, reading, t, end)->0;
        lemma_backtrack_partition(tokens, reading, (t - 1) as nat, cell.1 as nat);
        let rest = align_backtrack(tokens, reading, (t - 1) as nat, cell.1 as nat)->0;
        let rs = rest.push((cell.1, end as usize));
        assert(rs == align_backtrack(tokens, reading, t, end)->0);
        if t == 1 {
            assert(cell.1 == 0);
        } else {
            assert(rs[0] == rest[0]);
        }
        assert forall|i: int| 0 <= i < rs.len() - 1 implies (#[trigger] rs[i]).1 == rs[i + 1].0 by {
            if i < rest.len() - 1 {
                assert(rs[i] == rest[i] && rs[i + 1] == rest[i + 1]);
            } else {
                assert(rs[i] == rest[rest.len() - 1]);
            }
        }
        assert forall|i: int| 0 <= i < rs.len() implies (#[trigger] rs[i]).0 <= rs[i].1 by {
            if i < rest.len() {
                assert(rs[i] == rest[i]);
            }
        }
    }
}

/// One surface piece of the live conversion with the reading range it was
/// aligned to.
#[derive(Debug, PartialEq, Eq)]
pub struct SurfaceSegment {
    pub reading_range: core::ops::Range<usize>,
    pub reading: String,
    pub surface: String,
}

/// Segments built from the first `k` tokens, and the surface of leading
/// tokens that had no reading and no earlier segment to join.
pub open spec fn collect_segments(
    tokens: Seq<AnalyzedToken>,
    ranges: Seq<(usize, usize)>,
    reading: Seq<char>,
    k: nat,
) -> (Seq<SurfaceSegment>, Seq<char>)
    decreases k,
{
    if k == 0 {
        (Seq::empty(), Seq::empty())
    } else {
        let (segs, leading) = collect_segments(tokens, ranges, reading, (k - 1) as nat);
        let i = (k - 1) as int;
        let (start, end) = ranges[i];
        if start >= end {
            if segs.len() > 0 {
                let last = segs.last();
                (segs.update(segs.len() - 1, SurfaceSegment { surface: last.surface, ..last }), leading)
            } else {
                (segs, leading + tokens[i].surface@)
            }
        } else {
            (segs, Seq::empty())
        }
    }
}

/// Readings, surfaces and ranges of segments as plain values.
pub open spec fn segment_reading(s: SurfaceSegment) -> Seq<char> {
    s.reading@
}

/// Concatenation of the given texts.
pub open spec fn concat_all(parts: Seq<Seq<char>>) -> Seq<char>
    decreases parts.len(),
{
    if parts.len() == 0 {
        Seq::empty()
    } else {
        concat_all(parts.drop_last()) + parts.last()
    }
}

/// Segment surfaces for the first `k` aligned tokens: tokens with an empty
/// reading range join the previous segment, or the next one when they lead.
pub open spec fn segment_surfaces(tokens: Seq<AnalyzedToken>, ranges: Seq<(usize, usize)>, k: nat) -> (Seq<Seq<char>>, Seq<char>)
    decreases k,
{
    if k == 0 {
        (Seq::empty(), Seq::empty())
    } else {
        let (surfaces, leading) = segment_surfaces(tokens, ranges, (k - 1) as nat);
        let i = (k - 1) as int;
        if ranges[i].0 >= ranges[i].1 {
            if surfaces.len() > 0 {
                (surfaces.update(surfaces.len() - 1, surfaces.last() + tokens[i].surface@), leading)
            } else {
                (surfaces, leading + tokens[i].surface@)
            }
        } else {
            (surfaces.push(leading + tokens[i].surface@), Seq::empty())
        }
    }
}

/// Reading ranges of the tokens that received a non-empty range.
pub open spec fn segment_ranges(ranges: Seq<(usize, usize)>, k: nat) -> Seq<(usize, usize)>
    decreases k,
{
    if k == 0 {
        Seq::empty()
    } else {
        let before = segment_ranges(ranges, (k - 1) as nat);
        if ranges[k - 1].0 >= ranges[k - 1].1 { before } else { before.push(ranges[k - 1]) }
    }
}

proof fn lemma_segment_counts(tokens: Seq<AnalyzedToken>, ranges: Seq<(usize, usize)>, k: nat)
    ensures
        segment_surfaces(tokens, ranges, k).0.len() == segment_ranges(ranges, k).len(),
        segment_surfaces(tokens, ranges, k).0.len() == 0 ==> segment_surfaces(tokens, ranges, k).1
            == concat_all(Seq::new(k, |i: int| tokens[i].surface@)),
        segment_surfaces(tokens, ranges, k).0.len() > 0 ==> concat_all(segment_surfaces(tokens, ranges, k).0)
            == concat_all(Seq::new(k, |i: int| tokens[i].surface@)) && segment_surfaces(tokens, ranges, k).1.len() == 0,
    decreases k,
{
    if k > 0 {
        lemma_segment_counts(tokens, ranges, (k - 1) as nat);
        let prev = Seq::new((k - 1) as nat, |i: int| tokens[i].surface@);
        let cur = Seq::new(k, |i: int| tokens[i].surface@);
        assert(cur.drop_last() =~= prev);
        let (surfaces, leading) = segment_surfaces(tokens, ranges, (k - 1) as nat);
        let i = (k - 1) as int;
        if ranges[i].0 >= ranges[i].1 {
            if surfaces.len() > 0 {
                let upd = surfaces.update(surfaces.len() - 1, surfaces.last() + tokens[i].surface@);
                assert(upd.drop_last() =~= surfaces.drop_last());
                assert(concat_all(surfaces) == concat_all(surfaces.drop_last()) + surfaces.last());
            }
        } else {
            let pushed = surfaces.push(leading + tokens[i].surface@);
            assert(pushed.drop_last() =~= surfaces);
            if surfaces.len() == 0 {
                assert(concat_all(surfaces) =~= Seq::<char>::empty());
            }
        }
    }
}

/// Reading ranges together cover the reading in order.
proof fn lemma_segment_ranges_cover(ranges: Seq<(usize, usize)>, k: nat, n: nat)
    requires
        k <= ranges.len(),
        forall|i: int| 0 <= i < ranges.len() ==> (#[trigger] ranges[i]).0 <= ranges[i].1,
        forall|i: int| 0 <= i < ranges.len() - 1 ==> (#[trigger] ranges[i]).1 == ranges[i + 1].0,
        ranges.len() > 0 ==> ranges[0].0 == 0,
    ensures
        k > 0 ==> (segment_ranges(ranges, k).len() > 0 ==> segment_ranges(ranges, k)[0].0 == 0
            && segment_ranges(ranges, k).last().1 == ranges[k - 1].1),
        k > 0 && segment_ranges(ranges, k).len() == 0 ==> ranges[k - 1].1 == 0,
        forall|i: int| 0 <= i < segment_ranges(ranges, k).len() - 1 ==> (#[trigger] segment_ranges(ranges, k)[i]).1
            == segment_ranges(ranges, k)[i + 1].0,
        forall|i: int| 0 <= i < segment_ranges(ranges, k).len() ==> (#[trigger] segment_ranges(ranges, k)[i]).0
            < segment_ranges(ranges, k)[i].1,
    decreases k,
{
    if k > 0 {
        lemma_segment_ranges_cover(ranges, (k - 1) as nat, n);
        let before = segment_ranges(ranges, (k - 1) as nat);
        let cur = segment_ranges(ranges, k);
        let r = ranges[k - 1];
        if k >= 2 {
            assert(ranges[k - 2].1 == ranges[k - 1].0);
        }
        if r.0 >= r.1 {
            assert(r.0 == r.1);
        } else {
            assert(cur == before.push(r));
            assert forall|i: int| 0 <= i < cur.len() - 1 implies (#[trigger] cur[i]).1 == cur[i + 1].0 by {
                if i < before.len() - 1 {
                    assert(cur[i] == before[i] && cur[i + 1] == before[i + 1]);
                } else {
                    assert(cur[i] == before.last());
                }
            }
            assert forall|i: int| 0 <= i < cur.len() implies (#[trigger] cur[i]).0 < cur[i].1 by {
                if i < before.len() {
                    assert(cur[i] == before[i]);
                }
            }
            if before.len() > 0 {
                assert(cur[0] == before[0]);
            }
        }
    }
}

/// Text of the given character ranges, concatenated.
pub open spec fn concat_ranges(reading: Seq<char>, ranges: Seq<(usize, usize)>) -> Seq<char>
    decreases ranges.len(),
{
    if ranges.len() == 0 {
        Seq::empty()
    } else {
        concat_ranges(reading, ranges.drop_last()) + reading.subrange(ranges.last().0 as int, ranges.last().1 as int)
    }
}

proof fn lemma_concat_ranges(reading: Seq<char>, ranges: Seq<(usize, usize)>)
    requires
        ranges.len() > 0,
        ranges[0].0 == 0,
        ranges.last().1 <= reading.len(),
        forall|i: int| 0 <= i < ranges.len() ==> (#[trigger] ranges[i]).0 <= ranges[i].1,
        forall|i: int| 0 <= i < ranges.len() - 1 ==> (#[trigger] ranges[i]).1 == ranges[i + 1].0,
    ensures
        concat_ranges(reading, ranges) == reading.subrange(0, ranges.last().1 as int),
    decreases ranges.len(),
{
    if ranges.len() > 1 {
        let r = ranges.drop_last();
        assert(r.last() == ranges[ranges.len() - 2]);
        lemma_concat_ranges(reading, r);
        assert(reading.subrange(0, r.last().1 as int) + reading.subrange(ranges.last().0 as int, ranges.last().1 as int)
            =~= reading.subrange(0, ranges.last().1 as int));
    } else {
        assert(concat_ranges(reading, ranges.drop_last()) =~= Seq::<char>::empty());
        assert(Seq::<char>::empty() + reading.subrange(0, ranges.last().1 as int) =~= reading.subrange(0, ranges.last().1 as int));
    }
}

/// The expected reading of a token: the dictionary reading (converted to
/// hiragana) when it is present and not `*` or `UNK`, otherwise the surface
/// itself when it holds no kanji.
pub fn analyze_token(surface: &str, dictionary_reading: Option<&str>) -> (t: AnalyzedToken)
    ensures
        t.surface@ == surface@,
        match dictionary_reading {
            Some(d) if d@.len() > 0 && d@ != "*"@ && d@ != "UNK"@ => t.reading matches Some(r) && r@ == to_hiragana(d@),
            _ => if (exists|i: int| 0 <= i < surface@.len() && is_kanji(#[trigger] surface@[i])) {
                t.reading is None
            } else {
                t.reading matches Some(r) && r@ == to_hiragana(surface@)
            },
        },
{
    let usable = match dictionary_reading {
        Some(d) => !d.is_empty() && !crate::text::str_eq(d, "*") && !crate::text::str_eq(d, "UNK"),
        None => false,
    };
    let reading = if usable {
        match dictionary_reading {
            Some(d) => Some(chars_of(katakana_to_hiragana(d).as_str())),
            None => None,
        }
    } else {
        match fallback_reading(surface) {
            Some(r) => Some(chars_of(r.as_str())),
            None => None,
        }
    };
    AnalyzedToken { surface: crate::text::copy_str(surface), reading }
}

/// Split the live conversion surface, given as analyzed tokens, and align
/// every token to the original hiragana reading. Tokens that receive no
/// reading are merged into the neighbouring segment. The segment readings
/// concatenate to the reading, and the segment surfaces to the token
/// surfaces.
pub fn segment_analyzed_surface(tokens: &Vec<AnalyzedToken>, reading: &str) -> (r: Option<Vec<SurfaceSegment>>)
    requires
        alignment_sizes_ok(tokens@, reading@),
    ensures
        best_alignment(tokens@, reading@) is None ==> r is None,
        best_alignment(tokens@, reading@) matches Some(ranges) ==> ({
            let (surfaces, _) = segment_surfaces(tokens@, ranges, tokens@.len() as nat);
            let kept = segment_ranges(ranges, tokens@.len() as nat);
            match r {
                None => surfaces.len() == 0,
                Some(segs) => {
                    &&& segs@.len() == surfaces.len() && segs@.len() > 0
                    &&& forall|i: int| 0 <= i < segs@.len() ==> (#[trigger] segs@[i]).surface@ == surfaces[i]
                        && segs@[i].reading_range.start == kept[i].0 && segs@[i].reading_range.end == kept[i].1
                        && segs@[i].reading@ == reading@.subrange(kept[i].0 as int, kept[i].1 as int)
                    &&& concat_all(surfaces) == concat_all(Seq::new(tokens@.len(), |i: int| tokens@[i].surface@))
                    &&& concat_ranges(reading@, kept) == reading@
                },
            }
        }),
{
    let reading_chars = chars_of(reading);
    let ranges = match align_to_original_reading(tokens, &reading_chars) {
        None => {
            return None;
        },
        Some(r) => r,
    };
    let ghost rs = ranges@;
    proof {
        lemma_backtrack_partition(tokens@, reading@, tokens@.len() as nat, reading@.len() as nat);
    }
    let mut segments: Vec<SurfaceSegment> = Vec::new();
    let mut leading = String::new();
    let mut k: usize = 0;
    while k < tokens.len()
        invariant
            rs == ranges@,
            best_alignment(tokens@, reading@) == Some(rs),
            rs.len() == tokens@.len(),
            reading_chars@ == reading@,
            forall|i: int| 0 <= i < rs.len() ==> (#[trigger] rs[i]).0 <= rs[i].1,
            forall|i: int| 0 <= i < rs.len() - 1 ==> (#[trigger] rs[i]).1 == rs[i + 1].0,
            rs.len() > 0 ==> rs[0].0 == 0 && rs[rs.len() - 1].1 == reading@.len(),
            k <= tokens@.len(),
            segments@.len() == segment_surfaces(tokens@, rs, k as nat).0.len(),
            leading@ == segment_surfaces(tokens@, rs, k as nat).1,
            forall|i: int| 0 <= i < segments@.len() ==> (#[trigger] segments@[i]).surface@ == segment_surfaces(tokens@, rs, k as nat).0[i]
                && segments@[i].reading_range.start == segment_ranges(rs, k as nat)[i].0
                && segments@[i].reading_range.end == segment_ranges(rs, k as nat)[i].1
                && segments@[i].reading@ == reading@.subrange(segment_ranges(rs, k as nat)[i].0 as int, segment_ranges(rs, k as nat)[i].1 as int),
        decreases tokens@.len() - k,
    {
        proof {
            lemma_segment_counts(tokens@, rs, k as nat);
        }
        let (start, end) = ranges[k];
        if start >= end {
            let n = segments.len();
            if n > 0 {
                let mut last = segments.pop().unwrap();
                crate::text::push_str(&mut last.surface, tokens[k].surface.as_str());
                segments.push(last);
            } else {
                crate::text::push_str(&mut leading, tokens[k].surface.as_str());
            }
        } else {
            proof {
                assert(rs[k as int].1 <= reading@.len()) by {
                    if k + 1 < rs.len() {
                        lemma_ranges_below_end(rs, k as int);
                    }
                }
            }
            let mut surface = leading;
            leading = String::new();
            crate::text::push_str(&mut surface, tokens[k].surface.as_str());
            let seg_reading = crate::text::slice_to_string(reading_chars.as_slice(), start, end);
            segments.push(SurfaceSegment { reading_range: start..end, reading: seg_reading, surface });
        }
        proof {
            assert forall|i: int| 0 <= i < segments@.len() implies (#[trigger] segments@[i]).surface@ == segment_surfaces(tokens@, rs, (k + 1) as nat).0[i]
                && segments@[i].reading_range.start == segment_ranges(rs, (k + 1) as nat)[i].0
                && segments@[i].reading_range.end == segment_ranges(rs, (k + 1) as nat)[i].1
                && segments@[i].reading@ == reading@.subrange(segment_ranges(rs, (k + 1) as nat)[i].0 as int, segment_ranges(rs, (k + 1) as nat)[i].1 as int) by {
                lemma_segment_counts(tokens@, rs, k as nat);
            }
        }
        k += 1;
    }
    proof {
        let kk = tokens@.len() as nat;
        lemma_segment_counts(tokens@, rs, kk);
        lemma_segment_ranges_cover(rs, kk, reading@.len());
        let kept = segment_ranges(rs, kk);
        if kept.len() > 0 {
            lemma_concat_ranges(reading@, kept);
            assert(reading@.subrange(0, reading@.len() as int) =~= reading@);
        }
    }
    if segments.len() == 0 {
        return None;
    }
    Some(segments)
}

proof fn lemma_ranges_below_end(rs: Seq<(usize, usize)>, k: int)
    requires
        0 <= k < rs.len(),
        forall|i: int| 0 <= i < rs.len() ==> (#[trigger] rs[i]).0 <= rs[i].1,
        forall|i: int| 0 <= i < rs.len() - 1 ==> (#[trigger] rs[i]).1 == rs[i + 1].0,
    ensures
        rs[k].1 <= rs[rs.len() - 1].1,
    decreases rs.len() - k,
{
    if k < rs.len() - 1 {
        lemma_ranges_below_end(rs, k + 1);
    }
}

/// `a` costs no more than `b`.
pub open spec fn score_le(a: AlignmentScore, b: AlignmentScore) -> bool {
    !score_lt(b, a)
}

/// The cost of giving the first tokens the reading ranges `ranges`, one
/// range per token in order.
pub open spec fn ranges_cost(tokens: Seq<AnalyzedToken>, reading: Seq<char>, ranges: Seq<(usize, usize)>) -> AlignmentScore
    decreases ranges.len(),
{
    if ranges.len() == 0 {
        zero_score()
    } else {
        let k = ranges.len() - 1;
        score_add(
            ranges_cost(tokens, reading, ranges.drop_last()),
            token_cost(tokens[k], reading.subrange(ranges[k].0 as int, ranges[k].1 as int)),
        )
    }
}

/// `ranges` are consecutive ranges of `reading` from its start to `e`, each
/// possibly empty.
pub open spec fn partitions(reading: Seq<char>, ranges: Seq<(usize, usize)>, e: nat) -> bool {
    &&& e <= reading.len()
    &&& ranges.len() == 0 ==> e == 0
    &&& ranges.len() > 0 ==> ranges[0].0 == 0 && ranges[ranges.len() - 1].1 == e
    &&& forall|i: int| 0 < i < ranges.len() ==> ranges[i - 1].1 == #[trigger] ranges[i].0
    &&& forall|i: int| 0 <= i < ranges.len() ==> (#[trigger] ranges[i]).0 <= ranges[i].1
}

proof fn lemma_score_le_trans(a: AlignmentScore, b: AlignmentScore, c: AlignmentScore)
    requires
        score_le(a, b),
        score_le(b, c),
    ensures
        score_le(a, c),
{
}

/// Adding the same cost on both sides keeps the order, when no sum
/// overflows.
proof fn lemma_score_le_add(a: AlignmentScore, b: AlignmentScore, x: AlignmentScore)
    requires
        score_le(a, b),
        a.mismatched_tokens + x.mismatched_tokens <= usize::MAX,
        a.edit_distance + x.edit_distance <= usize::MAX,
        a.length_delta + x.length_delta <= usize::MAX,
        b.mismatched_tokens + x.mismatched_tokens <= usize::MAX,
        b.edit_distance + x.edit_distance <= usize::MAX,
        b.length_delta + x.length_delta <= usize::MAX,
    ensures
        score_le(score_add(a, x), score_add(b, x)),
{
}

/// What the chosen start of the last token's range stands for: the best
/// alignment of the earlier tokens up to it, plus that token's cost.
proof fn lemma_relax_sound(tokens: Seq<AnalyzedToken>, reading: Seq<char>, t: nat, e: nat, k: nat)
    requires
        reading.len() <= usize::MAX,
    ensures
        align_relax(tokens, reading, t, e, k) matches Some(c) ==> c.1 <= e && c.1 < k && (align_cell(
            tokens,
            reading,
            t,
            c.1 as nat,
        ) matches Some(p) && c.0 == score_add(
            p.0,
            token_cost(tokens[t as int], reading.subrange(c.1 as int, e as int)),
        )),
    decreases k,
{
    if k > 0 && e <= reading.len() {
        lemma_relax_sound(tokens, reading, t, e, (k - 1) as nat);
    }
}

/// The best cell for a start-range bound `k` ranks at least as high as the
/// candidate through each start `s < k`.
proof fn lemma_relax_dominates(tokens: Seq<AnalyzedToken>, reading: Seq<char>, t: nat, e: nat, k: nat, s: nat)
    requires
        s < k,
        s <= e <= reading.len(),
        align_cell(tokens, reading, t, s) is Some,
    ensures
        align_relax(tokens, reading, t, e, k) is Some,
        score_le(
            align_relax(tokens, reading, t, e, k).unwrap().0,
            score_add(align_cell(tokens, reading, t, s).unwrap().0, token_cost(tokens[t as int], reading.subrange(s as int, e as int))),
        ),
    decreases k,
{
    let x = score_add(align_cell(tokens, reading, t, s).unwrap().0, token_cost(tokens[t as int], reading.subrange(s as int, e as int)));
    if s < k - 1 {
        lemma_relax_dominates(tokens, reading, t, e, (k - 1) as nat, s);
        let before = align_relax(tokens, reading, t, e, (k - 1) as nat)->0;
        let result = align_relax(tokens, reading, t, e, k)->0;
        if result != before {
            assert(score_lt(result.0, before.0));
        }
        lemma_score_le_trans(result.0, before.0, x);
    }
}

/// Costs of partitions stay within the per-token bound times their length.
proof fn lemma_ranges_cost_bound(tokens: Seq<AnalyzedToken>, reading: Seq<char>, ranges: Seq<(usize, usize)>)
    requires
        alignment_sizes_ok(tokens, reading),
        ranges.len() <= tokens.len(),
        forall|i: int| 0 <= i < ranges.len() ==> (#[trigger] ranges[i]).0 <= ranges[i].1 <= reading.len(),
    ensures
        ranges_cost(tokens, reading, ranges).mismatched_tokens <= ranges.len(),
        ranges_cost(tokens, reading, ranges).edit_distance <= ranges.len() * 0x8000,
        ranges_cost(tokens, reading, ranges).length_delta <= ranges.len() * 0x8000,
    decreases ranges.len(),
{
    if ranges.len() > 0 {
        let k = ranges.len() - 1;
        let front = ranges.drop_last();
        assert forall|i: int| 0 <= i < front.len() implies (#[trigger] front[i]).0 <= front[i].1 <= reading.len() by {
            assert(front[i] == ranges[i]);
        }
        lemma_ranges_cost_bound(tokens, reading, front);
        assert(ranges[k].0 <= ranges[k].1 <= reading.len());
        lemma_cost_bound(tokens[k], reading.subrange(ranges[k].0 as int, ranges[k].1 as int));
        assert(ranges.len() * 0x8000 == front.len() * 0x8000 + 0x8000) by (nonlinear_arith)
            requires
                ranges.len() == front.len() + 1,
        ;
        assert(front.len() * 0x8000 <= 0x4000 * 0x8000) by (nonlinear_arith)
            requires
                front.len() <= 0x4000,
        ;
    }
}

/// The best cell for `t` tokens up to `e` costs no more than any partition
/// of the reading up to `e` among them.
proof fn lemma_cell_optimal(tokens: Seq<AnalyzedToken>, reading: Seq<char>, t: nat, e: nat, ranges: Seq<(usize, usize)>)
    requires
        alignment_sizes_ok(tokens, reading),
        t <= tokens.len(),
        ranges.len() == t,
        partitions(reading, ranges, e),
    ensures
        align_cell(tokens, reading, t, e) is Some,
        score_le(align_cell(tokens, reading, t, e).unwrap().0, ranges_cost(tokens, reading, ranges)),
    decreases t,
{
    if t > 0 {
        let k = t - 1;
        let last = ranges[k as int];
        let s = last.0 as nat;
        let front = ranges.drop_last();
        // The earlier ranges end where the last one starts.
        assert forall|i: int| 0 <= i < ranges.len() implies (#[trigger] ranges[i]).1 <= last.0 || i == k by {
            lemma_partition_ends(ranges, i, k as int);
        }
        assert(partitions(reading, front, s)) by {
            if front.len() > 0 {
                assert(front[0] == ranges[0]);
                assert(front[front.len() - 1] == ranges[k - 1]);
                assert(ranges[k - 1].1 == ranges[k as int].0);
            } else {
                assert(ranges[0].0 == 0);
            }
            assert forall|i: int| 0 < i < front.len() implies front[i - 1].1 == #[trigger] front[i].0 by {
                assert(front[i - 1] == ranges[i - 1] && front[i] == ranges[i]);
            }
            assert forall|i: int| 0 <= i < front.len() implies (#[trigger] front[i]).0 <= front[i].1 by {
                assert(front[i] == ranges[i]);
            }
            assert(last.0 <= last.1);
        }
        lemma_cell_optimal(tokens, reading, k as nat, s, front);
        let p = align_cell(tokens, reading, k as nat, s)->0;
        let tc = token_cost(tokens[k as int], reading.subrange(s as int, e as int));
        lemma_relax_dominates(tokens, reading, k as nat, e, e + 1, s);
        let best = align_cell(tokens, reading, t, e)->0;
        lemma_cell_bound(tokens, reading, k as nat, s);
        assert forall|i: int| 0 <= i < front.len() implies (#[trigger] front[i]).0 <= front[i].1 <= reading.len() by {
            assert(front[i] == ranges[i]);
            lemma_partition_ends(ranges, i, k as int);
            assert(ranges[i].1 <= last.0);
        }
        lemma_ranges_cost_bound(tokens, reading, front);
        lemma_cost_bound(tokens[k as int], reading.subrange(s as int, e as int));
        assert(k * 0x8000 <= 0x4000 * 0x8000) by (nonlinear_arith)
            requires
                k <= 0x4000,
        ;
        assert(front.len() * 0x8000 <= 0x4000 * 0x8000) by (nonlinear_arith)
            requires
                front.len() <= 0x4000,
        ;
        lemma_score_le_add(p.0, ranges_cost(tokens, reading, front), tc);
        assert(ranges_cost(tokens, reading, ranges) == score_add(ranges_cost(tokens, reading, front), tc));
        lemma_score_le_trans(best.0, score_add(p.0, tc), ranges_cost(tokens, reading, ranges));
    }
}

/// In a partition, a range ends no later than any later range starts.
proof fn lemma_partition_ends(ranges: Seq<(usize, usize)>, i: int, j: int)
    requires
        forall|m: int| 0 < m < ranges.len() ==> ranges[m - 1].1 == #[trigger] ranges[m].0,
        forall|m: int| 0 <= m < ranges.len() ==> (#[trigger] ranges[m]).0 <= ranges[m].1,
        0 <= i <= j < ranges.len(),
    ensures
        i < j ==> ranges[i].1 <= ranges[j].0,
    decreases j - i,
{
    if i < j - 1 {
        lemma_partition_ends(ranges, i, j - 1);
        assert(ranges[j - 1].0 <= ranges[j - 1].1);
        assert(ranges[j - 1].1 == ranges[j].0);
    } else if i == j - 1 {
        assert(ranges[j - 1].1 == ranges[j].0);
    }
}

/// The ranges read back from the DP cost what the DP cell says.
proof fn lemma_backtrack_cost(tokens: Seq<AnalyzedToken>, reading: Seq<char>, t: nat, end: nat)
    requires
        alignment_sizes_ok(tokens, reading),
        t <= tokens.len(),
        end <= reading.len(),
        align_cell(tokens, reading, t, end) is Some,
    ensures
        align_backtrack(tokens, reading, t, end) is Some,
        ranges_cost(tokens, reading, align_backtrack(tokens, reading, t, end)->0) == align_cell(tokens, reading, t, end).unwrap().0,
    decreases t,
{
    if t > 0 {
        let cell = align_cell(tokens, reading, t, end)->0;
        lemma_relax_sound(tokens, reading, (t - 1) as nat, end, end + 1);
        let s = cell.1 as nat;
        lemma_backtrack_cost(tokens, reading, (t - 1) as nat, s);
        lemma_backtrack_partition(tokens, reading, (t - 1) as nat, s);
        let rest = align_backtrack(tokens, reading, (t - 1) as nat, s)->0;
        let rs = rest.push((cell.1, end as usize));
        assert(rs == align_backtrack(tokens, reading, t, end)->0);
        assert(rs.drop_last() =~= rest);
        assert(rs[rs.len() - 1] == (cell.1, end as usize));
    }
}

/// The alignment chosen for the tokens costs no more, in the order of
/// mismatched tokens, then total edit distance, then total length
/// difference, than any other assignment of consecutive (possibly empty)
/// ranges of the reading to the tokens.
pub proof fn lemma_alignment_is_optimal(tokens: Seq<AnalyzedToken>, reading: Seq<char>, ranges: Seq<(usize, usize)>)
    requires
        alignment_sizes_ok(tokens, reading),
        tokens.len() > 0,
        reading.len() > 0,
        ranges.len() == tokens.len(),
        partitions(reading, ranges, reading.len() as nat),
    ensures
        best_alignment(tokens, reading) is Some,
        score_le(ranges_cost(tokens, reading, best_alignment(tokens, reading)->0), ranges_cost(tokens, reading, ranges)),
{
    lemma_cell_optimal(tokens, reading, tokens.len() as nat, reading.len() as nat, ranges);
    lemma_backtrack_cost(tokens, reading, tokens.len() as nat, reading.len() as nat);
}

} // verus!

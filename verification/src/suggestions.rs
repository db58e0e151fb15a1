//! How the candidate lists shown while composing are put together:
//! merging sources without repeating a text, moving a text to the front,
//! and the dedicated hiragana and katakana slots.
use vstd::prelude::*;

use crate::candidate::Candidate;
use crate::kana::{hiragana_to_katakana, is_hiragana_letter};
use crate::text::{chars_of, copy_str, str_eq};
use crate::types::InputMode;

verus! {

/// Readings up to this many characters get dedicated hiragana and katakana
/// slots.
pub const SHORT_READING_LEN: usize = 6;
/// Candidates kept for a short reading.
pub const SHORT_LIVE_CANDIDATE_LIMIT: usize = 5;
/// Candidates kept for a longer reading.
pub const WHOLE_CANDIDATE_LIMIT: usize = 3;

/// The texts of candidates.
pub open spec fn texts(s: Seq<Candidate>) -> Seq<Seq<char>> {
    s.map_values(|c: Candidate| c.text@)
}

/// Whether some candidate of `s` has text `t`.
pub open spec fn has_text(s: Seq<Candidate>, t: Seq<char>) -> bool {
    exists|i: int| 0 <= i < s.len() && (#[trigger] s[i]).text@ == t
}

/// `target` followed by the candidates of `source` whose text is not yet
/// present, in order.
pub open spec fn append_dedup(target: Seq<Candidate>, source: Seq<Candidate>) -> Seq<Candidate>
    decreases source.len(),
{
    if source.len() == 0 {
        target
    } else {
        let before = append_dedup(target, source.drop_last());
        if has_text(before, source.last().text@) { before } else { before.push(source.last()) }
    }
}

fn find_text(s: &Vec<Candidate>, t: &str) -> (r: Option<usize>)
    ensures
        match r {
            Some(i) => i < s@.len() && s@[i as int].text@ == t@ && forall|j: int| 0 <= j < i ==> (#[trigger] s@[j]).text@ != t@,
            None => !has_text(s@, t@),
        },
{
    let mut i: usize = 0;
    while i < s.len()
        invariant
            i <= s@.len(),
            forall|j: int| 0 <= j < i ==> (#[trigger] s@[j]).text@ != t@,
        decreases s@.len() - i,
    {
        if str_eq(s[i].text.as_str(), t) {
            return Some(i);
        }
        i += 1;
    }
    None
}

/// Appends the candidates of `source` whose text `target` does not hold
/// yet.
pub fn append_candidates_dedup(target: &mut Vec<Candidate>, source: Vec<Candidate>)
    ensures
        final(target)@ == append_dedup(old(target)@, source@),
{
    let ghost start = target@;
    let mut i: usize = 0;
    while i < source.len()
        invariant
            i <= source@.len(),
            target@ == append_dedup(start, source@.take(i as int)),
        decreases source@.len() - i,
    {
        assert(source@.take(i + 1).drop_last() =~= source@.take(i as int));
        let c = source[i].duplicate();
        if find_text(target, c.text.as_str()).is_none() {
            target.push(c);
        }
        i += 1;
    }
    assert(source@.take(i as int) =~= source@);
}

/// Index of the first candidate with text `t`.
pub open spec fn first_with_text(s: Seq<Candidate>, t: Seq<char>) -> Option<int> {
    if has_text(s, t) {
        Some(choose|i: int| 0 <= i < s.len() && s[i].text@ == t && forall|j: int| 0 <= j < i ==> (#[trigger] s[j]).text@ != t)
    } else {
        None
    }
}

proof fn lemma_first_with_text(s: Seq<Candidate>, t: Seq<char>)
    requires
        has_text(s, t),
    ensures
        exists|i: int| 0 <= i < s.len() && s[i].text@ == t && forall|j: int| 0 <= j < i ==> (#[trigger] s[j]).text@ != t,
    decreases s.len(),
{
    let u = s.drop_last();
    if has_text(u, t) {
        lemma_first_with_text(u, t);
        let i = choose|i: int| 0 <= i < u.len() && u[i].text@ == t && forall|j: int| 0 <= j < i ==> (#[trigger] u[j]).text@ != t;
        assert(s[i] == u[i]);
        assert forall|j: int| 0 <= j < i implies (#[trigger] s[j]).text@ != t by {
            assert(s[j] == u[j]);
        }
    } else {
        let k = s.len() - 1;
        let w = choose|i: int| 0 <= i < s.len() && (#[trigger] s[i]).text@ == t;
        if w < k {
            assert(u[w] == s[w]);
            assert(false);
        }
        assert forall|j: int| 0 <= j < k implies (#[trigger] s[j]).text@ != t by {
            assert(u[j] == s[j]);
        }
    }
}

/// `s` with the first candidate of text `t` moved to the front, or with
/// `fallback` put in front when no candidate has that text.
pub open spec fn promoted(s: Seq<Candidate>, t: Seq<char>, fallback: Candidate) -> Seq<Candidate> {
    match first_with_text(s, t) {
        Some(i) => seq![s[i]] + s.remove(i),
        None => seq![fallback] + s,
    }
}

/// Moves the candidate with text `text` to the front, keeping its details;
/// inserts `fallback` there when no candidate has that text.
pub fn promote_composing_candidate(candidates: &mut Vec<Candidate>, text: &str, fallback: Candidate)
    ensures
        final(candidates)@ == promoted(old(candidates)@, text@, fallback),
{
    match find_text(candidates, text) {
        Some(i) => {
            let c = candidates.remove(i);
            candidates.insert(0, c);
            proof {
                let s = old(candidates)@;
                assert(has_text(s, text@));
                let k = first_with_text(s, text@).unwrap();
                assert(k == i as int) by {
                    if k < i {
                        assert(s[k].text@ != text@);
                    } else if k > i {
                        assert(s[i as int].text@ != text@);
                    }
                }
                assert(final(candidates)@ =~= seq![s[i as int]] + s.remove(i as int));
            }
        },
        None => {
            candidates.insert(0, fallback);
            assert(final(candidates)@ =~= seq![fallback] + old(candidates)@);
        },
    }
}

/// Punctuation that may follow a single typed hiragana without hiding it.
pub open spec fn is_trailing_mark(c: char) -> bool {
    c == '、' || c == '。' || c == '〜' || c == '～'
}

/// A reading that is one hiragana letter, possibly followed by
/// punctuation, typed in hiragana mode: the hiragana itself comes first.
pub open spec fn single_hiragana(mode: InputMode, reading: Seq<char>) -> bool {
    &&& mode == InputMode::Hiragana
    &&& reading.len() > 0
    &&& is_hiragana_letter(reading[0])
    &&& forall|i: int| 1 <= i < reading.len() ==> is_trailing_mark(#[trigger] reading[i])
}

/// Whether `reading` is a single hiragana to keep first (see
/// [`single_hiragana`]).
pub fn should_prioritize_single_hiragana(mode: InputMode, reading: &str) -> (b: bool)
    ensures
        b == single_hiragana(mode, reading@),
{
    if mode != InputMode::Hiragana {
        return false;
    }
    let chars = chars_of(reading);
    if chars.len() == 0 {
        return false;
    }
    let v = chars[0] as u32;
    if !(0x3041 <= v && v <= 0x3096) {
        return false;
    }
    let mut i: usize = 1;
    while i < chars.len()
        invariant
            1 <= i <= chars@.len(),
            chars@ == reading@,
            forall|j: int| 1 <= j < i ==> is_trailing_mark(#[trigger] chars@[j]),
        decreases chars@.len() - i,
    {
        let c = chars[i];
        if !(c == '、' || c == '。' || c == '〜' || c == '～') {
            return false;
        }
        i += 1;
    }
    true
}

/// The first position of `t` in `ts` (meaningful when `ts` holds it).
pub open spec fn first_index(ts: Seq<Seq<char>>, t: Seq<char>) -> int {
    choose|i: int| 0 <= i < ts.len() && ts[i] == t && forall|j: int| 0 <= j < i ==> ts[j] != t
}

/// `ts` with its first `t` moved to the front, or with `t` put in front
/// when it holds none.
pub open spec fn promoted_texts(ts: Seq<Seq<char>>, t: Seq<char>) -> Seq<Seq<char>> {
    if ts.contains(t) { seq![t] + ts.remove(first_index(ts, t)) } else { seq![t] + ts }
}

/// Moving a candidate to the front moves its text to the front.
pub proof fn lemma_promoted_texts(s: Seq<Candidate>, t: Seq<char>, fallback: Candidate)
    requires
        fallback.text@ == t,
    ensures
        texts(promoted(s, t, fallback)) == promoted_texts(texts(s), t),
{
    let ts = texts(s);
    if has_text(s, t) {
        lemma_first_with_text(s, t);
        let i = choose|i: int| 0 <= i < s.len() && s[i].text@ == t && forall|j: int| 0 <= j < i ==> (#[trigger] s[j]).text@ != t;
        assert(ts[i] == t);
        assert(ts.contains(t));
        assert(forall|j: int| 0 <= j < i ==> ts[j] != t);
        let k = first_index(ts, t);
        assert(0 <= k < ts.len() && ts[k] == t && forall|j: int| 0 <= j < k ==> ts[j] != t);
        assert(k == i) by {
            if k < i {
                assert(s[k].text@ == ts[k]);
            } else if i < k {
                assert(ts[i] == t);
            }
        }
        assert(texts(seq![s[i]] + s.remove(i)) =~= seq![t] + ts.remove(i));
    } else {
        assert(!ts.contains(t)) by {
            if ts.contains(t) {
                let k = choose|k: int| 0 <= k < ts.len() && ts[k] == t;
                assert(s[k].text@ == t);
            }
        }
        assert(texts(seq![fallback] + s) =~= seq![t] + ts);
    }
}

/// `target` followed by the texts of `source` it does not hold yet, in
/// order.
pub open spec fn append_dedup_texts(target: Seq<Seq<char>>, source: Seq<Seq<char>>) -> Seq<Seq<char>>
    decreases source.len(),
{
    if source.len() == 0 {
        target
    } else {
        let before = append_dedup_texts(target, source.drop_last());
        if before.contains(source.last()) { before } else { before.push(source.last()) }
    }
}

/// Appending candidates without repeating a text appends their texts so.
pub proof fn lemma_append_dedup_texts(target: Seq<Candidate>, source: Seq<Candidate>)
    ensures
        texts(append_dedup(target, source)) == append_dedup_texts(texts(target), texts(source)),
    decreases source.len(),
{
    if source.len() > 0 {
        lemma_append_dedup_texts(target, source.drop_last());
        let before = append_dedup(target, source.drop_last());
        assert(texts(source).drop_last() =~= texts(source.drop_last()));
        assert(texts(source).last() == source.last().text@);
        let t = source.last().text@;
        assert(has_text(before, t) == texts(before).contains(t)) by {
            if has_text(before, t) {
                let i = choose|i: int| 0 <= i < before.len() && (#[trigger] before[i]).text@ == t;
                assert(texts(before)[i] == t);
            }
            if texts(before).contains(t) {
                let i = choose|i: int| 0 <= i < texts(before).len() && texts(before)[i] == t;
                assert(before[i].text@ == t);
            }
        }
        assert(texts(before.push(source.last())) =~= texts(before).push(t));
    } else {
        assert(texts(source) =~= Seq::<Seq<char>>::empty());
    }
}

/// Keeps a single typed hiragana first (see [`single_hiragana`]): the
/// candidate with that text moves to the front, or a plain one is added.
pub fn prioritize_single_hiragana_candidate(mode: InputMode, reading: &str, candidates: &mut Vec<Candidate>)
    ensures
        single_hiragana(mode, reading@) ==> texts(final(candidates)@) == promoted_texts(texts(old(candidates)@), reading@),
        single_hiragana(mode, reading@) ==> final(candidates)@.len() > 0 && final(candidates)@[0].text@ == reading@,
        !single_hiragana(mode, reading@) ==> final(candidates)@ == old(candidates)@,
{
    if !should_prioritize_single_hiragana(mode, reading) {
        return;
    }
    let fallback = Candidate::with_reading(reading, reading);
    let ghost fb = fallback;
    promote_composing_candidate(candidates, reading, fallback);
    proof {
        lemma_promoted_texts(old(candidates)@, reading@, fb);
        let s = old(candidates)@;
        match first_with_text(s, reading@) {
            Some(i) => {
                lemma_first_with_text(s, reading@);
                assert(final(candidates)@[0] == s[i]);
            },
            None => {
                assert(final(candidates)@[0] == fb);
            },
        }
    }
}

/// A character of a kana-only surface: hiragana, full-width katakana or
/// half-width katakana.
pub open spec fn is_kana_form_char(c: char) -> bool {
    (0x3041 <= c as u32 && c as u32 <= 0x30FF) || (0xFF66 <= c as u32 && c as u32 <= 0xFF9F)
}

/// A non-empty text of kana only.
pub open spec fn kana_only(t: Seq<char>) -> bool {
    t.len() > 0 && forall|i: int| 0 <= i < t.len() ==> is_kana_form_char(#[trigger] t[i])
}

/// Whether the whole-candidate rules drop a candidate text: the plain
/// hiragana reading, and kana-only spellings other than the katakana
/// reading (also the katakana reading itself for a short reading, whose
/// list gives it a slot of its own).
pub open spec fn dropped_text(t: Seq<char>, hira: Seq<char>, kata: Seq<char>, short: bool) -> bool {
    t == hira || (kana_only(t) && (short || t != kata)) || (short && t == kata)
}

/// `s` without the candidates whose text the rules drop.
pub open spec fn kept_candidates(s: Seq<Candidate>, hira: Seq<char>, kata: Seq<char>, short: bool) -> Seq<Candidate>
    decreases s.len(),
{
    if s.len() == 0 {
        s
    } else {
        let rest = kept_candidates(s.drop_last(), hira, kata, short);
        if dropped_text(s.last().text@, hira, kata, short) { rest } else { rest.push(s.last()) }
    }
}

/// At most the first `n` items.
pub open spec fn at_most<T>(s: Seq<T>, n: nat) -> Seq<T> {
    if s.len() > n { s.take(n as int) } else { s }
}

/// The texts of `ts` the rules keep.
pub open spec fn kept_texts(ts: Seq<Seq<char>>, hira: Seq<char>, kata: Seq<char>, short: bool) -> Seq<Seq<char>>
    decreases ts.len(),
{
    if ts.len() == 0 {
        ts
    } else {
        let rest = kept_texts(ts.drop_last(), hira, kata, short);
        if dropped_text(ts.last(), hira, kata, short) { rest } else { rest.push(ts.last()) }
    }
}

proof fn lemma_kept_texts(s: Seq<Candidate>, hira: Seq<char>, kata: Seq<char>, short: bool)
    ensures
        texts(kept_candidates(s, hira, kata, short)) == kept_texts(texts(s), hira, kata, short),
    decreases s.len(),
{
    if s.len() > 0 {
        lemma_kept_texts(s.drop_last(), hira, kata, short);
        assert(texts(s).drop_last() =~= texts(s.drop_last()));
        let rest = kept_candidates(s.drop_last(), hira, kata, short);
        assert(texts(rest.push(s.last())) =~= texts(rest).push(s.last().text@));
    } else {
        assert(texts(s) =~= Seq::<Seq<char>>::empty());
    }
}

/// The final whole-reading candidate texts for `reading` (hiragana mode,
/// with kana) made from the texts `ts`. Kana-only spellings other than
/// the readings are dropped. A short reading puts a leading text first (the
/// first one kept, unless `ts` began with the hiragana or katakana
/// reading), then the hiragana reading, then its katakana unless the
/// single-hiragana rule applies, then the rest, at most five in all. A
/// longer reading drops the plain hiragana and keeps at most three.
pub open spec fn finalized_texts(mode: InputMode, reading: Seq<char>, ts: Seq<Seq<char>>) -> Seq<Seq<char>> {
    let hira = reading;
    let kata = crate::engine::katakana_seq(reading);
    if reading.len() <= SHORT_READING_LEN {
        let kept = kept_texts(ts, hira, kata, true);
        let has_lead = ts.len() > 0 && ts[0] != hira && ts[0] != kata && kept.len() > 0;
        let lead = if has_lead { seq![kept[0]] } else { Seq::empty() };
        let rest = if has_lead { kept.skip(1) } else { kept };
        at_most(lead + seq![hira] + (if single_hiragana(mode, reading) { Seq::empty() } else { seq![kata] }) + rest,
            SHORT_LIVE_CANDIDATE_LIMIT as nat)
    } else {
        at_most(kept_texts(ts, hira, kata, false), WHOLE_CANDIDATE_LIMIT as nat)
    }
}

/// The composing suggestion texts for `reading` made from the texts `ts`:
/// the live text first when there is one, a single hiragana first, then
/// the whole-candidate rules.
pub open spec fn ranked_suggestions(mode: InputMode, reading: Seq<char>, live: Seq<char>, ts: Seq<Seq<char>>) -> Seq<Seq<char>> {
    let a = if live.len() > 0 { promoted_texts(ts, live) } else { ts };
    let b = if single_hiragana(mode, reading) { promoted_texts(a, reading) } else { a };
    if finalizes(mode, reading) { finalized_texts(mode, reading, b) } else { b }
}

/// Whether the whole-candidate rules apply: hiragana mode and a reading
/// with kana.
pub open spec fn finalizes(mode: InputMode, reading: Seq<char>) -> bool {
    mode == InputMode::Hiragana && exists|i: int| 0 <= i < reading.len() && crate::kana::is_kana_char(#[trigger] reading[i])
}

/// Whether `t` is a non-empty text of kana only.
fn is_kana_only(t: &str) -> (b: bool)
    ensures
        b == kana_only(t@),
{
    let chars = chars_of(t);
    if chars.len() == 0 {
        return false;
    }
    let mut i: usize = 0;
    while i < chars.len()
        invariant
            chars@ == t@,
            i <= chars@.len(),
            forall|j: int| 0 <= j < i ==> is_kana_form_char(#[trigger] t@[j]),
        decreases chars@.len() - i,
    {
        let v = chars[i] as u32;
        if !((0x3041 <= v && v <= 0x30FF) || (0xFF66 <= v && v <= 0xFF9F)) {
            return false;
        }
        i += 1;
    }
    true
}

/// The candidates of `s` the rules keep.
fn keep_candidates(s: &Vec<Candidate>, hira: &str, kata: &str, short: bool) -> (out: Vec<Candidate>)
    ensures
        out@ == kept_candidates(s@, hira@, kata@, short),
{
    let mut out: Vec<Candidate> = Vec::new();
    let mut i: usize = 0;
    while i < s.len()
        invariant
            i <= s@.len(),
            out@ == kept_candidates(s@.take(i as int), hira@, kata@, short),
        decreases s@.len() - i,
    {
        assert(s@.take(i + 1).drop_last() =~= s@.take(i as int));
        let c = &s[i];
        let t = c.text.as_str();
        let is_hira = str_eq(t, hira);
        let is_kata = str_eq(t, kata);
        let drop = is_hira || (is_kana_only(t) && (short || !is_kata)) || (short && is_kata);
        if !drop {
            out.push(c.duplicate());
        }
        i += 1;
    }
    assert(s@.take(i as int) =~= s@);
    out
}

fn truncate_to(v: &mut Vec<Candidate>, n: usize)
    ensures
        final(v)@ == at_most(old(v)@, n as nat),
{
    if v.len() > n {
        v.truncate(n);
        assert(final(v)@ =~= old(v)@.take(n as int));
    }
}

/// A candidate for `text` read as `reading`, described as `description`.
fn described(text: &str, reading: &str, description: &str) -> (c: Candidate)
    ensures
        c.text@ == text@,
        crate::text::opt_view(c.reading) == Some(reading@),
        crate::text::opt_view(c.description) == Some(description@),
        c.source_label is None,
{
    let mut c = Candidate::with_reading(text, reading);
    c.description = Some(copy_str(description));
    c
}

/// Applies the whole-candidate rules (see [`finalized_texts`]) in hiragana
/// mode to a reading with kana; other lists stay as they are. The
/// dedicated hiragana and katakana candidates are described
/// `[全]ひらがな` and `[全]カタカナ`.
pub fn finalize_whole_candidates(mode: InputMode, reading: &str, candidates: &mut Vec<Candidate>)
    ensures
        finalizes(mode, reading@) ==> texts(final(candidates)@) == finalized_texts(mode, reading@, texts(old(candidates)@)),
        !finalizes(mode, reading@) ==> final(candidates)@ == old(candidates)@,
{
    if mode != InputMode::Hiragana || !crate::kana::contains_kana(reading) {
        return;
    }
    let ghost s = candidates@;
    let kata = hiragana_to_katakana(reading);
    let n = chars_of(reading).len();
    if n <= SHORT_READING_LEN {
        let kept = keep_candidates(candidates, reading, kata.as_str(), true);
        proof {
            lemma_kept_texts(s, reading@, kata@, true);
        }
        let lead = candidates.len() > 0 && !str_eq(candidates[0].text.as_str(), reading)
            && !str_eq(candidates[0].text.as_str(), kata.as_str()) && kept.len() > 0;
        let from: usize = if lead { 1 } else { 0 };
        let mut out: Vec<Candidate> = Vec::new();
        if lead {
            out.push(kept[0].duplicate());
        }
        out.push(described(reading, reading, "[全]ひらがな"));
        let single = should_prioritize_single_hiragana(mode, reading);
        if !single {
            out.push(described(kata.as_str(), reading, "[全]カタカナ"));
        }
        let ghost head = out@;
        let mut i: usize = from;
        while i < kept.len()
            invariant
                from <= i <= kept@.len(),
                out@ == head + kept@.subrange(from as int, i as int),
            decreases kept@.len() - i,
        {
            out.push(kept[i].duplicate());
            assert(kept@.subrange(from as int, i + 1) =~= kept@.subrange(from as int, i as int).push(kept@[i as int]));
            i += 1;
        }
        proof {
            let rest = if lead { kept@.skip(1) } else { kept@ };
            assert(kept@.subrange(from as int, i as int) =~= rest);
            let lead_t: Seq<Seq<char>> = if lead { seq![kept@[0].text@] } else { Seq::empty() };
            assert(texts(rest) =~= (if lead { texts(kept@).skip(1) } else { texts(kept@) }));
            assert(texts(head) =~= lead_t + seq![reading@] + (if single { Seq::<Seq<char>>::empty() } else { seq![kata@] }));
            assert(texts(out@) =~= texts(head) + texts(rest));
        }
        truncate_to(&mut out, SHORT_LIVE_CANDIDATE_LIMIT);
        proof {
            assert(texts(at_most(out@, 5)) =~= at_most(texts(out@), 5)) by {
                if out@.len() > 5 {
                    assert(texts(out@.take(5)) =~= texts(out@).take(5));
                }
            }
        }
        *candidates = out;
    } else {
        let mut out = keep_candidates(candidates, reading, kata.as_str(), false);
        proof {
            lemma_kept_texts(s, reading@, kata@, false);
        }
        let ghost full = out@;
        truncate_to(&mut out, WHOLE_CANDIDATE_LIMIT);
        proof {
            if full.len() > 3 {
                assert(texts(full.take(3)) =~= texts(full).take(3));
            }
        }
        *candidates = out;
    }
}

} // verus!

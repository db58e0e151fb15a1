//! Hiragana / katakana conversion and script classification.
use unicode_normalization::UnicodeNormalization;
use vstd::prelude::*;

use crate::text::{char_from_u32, chars_of, push_char, push_chars};

verus! {

broadcast use vstd::utf8::char_u32_cast;

/// Full-width katakana that have a hiragana counterpart (ァ..ヶ).
pub open spec fn is_convertible_katakana(c: char) -> bool {
    0x30A1 <= c as u32 && c as u32 <= 0x30F6
}

/// Hiragana letters (ぁ..ゖ).
pub open spec fn is_hiragana_letter(c: char) -> bool {
    0x3041 <= c as u32 && c as u32 <= 0x3096
}

/// The hiragana counterpart of a katakana letter; other characters unchanged.
pub open spec fn kata_to_hira_char(c: char) -> char {
    if is_convertible_katakana(c) {
        ((c as u32 - 0x60) as u32) as char
    } else {
        c
    }
}

/// The katakana counterpart of a hiragana letter; other characters unchanged.
pub open spec fn hira_to_kata_char(c: char) -> char {
    if is_hiragana_letter(c) {
        ((c as u32 + 0x60) as u32) as char
    } else {
        c
    }
}

/// Characters that count as hiragana text (ぁ..ゟ and the prolonged sound mark).
pub open spec fn is_hiragana_text_char(c: char) -> bool {
    (0x3041 <= c as u32 && c as u32 <= 0x309F) || c as u32 == 0x30FC
}

/// Characters that count as full-width katakana text (ァ..ヿ).
pub open spec fn is_katakana_text_char(c: char) -> bool {
    0x30A1 <= c as u32 && c as u32 <= 0x30FF
}

/// Characters that count as kana for the purpose of conversion.
pub open spec fn is_kana_char(c: char) -> bool {
    is_hiragana_letter(c) || (0x30A1 <= c as u32 && c as u32 <= 0x30FA)
}

/// Code point of the half-width form of a hiragana letter, and which sound
/// mark follows it (0: none, 1: voiced ﾞ, 2: semi-voiced ﾟ).
pub open spec fn half_kana_parts(h: int) -> (int, int) {
    let o = h - 0x3041;
    if o < 0 || o > 0x55 {
        (-1, 0)
    } else if o <= 0x09 {
        if o % 2 == 0 { (0xFF67 + o / 2, 0) } else { (0xFF71 + o / 2, 0) }
    } else if o <= 0x13 {
        (0xFF76 + (o - 0x0A) / 2, (o - 0x0A) % 2)
    } else if o <= 0x1D {
        (0xFF7B + (o - 0x14) / 2, (o - 0x14) % 2)
    } else if o <= 0x21 {
        (0xFF80 + (o - 0x1E) / 2, (o - 0x1E) % 2)
    } else if o == 0x22 {
        (0xFF6F, 0)
    } else if o <= 0x28 {
        (0xFF82 + (o - 0x23) / 2, (o - 0x23) % 2)
    } else if o <= 0x2D {
        (0xFF85 + (o - 0x29), 0)
    } else if o <= 0x3C {
        (0xFF8A + (o - 0x2E) / 3, (o - 0x2E) % 3)
    } else if o <= 0x41 {
        (0xFF8F + (o - 0x3D), 0)
    } else if o <= 0x47 {
        if o % 2 == 0 { (0xFF6C + (o - 0x42) / 2, 0) } else { (0xFF94 + (o - 0x43) / 2, 0) }
    } else if o <= 0x4C {
        (0xFF97 + (o - 0x48), 0)
    } else if o <= 0x4E {
        (0xFF9C, 0)
    } else if o == 0x4F {
        (0xFF72, 0)
    } else if o == 0x50 {
        (0xFF74, 0)
    } else if o == 0x51 {
        (0xFF66, 0)
    } else if o == 0x52 {
        (0xFF9D, 0)
    } else if o == 0x53 {
        (0xFF73, 1)
    } else if o == 0x54 {
        (0xFF76, 0)
    } else {
        (0xFF79, 0)
    }
}

/// Half-width punctuation counterpart (0 when there is none).
pub open spec fn half_punct(c: int) -> int {
    if c == 0x3001 {
        0xFF64
    } else if c == 0x3002 {
        0xFF61
    } else if c == 0x300C {
        0xFF62
    } else if c == 0x300D {
        0xFF63
    } else if c == 0x30FB {
        0xFF65
    } else if c == 0x30FC {
        0xFF70
    } else {
        0
    }
}

/// The half-width katakana spelling of one character.
pub open spec fn half_kana_char(c: char) -> Seq<char> {
    let h = kata_to_hira_char(c) as int;
    let (base, mark) = half_kana_parts(h);
    if base >= 0 {
        if mark == 1 {
            seq![(base as u32) as char, 0xFF9Eu32 as char]
        } else if mark == 2 {
            seq![(base as u32) as char, 0xFF9Fu32 as char]
        } else {
            seq![(base as u32) as char]
        }
    } else if half_punct(c as int) != 0 {
        seq![(half_punct(c as int) as u32) as char]
    } else {
        seq![c]
    }
}

/// Half-width katakana spelling of a whole text.
pub open spec fn half_kana_seq(s: Seq<char>) -> Seq<char>
    decreases s.len(),
{
    if s.len() == 0 {
        Seq::empty()
    } else {
        half_kana_seq(s.drop_last()) + half_kana_char(s.last())
    }
}

/// Replace every katakana letter (ァ..ヶ) with its hiragana counterpart.
pub fn katakana_to_hiragana(text: &str) -> (out: String)
    ensures
        out@ == text@.map_values(|c: char| kata_to_hira_char(c)),
{
    let chars = chars_of(text);
    let mut out = String::new();
    let mut i: usize = 0;
    while i < chars.len()
        invariant
            chars@ == text@,
            i <= chars@.len(),
            out@ == chars@.take(i as int).map_values(|c: char| kata_to_hira_char(c)),
        decreases chars@.len() - i,
    {
        let c = chars[i];
        let v = c as u32;
        let mapped = if 0x30A1 <= v && v <= 0x30F6 {
            match char_from_u32(v - 0x60) {
                Some(h) => {
                    proof {
                        vstd::utf8::char_u32_cast(h, (v - 0x60) as u32);
                    }
                    h
                },
                None => c,
            }
        } else {
            c
        };
        push_char(&mut out, mapped);
        assert(chars@.take(i + 1).map_values(|c: char| kata_to_hira_char(c)) =~= chars@.take(
            i as int,
        ).map_values(|c: char| kata_to_hira_char(c)).push(kata_to_hira_char(c)));
        i += 1;
    }
    assert(chars@.take(chars@.len() as int) =~= chars@);
    out
}

/// Replace every hiragana letter (ぁ..ゖ) with its katakana counterpart.
pub fn hiragana_to_katakana(text: &str) -> (out: String)
    ensures
        out@ == text@.map_values(|c: char| hira_to_kata_char(c)),
{
    let chars = chars_of(text);
    let mut out = String::new();
    let mut i: usize = 0;
    while i < chars.len()
        invariant
            chars@ == text@,
            i <= chars@.len(),
            out@ == chars@.take(i as int).map_values(|c: char| hira_to_kata_char(c)),
        decreases chars@.len() - i,
    {
        let c = chars[i];
        let v = c as u32;
        let mapped = if 0x3041 <= v && v <= 0x3096 {
            match char_from_u32(v + 0x60) {
                Some(k) => {
                    proof {
                        vstd::utf8::char_u32_cast(k, (v + 0x60) as u32);
                    }
                    k
                },
                None => c,
            }
        } else {
            c
        };
        push_char(&mut out, mapped);
        assert(chars@.take(i + 1).map_values(|c: char| hira_to_kata_char(c)) =~= chars@.take(
            i as int,
        ).map_values(|c: char| hira_to_kata_char(c)).push(hira_to_kata_char(c)));
        i += 1;
    }
    assert(chars@.take(chars@.len() as int) =~= chars@);
    out
}

fn half_kana_parts_exec(h: u32) -> (r: (u32, u32))
    ensures
        half_kana_parts(h as int).0 >= 0 ==> r.0 as int == half_kana_parts(h as int).0 && r.1
            as int == half_kana_parts(h as int).1,
        half_kana_parts(h as int).0 < 0 ==> r.0 == 0,
{
    if h < 0x3041 || h > 0x3041 + 0x55 {
        return (0, 0);
    }
    let o = h - 0x3041;
    if o <= 0x09 {
        if o % 2 == 0 { (0xFF67 + o / 2, 0) } else { (0xFF71 + o / 2, 0) }
    } else if o <= 0x13 {
        (0xFF76 + (o - 0x0A) / 2, (o - 0x0A) % 2)
    } else if o <= 0x1D {
        (0xFF7B + (o - 0x14) / 2, (o - 0x14) % 2)
    } else if o <= 0x21 {
        (0xFF80 + (o - 0x1E) / 2, (o - 0x1E) % 2)
    } else if o == 0x22 {
        (0xFF6F, 0)
    } else if o <= 0x28 {
        (0xFF82 + (o - 0x23) / 2, (o - 0x23) % 2)
    } else if o <= 0x2D {
        (0xFF85 + (o - 0x29), 0)
    } else if o <= 0x3C {
        (0xFF8A + (o - 0x2E) / 3, (o - 0x2E) % 3)
    } else if o <= 0x41 {
        (0xFF8F + (o - 0x3D), 0)
    } else if o <= 0x47 {
        if o % 2 == 0 { (0xFF6C + (o - 0x42) / 2, 0) } else { (0xFF94 + (o - 0x43) / 2, 0) }
    } else if o <= 0x4C {
        (0xFF97 + (o - 0x48), 0)
    } else if o <= 0x4E {
        (0xFF9C, 0)
    } else if o == 0x4F {
        (0xFF72, 0)
    } else if o == 0x50 {
        (0xFF74, 0)
    } else if o == 0x51 {
        (0xFF66, 0)
    } else if o == 0x52 {
        (0xFF9D, 0)
    } else if o == 0x53 {
        (0xFF73, 1)
    } else if o == 0x54 {
        (0xFF76, 0)
    } else {
        (0xFF79, 0)
    }
}

fn half_punct_exec(c: u32) -> (r: u32)
    ensures
        r as int == half_punct(c as int),
{
    if c == 0x3001 {
        0xFF64
    } else if c == 0x3002 {
        0xFF61
    } else if c == 0x300C {
        0xFF62
    } else if c == 0x300D {
        0xFF63
    } else if c == 0x30FB {
        0xFF65
    } else if c == 0x30FC {
        0xFF70
    } else {
        0
    }
}

/// The half-width spelling of one character.
fn half_kana_char_exec(c: char) -> (out: Vec<char>)
    ensures
        out@ == half_kana_char(c),
{
    let v = c as u32;
    let h = if 0x30A1 <= v && v <= 0x30F6 { v - 0x60 } else { v };
    assert(h as int == kata_to_hira_char(c) as int);
    let (base, mark) = half_kana_parts_exec(h);
    let mut out: Vec<char> = Vec::new();
    if base != 0 {
        assert(half_kana_parts(h as int).0 >= 0) by {
            if half_kana_parts(h as int).0 < 0 {
                assert(base == 0);
            }
        }
        let b = char_from_u32(base);
        match b {
            Some(bc) => {
                proof {
                    vstd::utf8::char_u32_cast(bc, base);
                }
                out.push(bc);
            },
            None => {
                assert(false);
            },
        }
        proof {
            vstd::utf8::char_u32_cast('\u{FF9E}', 0xFF9Eu32);
            vstd::utf8::char_u32_cast('\u{FF9F}', 0xFF9Fu32);
        }
        if mark == 1 {
            out.push('\u{FF9E}');
        } else if mark == 2 {
            out.push('\u{FF9F}');
        }
        proof {
            assert(out@ =~= half_kana_char(c));
        }
        return out;
    }
    let p = half_punct_exec(v);
    if p != 0 {
        match char_from_u32(p) {
            Some(pc) => {
                proof {
                    vstd::utf8::char_u32_cast(pc, p);
                }
                out.push(pc);
            },
            None => {
                assert(false);
            },
        }
    } else {
        out.push(c);
    }
    proof {
        assert(out@ =~= half_kana_char(c));
    }
    out
}

/// Spell text in half-width katakana (`がっこう` → `ｶﾞｯｺｳ`). Hiragana and
/// full-width katakana are converted, with voiced and semi-voiced letters
/// split into a base letter and a sound mark; other characters are kept.
pub fn hiragana_to_half_katakana(text: &str) -> (out: String)
    ensures
        out@ == half_kana_seq(text@),
{
    let chars = chars_of(text);
    let mut out = String::new();
    let mut i: usize = 0;
    while i < chars.len()
        invariant
            chars@ == text@,
            i <= chars@.len(),
            out@ == half_kana_seq(chars@.take(i as int)),
        decreases chars@.len() - i,
    {
        let part = half_kana_char_exec(chars[i]);
        push_chars(&mut out, part.as_slice());
        assert(chars@.take(i + 1).drop_last() =~= chars@.take(i as int));
        i += 1;
    }
    assert(chars@.take(chars@.len() as int) =~= chars@);
    out
}

/// Half-width spelling works character by character: the spelling of two
/// texts joined is the two spellings joined.
pub proof fn lemma_half_kana_concat(a: Seq<char>, b: Seq<char>)
    ensures
        half_kana_seq(a + b) == half_kana_seq(a) + half_kana_seq(b),
    decreases b.len(),
{
    if b.len() == 0 {
        assert(a + b =~= a);
        assert(half_kana_seq(a) + half_kana_seq(b) =~= half_kana_seq(a));
    } else {
        lemma_half_kana_concat(a, b.drop_last());
        assert((a + b).drop_last() =~= a + b.drop_last());
        assert((a + b).last() == b.last());
        assert(half_kana_seq(a + b) =~= half_kana_seq(a) + half_kana_seq(b));
    }
}

/// Voiced and semi-voiced letters, hiragana or full-width katakana, are
/// spelled as their base letter followed by a sound mark: ﾟ (U+FF9F) after
/// ぱ ぴ ぷ ぺ ぽ, ﾞ (U+FF9E) after ば..ぼ, が..ご, ざ..ぞ, だ ぢ, づ で ど and
/// ゔ; the plain は..ほ take no mark. Stated by code point, with `k` the
/// letter's place in its row.
pub proof fn lemma_half_kana_sound_marks(c: char, k: int)
    ensures
        0 <= k < 5 && (c as u32 == 0x3071 + 3 * k || c as u32 == 0x30D1 + 3 * k) ==> {
            &&& half_kana_seq(seq![c]).len() == 2
            &&& half_kana_seq(seq![c])[0] as u32 == 0xFF8A + k
            &&& half_kana_seq(seq![c])[1] as u32 == 0xFF9F
        },
        0 <= k < 5 && (c as u32 == 0x3070 + 3 * k || c as u32 == 0x30D0 + 3 * k) ==> {
            &&& half_kana_seq(seq![c]).len() == 2
            &&& half_kana_seq(seq![c])[0] as u32 == 0xFF8A + k
            &&& half_kana_seq(seq![c])[1] as u32 == 0xFF9E
        },
        0 <= k < 5 && (c as u32 == 0x306F + 3 * k || c as u32 == 0x30CF + 3 * k) ==> {
            &&& half_kana_seq(seq![c]).len() == 1
            &&& half_kana_seq(seq![c])[0] as u32 == 0xFF8A + k
        },
        0 <= k < 5 && (c as u32 == 0x304C + 2 * k || c as u32 == 0x30AC + 2 * k) ==> {
            &&& half_kana_seq(seq![c]).len() == 2
            &&& half_kana_seq(seq![c])[0] as u32 == 0xFF76 + k
            &&& half_kana_seq(seq![c])[1] as u32 == 0xFF9E
        },
        0 <= k < 5 && (c as u32 == 0x3056 + 2 * k || c as u32 == 0x30B6 + 2 * k) ==> {
            &&& half_kana_seq(seq![c]).len() == 2
            &&& half_kana_seq(seq![c])[0] as u32 == 0xFF7B + k
            &&& half_kana_seq(seq![c])[1] as u32 == 0xFF9E
        },
        0 <= k < 2 && (c as u32 == 0x3060 + 2 * k || c as u32 == 0x30C0 + 2 * k) ==> {
            &&& half_kana_seq(seq![c]).len() == 2
            &&& half_kana_seq(seq![c])[0] as u32 == 0xFF80 + k
            &&& half_kana_seq(seq![c])[1] as u32 == 0xFF9E
        },
        0 <= k < 3 && (c as u32 == 0x3065 + 2 * k || c as u32 == 0x30C5 + 2 * k) ==> {
            &&& half_kana_seq(seq![c]).len() == 2
            &&& half_kana_seq(seq![c])[0] as u32 == 0xFF82 + k
            &&& half_kana_seq(seq![c])[1] as u32 == 0xFF9E
        },
        c as u32 == 0x3094 || c as u32 == 0x30F4 ==> {
            &&& half_kana_seq(seq![c]).len() == 2
            &&& half_kana_seq(seq![c])[0] as u32 == 0xFF73
            &&& half_kana_seq(seq![c])[1] as u32 == 0xFF9E
        },
{
    assert(seq![c].drop_last() =~= Seq::<char>::empty());
    assert(seq![c].last() == c);
    assert(half_kana_seq(Seq::<char>::empty()) =~= Seq::<char>::empty());
    assert(half_kana_seq(seq![c]) =~= half_kana_char(c));
    let h = kata_to_hira_char(c) as int;
    assert(h == if 0x30A1 <= c as u32 <= 0x30F6 { c as u32 - 0x60 } else { c as u32 as int });
    assert((0xFF9Eu32 as char) as u32 == 0xFF9E);
    assert((0xFF9Fu32 as char) as u32 == 0xFF9F);
    let parts = half_kana_parts(h);
    if 0 <= parts.0 {
        assert(0xFF61 <= parts.0 <= 0xFF9F);
        assert(((parts.0 as u32) as char) as u32 == parts.0);
    }
}

/// Non-empty and made only of hiragana (and the prolonged sound mark).
pub fn is_pure_hiragana(text: &str) -> (r: bool)
    ensures
        r == (text@.len() > 0 && forall|i: int|
            0 <= i < text@.len() ==> is_hiragana_text_char(#[trigger] text@[i])),
{
    let chars = chars_of(text);
    if chars.len() == 0 {
        return false;
    }
    let mut i: usize = 0;
    while i < chars.len()
        invariant
            chars@ == text@,
            i <= chars@.len(),
            forall|j: int| 0 <= j < i ==> is_hiragana_text_char(#[trigger] chars@[j]),
        decreases chars@.len() - i,
    {
        let v = chars[i] as u32;
        if !((0x3041 <= v && v <= 0x309F) || v == 0x30FC) {
            return false;
        }
        i += 1;
    }
    true
}

/// Non-empty and made only of full-width katakana (ァ..ヿ).
pub fn is_pure_full_katakana(text: &str) -> (r: bool)
    ensures
        r == (text@.len() > 0 && forall|i: int|
            0 <= i < text@.len() ==> is_katakana_text_char(#[trigger] text@[i])),
{
    let chars = chars_of(text);
    if chars.len() == 0 {
        return false;
    }
    let mut i: usize = 0;
    while i < chars.len()
        invariant
            chars@ == text@,
            i <= chars@.len(),
            forall|j: int| 0 <= j < i ==> is_katakana_text_char(#[trigger] chars@[j]),
        decreases chars@.len() - i,
    {
        let v = chars[i] as u32;
        if !(0x30A1 <= v && v <= 0x30FF) {
            return false;
        }
        i += 1;
    }
    true
}

/// Whether the text holds at least one hiragana or katakana letter.
pub fn contains_kana(text: &str) -> (r: bool)
    ensures
        r == (exists|i: int| 0 <= i < text@.len() && is_kana_char(#[trigger] text@[i])),
{
    let chars = chars_of(text);
    let mut i: usize = 0;
    while i < chars.len()
        invariant
            chars@ == text@,
            i <= chars@.len(),
            forall|j: int| 0 <= j < i ==> !is_kana_char(#[trigger] chars@[j]),
        decreases chars@.len() - i,
    {
        let v = chars[i] as u32;
        if (0x3041 <= v && v <= 0x3096) || (0x30A1 <= v && v <= 0x30FA) {
            assert(is_kana_char(chars@[i as int]));
            return true;
        }
        i += 1;
    }
    false
}

/// The Unicode NFKC normal form of a text. What it is for a given text is
/// fixed by the Unicode normalization tables, which the crate implements.
pub uninterp spec fn nfkc(s: Seq<char>) -> Seq<char>;

/// Unicode NFKC normalization (`UnicodeNormalization::nfkc` of the
/// `unicode-normalization` crate, collected into a string). The contract
/// claims only that the result is the NFKC form of the argument.
#[verifier::external_body]
pub fn normalize_nfkc(text: &str) -> (out: String)
    ensures
        out@ == nfkc(text@),
{
    text.nfkc().collect()
}

} // verus!

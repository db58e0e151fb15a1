//! Context-aware learning for explicitly corrected conversion segments, and
//! the tab-separated text form in which the learned entries are stored.
use vstd::prelude::*;

use crate::candidate::copy_opt;
use crate::key_order::{distinct, in_bounds, sort_positions, sorted_positions, text_keys, TextKey};
use crate::text::{chars_of, copy_str, opt_view, push_char, push_str, str_eq};

verus! {

// ---------------------------------------------------------------------------
// Escaping of field text
// ---------------------------------------------------------------------------

/// The escaped form of one character: backslash, tab, newline and carriage
/// return become two-character escapes; everything else stays.
pub open spec fn escape_char(c: char) -> Seq<char> {
    if c == '\\' {
        seq!['\\', '\\']
    } else if c == '\t' {
        seq!['\\', 't']
    } else if c == '\n' {
        seq!['\\', 'n']
    } else if c == '\r' {
        seq!['\\', 'r']
    } else {
        seq![c]
    }
}

/// The escaped form of a text, character by character.
pub open spec fn escape_seq(s: Seq<char>) -> Seq<char>
    decreases s.len(),
{
    if s.len() == 0 {
        Seq::empty()
    } else {
        escape_char(s[0]) + escape_seq(s.subrange(1, s.len() as int))
    }
}

/// Undoes [`escape_seq`]: a backslash followed by `t`, `n`, `r` or a
/// backslash stands for that character; any other backslash stays as it is.
pub open spec fn unescape_seq(s: Seq<char>) -> Seq<char>
    decreases s.len(),
{
    if s.len() == 0 {
        Seq::empty()
    } else if s[0] != '\\' {
        seq![s[0]] + unescape_seq(s.subrange(1, s.len() as int))
    } else if s.len() == 1 {
        seq!['\\']
    } else {
        let rest = unescape_seq(s.subrange(2, s.len() as int));
        if s[1] == 't' {
            seq!['\t'] + rest
        } else if s[1] == 'n' {
            seq!['\n'] + rest
        } else if s[1] == 'r' {
            seq!['\r'] + rest
        } else if s[1] == '\\' {
            seq!['\\'] + rest
        } else {
            seq!['\\', s[1]] + rest
        }
    }
}

/// Unescaping gives back exactly the text that was escaped.
pub proof fn lemma_unescape_escape(s: Seq<char>)
    ensures
        unescape_seq(escape_seq(s)) == s,
    decreases s.len(),
{
    if s.len() > 0 {
        let rest = s.subrange(1, s.len() as int);
        lemma_unescape_escape(rest);
        let e = escape_seq(s);
        let c = s[0];
        assert(e == escape_char(c) + escape_seq(rest));
        if c == '\\' || c == '\t' || c == '\n' || c == '\r' {
            assert(e.subrange(2, e.len() as int) =~= escape_seq(rest));
        } else {
            assert(e.subrange(1, e.len() as int) =~= escape_seq(rest));
        }
        assert(seq![c] + rest =~= s);
    } else {
        assert(escape_seq(s) =~= Seq::<char>::empty());
    }
}

/// An escaped text holds no tab, newline or carriage return.
pub proof fn lemma_escape_has_no_separators(s: Seq<char>)
    ensures
        !escape_seq(s).contains('\t'),
        !escape_seq(s).contains('\n'),
        !escape_seq(s).contains('\r'),
    decreases s.len(),
{
    if s.len() > 0 {
        lemma_escape_has_no_separators(s.subrange(1, s.len() as int));
        let a = escape_char(s[0]);
        let b = escape_seq(s.subrange(1, s.len() as int));
        assert forall|i: int| 0 <= i < (a + b).len() implies (a + b)[i] != '\t' && (a + b)[i] != '\n' && (a + b)[i] != '\r' by {
            if i >= a.len() {
                assert((a + b)[i] == b[i - a.len()]);
                assert(b.contains(b[i - a.len()]));
            }
        }
    }
}

/// Escapes backslash, tab, newline and carriage return in `value`.
pub fn escape(value: &str) -> (out: String)
    ensures
        out@ == escape_seq(value@),
{
    let chars = chars_of(value);
    let mut out = String::new();
    let mut i: usize = 0;
    assert(chars@.subrange(0, chars@.len() as int) =~= value@);
    assert(out@ + escape_seq(value@) =~= escape_seq(value@));
    while i < chars.len()
        invariant
            i <= chars@.len(),
            chars@ == value@,
            out@ + escape_seq(chars@.subrange(i as int, chars@.len() as int)) == escape_seq(value@),
        decreases chars@.len() - i,
    {
        let c = chars[i];
        let ghost rest = chars@.subrange(i as int, chars@.len() as int);
        assert(rest.subrange(1, rest.len() as int) =~= chars@.subrange(i + 1, chars@.len() as int));
        let ghost before = out@;
        if c == '\\' {
            push_char(&mut out, '\\');
            push_char(&mut out, '\\');
        } else if c == '\t' {
            push_char(&mut out, '\\');
            push_char(&mut out, 't');
        } else if c == '\n' {
            push_char(&mut out, '\\');
            push_char(&mut out, 'n');
        } else if c == '\r' {
            push_char(&mut out, '\\');
            push_char(&mut out, 'r');
        } else {
            push_char(&mut out, c);
        }
        assert(out@ =~= before + escape_char(c));
        assert(before + escape_seq(rest) =~= out@ + escape_seq(chars@.subrange(i + 1, chars@.len() as int)));
        i += 1;
    }
    assert(escape_seq(chars@.subrange(i as int, chars@.len() as int)) =~= Seq::<char>::empty());
    assert(out@ + Seq::<char>::empty() =~= out@);
    out
}

/// Undoes [`escape`]; a backslash before any other character, or at the
/// end, is kept as it is.
pub fn unescape(value: &str) -> (out: String)
    ensures
        out@ == unescape_seq(value@),
{
    let chars = chars_of(value);
    let n = chars.len();
    let mut out = String::new();
    let mut i: usize = 0;
    assert(chars@.subrange(0, n as int) =~= value@);
    assert(out@ + unescape_seq(value@) =~= unescape_seq(value@));
    while i < n
        invariant
            n == chars@.len(),
            i <= n,
            chars@ == value@,
            out@ + unescape_seq(chars@.subrange(i as int, n as int)) == unescape_seq(value@),
        decreases n - i,
    {
        let ghost rest = chars@.subrange(i as int, n as int);
        let ghost before = out@;
        let c = chars[i];
        if c != '\\' {
            assert(rest.subrange(1, rest.len() as int) =~= chars@.subrange(i + 1, n as int));
            push_char(&mut out, c);
            assert(before + unescape_seq(rest) =~= out@ + unescape_seq(chars@.subrange(i + 1, n as int)));
            i += 1;
        } else if i + 1 == n {
            push_char(&mut out, '\\');
            assert(chars@.subrange(i + 1, n as int) =~= Seq::<char>::empty());
            assert(before + unescape_seq(rest) =~= out@ + unescape_seq(chars@.subrange(i + 1, n as int)));
            i += 1;
        } else {
            let d = chars[i + 1];
            assert(rest.subrange(2, rest.len() as int) =~= chars@.subrange(i + 2, n as int));
            if d == 't' {
                push_char(&mut out, '\t');
            } else if d == 'n' {
                push_char(&mut out, '\n');
            } else if d == 'r' {
                push_char(&mut out, '\r');
            } else if d == '\\' {
                push_char(&mut out, '\\');
            } else {
                push_char(&mut out, '\\');
                push_char(&mut out, d);
            }
            assert(before + unescape_seq(rest) =~= out@ + unescape_seq(chars@.subrange(i + 2, n as int)));
            i += 2;
        }
    }
    assert(out@ + Seq::<char>::empty() =~= out@);
    out
}

// ---------------------------------------------------------------------------
// Decimal numbers
// ---------------------------------------------------------------------------

/// The digit character for `d` (0 to 9).
pub open spec fn digit_char(d: nat) -> char {
    ((d + 48) as u32) as char
}

/// Decimal digits of `n`, most significant first, without leading zeros
/// (`0` is written `0`).
pub open spec fn decimal_seq(n: nat) -> Seq<char>
    decreases n,
{
    if n < 10 {
        seq![digit_char(n)]
    } else {
        decimal_seq(n / 10).push(digit_char(n % 10))
    }
}

/// Whether `c` is an ASCII digit.
pub open spec fn is_digit(c: char) -> bool {
    '0' <= c && c <= '9'
}

/// The value of a string of ASCII digits.
pub open spec fn digits_value(s: Seq<char>) -> nat
    decreases s.len(),
{
    if s.len() == 0 {
        0
    } else {
        digits_value(s.drop_last()) * 10 + ((s.last() as u32) - 48) as nat
    }
}

/// Whether every character of `s` is an ASCII digit.
pub open spec fn all_digits(s: Seq<char>) -> bool {
    forall|i: int| 0 <= i < s.len() ==> is_digit(#[trigger] s[i])
}

/// The part of `s` after an optional leading `+`.
pub open spec fn unsigned_digits(s: Seq<char>) -> Seq<char> {
    if s.len() > 0 && s[0] == '+' { s.subrange(1, s.len() as int) } else { s }
}

/// What `str::parse` gives for an unsigned integer no larger than `max`:
/// an optional `+`, then at least one ASCII digit and nothing else.
pub open spec fn parse_unsigned(s: Seq<char>, max: nat) -> Option<nat> {
    let digits = unsigned_digits(s);
    if digits.len() > 0 && all_digits(digits) && digits_value(digits) <= max {
        Some(digits_value(digits))
    } else {
        None
    }
}

proof fn lemma_decimal_digits(n: nat)
    ensures
        decimal_seq(n).len() > 0,
        forall|i: int| 0 <= i < decimal_seq(n).len() ==> is_digit(#[trigger] decimal_seq(n)[i]),
        digits_value(decimal_seq(n)) == n,
        decimal_seq(n)[0] != '+',
    decreases n,
{
    if n >= 10 {
        lemma_decimal_digits(n / 10);
        let s = decimal_seq(n);
        assert(s.drop_last() =~= decimal_seq(n / 10));
        lemma_digit_char(n % 10);
        assert(s[0] == decimal_seq(n / 10)[0]);
        assert(s.last() == digit_char(n % 10));
        assert(digits_value(s) == digits_value(decimal_seq(n / 10)) * 10 + (n % 10));
        assert(n == (n / 10) * 10 + n % 10);
        assert(digits_value(s) == n);
    } else {
        lemma_digit_char(n);
        let s = decimal_seq(n);
        assert(s.drop_last() =~= Seq::<char>::empty());
        assert(digits_value(s.drop_last()) == 0);
        assert(s.last() == digit_char(n));
        assert(digits_value(s) == n);
    }
}

proof fn lemma_digit_char(d: nat)
    requires
        d < 10,
    ensures
        digit_char(d) as u32 == d + 48,
        is_digit(digit_char(d)),
{
    let c = digit_char(d);
    let u = (d + 48) as u32;
    vstd::utf8::char_u32_cast(c, u);
    assert(c == u as char);
    assert(u <= 0xD7FF);
    assert((u as char) as u32 == u);
}

/// Reading a number back from its decimal form gives the number.
pub proof fn lemma_parse_decimal(n: nat, max: nat)
    requires
        n <= max,
    ensures
        parse_unsigned(decimal_seq(n), max) == Some(n),
{
    lemma_decimal_digits(n);
}

/// The digit character for `d`.
fn digit_to_char(d: u64) -> (c: char)
    requires
        d < 10,
    ensures
        c == digit_char(d as nat),
        c as u32 == d + 48,
{
    let c: char = if d == 0 { '0' } else if d == 1 { '1' } else if d == 2 { '2' } else if d == 3 { '3' }
        else if d == 4 { '4' } else if d == 5 { '5' } else if d == 6 { '6' } else if d == 7 { '7' }
        else if d == 8 { '8' } else { '9' };
    proof {
        vstd::utf8::char_u32_cast(c, (d + 48) as u32);
    }
    c
}

/// The decimal form of `n`.
pub fn decimal(n: u64) -> (out: String)
    ensures
        out@ == decimal_seq(n as nat),
    decreases n,
{
    if n < 10 {
        let mut s = String::new();
        push_char(&mut s, digit_to_char(n));
        assert(s@ =~= seq![digit_char(n as nat)]);
        s
    } else {
        let mut s = decimal(n / 10);
        push_char(&mut s, digit_to_char(n % 10));
        s
    }
}

/// Parses an unsigned number no larger than `max`, as `str::parse` does.
pub fn parse_unsigned_str(text: &str, max: u64) -> (r: Option<u64>)
    ensures
        match r {
            Some(v) => parse_unsigned(text@, max as nat) == Some(v as nat),
            None => parse_unsigned(text@, max as nat) is None,
        },
{
    let chars = chars_of(text);
    let start: usize = if chars.len() > 0 && chars[0] == '+' { 1 } else { 0 };
    let ghost digits = unsigned_digits(text@);
    assert(digits =~= chars@.subrange(start as int, chars@.len() as int));
    if start == chars.len() {
        return None;
    }
    let mut value: u64 = 0;
    let mut i: usize = start;
    while i < chars.len()
        invariant
            start <= i <= chars@.len(),
            start < chars@.len(),
            chars@ == text@,
            digits == unsigned_digits(text@),
            digits == chars@.subrange(start as int, chars@.len() as int),
            forall|j: int| start <= j < i ==> is_digit(#[trigger] chars@[j]),
            value as nat == digits_value(chars@.subrange(start as int, i as int)),
            value <= max,
        decreases chars@.len() - i,
    {
        let c = chars[i];
        if c < '0' || c > '9' {
            assert(!is_digit(digits[i - start]));
            assert(!all_digits(digits));
            return None;
        }
        let d: u64 = ((c as u32) - 48) as u64;
        assert(chars@.subrange(start as int, i + 1).drop_last() =~= chars@.subrange(start as int, i as int));
        if d > max || value > (max - d) / 10 {
            proof {
                assert(digits_value(chars@.subrange(start as int, i + 1)) == value * 10 + d);
                if d <= max {
                    assert(value * 10 + d > max) by (nonlinear_arith)
                        requires value > (max - d) / 10, d <= max;
                }
                assert(digits.take(i + 1 - start) =~= chars@.subrange(start as int, i + 1));
                assert forall|j: int| 0 <= j < i + 1 - start implies is_digit(#[trigger] digits[j]) by {
                    assert(digits[j] == chars@[start + j]);
                }
                lemma_prefix_value_grows(digits, (i + 1 - start) as int);
                if all_digits(digits) {
                    assert(digits_value(digits) > max);
                }
            }
            return None;
        }
        assert(value * 10 + d <= max) by (nonlinear_arith)
            requires value <= (max - d) / 10, d <= 9;
        value = value * 10 + d;
        i += 1;
    }
    assert(chars@.subrange(start as int, i as int) =~= digits);
    Some(value)
}

/// Appending digits never makes a digit string's value smaller.
proof fn lemma_prefix_value_grows(s: Seq<char>, k: int)
    requires
        0 <= k <= s.len(),
        forall|i: int| 0 <= i < k ==> is_digit(#[trigger] s[i]),
    ensures
        digits_value(s.take(k)) <= digits_value(s) || !all_digits(s),
    decreases s.len() - k,
{
    if k < s.len() && all_digits(s) {
        lemma_prefix_value_grows(s, k + 1);
        assert(s.take(k + 1).drop_last() =~= s.take(k));
    } else if k == s.len() {
        assert(s.take(k) =~= s);
    }
}

// ---------------------------------------------------------------------------
// Learned entries and the cache
// ---------------------------------------------------------------------------

/// A segment surface the user chose for a reading, with the single
/// characters seen on either side when it was chosen.
#[derive(Debug, Clone, PartialEq, Eq)]
pub struct LearnedSegment {
    pub reading: String,
    pub surface: String,
    pub left_hint: Option<String>,
    pub right_hint: Option<String>,
    pub frequency: u32,
    pub last_used: u64,
}

impl LearnedSegment {
    /// An independent copy.
    pub fn duplicate(&self) -> (r: Self)
        ensures
            r == *self,
    {
        LearnedSegment {
            reading: self.reading.clone(),
            surface: self.surface.clone(),
            left_hint: copy_opt(&self.left_hint),
            right_hint: copy_opt(&self.right_hint),
            frequency: self.frequency,
            last_used: self.last_used,
        }
    }
}

/// The plain values of a learned entry.
pub open spec fn entry_view(e: LearnedSegment) -> (Seq<char>, Seq<char>, Option<Seq<char>>, Option<Seq<char>>, nat, nat) {
    (e.reading@, e.surface@, opt_view(e.left_hint), opt_view(e.right_hint), e.frequency as nat, e.last_used as nat)
}

/// Whether `e` was learned for exactly this reading, surface and context.
pub open spec fn same_key(
    e: LearnedSegment,
    reading: Seq<char>,
    surface: Seq<char>,
    left: Option<Seq<char>>,
    right: Option<Seq<char>>,
) -> bool {
    e.reading@ == reading && e.surface@ == surface && opt_view(e.left_hint) == left && opt_view(e.right_hint) == right
}

/// Index of the first entry learned for this key, if any.
pub open spec fn first_match(
    s: Seq<LearnedSegment>,
    reading: Seq<char>,
    surface: Seq<char>,
    left: Option<Seq<char>>,
    right: Option<Seq<char>>,
) -> Option<int>
    decreases s.len(),
{
    if s.len() == 0 {
        None
    } else {
        match first_match(s.drop_last(), reading, surface, left, right) {
            Some(i) => Some(i),
            None => if same_key(s.last(), reading, surface, left, right) { Some(s.len() - 1) } else { None },
        }
    }
}

/// `e` used once more at time `now`.
pub open spec fn bumped(e: LearnedSegment, now: u64) -> LearnedSegment {
    LearnedSegment {
        reading: e.reading,
        surface: e.surface,
        left_hint: e.left_hint,
        right_hint: e.right_hint,
        frequency: if e.frequency == u32::MAX { e.frequency } else { (e.frequency + 1) as u32 },
        last_used: now,
    }
}

/// `mid` is `pre` after one use of the key at time `now`: an existing entry
/// for the key counts one more use; otherwise a new entry is appended.
pub open spec fn upserted(
    pre: Seq<LearnedSegment>,
    mid: Seq<LearnedSegment>,
    reading: Seq<char>,
    surface: Seq<char>,
    left: Option<Seq<char>>,
    right: Option<Seq<char>>,
    now: u64,
) -> bool {
    match first_match(pre, reading, surface, left, right) {
        Some(k) => mid == pre.update(k, bumped(pre[k], now)),
        None => {
            &&& mid.len() == pre.len() + 1
            &&& mid.drop_last() == pre
            &&& same_key(mid.last(), reading, surface, left, right)
            &&& mid.last().frequency == 1
            &&& mid.last().last_used == now
        },
    }
}

/// Index of the first least recently used entry.
pub open spec fn oldest_index(s: Seq<LearnedSegment>) -> int
    decreases s.len(),
{
    if s.len() <= 1 {
        0
    } else {
        let j = oldest_index(s.drop_last());
        if s.last().last_used < s[j].last_used { s.len() - 1 } else { j }
    }
}

/// The entries left once the least recently used ones are dropped, one at a
/// time, until at most `max` remain.
pub open spec fn evicted(s: Seq<LearnedSegment>, max: nat) -> Seq<LearnedSegment>
    decreases s.len(),
{
    if s.len() <= max {
        s
    } else {
        proof {
            lemma_oldest_index(s);
        }
        evicted(s.remove(oldest_index(s)), max)
    }
}

pub proof fn lemma_oldest_index(s: Seq<LearnedSegment>)
    requires
        s.len() > 0,
    ensures
        0 <= oldest_index(s) < s.len(),
        forall|i: int| 0 <= i < s.len() ==> s[oldest_index(s)].last_used <= #[trigger] s[i].last_used,
        forall|i: int| 0 <= i < oldest_index(s) ==> s[oldest_index(s)].last_used < #[trigger] s[i].last_used,
    decreases s.len(),
{
    if s.len() > 1 {
        let t = s.drop_last();
        lemma_oldest_index(t);
        let j = oldest_index(t);
        assert(t[j] == s[j]);
        assert forall|i: int| 0 <= i < s.len() implies s[oldest_index(s)].last_used <= #[trigger] s[i].last_used by {
            if i < s.len() - 1 {
                assert(t[i] == s[i]);
            }
        }
        assert forall|i: int| 0 <= i < oldest_index(s) implies s[oldest_index(s)].last_used < #[trigger] s[i].last_used by {
            if i < s.len() - 1 {
                assert(t[i] == s[i]);
            }
        }
    }
}

/// Whether an entry learned with `entry_hint` applies where the context
/// shows `hint`: an entry without a hint applies everywhere.
pub open spec fn hint_admits(entry_hint: Option<String>, hint: Option<Seq<char>>) -> bool {
    match entry_hint {
        Some(h) => hint == Some(h@),
        None => true,
    }
}

/// Extra weight for context that matches: 20 for the left hint, 30 for the
/// right one.
pub open spec fn context_bonus(e: LearnedSegment, left: Option<Seq<char>>, right: Option<Seq<char>>) -> nat {
    (if e.left_hint is Some && hint_admits(e.left_hint, left) { 20nat } else { 0nat })
        + (if e.right_hint is Some && hint_admits(e.right_hint, right) { 30nat } else { 0nat })
}

/// Whether `e` applies to `reading` in this context.
pub open spec fn applies(e: LearnedSegment, reading: Seq<char>, left: Option<Seq<char>>, right: Option<Seq<char>>) -> bool {
    e.reading@ == reading && hint_admits(e.left_hint, left) && hint_admits(e.right_hint, right)
}

/// The entries of `s` that apply here with context bonus `bonus`, in order.
pub open spec fn applicable_with(
    s: Seq<LearnedSegment>,
    reading: Seq<char>,
    left: Option<Seq<char>>,
    right: Option<Seq<char>>,
    bonus: nat,
) -> Seq<LearnedSegment>
    decreases s.len(),
{
    if s.len() == 0 {
        Seq::empty()
    } else {
        let rest = applicable_with(s.drop_last(), reading, left, right, bonus);
        if applies(s.last(), reading, left, right) && context_bonus(s.last(), left, right) == bonus {
            rest.push(s.last())
        } else {
            rest
        }
    }
}

/// Entries that apply, strongest context first: both hints matched, then
/// the right one, then the left one, then context-free entries; within a
/// group, in the order they were learned.
pub open spec fn ranked(s: Seq<LearnedSegment>, reading: Seq<char>, left: Option<Seq<char>>, right: Option<Seq<char>>) -> Seq<LearnedSegment> {
    applicable_with(s, reading, left, right, 50) + applicable_with(s, reading, left, right, 30)
        + applicable_with(s, reading, left, right, 20) + applicable_with(s, reading, left, right, 0)
}

/// The current time in whole seconds since the Unix epoch
/// (`SystemTime::now`); nothing is claimed of the value.
#[verifier::external_body]
fn now_unix() -> u64 {
    std::time::SystemTime::now().duration_since(std::time::UNIX_EPOCH).map(|d| d.as_secs()).unwrap_or(0)
}

/// Learned segment corrections, at most `max_entries` of them after each
/// change.
#[derive(Debug)]
pub struct SegmentLearningCache {
    entries: Vec<LearnedSegment>,
    max_entries: usize,
    dirty: bool,
}

fn copy_opt_str(o: Option<&str>) -> (r: Option<String>)
    ensures
        opt_view(r) == opt_str_view(o),
{
    match o {
        Some(s) => Some(copy_str(s)),
        None => None,
    }
}

fn opt_str_eq(a: &Option<String>, b: Option<&str>) -> (r: bool)
    ensures
        r == (opt_view(*a) == opt_str_view(b)),
{
    match (a, b) {
        (Some(x), Some(y)) => str_eq(x.as_str(), y),
        (None, None) => true,
        _ => false,
    }
}

/// The view of an optional borrowed string.
pub open spec fn opt_str_view(o: Option<&str>) -> Option<Seq<char>> {
    match o {
        Some(s) => Some(s@),
        None => None,
    }
}

impl SegmentLearningCache {
    /// The learned entries, in the order they were first learned.
    pub closed spec fn entries(&self) -> Seq<LearnedSegment> {
        self.entries@
    }

    /// How many entries are kept after a change.
    pub closed spec fn capacity(&self) -> nat {
        self.max_entries as nat
    }

    /// Whether there are changes not yet saved.
    pub closed spec fn dirty_flag(&self) -> bool {
        self.dirty
    }

    /// An empty cache that keeps at most `max_entries` entries.
    pub fn new(max_entries: usize) -> (c: Self)
        ensures
            c.entries().len() == 0,
            c.capacity() == max_entries,
            !c.dirty_flag(),
    {
        SegmentLearningCache { entries: Vec::new(), max_entries, dirty: false }
    }

    /// Drops least recently used entries until at most `max_entries` remain.
    fn evict(&mut self)
        ensures
            final(self).entries() == evicted(old(self).entries(), old(self).capacity()),
            final(self).capacity() == old(self).capacity(),
            final(self).dirty_flag() == old(self).dirty_flag(),
    {
        while self.entries.len() > self.max_entries
            invariant
                evicted(self.entries@, self.max_entries as nat) == evicted(old(self).entries@, old(self).max_entries as nat),
                self.max_entries == old(self).max_entries,
                self.dirty == old(self).dirty,
            decreases self.entries@.len(),
        {
            proof {
                lemma_oldest_index(self.entries@);
            }
            let mut oldest: usize = 0;
            let mut i: usize = 1;
            while i < self.entries.len()
                invariant
                    1 <= i <= self.entries@.len(),
                    self.entries@.len() > 0,
                    oldest == oldest_index(self.entries@.take(i as int)),
                decreases self.entries@.len() - i,
            {
                assert(self.entries@.take(i + 1).drop_last() =~= self.entries@.take(i as int));
                proof {
                    lemma_oldest_index(self.entries@.take(i as int));
                }
                if self.entries[i].last_used < self.entries[oldest].last_used {
                    oldest = i;
                }
                i += 1;
            }
            assert(self.entries@.take(i as int) =~= self.entries@);
            self.entries.remove(oldest);
        }
    }

    /// Index of the first entry learned for exactly this key.
    fn find_key(&self, reading: &str, surface: &str, left_hint: Option<&str>, right_hint: Option<&str>) -> (found: Option<usize>)
        ensures
            found is None ==> first_match(self.entries(), reading@, surface@, opt_str_view(left_hint), opt_str_view(right_hint)) is None,
            found matches Some(k) ==> k < self.entries().len()
                && first_match(self.entries(), reading@, surface@, opt_str_view(left_hint), opt_str_view(right_hint)) == Some(k as int),
    {
        let ghost pre = self.entries@;
        let ghost l = opt_str_view(left_hint);
        let ghost r = opt_str_view(right_hint);
        let mut i: usize = 0;
        while i < self.entries.len()
            invariant
                i <= self.entries@.len(),
                self.entries@ == pre,
                l == opt_str_view(left_hint),
                r == opt_str_view(right_hint),
                first_match(pre.take(i as int), reading@, surface@, l, r) is None,
            decreases self.entries@.len() - i,
        {
            assert(pre.take(i + 1).drop_last() =~= pre.take(i as int));
            assert(pre.take(i + 1).last() == pre[i as int]);
            let e = &self.entries[i];
            if str_eq(e.reading.as_str(), reading) && str_eq(e.surface.as_str(), surface)
                && opt_str_eq(&e.left_hint, left_hint) && opt_str_eq(&e.right_hint, right_hint) {
                proof {
                    lemma_first_match_prefix(pre, i + 1, reading@, surface@, l, r);
                }
                return Some(i);
            }
            i += 1;
        }
        assert(pre.take(i as int) =~= pre);
        None
    }

    /// Counts one use of `surface` for `reading` in the given context at time
    /// `now`, then drops the least recently used entries beyond capacity.
    pub fn record_at(&mut self, reading: &str, surface: &str, left_hint: Option<&str>, right_hint: Option<&str>, now: u64)
        ensures
            exists|mid: Seq<LearnedSegment>|
                #[trigger] upserted(old(self).entries(), mid, reading@, surface@, opt_str_view(left_hint), opt_str_view(right_hint), now)
                && final(self).entries() == evicted(mid, old(self).capacity()),
            final(self).capacity() == old(self).capacity(),
            final(self).dirty_flag(),
            final(self).entries().len() <= final(self).capacity(),
    {
        let ghost pre = self.entries@;
        let ghost l = opt_str_view(left_hint);
        let ghost r = opt_str_view(right_hint);
        let found = self.find_key(reading, surface, left_hint, right_hint);
        match found {
            Some(k) => {
                let old_entry = self.entries[k].duplicate();
                let frequency = if old_entry.frequency == u32::MAX { old_entry.frequency } else { old_entry.frequency + 1 };
                let updated = LearnedSegment {
                    reading: old_entry.reading,
                    surface: old_entry.surface,
                    left_hint: old_entry.left_hint,
                    right_hint: old_entry.right_hint,
                    frequency,
                    last_used: now,
                };
                self.entries.set(k, updated);
                assert(updated == bumped(pre[k as int], now));
                assert(self.entries@ =~= pre.update(k as int, bumped(pre[k as int], now)));
            },
            None => {
                self.entries.push(LearnedSegment {
                    reading: copy_str(reading),
                    surface: copy_str(surface),
                    left_hint: copy_opt_str(left_hint),
                    right_hint: copy_opt_str(right_hint),
                    frequency: 1,
                    last_used: now,
                });
                assert(self.entries@.drop_last() =~= pre);
                assert(same_key(self.entries@.last(), reading@, surface@, l, r));
            },
        }
        let ghost mid = self.entries@;
        assert(upserted(pre, mid, reading@, surface@, l, r, now));
        self.dirty = true;
        self.evict();
        assert(upserted(pre, mid, reading@, surface@, l, r, now) && self.entries() == evicted(mid, self.capacity()));
        proof {
            lemma_evicted_len(mid, self.capacity());
        }
    }

    /// Counts one use of `surface` for `reading` in the given context, now.
    pub fn record(&mut self, reading: &str, surface: &str, left_hint: Option<&str>, right_hint: Option<&str>)
        ensures
            exists|now: u64, mid: Seq<LearnedSegment>|
                #[trigger] upserted(old(self).entries(), mid, reading@, surface@, opt_str_view(left_hint), opt_str_view(right_hint), now)
                && final(self).entries() == evicted(mid, old(self).capacity()),
            final(self).capacity() == old(self).capacity(),
            final(self).dirty_flag(),
            final(self).entries().len() <= final(self).capacity(),
    {
        let now = now_unix();
        self.record_at(reading, surface, left_hint, right_hint, now);
    }

    /// The entries that apply to `reading` in this context with their
    /// context bonus, strongest context first (see [`ranked`]).
    pub fn lookup(&self, reading: &str, left_hint: Option<&str>, right_hint: Option<&str>) -> (out: Vec<(LearnedSegment, u32)>)
        ensures
            out@.map_values(|p: (LearnedSegment, u32)| p.0) == ranked(self.entries(), reading@, opt_str_view(left_hint), opt_str_view(right_hint)),
            forall|i: int| 0 <= i < out@.len() ==> (#[trigger] out@[i]).1 == context_bonus(out@[i].0, opt_str_view(left_hint), opt_str_view(right_hint)),
            forall|i: int, j: int| 0 <= i < j < out@.len() ==> #[trigger] out@[i].1 >= #[trigger] out@[j].1,
    {
        let mut out: Vec<(LearnedSegment, u32)> = Vec::new();
        let ghost s = self.entries@;
        let ghost l = opt_str_view(left_hint);
        let ghost r = opt_str_view(right_hint);
        let bonuses: [u32; 4] = [50, 30, 20, 0];
        let mut b: usize = 0;
        let ghost mut done: Seq<LearnedSegment> = Seq::empty();
        while b < 4
            invariant
                b <= 4,
                bonuses@ == seq![50u32, 30u32, 20u32, 0u32],
                s == self.entries@,
                l == opt_str_view(left_hint),
                r == opt_str_view(right_hint),
                out@.map_values(|p: (LearnedSegment, u32)| p.0) == done,
                forall|i: int| 0 <= i < out@.len() ==> (#[trigger] out@[i]).1 == context_bonus(out@[i].0, l, r),
                b == 0 ==> done == Seq::<LearnedSegment>::empty(),
                b == 1 ==> done == applicable_with(s, reading@, l, r, 50),
                b == 2 ==> done == applicable_with(s, reading@, l, r, 50) + applicable_with(s, reading@, l, r, 30),
                b == 3 ==> done == applicable_with(s, reading@, l, r, 50) + applicable_with(s, reading@, l, r, 30) + applicable_with(s, reading@, l, r, 20),
                b == 4 ==> done == ranked(s, reading@, l, r),
            decreases 4 - b,
        {
            let bonus = bonuses[b];
            let ghost before = done;
            let mut i: usize = 0;
            while i < self.entries.len()
                invariant
                    i <= self.entries@.len(),
                    s == self.entries@,
                    l == opt_str_view(left_hint),
                    r == opt_str_view(right_hint),
                    out@.map_values(|p: (LearnedSegment, u32)| p.0) == before + applicable_with(s.take(i as int), reading@, l, r, bonus as nat),
                    forall|k: int| 0 <= k < out@.len() ==> (#[trigger] out@[k]).1 == context_bonus(out@[k].0, l, r),
                decreases self.entries@.len() - i,
            {
                assert(s.take(i + 1).drop_last() =~= s.take(i as int));
                assert(s.take(i + 1).last() == s[i as int]);
                let e = &self.entries[i];
                let left_ok = match &e.left_hint {
                    Some(h) => match left_hint { Some(x) => str_eq(h.as_str(), x), None => false },
                    None => true,
                };
                let right_ok = match &e.right_hint {
                    Some(h) => match right_hint { Some(x) => str_eq(h.as_str(), x), None => false },
                    None => true,
                };
                let mut value: u32 = 0;
                if e.left_hint.is_some() && left_ok {
                    value = value + 20;
                }
                if e.right_hint.is_some() && right_ok {
                    value = value + 30;
                }
                let ghost prev = out@;
                assert(left_ok == hint_admits(e.left_hint, l));
                assert(right_ok == hint_admits(e.right_hint, r));
                assert(value == context_bonus(*e, l, r));
                if str_eq(e.reading.as_str(), reading) && left_ok && right_ok && value == bonus {
                    out.push((e.duplicate(), value));
                    assert(out@.map_values(|p: (LearnedSegment, u32)| p.0) =~= prev.map_values(|p: (LearnedSegment, u32)| p.0).push(s[i as int]));
                }
                i += 1;
            }
            assert(s.take(i as int) =~= s);
            proof {
                done = before + applicable_with(s, reading@, l, r, bonus as nat);
            }
            b += 1;
        }
        proof {
            let l = opt_str_view(left_hint);
            let r = opt_str_view(right_hint);
            let rk = ranked(self.entries(), reading@, l, r);
            lemma_lookup_strongest_context_first(self.entries(), reading@, l, r);
            assert forall|i: int, j: int| 0 <= i < j < out@.len() implies #[trigger] out@[i].1 >= #[trigger] out@[j].1 by {
                assert(out@.map_values(|p: (LearnedSegment, u32)| p.0)[i] == out@[i].0);
                assert(out@.map_values(|p: (LearnedSegment, u32)| p.0)[j] == out@[j].0);
                assert(rk[i] == out@[i].0 && rk[j] == out@[j].0);
            }
        }
        out
    }

    /// Whether there are changes not yet saved.
    pub fn is_dirty(&self) -> (b: bool)
        ensures
            b == self.dirty_flag(),
    {
        self.dirty
    }

    /// Number of learned entries.
    pub fn entry_count(&self) -> (n: usize)
        ensures
            n == self.entries().len(),
    {
        self.entries.len()
    }
}

proof fn lemma_first_match_prefix(
    s: Seq<LearnedSegment>,
    k: int,
    reading: Seq<char>,
    surface: Seq<char>,
    left: Option<Seq<char>>,
    right: Option<Seq<char>>,
)
    requires
        0 < k <= s.len(),
        first_match(s.take(k - 1), reading, surface, left, right) is None,
        same_key(s[k - 1], reading, surface, left, right),
    ensures
        first_match(s, reading, surface, left, right) == Some(k - 1),
    decreases s.len() - k,
{
    assert(s.take(k).drop_last() =~= s.take(k - 1));
    if k < s.len() {
        lemma_first_match_extends(s, k, reading, surface, left, right);
    } else {
        assert(s.take(k) =~= s);
    }
}

proof fn lemma_first_match_extends(
    s: Seq<LearnedSegment>,
    k: int,
    reading: Seq<char>,
    surface: Seq<char>,
    left: Option<Seq<char>>,
    right: Option<Seq<char>>,
)
    requires
        0 < k <= s.len(),
        first_match(s.take(k), reading, surface, left, right) is Some,
    ensures
        first_match(s, reading, surface, left, right) == first_match(s.take(k), reading, surface, left, right),
    decreases s.len() - k,
{
    if k < s.len() {
        assert(s.take(k + 1).drop_last() =~= s.take(k));
        lemma_first_match_extends(s, k + 1, reading, surface, left, right);
    } else {
        assert(s.take(k) =~= s);
    }
}

// ---------------------------------------------------------------------------
// The tab-separated line form of an entry
// ---------------------------------------------------------------------------

/// Fields joined with tabs.
pub open spec fn join_fields(fs: Seq<Seq<char>>) -> Seq<char>
    decreases fs.len(),
{
    if fs.len() == 0 {
        Seq::empty()
    } else if fs.len() == 1 {
        fs[0]
    } else {
        join_fields(fs.drop_last()) + seq!['\t'] + fs.last()
    }
}

/// The tab-separated fields of a line, as `str::split('\t')` gives them.
pub open spec fn split_tabs(s: Seq<char>) -> Seq<Seq<char>>
    decreases s.len(),
{
    if s.len() == 0 {
        seq![Seq::empty()]
    } else {
        let f = split_tabs(s.drop_last());
        if s.last() == '\t' {
            f.push(Seq::empty())
        } else {
            f.update(f.len() - 1, f.last().push(s.last()))
        }
    }
}

proof fn lemma_split_nonempty(s: Seq<char>)
    ensures
        split_tabs(s).len() >= 1,
    decreases s.len(),
{
    if s.len() > 0 {
        lemma_split_nonempty(s.drop_last());
    }
}

proof fn lemma_split_plain(t: Seq<char>)
    requires
        !t.contains('\t'),
    ensures
        split_tabs(t) == seq![t],
    decreases t.len(),
{
    if t.len() > 0 {
        let u = t.drop_last();
        assert(!u.contains('\t')) by {
            assert forall|i: int| 0 <= i < u.len() implies u[i] != '\t' by {
                assert(u[i] == t[i]);
            }
        }
        lemma_split_plain(u);
        assert(t.last() != '\t') by {
            assert(t[t.len() - 1] == t.last());
        }
        assert(u.push(t.last()) =~= t);
        assert(seq![u].update(0, u.push(t.last())) =~= seq![t]);
    } else {
        assert(t =~= Seq::<char>::empty());
    }
}

proof fn lemma_split_after_tab(x: Seq<char>, t: Seq<char>)
    requires
        !t.contains('\t'),
    ensures
        split_tabs(x + seq!['\t'] + t) == split_tabs(x).push(t),
    decreases t.len(),
{
    lemma_split_nonempty(x);
    if t.len() == 0 {
        let w = x + seq!['\t'] + t;
        assert(w.drop_last() =~= x);
        assert(w.last() == '\t');
        assert(t =~= Seq::<char>::empty());
        assert(split_tabs(w) == split_tabs(x).push(Seq::<char>::empty()));
    } else {
        let u = t.drop_last();
        assert(!u.contains('\t')) by {
            assert forall|i: int| 0 <= i < u.len() implies u[i] != '\t' by {
                assert(u[i] == t[i]);
            }
        }
        lemma_split_after_tab(x, u);
        let whole = x + seq!['\t'] + t;
        assert(whole.drop_last() =~= x + seq!['\t'] + u);
        assert(whole.last() == t.last());
        assert(t.last() != '\t') by {
            assert(t[t.len() - 1] == t.last());
        }
        let f = split_tabs(x).push(u);
        assert(split_tabs(whole) == f.update(f.len() - 1, f.last().push(whole.last())));
        assert(f.update(f.len() - 1, f.last().push(t.last())) =~= split_tabs(x).push(t)) by {
            assert(u.push(t.last()) =~= t);
        }
    }
}

/// Splitting fields joined with tabs gives the fields back, when no field
/// holds a tab.
pub proof fn lemma_split_join(fs: Seq<Seq<char>>)
    requires
        fs.len() >= 1,
        forall|i: int| 0 <= i < fs.len() ==> !(#[trigger] fs[i]).contains('\t'),
    ensures
        split_tabs(join_fields(fs)) == fs,
    decreases fs.len(),
{
    if fs.len() == 1 {
        lemma_split_plain(fs[0]);
        assert(seq![fs[0]] =~= fs);
    } else {
        let g = fs.drop_last();
        assert forall|i: int| 0 <= i < g.len() implies !(#[trigger] g[i]).contains('\t') by {
            assert(g[i] == fs[i]);
        }
        lemma_split_join(g);
        assert(!fs.last().contains('\t')) by {
            assert(fs[fs.len() - 1] == fs.last());
        }
        lemma_split_after_tab(join_fields(g), fs.last());
        assert(g.push(fs.last()) =~= fs);
    }
}

/// The presence flag of a hint: `1` when present, `0` otherwise.
pub open spec fn hint_flag(h: Option<Seq<char>>) -> Seq<char> {
    if h is Some { seq!['1'] } else { seq!['0'] }
}

/// The escaped text of a hint, empty when absent.
pub open spec fn hint_text(h: Option<Seq<char>>) -> Seq<char> {
    match h {
        Some(v) => escape_seq(v),
        None => Seq::empty(),
    }
}

/// A hint read back from its flag and text.
pub open spec fn decode_hint_seq(flag: Seq<char>, text: Seq<char>) -> Option<Seq<char>> {
    if flag == seq!['1'] { Some(unescape_seq(text)) } else { None }
}

/// The eight fields of an entry's line.
pub open spec fn line_fields(e: LearnedSegment) -> Seq<Seq<char>> {
    seq![
        escape_seq(e.reading@),
        escape_seq(e.surface@),
        hint_flag(opt_view(e.left_hint)),
        hint_text(opt_view(e.left_hint)),
        hint_flag(opt_view(e.right_hint)),
        hint_text(opt_view(e.right_hint)),
        decimal_seq(e.frequency as nat),
        decimal_seq(e.last_used as nat),
    ]
}

/// The line an entry is stored as.
pub open spec fn entry_line(e: LearnedSegment) -> Seq<char> {
    join_fields(line_fields(e))
}

/// What a stored line holds, if it is well formed: eight tab-separated
/// fields, the last two numbers that fit their types.
pub open spec fn line_view(line: Seq<char>) -> Option<(Seq<char>, Seq<char>, Option<Seq<char>>, Option<Seq<char>>, nat, nat)> {
    let cols = split_tabs(line);
    if cols.len() != 8 {
        None
    } else {
        match (parse_unsigned(cols[6], u32::MAX as nat), parse_unsigned(cols[7], u64::MAX as nat)) {
            (Some(f), Some(t)) => Some((
                unescape_seq(cols[0]),
                unescape_seq(cols[1]),
                decode_hint_seq(cols[2], cols[3]),
                decode_hint_seq(cols[4], cols[5]),
                f,
                t,
            )),
            _ => None,
        }
    }
}

proof fn lemma_decimal_has_no_tab(n: nat)
    ensures
        !decimal_seq(n).contains('\t'),
{
    lemma_decimal_digits(n);
    assert forall|i: int| 0 <= i < decimal_seq(n).len() implies decimal_seq(n)[i] != '\t' by {
        assert(is_digit(decimal_seq(n)[i]));
    }
}

/// Reading an entry's stored line gives back the entry.
pub proof fn lemma_line_round_trip(e: LearnedSegment)
    ensures
        line_view(entry_line(e)) == Some(entry_view(e)),
{
    let fs = line_fields(e);
    lemma_escape_has_no_separators(e.reading@);
    lemma_escape_has_no_separators(e.surface@);
    if let Some(h) = opt_view(e.left_hint) {
        lemma_escape_has_no_separators(h);
        lemma_unescape_escape(h);
    }
    if let Some(h) = opt_view(e.right_hint) {
        lemma_escape_has_no_separators(h);
        lemma_unescape_escape(h);
    }
    lemma_decimal_has_no_tab(e.frequency as nat);
    lemma_decimal_has_no_tab(e.last_used as nat);
    assert(!hint_flag(opt_view(e.left_hint)).contains('\t')) by {
        assert(hint_flag(opt_view(e.left_hint))[0] != '\t');
    }
    assert(!hint_flag(opt_view(e.right_hint)).contains('\t')) by {
        assert(hint_flag(opt_view(e.right_hint))[0] != '\t');
    }
    assert(!Seq::<char>::empty().contains('\t'));
    assert forall|i: int| 0 <= i < fs.len() implies !(#[trigger] fs[i]).contains('\t') by {
        if i == 0 || i == 1 || i == 2 || i == 3 || i == 4 || i == 5 || i == 6 || i == 7 {
        }
    }
    lemma_split_join(fs);
    lemma_unescape_escape(e.reading@);
    lemma_unescape_escape(e.surface@);
    lemma_parse_decimal(e.frequency as nat, u32::MAX as nat);
    lemma_parse_decimal(e.last_used as nat, u64::MAX as nat);
    assert(seq!['1'] != seq!['0']) by {
        assert(seq!['1'][0] != seq!['0'][0]);
    }
}

/// The fields of `line` separated by tabs.
fn split_on_tabs(line: &str) -> (fields: Vec<String>)
    ensures
        fields@.map_values(|f: String| f@) == split_tabs(line@),
{
    let chars = chars_of(line);
    let mut done: Vec<String> = Vec::new();
    let mut cur = String::new();
    let mut i: usize = 0;
    assert(chars@.take(0) =~= Seq::<char>::empty());
    assert(done@.map_values(|f: String| f@).push(cur@) =~= seq![Seq::<char>::empty()]);
    while i < chars.len()
        invariant
            i <= chars@.len(),
            chars@ == line@,
            done@.map_values(|f: String| f@).push(cur@) == split_tabs(chars@.take(i as int)),
        decreases chars@.len() - i,
    {
        let ghost before = done@.map_values(|f: String| f@).push(cur@);
        assert(chars@.take(i + 1).drop_last() =~= chars@.take(i as int));
        assert(chars@.take(i + 1).last() == chars@[i as int]);
        let c = chars[i];
        if c == '\t' {
            let finished = cur;
            done.push(finished);
            cur = String::new();
            assert(done@.map_values(|f: String| f@).push(cur@) =~= before.push(Seq::<char>::empty()));
        } else {
            push_char(&mut cur, c);
            assert(done@.map_values(|f: String| f@).push(cur@) =~= before.update(before.len() - 1, before.last().push(c)));
        }
        i += 1;
    }
    assert(chars@.take(i as int) =~= line@);
    done.push(cur);
    assert(done@.map_values(|f: String| f@) =~= split_tabs(line@));
    done
}

/// Reads a hint back from its flag and text fields.
fn decode_hint(flag: &str, text: &str) -> (r: Option<String>)
    ensures
        opt_view(r) == decode_hint_seq(flag@, text@),
{
    let f = chars_of(flag);
    if f.len() == 1 && f[0] == '1' {
        assert(flag@ =~= seq!['1']);
        Some(unescape(text))
    } else {
        assert(flag@ != seq!['1']);
        None
    }
}

/// Writes a hint as its flag and text fields.
fn encode_hint(hint: &Option<String>, line: &mut String)
    ensures
        final(line)@ == old(line)@ + hint_flag(opt_view(*hint)) + seq!['\t'] + hint_text(opt_view(*hint)),
{
    match hint {
        Some(v) => {
            push_char(line, '1');
            push_char(line, '\t');
            let e = escape(v.as_str());
            push_str(line, e.as_str());
        },
        None => {
            push_char(line, '0');
            push_char(line, '\t');
        },
    }
    assert(final(line)@ =~= old(line)@ + hint_flag(opt_view(*hint)) + seq!['\t'] + hint_text(opt_view(*hint)));
}

/// The line `entry` is stored as.
pub fn format_line(entry: &LearnedSegment) -> (line: String)
    ensures
        line@ == entry_line(*entry),
{
    let ghost fs = line_fields(*entry);
    let mut line = escape(entry.reading.as_str());
    push_char(&mut line, '\t');
    let s = escape(entry.surface.as_str());
    push_str(&mut line, s.as_str());
    push_char(&mut line, '\t');
    encode_hint(&entry.left_hint, &mut line);
    push_char(&mut line, '\t');
    encode_hint(&entry.right_hint, &mut line);
    push_char(&mut line, '\t');
    let f = decimal(entry.frequency as u64);
    push_str(&mut line, f.as_str());
    push_char(&mut line, '\t');
    let t = decimal(entry.last_used);
    push_str(&mut line, t.as_str());
    proof {
        reveal_with_fuel(join_fields, 8);
        assert(fs.drop_last().drop_last().drop_last().drop_last().drop_last().drop_last().drop_last() =~= seq![fs[0]]);
        assert(fs.take(1) =~= seq![fs[0]]);
        assert(fs.take(2).drop_last() =~= fs.take(1));
        assert(fs.take(3).drop_last() =~= fs.take(2));
        assert(fs.take(4).drop_last() =~= fs.take(3));
        assert(fs.take(5).drop_last() =~= fs.take(4));
        assert(fs.take(6).drop_last() =~= fs.take(5));
        assert(fs.take(7).drop_last() =~= fs.take(6));
        assert(fs.drop_last() =~= fs.take(7));
        assert(join_fields(fs.take(1)) == fs[0]);
        assert(join_fields(fs.take(2)) == fs[0] + seq!['\t'] + fs[1]);
        assert(join_fields(fs.take(3)) == join_fields(fs.take(2)) + seq!['\t'] + fs[2]);
        assert(join_fields(fs.take(4)) == join_fields(fs.take(3)) + seq!['\t'] + fs[3]);
        assert(join_fields(fs.take(5)) == join_fields(fs.take(4)) + seq!['\t'] + fs[4]);
        assert(join_fields(fs.take(6)) == join_fields(fs.take(5)) + seq!['\t'] + fs[5]);
        assert(join_fields(fs.take(7)) == join_fields(fs.take(6)) + seq!['\t'] + fs[6]);
        assert(join_fields(fs) == join_fields(fs.take(7)) + seq!['\t'] + fs[7]);
        assert(line@ =~= join_fields(fs));
    }
    line
}

/// The entry a stored line holds, if the line is well formed.
pub fn parse_line(line: &str) -> (r: Option<LearnedSegment>)
    ensures
        match r {
            Some(e) => line_view(line@) == Some(entry_view(e)),
            None => line_view(line@) is None,
        },
{
    let cols = split_on_tabs(line);
    let ghost v = cols@.map_values(|f: String| f@);
    if cols.len() != 8 {
        return None;
    }
    assert(v[6] == cols@[6]@ && v[7] == cols@[7]@);
    let frequency = match parse_unsigned_str(cols[6].as_str(), u32::MAX as u64) {
        Some(f) => f,
        None => return None,
    };
    let last_used = match parse_unsigned_str(cols[7].as_str(), u64::MAX) {
        Some(t) => t,
        None => return None,
    };
    assert(v[0] == cols@[0]@ && v[1] == cols@[1]@ && v[2] == cols@[2]@ && v[3] == cols@[3]@);
    assert(v[4] == cols@[4]@ && v[5] == cols@[5]@);
    Some(LearnedSegment {
        reading: unescape(cols[0].as_str()),
        surface: unescape(cols[1].as_str()),
        left_hint: decode_hint(cols[2].as_str(), cols[3].as_str()),
        right_hint: decode_hint(cols[4].as_str(), cols[5].as_str()),
        frequency: frequency as u32,
        last_used,
    })
}

/// Whether a stored line is skipped on loading: empty or a `#` comment.
pub open spec fn skipped_line(line: Seq<char>) -> bool {
    line.len() == 0 || line[0] == '#'
}

/// The entries that stored lines hold, in order; comment, empty and
/// malformed lines are skipped.
pub open spec fn loaded(lines: Seq<Seq<char>>) -> Seq<(Seq<char>, Seq<char>, Option<Seq<char>>, Option<Seq<char>>, nat, nat)>
    decreases lines.len(),
{
    if lines.len() == 0 {
        Seq::empty()
    } else {
        let rest = loaded(lines.drop_last());
        let line = lines.last();
        if skipped_line(line) {
            rest
        } else {
            match line_view(line) {
                Some(v) => rest.push(v),
                None => rest,
            }
        }
    }
}

/// Loading the lines of a saved cache gives back its entries, provided no
/// reading starts with `#` (such a line reads as a comment).
pub proof fn lemma_save_load_round_trip(entries: Seq<LearnedSegment>, lines: Seq<Seq<char>>)
    requires
        lines.len() == entries.len() + 1,
        lines[0].len() > 0 && lines[0][0] == '#',
        forall|i: int| 0 <= i < entries.len() ==> lines[i + 1] == entry_line(#[trigger] entries[i]),
        forall|i: int| 0 <= i < entries.len() ==> (#[trigger] entries[i]).reading@.len() == 0 || entries[i].reading@[0] != '#',
    ensures
        loaded(lines) == entries.map_values(|e: LearnedSegment| entry_view(e)),
    decreases entries.len(),
{
    if entries.len() == 0 {
        assert(lines.drop_last() =~= Seq::<Seq<char>>::empty());
        assert(lines.last() == lines[0]);
        assert(skipped_line(lines.last()));
        assert(loaded(lines.drop_last()) =~= Seq::empty());
        assert(loaded(lines) =~= Seq::empty());
        assert(entries.map_values(|e: LearnedSegment| entry_view(e)) =~= Seq::empty());
    } else {
        let es = entries.drop_last();
        let ls = lines.drop_last();
        assert forall|i: int| 0 <= i < es.len() implies ls[i + 1] == entry_line(#[trigger] es[i]) by {
            assert(entries[i] == es[i]);
        }
        assert forall|i: int| 0 <= i < es.len() implies (#[trigger] es[i]).reading@.len() == 0 || es[i].reading@[0] != '#' by {
            assert(entries[i] == es[i]);
        }
        assert(ls[0] == lines[0]);
        lemma_save_load_round_trip(es, ls);
        let e = entries.last();
        assert(lines.last() == entry_line(e)) by {
            assert(entries[entries.len() - 1] == e);
        }
        lemma_line_round_trip(e);
        lemma_line_start(e);
        assert(lines.drop_last() == ls);
        assert(loaded(lines) == loaded(ls).push(entry_view(e)));
        assert(entries.map_values(|e: LearnedSegment| entry_view(e)) =~= es.map_values(|e: LearnedSegment| entry_view(e)).push(entry_view(e)));
    }
}

/// Loading the stored form of a cache gives back its entries, in the
/// stored order, when no reading starts with `#` (such a line reads back
/// as a comment).
pub proof fn lemma_saved_lines_load_back(es: Seq<LearnedSegment>, order: Seq<usize>, lines: Seq<Seq<char>>)
    requires
        saved_order(es, order),
        lines.len() == es.len() + 1,
        lines[0].len() > 0 && lines[0][0] == '#',
        forall|i: int| 0 <= i < order.len() ==> lines[i + 1] == entry_line(#[trigger] es[order[i] as int]),
        forall|i: int| 0 <= i < es.len() ==> (#[trigger] es[i]).reading@.len() == 0 || es[i].reading@[0] != '#',
    ensures
        loaded(lines) == order.map_values(|k: usize| entry_view(es[k as int])),
{
    let stored = order.map_values(|k: usize| es[k as int]);
    assert forall|i: int| 0 <= i < order.len() implies order[i] < es.len() by {
        assert(order.contains(order[i]));
    }
    assert forall|i: int| 0 <= i < stored.len() implies lines[i + 1] == entry_line(#[trigger] stored[i]) by {
        assert(stored[i] == es[order[i] as int]);
    }
    assert forall|i: int| 0 <= i < stored.len() implies (#[trigger] stored[i]).reading@.len() == 0 || stored[i].reading@[0] != '#' by {
        assert(stored[i] == es[order[i] as int]);
    }
    lemma_save_load_round_trip(stored, lines);
    assert(stored.map_values(|e: LearnedSegment| entry_view(e)) =~= order.map_values(|k: usize| entry_view(es[k as int])));
}

proof fn lemma_line_start(e: LearnedSegment)
    requires
        e.reading@.len() == 0 || e.reading@[0] != '#',
    ensures
        !skipped_line(entry_line(e)),
{
    let fs = line_fields(e);
    lemma_join_prefix_start(fs, 8);
    assert(fs.take(8) =~= fs);
    if e.reading@.len() > 0 {
        let c = e.reading@[0];
        assert(escape_seq(e.reading@) == escape_char(c) + escape_seq(e.reading@.subrange(1, e.reading@.len() as int)));
        assert(escape_char(c)[0] == c || escape_char(c)[0] == '\\');
        assert(fs[0][0] == escape_char(c)[0]);
    } else {
        assert(escape_seq(e.reading@) =~= Seq::<char>::empty());
    }
}

proof fn lemma_join_prefix_start(fs: Seq<Seq<char>>, j: int)
    requires
        1 <= j <= fs.len(),
    ensures
        j >= 2 ==> join_fields(fs.take(j)).len() > 0,
        j >= 2 ==> join_fields(fs.take(j))[0] == (if fs[0].len() > 0 { fs[0][0] } else { '\t' }),
        j == 1 ==> join_fields(fs.take(j)) == fs[0],
    decreases j,
{
    if j == 1 {
        assert(fs.take(1) =~= seq![fs[0]]);
    } else {
        lemma_join_prefix_start(fs, j - 1);
        assert(fs.take(j).drop_last() =~= fs.take(j - 1));
        let a = join_fields(fs.take(j - 1));
        assert(join_fields(fs.take(j)) == a + seq!['\t'] + fs.take(j).last());
        if j - 1 == 1 {
            assert(a == fs[0]);
        }
    }
}

/// Whether a line starts with `#` or is empty.
fn is_skipped_line(line: &str) -> (b: bool)
    ensures
        b == skipped_line(line@),
{
    let chars = chars_of(line);
    chars.len() == 0 || chars[0] == '#'
}

/// The key that orders entries in the stored form: the reading.
pub open spec fn reading_keys(es: Seq<LearnedSegment>) -> Seq<TextKey> {
    Seq::new(es.len(), |i: int| (es[i].reading@, Seq::<char>::empty()))
}

/// `order` lists every entry position once, readings in increasing order
/// and positions increasing within a reading.
pub open spec fn saved_order(es: Seq<LearnedSegment>, order: Seq<usize>) -> bool {
    &&& order.len() == es.len()
    &&& forall|x: usize| order.contains(x) <==> x < es.len()
    &&& sorted_positions(reading_keys(es), order)
}

impl SegmentLearningCache {
    /// A cache holding the entries of stored `lines`, in order, that keeps at
    /// most `max_entries` entries from its next change on.
    pub fn load_lines(lines: &Vec<String>, max_entries: usize) -> (c: Self)
        ensures
            c.entries().map_values(|e: LearnedSegment| entry_view(e)) == loaded(lines@.map_values(|l: String| l@)),
            c.capacity() == max_entries,
            !c.dirty_flag(),
    {
        let mut cache = SegmentLearningCache::new(max_entries);
        let ghost ls = lines@.map_values(|l: String| l@);
        let mut i: usize = 0;
        while i < lines.len()
            invariant
                i <= lines@.len(),
                ls == lines@.map_values(|l: String| l@),
                cache.entries@.map_values(|e: LearnedSegment| entry_view(e)) == loaded(ls.take(i as int)),
                cache.max_entries == max_entries,
                !cache.dirty,
            decreases lines@.len() - i,
        {
            assert(ls.take(i + 1).drop_last() =~= ls.take(i as int));
            assert(ls.take(i + 1).last() == lines@[i as int]@);
            let ghost before = cache.entries@;
            if !is_skipped_line(lines[i].as_str()) {
                match parse_line(lines[i].as_str()) {
                    Some(entry) => {
                        cache.entries.push(entry);
                        assert(cache.entries@.map_values(|e: LearnedSegment| entry_view(e))
                            =~= before.map_values(|e: LearnedSegment| entry_view(e)).push(entry_view(entry)));
                    },
                    None => {},
                }
            }
            i += 1;
        }
        assert(ls.take(i as int) =~= ls);
        cache
    }

    /// The stored form of the cache: a comment header, then one line per
    /// entry, readings in increasing order and the entries of one reading
    /// in learned order (see [`saved_order`]). Least recently used entries
    /// beyond capacity are dropped first; the cache still counts as unsaved
    /// until [`SegmentLearningCache::mark_saved`] records a successful write.
    pub fn save_lines(&mut self) -> (lines: Vec<String>)
        ensures
            final(self).entries() == evicted(old(self).entries(), old(self).capacity()),
            final(self).capacity() == old(self).capacity(),
            final(self).dirty_flag() == old(self).dirty_flag(),
            lines@.len() == final(self).entries().len() + 1,
            lines@[0]@.len() > 0 && lines@[0]@[0] == '#',
            exists|order: Seq<usize>| saved_order(final(self).entries(), order)
                && forall|i: int| 0 <= i < order.len() ==> lines@[i + 1]@ == entry_line(#[trigger] final(self).entries()[order[i] as int]),
    {
        self.evict();
        let n = self.entries.len();
        let mut first: Vec<Vec<char>> = Vec::new();
        let mut second: Vec<Vec<char>> = Vec::new();
        let mut positions: Vec<usize> = Vec::new();
        let mut k: usize = 0;
        while k < n
            invariant
                n == self.entries@.len(),
                k <= n,
                first@.len() == k && second@.len() == k && positions@.len() == k,
                forall|j: int| 0 <= j < k ==> (#[trigger] first@[j])@ == self.entries@[j].reading@,
                forall|j: int| 0 <= j < k ==> (#[trigger] second@[j])@ == Seq::<char>::empty(),
                forall|j: int| 0 <= j < k ==> #[trigger] positions@[j] == j,
            decreases n - k,
        {
            first.push(chars_of(self.entries[k].reading.as_str()));
            second.push(Vec::new());
            positions.push(k);
            k += 1;
        }
        assert(text_keys(first@, second@) =~= reading_keys(self.entries@));
        assert(distinct(positions@));
        assert(in_bounds(text_keys(first@, second@), positions@));
        let order = sort_positions(&first, &second, positions);
        proof {
            assert forall|x: usize| order@.contains(x) <==> x < n by {
                if x < n {
                    assert(positions@[x as int] == x);
                }
            }
        }
        let mut lines: Vec<String> = Vec::new();
        let header = copy_str("# karukan segment learning cache v1");
        proof {
            reveal_strlit("# karukan segment learning cache v1");
        }
        lines.push(header);
        let mut i: usize = 0;
        while i < order.len()
            invariant
                n == self.entries@.len() == order@.len(),
                in_bounds(reading_keys(self.entries@), order@),
                i <= order@.len(),
                lines@.len() == i + 1,
                lines@[0]@.len() > 0 && lines@[0]@[0] == '#',
                forall|k: int| 0 <= k < i ==> lines@[k + 1]@ == entry_line(#[trigger] self.entries@[order@[k] as int]),
            decreases order@.len() - i,
        {
            let line = format_line(&self.entries[order[i]]);
            lines.push(line);
            i += 1;
        }
        proof {
            assert(saved_order(self.entries@, order@));
        }
        lines
    }

    /// Records that the stored form was written out: the cache counts as
    /// saved until the next change.
    pub fn mark_saved(&mut self)
        ensures
            final(self).entries() == old(self).entries(),
            final(self).capacity() == old(self).capacity(),
            !final(self).dirty_flag(),
    {
        self.dirty = false;
    }
}

proof fn lemma_first_match_found(
    s: Seq<LearnedSegment>,
    reading: Seq<char>,
    surface: Seq<char>,
    left: Option<Seq<char>>,
    right: Option<Seq<char>>,
)
    ensures
        first_match(s, reading, surface, left, right) matches Some(k) ==> 0 <= k < s.len() && same_key(s[k], reading, surface, left, right),
    decreases s.len(),
{
    if s.len() > 0 {
        lemma_first_match_found(s.drop_last(), reading, surface, left, right);
    }
}

/// Dropping the least recently used entries leaves as many as fit: all of
/// them when there are at most `max`, else exactly `max`.
pub proof fn lemma_evicted_len(s: Seq<LearnedSegment>, max: nat)
    ensures
        evicted(s, max).len() == if s.len() <= max { s.len() } else { max },
    decreases s.len(),
{
    if s.len() > max {
        lemma_oldest_index(s);
        lemma_evicted_len(s.remove(oldest_index(s)), max);
    }
}

/// An entry used more recently than every other survives eviction to any
/// non-zero capacity.
proof fn lemma_evicted_keeps_newest(s: Seq<LearnedSegment>, max: nat, j: int)
    requires
        max >= 1,
        0 <= j < s.len(),
        forall|i: int| 0 <= i < s.len() && i != j ==> (#[trigger] s[i]).last_used < s[j].last_used,
    ensures
        evicted(s, max).contains(s[j]),
    decreases s.len(),
{
    if s.len() <= max {
        assert(evicted(s, max)[j] == s[j]);
    } else {
        lemma_oldest_index(s);
        let o = oldest_index(s);
        let other = if j == 0 { 1int } else { 0int };
        assert(s[o].last_used <= s[other].last_used);
        assert(o != j);
        let t = s.remove(o);
        let j2 = if o < j { j - 1 } else { j };
        assert(t[j2] == s[j]);
        assert forall|i: int| 0 <= i < t.len() && i != j2 implies (#[trigger] t[i]).last_used < t[j2].last_used by {
            if i < o {
                assert(t[i] == s[i]);
            } else {
                assert(t[i] == s[i + 1]);
            }
        }
        lemma_evicted_keeps_newest(t, max, j2);
    }
}

proof fn lemma_applicable_contains(
    s: Seq<LearnedSegment>,
    reading: Seq<char>,
    left: Option<Seq<char>>,
    right: Option<Seq<char>>,
    e: LearnedSegment,
)
    requires
        s.contains(e),
        applies(e, reading, left, right),
    ensures
        applicable_with(s, reading, left, right, context_bonus(e, left, right)).contains(e),
    decreases s.len(),
{
    let b = context_bonus(e, left, right);
    let rest = applicable_with(s.drop_last(), reading, left, right, b);
    if s.last() == e {
        assert(rest.push(e)[rest.len() as int] == e);
    } else {
        let j = choose|j: int| 0 <= j < s.len() && s[j] == e;
        assert(s.drop_last()[j] == e);
        lemma_applicable_contains(s.drop_last(), reading, left, right, e);
        if applies(s.last(), reading, left, right) && context_bonus(s.last(), left, right) == b {
            let k = choose|k: int| 0 <= k < rest.len() && rest[k] == e;
            assert(rest.push(s.last())[k] == e);
        }
    }
}

/// A correction just recorded is found again in its own context: after
/// counting a use of `surface` for `reading` with hints `left` and `right`
/// at a time later than every earlier use, looking `reading` up with the
/// same hints yields an entry with that surface (capacity at least one).
pub proof fn lemma_recorded_is_found(
    pre: Seq<LearnedSegment>,
    mid: Seq<LearnedSegment>,
    reading: Seq<char>,
    surface: Seq<char>,
    left: Option<Seq<char>>,
    right: Option<Seq<char>>,
    now: u64,
    capacity: nat,
)
    requires
        upserted(pre, mid, reading, surface, left, right, now),
        capacity >= 1,
        forall|i: int| 0 <= i < pre.len() ==> (#[trigger] pre[i]).last_used < now,
    ensures
        exists|i: int|
            0 <= i < ranked(evicted(mid, capacity), reading, left, right).len()
                && (#[trigger] ranked(evicted(mid, capacity), reading, left, right)[i]).surface@ == surface,
{
    lemma_first_match_found(pre, reading, surface, left, right);
    let k = match first_match(pre, reading, surface, left, right) {
        Some(k) => k,
        None => mid.len() - 1,
    };
    assert(0 <= k < mid.len());
    assert(same_key(mid[k], reading, surface, left, right));
    assert(mid[k].last_used == now);
    assert forall|i: int| 0 <= i < mid.len() && i != k implies (#[trigger] mid[i]).last_used < mid[k].last_used by {
        if first_match(pre, reading, surface, left, right) is None {
            assert(mid[i] == mid.drop_last()[i]);
        }
    }
    lemma_evicted_keeps_newest(mid, capacity, k);
    let e = mid[k];
    let kept = evicted(mid, capacity);
    assert(applies(e, reading, left, right));
    lemma_applicable_contains(kept, reading, left, right, e);
    let b = context_bonus(e, left, right);
    let a50 = applicable_with(kept, reading, left, right, 50);
    let a30 = applicable_with(kept, reading, left, right, 30);
    let a20 = applicable_with(kept, reading, left, right, 20);
    let a0 = applicable_with(kept, reading, left, right, 0);
    let found = ranked(kept, reading, left, right);
    assert(found == a50 + a30 + a20 + a0);
    let x = applicable_with(kept, reading, left, right, b);
    let j = choose|j: int| 0 <= j < x.len() && x[j] == e;
    if b == 50 {
        assert(found[j] == e);
    } else if b == 30 {
        assert(found[a50.len() + j] == e);
    } else if b == 20 {
        assert(found[a50.len() + a30.len() + j] == e);
    } else {
        assert(b == 0);
        assert(found[a50.len() + a30.len() + a20.len() + j] == e);
    }
}

/// The key a use is counted under: reading, surface and the two hints.
pub open spec fn entry_key(e: LearnedSegment) -> (Seq<char>, Seq<char>, Option<Seq<char>>, Option<Seq<char>>) {
    (e.reading@, e.surface@, opt_view(e.left_hint), opt_view(e.right_hint))
}

/// The keys of entries, in order.
pub open spec fn entry_keys(s: Seq<LearnedSegment>) -> Seq<(Seq<char>, Seq<char>, Option<Seq<char>>, Option<Seq<char>>)> {
    s.map_values(|e: LearnedSegment| entry_key(e))
}

/// Whether `steps` are the entries of a cache of `capacity` as the uses
/// `keys` are recorded one after another (each at some time).
pub open spec fn recorded_in_turn(
    steps: Seq<Seq<LearnedSegment>>,
    keys: Seq<(Seq<char>, Seq<char>, Option<Seq<char>>, Option<Seq<char>>)>,
    capacity: nat,
) -> bool {
    &&& steps.len() == keys.len() + 1
    &&& forall|i: int| 0 <= i < keys.len() ==> exists|now: u64, mid: Seq<LearnedSegment>|
        upserted(steps[i], mid, keys[i].0, keys[i].1, keys[i].2, keys[i].3, now) && #[trigger] steps[i + 1] == evicted(mid, capacity)
}

proof fn lemma_first_match_none(
    s: Seq<LearnedSegment>,
    reading: Seq<char>,
    surface: Seq<char>,
    left: Option<Seq<char>>,
    right: Option<Seq<char>>,
)
    requires
        first_match(s, reading, surface, left, right) is None,
    ensures
        forall|i: int| 0 <= i < s.len() ==> !same_key(#[trigger] s[i], reading, surface, left, right),
    decreases s.len(),
{
    if s.len() > 0 {
        lemma_first_match_none(s.drop_last(), reading, surface, left, right);
        assert forall|i: int| 0 <= i < s.len() implies !same_key(#[trigger] s[i], reading, surface, left, right) by {
            if i < s.len() - 1 {
                assert(s[i] == s.drop_last()[i]);
            }
        }
    }
}

/// One recorded use, as the counting law needs it: the entries number
/// `min(|seen|, capacity)`, and while below capacity they are exactly one
/// per key seen.
proof fn lemma_record_counts(
    pre: Seq<LearnedSegment>,
    mid: Seq<LearnedSegment>,
    key: (Seq<char>, Seq<char>, Option<Seq<char>>, Option<Seq<char>>),
    now: u64,
    capacity: nat,
    seen: Set<(Seq<char>, Seq<char>, Option<Seq<char>>, Option<Seq<char>>)>,
)
    requires
        upserted(pre, mid, key.0, key.1, key.2, key.3, now),
        seen.finite(),
        pre.len() == (if seen.len() < capacity { seen.len() } else { capacity }),
        pre.len() < capacity ==> entry_keys(pre).to_set() == seen,
    ensures
        ({
            let post = evicted(mid, capacity);
            let seen2 = seen.insert(key);
            &&& post.len() == (if seen2.len() < capacity { seen2.len() } else { capacity })
            &&& post.len() < capacity ==> entry_keys(post).to_set() == seen2
        }),
{
    broadcast use vstd::set::group_set_axioms;
    let seen2 = seen.insert(key);
    lemma_evicted_len(mid, capacity);
    lemma_first_match_found(pre, key.0, key.1, key.2, key.3);
    match first_match(pre, key.0, key.1, key.2, key.3) {
        Some(k) => {
            assert(entry_keys(mid) =~= entry_keys(pre)) by {
                assert forall|i: int| 0 <= i < mid.len() implies entry_keys(mid)[i] == entry_keys(pre)[i] by {
                    if i == k {
                        assert(mid[i] == bumped(pre[k], now));
                    }
                }
            }
            if pre.len() < capacity {
                assert(entry_keys(pre)[k] == key);
                assert(entry_keys(pre).contains(key));
                assert(seen.contains(key));
                assert(seen2 =~= seen);
                assert(evicted(mid, capacity) == mid);
            }
        },
        None => {
            lemma_first_match_none(pre, key.0, key.1, key.2, key.3);
            assert(entry_keys(mid) =~= entry_keys(pre).push(key)) by {
                assert forall|i: int| 0 <= i < mid.len() implies entry_keys(mid)[i] == entry_keys(pre).push(key)[i] by {
                    if i < pre.len() {
                        assert(mid[i] == mid.drop_last()[i]);
                    }
                }
            }
            if pre.len() < capacity {
                assert(!seen.contains(key)) by {
                    if seen.contains(key) {
                        assert(entry_keys(pre).to_set().contains(key));
                        let i = choose|i: int| 0 <= i < entry_keys(pre).len() && entry_keys(pre)[i] == key;
                        assert(same_key(pre[i], key.0, key.1, key.2, key.3));
                    }
                }
                assert(evicted(mid, capacity) == mid);
                entry_keys(pre).lemma_push_to_set_commute(key);
            }
        },
    }
}

proof fn lemma_counts_upto(
    steps: Seq<Seq<LearnedSegment>>,
    keys: Seq<(Seq<char>, Seq<char>, Option<Seq<char>>, Option<Seq<char>>)>,
    capacity: nat,
    i: int,
)
    requires
        recorded_in_turn(steps, keys, capacity),
        steps[0].len() == 0,
        0 <= i <= keys.len(),
    ensures
        steps[i].len() == (if keys.take(i).to_set().len() < capacity { keys.take(i).to_set().len() } else { capacity }),
        steps[i].len() < capacity ==> entry_keys(steps[i]).to_set() == keys.take(i).to_set(),
    decreases i,
{
    broadcast use vstd::set::group_set_axioms, vstd::seq_lib::seq_to_set_is_finite;
    if i == 0 {
        assert(keys.take(0).to_set() =~= Set::empty());
        assert(entry_keys(steps[0]).to_set() =~= Set::empty());
    } else {
        let j = i - 1;
        lemma_counts_upto(steps, keys, capacity, j);
        let (now, mid) = choose|now: u64, mid: Seq<LearnedSegment>|
            upserted(steps[j], mid, keys[j].0, keys[j].1, keys[j].2, keys[j].3, now) && #[trigger] steps[j + 1] == evicted(mid, capacity);
        lemma_record_counts(steps[j], mid, keys[j], now, capacity, keys.take(j).to_set());
        assert(keys.take(i) =~= keys.take(j).push(keys[j]));
        keys.take(j).lemma_push_to_set_commute(keys[j]);
    }
}

/// Recording uses one after another into an empty cache leaves one entry
/// per distinct use (reading, surface and hints), at most its capacity:
/// repeating a use never adds an entry.
pub proof fn lemma_entry_count_after_records(
    steps: Seq<Seq<LearnedSegment>>,
    keys: Seq<(Seq<char>, Seq<char>, Option<Seq<char>>, Option<Seq<char>>)>,
    capacity: nat,
)
    requires
        recorded_in_turn(steps, keys, capacity),
        steps[0].len() == 0,
    ensures
        steps.last().len() == (if keys.to_set().len() < capacity { keys.to_set().len() } else { capacity }),
{
    lemma_counts_upto(steps, keys, capacity, keys.len() as int);
    assert(keys.take(keys.len() as int) =~= keys);
}

proof fn lemma_applicable_bonus(
    s: Seq<LearnedSegment>,
    reading: Seq<char>,
    left: Option<Seq<char>>,
    right: Option<Seq<char>>,
    bonus: nat,
)
    ensures
        forall|i: int| 0 <= i < applicable_with(s, reading, left, right, bonus).len()
            ==> context_bonus(#[trigger] applicable_with(s, reading, left, right, bonus)[i], left, right) == bonus
            && applies(applicable_with(s, reading, left, right, bonus)[i], reading, left, right),
    decreases s.len(),
{
    if s.len() > 0 {
        lemma_applicable_bonus(s.drop_last(), reading, left, right, bonus);
        let rest = applicable_with(s.drop_last(), reading, left, right, bonus);
        let out = applicable_with(s, reading, left, right, bonus);
        assert forall|i: int| 0 <= i < out.len() implies context_bonus(#[trigger] out[i], left, right) == bonus
            && applies(out[i], reading, left, right) by {
            if i < rest.len() {
                assert(out[i] == rest[i]);
            }
        }
    }
}

/// Looking a reading up gives only entries that apply in the context, and
/// the stronger the matched context the earlier they come: a right-hand
/// match (30) before a left-hand one (20), both (50) before either, and
/// context-free entries (0) last.
pub proof fn lemma_lookup_strongest_context_first(
    s: Seq<LearnedSegment>,
    reading: Seq<char>,
    left: Option<Seq<char>>,
    right: Option<Seq<char>>,
)
    ensures
        forall|i: int| 0 <= i < ranked(s, reading, left, right).len() ==> applies(
            #[trigger] ranked(s, reading, left, right)[i],
            reading,
            left,
            right,
        ),
        forall|i: int, j: int|
            0 <= i < j < ranked(s, reading, left, right).len() ==> context_bonus(
                #[trigger] ranked(s, reading, left, right)[i],
                left,
                right,
            ) >= context_bonus(#[trigger] ranked(s, reading, left, right)[j], left, right),
{
    let a50 = applicable_with(s, reading, left, right, 50);
    let a30 = applicable_with(s, reading, left, right, 30);
    let a20 = applicable_with(s, reading, left, right, 20);
    let a0 = applicable_with(s, reading, left, right, 0);
    lemma_applicable_bonus(s, reading, left, right, 50);
    lemma_applicable_bonus(s, reading, left, right, 30);
    lemma_applicable_bonus(s, reading, left, right, 20);
    lemma_applicable_bonus(s, reading, left, right, 0);
    let out = ranked(s, reading, left, right);
    assert(out == a50 + a30 + a20 + a0);
    let n1 = a50.len() as int;
    let n2 = n1 + a30.len();
    let n3 = n2 + a20.len();
    assert forall|i: int| 0 <= i < out.len() implies (if i < n1 {
        context_bonus(#[trigger] out[i], left, right) == 50 && out[i] == a50[i]
    } else if i < n2 {
        context_bonus(out[i], left, right) == 30 && out[i] == a30[i - n1]
    } else if i < n3 {
        context_bonus(out[i], left, right) == 20 && out[i] == a20[i - n2]
    } else {
        context_bonus(out[i], left, right) == 0 && out[i] == a0[i - n3]
    }) && applies(out[i], reading, left, right) by {
        if i < n1 {
            assert(out[i] == a50[i]);
        } else if i < n2 {
            assert(out[i] == a30[i - n1]);
        } else if i < n3 {
            assert(out[i] == a20[i - n2]);
        } else {
            assert(out[i] == a0[i - n3]);
        }
    }
}

} // verus!

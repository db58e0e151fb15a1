//! Lexicographic order on texts and pairs of texts (the order of `String`
//! and of `(String, String)`), and a merge sort of record positions by key.
use vstd::prelude::*;

use crate::text::chars_eq;

verus! {

/// `a` comes before `b` in code-point lexicographic order (the order of
/// `str`; for UTF-8 it is also the byte order).
pub open spec fn chars_lt(a: Seq<char>, b: Seq<char>) -> bool
    decreases a.len(),
{
    if a.len() == 0 {
        b.len() > 0
    } else if b.len() == 0 {
        false
    } else if a[0] == b[0] {
        chars_lt(a.drop_first(), b.drop_first())
    } else {
        (a[0] as u32) < (b[0] as u32)
    }
}

/// No text comes before itself.
pub proof fn lemma_chars_lt_irreflexive(a: Seq<char>)
    ensures
        !chars_lt(a, a),
    decreases a.len(),
{
    if a.len() > 0 {
        lemma_chars_lt_irreflexive(a.drop_first());
    }
}

/// The order is transitive.
pub proof fn lemma_chars_lt_transitive(a: Seq<char>, b: Seq<char>, c: Seq<char>)
    requires
        chars_lt(a, b),
        chars_lt(b, c),
    ensures
        chars_lt(a, c),
    decreases a.len(),
{
    if a.len() > 0 && b.len() > 0 && c.len() > 0 && a[0] == b[0] && b[0] == c[0] {
        lemma_chars_lt_transitive(a.drop_first(), b.drop_first(), c.drop_first());
    }
}

/// Of two different texts, one comes before the other.
pub proof fn lemma_chars_lt_total(a: Seq<char>, b: Seq<char>)
    requires
        a != b,
    ensures
        chars_lt(a, b) || chars_lt(b, a),
    decreases a.len(),
{
    if a.len() == 0 {
        assert(b.len() > 0) by {
            if b.len() == 0 {
                assert(a =~= b);
            }
        }
    } else if b.len() == 0 {
    } else if a[0] == b[0] {
        assert(a.drop_first() != b.drop_first()) by {
            if a.drop_first() == b.drop_first() {
                assert(a =~= seq![a[0]] + a.drop_first());
                assert(b =~= seq![b[0]] + b.drop_first());
            }
        }
        lemma_chars_lt_total(a.drop_first(), b.drop_first());
    } else if (a[0] as u32) == (b[0] as u32) {
        vstd::utf8::char_u32_cast(a[0], a[0] as u32);
        vstd::utf8::char_u32_cast(b[0], b[0] as u32);
    }
}

/// A text never comes both before and after another.
pub proof fn lemma_chars_lt_asymmetric(a: Seq<char>, b: Seq<char>)
    requires
        chars_lt(a, b),
    ensures
        !chars_lt(b, a),
{
    if chars_lt(b, a) {
        lemma_chars_lt_transitive(a, b, a);
        lemma_chars_lt_irreflexive(a);
    }
}

/// Comparing after a common prefix of length `i`.
proof fn lemma_chars_lt_skip(a: Seq<char>, b: Seq<char>, i: int)
    requires
        0 <= i <= a.len(),
        i <= b.len(),
        a.take(i) == b.take(i),
    ensures
        chars_lt(a, b) == chars_lt(a.skip(i), b.skip(i)),
    decreases i,
{
    if i > 0 {
        assert(a[0] == a.take(i)[0]);
        assert(b[0] == b.take(i)[0]);
        assert(a.drop_first().take(i - 1) =~= a.take(i).drop_first());
        assert(b.drop_first().take(i - 1) =~= b.take(i).drop_first());
        lemma_chars_lt_skip(a.drop_first(), b.drop_first(), i - 1);
        assert(a.drop_first().skip(i - 1) =~= a.skip(i));
        assert(b.drop_first().skip(i - 1) =~= b.skip(i));
    } else {
        assert(a.skip(0) =~= a);
        assert(b.skip(0) =~= b);
    }
}

/// Whether `a` comes before `b`.
pub fn chars_before(a: &[char], b: &[char]) -> (r: bool)
    ensures
        r == chars_lt(a@, b@),
{
    let mut i: usize = 0;
    while i < a.len() && i < b.len()
        invariant
            i <= a@.len(),
            i <= b@.len(),
            a@.take(i as int) == b@.take(i as int),
        decreases a@.len() - i,
    {
        if a[i] != b[i] {
            proof {
                lemma_chars_lt_skip(a@, b@, i as int);
                assert(a@.skip(i as int)[0] == a@[i as int]);
                assert(b@.skip(i as int)[0] == b@[i as int]);
            }
            let x: u32 = a[i] as u32;
            let y: u32 = b[i] as u32;
            return x < y;
        }
        assert(a@.take(i + 1) =~= a@.take(i as int).push(a@[i as int]));
        assert(b@.take(i + 1) =~= b@.take(i as int).push(b@[i as int]));
        i += 1;
    }
    proof {
        lemma_chars_lt_skip(a@, b@, i as int);
    }
    a.len() < b.len()
}

/// A record key: two texts, ordered by the first, then the second.
pub type TextKey = (Seq<char>, Seq<char>);

/// `a` comes before `b`, as `(String, String)` orders.
pub open spec fn key_lt(a: TextKey, b: TextKey) -> bool {
    chars_lt(a.0, b.0) || (a.0 == b.0 && chars_lt(a.1, b.1))
}

/// `a` comes before `b` or equals it.
pub open spec fn key_le(a: TextKey, b: TextKey) -> bool {
    key_lt(a, b) || a == b
}

/// No key comes before itself.
pub proof fn lemma_key_lt_irreflexive(a: TextKey)
    ensures
        !key_lt(a, a),
{
    lemma_chars_lt_irreflexive(a.0);
    lemma_chars_lt_irreflexive(a.1);
}

/// The key order is transitive.
pub proof fn lemma_key_lt_transitive(a: TextKey, b: TextKey, c: TextKey)
    requires
        key_lt(a, b),
        key_lt(b, c),
    ensures
        key_lt(a, c),
{
    if chars_lt(a.0, b.0) && chars_lt(b.0, c.0) {
        lemma_chars_lt_transitive(a.0, b.0, c.0);
    } else if a.0 == b.0 && b.0 == c.0 {
        lemma_chars_lt_transitive(a.1, b.1, c.1);
    }
}

/// Of two different keys, one comes before the other.
pub proof fn lemma_key_lt_total(a: TextKey, b: TextKey)
    requires
        a != b,
    ensures
        key_lt(a, b) || key_lt(b, a),
{
    if a.0 != b.0 {
        lemma_chars_lt_total(a.0, b.0);
    } else {
        lemma_chars_lt_total(a.1, b.1);
    }
}

/// `key_le` followed by `key_lt` is `key_lt`.
pub proof fn lemma_key_le_lt(a: TextKey, b: TextKey, c: TextKey)
    requires
        key_le(a, b),
        key_lt(b, c),
    ensures
        key_lt(a, c),
{
    if a != b {
        lemma_key_lt_transitive(a, b, c);
    }
}

/// `key_lt` followed by `key_le` is `key_lt`.
pub proof fn lemma_key_lt_le(a: TextKey, b: TextKey, c: TextKey)
    requires
        key_lt(a, b),
        key_le(b, c),
    ensures
        key_lt(a, c),
{
    if b != c {
        lemma_key_lt_transitive(a, b, c);
    }
}

proof fn lemma_push_contains(s: Seq<usize>, y: usize, x: usize)
    ensures
        s.push(y).contains(x) <==> s.contains(x) || x == y,
{
    if s.contains(x) {
        let k = choose|k: int| 0 <= k < s.len() && s[k] == x;
        assert(s.push(y)[k] == x);
    }
    if x == y {
        assert(s.push(y)[s.len() as int] == y);
    }
    if s.push(y).contains(x) {
        let k = choose|k: int| 0 <= k < s.len() + 1 && s.push(y)[k] == x;
        if k < s.len() {
            assert(s[k] == x);
        }
    }
}

/// Record `x` comes before record `y`: by key, then by position.
pub open spec fn before(ks: Seq<TextKey>, x: int, y: int) -> bool {
    key_lt(ks[x], ks[y]) || (ks[x] == ks[y] && x < y)
}

proof fn lemma_before_transitive(ks: Seq<TextKey>, x: int, y: int, z: int)
    requires
        before(ks, x, y),
        before(ks, y, z),
    ensures
        before(ks, x, z),
{
    if key_lt(ks[x], ks[y]) && key_lt(ks[y], ks[z]) {
        lemma_key_lt_transitive(ks[x], ks[y], ks[z]);
    }
}

proof fn lemma_before_total(ks: Seq<TextKey>, x: int, y: int)
    requires
        x != y,
    ensures
        before(ks, x, y) || before(ks, y, x),
{
    if ks[x] != ks[y] {
        lemma_key_lt_total(ks[x], ks[y]);
    }
}

/// Positions in strictly increasing record order.
pub open spec fn sorted_positions(ks: Seq<TextKey>, v: Seq<usize>) -> bool {
    forall|a: int, b: int| 0 <= a < b < v.len() ==> before(ks, #[trigger] v[a] as int, #[trigger] v[b] as int)
}

/// Every position names a record.
pub open spec fn in_bounds(ks: Seq<TextKey>, v: Seq<usize>) -> bool {
    forall|a: int| 0 <= a < v.len() ==> (#[trigger] v[a]) < ks.len()
}

/// No position occurs twice.
pub open spec fn distinct(v: Seq<usize>) -> bool {
    forall|a: int, b: int| 0 <= a < b < v.len() ==> #[trigger] v[a] != #[trigger] v[b]
}

/// The keys of records `0..n` from two columns of texts.
pub open spec fn text_keys(first: Seq<Vec<char>>, second: Seq<Vec<char>>) -> Seq<TextKey> {
    Seq::new(first.len(), |i: int| (first[i]@, second[i]@))
}

/// Whether record `x` comes before record `y`.
fn before_exec(first: &Vec<Vec<char>>, second: &Vec<Vec<char>>, x: usize, y: usize) -> (r: bool)
    requires
        first@.len() == second@.len(),
        x < first@.len(),
        y < first@.len(),
    ensures
        r == before(text_keys(first@, second@), x as int, y as int),
{
    let ghost ks = text_keys(first@, second@);
    let a0 = first[x].as_slice();
    let b0 = first[y].as_slice();
    if chars_before(a0, b0) {
        return true;
    }
    if !chars_eq(a0, b0) {
        return false;
    }
    let a1 = second[x].as_slice();
    let b1 = second[y].as_slice();
    if chars_before(a1, b1) {
        return true;
    }
    if !chars_eq(a1, b1) {
        proof {
            lemma_chars_lt_irreflexive(a0@);
        }
        return false;
    }
    proof {
        lemma_chars_lt_irreflexive(a0@);
        lemma_chars_lt_irreflexive(a1@);
        assert(ks[x as int] == ks[y as int]);
    }
    x < y
}

/// The two sorted runs merged into one.
#[verifier::rlimit(30)]
#[verifier::spinoff_prover]
fn merge_runs(first: &Vec<Vec<char>>, second: &Vec<Vec<char>>, left: Vec<usize>, right: Vec<usize>) -> (out: Vec<usize>)
    requires
        first@.len() == second@.len(),
        in_bounds(text_keys(first@, second@), left@),
        in_bounds(text_keys(first@, second@), right@),
        sorted_positions(text_keys(first@, second@), left@),
        sorted_positions(text_keys(first@, second@), right@),
        forall|a: int, b: int| 0 <= a < left@.len() && 0 <= b < right@.len() ==> #[trigger] left@[a] != #[trigger] right@[b],
    ensures
        out@.len() == left@.len() + right@.len(),
        in_bounds(text_keys(first@, second@), out@),
        sorted_positions(text_keys(first@, second@), out@),
        forall|x: usize| out@.contains(x) <==> left@.contains(x) || right@.contains(x),
{
    let ghost ks = text_keys(first@, second@);
    let mut out: Vec<usize> = Vec::new();
    let mut i: usize = 0;
    let mut j: usize = 0;
    while i < left.len() || j < right.len()
        invariant
            first@.len() == second@.len(),
            ks == text_keys(first@, second@),
            i <= left@.len(),
            j <= right@.len(),
            in_bounds(ks, left@),
            in_bounds(ks, right@),
            sorted_positions(ks, left@),
            sorted_positions(ks, right@),
            forall|a: int, b: int| 0 <= a < left@.len() && 0 <= b < right@.len() ==> #[trigger] left@[a] != #[trigger] right@[b],
            out@.len() == i + j,
            in_bounds(ks, out@),
            sorted_positions(ks, out@),
            forall|x: usize| out@.contains(x) <==> left@.take(i as int).contains(x) || right@.take(j as int).contains(x),
            out@.len() > 0 && i < left@.len() ==> before(ks, out@.last() as int, left@[i as int] as int),
            out@.len() > 0 && j < right@.len() ==> before(ks, out@.last() as int, right@[j as int] as int),
        decreases left@.len() + right@.len() - i - j,
    {
        let take_left = if i < left.len() && j < right.len() {
            before_exec(first, second, left[i], right[j])
        } else {
            i < left.len()
        };
        let y = if take_left { left[i] } else { right[j] };
        proof {
            if !take_left && i < left@.len() {
                lemma_before_total(ks, left@[i as int] as int, right@[j as int] as int);
            }
            assert forall|a: int| 0 <= a < out@.len() implies before(ks, #[trigger] out@[a] as int, y as int) by {
                if a < out@.len() - 1 {
                    lemma_before_transitive(ks, out@[a] as int, out@.last() as int, y as int);
                }
            }
        }
        let ghost old_out = out@;
        out.push(y);
        proof {
            assert forall|a: int, b: int| 0 <= a < b < out@.len() implies before(ks, #[trigger] out@[a] as int, #[trigger] out@[b] as int) by {
                if b == out@.len() - 1 {
                    assert(out@[a] == old_out[a]);
                } else {
                    assert(out@[a] == old_out[a] && out@[b] == old_out[b]);
                }
            }
        }
        assert(out@ == old_out.push(y));
        if take_left {
            proof {
                assert(left@.take(i + 1) =~= left@.take(i as int).push(left@[i as int]));
                assert forall|x: usize| out@.contains(x) <==> left@.take(i + 1).contains(x) || right@.take(j as int).contains(x) by {
                    lemma_push_contains(old_out, y, x);
                    lemma_push_contains(left@.take(i as int), left@[i as int], x);
                    assert(left@.take(i + 1).contains(x) <==> left@.take(i as int).contains(x) || x == left@[i as int]);
                }
            }
            i += 1;
        } else {
            proof {
                assert(right@.take(j + 1) =~= right@.take(j as int).push(right@[j as int]));
                assert forall|x: usize| out@.contains(x) <==> left@.take(i as int).contains(x) || right@.take(j + 1).contains(x) by {
                    lemma_push_contains(old_out, y, x);
                    lemma_push_contains(right@.take(j as int), right@[j as int], x);
                    assert(right@.take(j + 1).contains(x) <==> right@.take(j as int).contains(x) || x == right@[j as int]);
                }
            }
            j += 1;
        }
    }
    assert(left@.take(i as int) =~= left@);
    assert(right@.take(j as int) =~= right@);
    out
}

/// `v` sorted into record order.
pub fn sort_positions(first: &Vec<Vec<char>>, second: &Vec<Vec<char>>, v: Vec<usize>) -> (out: Vec<usize>)
    requires
        first@.len() == second@.len(),
        in_bounds(text_keys(first@, second@), v@),
        distinct(v@),
    ensures
        out@.len() == v@.len(),
        in_bounds(text_keys(first@, second@), out@),
        sorted_positions(text_keys(first@, second@), out@),
        forall|x: usize| out@.contains(x) <==> v@.contains(x),
    decreases v@.len(),
{
    let ghost ks = text_keys(first@, second@);
    if v.len() <= 1 {
        return v;
    }
    let ghost vv = v@;
    let mid = v.len() / 2;
    let mut left = v;
    let right = left.split_off(mid);
    let ghost whole = left@ + right@;
    assert(whole =~= vv);
    let sl = sort_positions(first, second, left);
    let sr = sort_positions(first, second, right);
    proof {
        assert forall|a: int, b: int| 0 <= a < sl@.len() && 0 <= b < sr@.len() implies #[trigger] sl@[a] != #[trigger] sr@[b] by {
            assert(sl@.contains(sl@[a]));
            assert(sr@.contains(sr@[b]));
            let pa = choose|pa: int| 0 <= pa < mid && vv[pa] == sl@[a];
            let pb = choose|pb: int| 0 <= pb < right@.len() && right@[pb] == sr@[b];
            assert(vv[mid + pb] == right@[pb]);
        }
    }
    let out = merge_runs(first, second, sl, sr);
    proof {
        assert forall|x: usize| out@.contains(x) <==> vv.contains(x) by {
            if vv.contains(x) {
                let p = choose|p: int| 0 <= p < vv.len() && vv[p] == x;
                if p < mid {
                    assert(vv.subrange(0, mid as int)[p] == x);
                } else {
                    assert(right@[p - mid] == x);
                }
            }
        }
    }
    out
}

} // verus!

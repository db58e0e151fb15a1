//! Scanning text records: splitting on a separator, finding and replacing
//! substrings, quoted CSV fields and the values of simple XML tags.
use vstd::prelude::*;

use crate::text::{chars_of, chars_occur_at, occurs_at, push_char};

verus! {

/// The strings' texts.
pub open spec fn texts_of(v: Seq<String>) -> Seq<Seq<char>> {
    v.map_values(|f: String| f@)
}

/// The fields of `s` between occurrences of `sep`, as `str::split(sep)`
/// gives them.
pub open spec fn split_on(s: Seq<char>, sep: char) -> Seq<Seq<char>>
    decreases s.len(),
{
    if s.len() == 0 {
        seq![Seq::empty()]
    } else {
        let f = split_on(s.drop_last(), sep);
        if s.last() == sep {
            f.push(Seq::empty())
        } else {
            f.update(f.len() - 1, f.last().push(s.last()))
        }
    }
}

/// The fields of `line` separated by `sep`.
pub fn split_char(line: &str, sep: char) -> (fields: Vec<String>)
    ensures
        texts_of(fields@) == split_on(line@, sep),
{
    let chars = chars_of(line);
    let mut done: Vec<String> = Vec::new();
    let mut cur = String::new();
    let mut i: usize = 0;
    assert(chars@.take(0) =~= Seq::<char>::empty());
    assert(texts_of(done@).push(cur@) =~= seq![Seq::<char>::empty()]);
    while i < chars.len()
        invariant
            i <= chars@.len(),
            chars@ == line@,
            texts_of(done@).push(cur@) == split_on(chars@.take(i as int), sep),
        decreases chars@.len() - i,
    {
        let ghost prev = texts_of(done@).push(cur@);
        assert(chars@.take(i + 1).drop_last() =~= chars@.take(i as int));
        let c = chars[i];
        if c == sep {
            let finished = cur;
            done.push(finished);
            cur = String::new();
            assert(texts_of(done@).push(cur@) =~= prev.push(Seq::<char>::empty()));
        } else {
            push_char(&mut cur, c);
            assert(texts_of(done@).push(cur@) =~= prev.update(prev.len() - 1, prev.last().push(c)));
        }
        i += 1;
    }
    assert(chars@.take(i as int) =~= line@);
    done.push(cur);
    assert(texts_of(done@) =~= split_on(line@, sep));
    done
}

/// The first position at or after `i` where `needle` occurs in `s`.
pub open spec fn find_from(s: Seq<char>, needle: Seq<char>, i: int) -> Option<int>
    decreases s.len() + 1 - i,
{
    if i < 0 || i + needle.len() > s.len() {
        None
    } else if occurs_at(s, needle, i) {
        Some(i)
    } else {
        find_from(s, needle, i + 1)
    }
}

/// The first position where `needle` occurs in `s`, as `str::find` gives
/// it (in characters).
pub open spec fn find_seq(s: Seq<char>, needle: Seq<char>) -> Option<int> {
    find_from(s, needle, 0)
}

/// Where a search finds its needle.
pub proof fn lemma_find_from_bounds(s: Seq<char>, needle: Seq<char>, i: int)
    ensures
        find_from(s, needle, i) matches Some(p) ==> i <= p && p + needle.len() <= s.len() && occurs_at(s, needle, p),
    decreases s.len() + 1 - i,
{
    if i < 0 || i + needle.len() > s.len() {
    } else if occurs_at(s, needle, i) {
    } else {
        lemma_find_from_bounds(s, needle, i + 1);
    }
}

/// The first position where `needle` occurs in `s`.
pub fn find_chars(s: &[char], needle: &[char]) -> (r: Option<usize>)
    ensures
        r matches Some(p) ==> find_seq(s@, needle@) == Some(p as int),
        r is None ==> find_seq(s@, needle@) is None,
        r matches Some(p) ==> p + needle@.len() <= s@.len() && occurs_at(s@, needle@, p as int),
{
    proof {
        lemma_find_from_bounds(s@, needle@, 0);
    }
    if needle.len() > s.len() {
        return None;
    }
    let last = s.len() - needle.len();
    let mut i: usize = 0;
    loop
        invariant
            last + needle@.len() == s@.len(),
            i <= last,
            find_from(s@, needle@, 0) == find_from(s@, needle@, i as int),
        decreases last - i,
    {
        if chars_occur_at(s, needle, i) {
            return Some(i);
        }
        if i == last {
            assert(find_from(s@, needle@, i + 1) is None);
            return None;
        }
        i += 1;
    }
}

/// `s` with every occurrence of `from`, taken from the left without
/// overlaps, replaced by `to` (as `str::replace` does).
pub open spec fn replace_all(s: Seq<char>, from: Seq<char>, to: Seq<char>) -> Seq<char>
    decreases s.len(),
{
    if s.len() == 0 || from.len() == 0 {
        s
    } else if occurs_at(s, from, 0) {
        to + replace_all(s.skip(from.len() as int), from, to)
    } else {
        seq![s[0]] + replace_all(s.skip(1), from, to)
    }
}

/// `s` with every occurrence of the non-empty `from` replaced by `to`.
pub fn replace_chars(s: &[char], from: &[char], to: &[char]) -> (out: Vec<char>)
    requires
        from@.len() > 0,
    ensures
        out@ == replace_all(s@, from@, to@),
{
    let mut out: Vec<char> = Vec::new();
    let mut i: usize = 0;
    assert(s@.skip(0) =~= s@);
    while i < s.len()
        invariant
            from@.len() > 0,
            i <= s@.len(),
            out@ + replace_all(s@.skip(i as int), from@, to@) == replace_all(s@, from@, to@),
        decreases s@.len() - i,
    {
        let ghost rest = s@.skip(i as int);
        assert(rest.len() > 0);
        if chars_occur_at(s, from, i) {
            assert(occurs_at(rest, from@, 0)) by {
                assert(rest.subrange(0, from@.len() as int) =~= s@.subrange(i as int, i + from@.len()));
            }
            assert(rest.skip(from@.len() as int) =~= s@.skip(i + from@.len()));
            let ghost before = out@;
            let mut k: usize = 0;
            while k < to.len()
                invariant
                    k <= to@.len(),
                    out@ == before + to@.take(k as int),
                decreases to@.len() - k,
            {
                out.push(to[k]);
                assert(to@.take(k + 1) =~= to@.take(k as int).push(to@[k as int]));
                k += 1;
            }
            assert(to@.take(k as int) =~= to@);
            assert(before + (to@ + replace_all(s@.skip(i + from@.len()), from@, to@))
                =~= out@ + replace_all(s@.skip(i + from@.len()), from@, to@));
            i += from.len();
        } else {
            assert(!occurs_at(rest, from@, 0)) by {
                if rest.len() >= from@.len() {
                    assert(rest.subrange(0, from@.len() as int) =~= s@.subrange(i as int, i + from@.len()));
                }
            }
            assert(rest.skip(1) =~= s@.skip(i + 1));
            assert(rest[0] == s@[i as int]);
            let ghost before = out@;
            out.push(s[i]);
            assert(before + (seq![s@[i as int]] + replace_all(s@.skip(i + 1), from@, to@))
                =~= out@ + replace_all(s@.skip(i + 1), from@, to@));
            i += 1;
        }
    }
    assert(s@.skip(i as int) =~= Seq::<char>::empty());
    assert(out@ + Seq::<char>::empty() =~= out@);
    out
}

/// The contents of every `open ... close` element of `s`, in order; the
/// scan stops at an element that is never closed.
pub open spec fn tag_values(s: Seq<char>, open: Seq<char>, close: Seq<char>) -> Seq<Seq<char>>
    decreases s.len(),
{
    if open.len() == 0 {
        Seq::empty()
    } else {
        match find_seq(s, open) {
            None => Seq::empty(),
            Some(st) => {
                let content = s.skip(st + open.len());
                match find_seq(content, close) {
                    None => Seq::empty(),
                    Some(e) => {
                        proof {
                            lemma_find_from_bounds(s, open, 0);
                            lemma_find_from_bounds(content, close, 0);
                        }
                        seq![content.take(e)] + tag_values(content.skip(e + close.len()), open, close)
                    },
                }
            },
        }
    }
}

/// The contents of every `<tag>...</tag>` element of `block`, unprocessed.
pub fn tag_contents(block: &str, tag: &str) -> (values: Vec<Vec<char>>)
    ensures
        values@.map_values(|v: Vec<char>| v@) == tag_values(block@, seq!['<'] + tag@ + seq!['>'], seq!['<', '/'] + tag@ + seq!['>']),
{
    let t = chars_of(tag);
    let mut open: Vec<char> = Vec::new();
    open.push('<');
    let mut close: Vec<char> = Vec::new();
    close.push('<');
    close.push('/');
    let mut k: usize = 0;
    while k < t.len()
        invariant
            k <= t@.len(),
            open@ == seq!['<'] + t@.take(k as int),
            close@ == seq!['<', '/'] + t@.take(k as int),
        decreases t@.len() - k,
    {
        open.push(t[k]);
        close.push(t[k]);
        assert(t@.take(k + 1) =~= t@.take(k as int).push(t@[k as int]));
        k += 1;
    }
    open.push('>');
    close.push('>');
    assert(t@.take(k as int) =~= tag@);
    assert(open@ =~= seq!['<'] + tag@ + seq!['>']);
    assert(close@ =~= seq!['<', '/'] + tag@ + seq!['>']);
    let chars = chars_of(block);
    let mut values: Vec<Vec<char>> = Vec::new();
    let mut rest: Vec<char> = chars;
    assert(values@.map_values(|v: Vec<char>| v@) =~= Seq::<Seq<char>>::empty());
    assert(Seq::<Seq<char>>::empty() + tag_values(rest@, open@, close@) =~= tag_values(rest@, open@, close@));
    while true
        invariant
            open@.len() > 0,
            values@.map_values(|v: Vec<char>| v@) + tag_values(rest@, open@, close@) == tag_values(block@, open@, close@),
        ensures
            values@.map_values(|v: Vec<char>| v@) == tag_values(block@, open@, close@),
        decreases rest@.len(),
    {
        let rest_len = rest.len();
        let ghost before = values@.map_values(|v: Vec<char>| v@);
        proof {
            lemma_find_from_bounds(rest@, open@, 0);
        }
        let start = match find_chars(rest.as_slice(), open.as_slice()) {
            Some(p) => p,
            None => {
                assert(tag_values(rest@, open@, close@) =~= Seq::<Seq<char>>::empty());
                assert(values@.map_values(|v: Vec<char>| v@) + Seq::<Seq<char>>::empty() =~= values@.map_values(|v: Vec<char>| v@));
                break;
            },
        };
        let content = skip_chars(rest.as_slice(), start + open.len());
        let content_len = content.len();
        proof {
            lemma_find_from_bounds(content@, close@, 0);
        }
        let end = match find_chars(content.as_slice(), close.as_slice()) {
            Some(e) => e,
            None => {
                assert(tag_values(rest@, open@, close@) =~= Seq::<Seq<char>>::empty());
                assert(values@.map_values(|v: Vec<char>| v@) + Seq::<Seq<char>>::empty() =~= values@.map_values(|v: Vec<char>| v@));
                break;
            },
        };
        let value = take_chars(content.as_slice(), end);
        let next = skip_chars(content.as_slice(), end + close.len());
        assert(tag_values(rest@, open@, close@) == seq![value@] + tag_values(next@, open@, close@));
        values.push(value);
        assert(values@.map_values(|v: Vec<char>| v@) =~= before.push(content@.take(end as int)));
        assert(before + (seq![value@] + tag_values(next@, open@, close@)) =~= values@.map_values(|v: Vec<char>| v@) + tag_values(next@, open@, close@));
        rest = next;
    }
    values
}

/// The characters of `s` from position `i` on.
pub fn skip_chars(s: &[char], i: usize) -> (out: Vec<char>)
    requires
        i <= s@.len(),
    ensures
        out@ == s@.skip(i as int),
{
    let mut out: Vec<char> = Vec::new();
    let mut k: usize = i;
    while k < s.len()
        invariant
            i <= k <= s@.len(),
            out@ == s@.subrange(i as int, k as int),
        decreases s@.len() - k,
    {
        out.push(s[k]);
        assert(s@.subrange(i as int, k + 1) =~= s@.subrange(i as int, k as int).push(s@[k as int]));
        k += 1;
    }
    assert(s@.subrange(i as int, k as int) =~= s@.skip(i as int));
    out
}

/// The first `n` characters of `s`.
pub fn take_chars(s: &[char], n: usize) -> (out: Vec<char>)
    requires
        n <= s@.len(),
    ensures
        out@ == s@.take(n as int),
{
    let mut out: Vec<char> = Vec::new();
    let mut k: usize = 0;
    while k < n
        invariant
            k <= n <= s@.len(),
            out@ == s@.take(k as int),
        decreases n - k,
    {
        out.push(s[k]);
        assert(s@.take(k + 1) =~= s@.take(k as int).push(s@[k as int]));
        k += 1;
    }
    out
}

/// The fields of one CSV record from position `i` on, given the fields
/// already finished, the field being read and whether a quote is open.
pub open spec fn csv_scan(s: Seq<char>, i: int, done: Seq<Seq<char>>, field: Seq<char>, quoted: bool) -> Seq<Seq<char>>
    decreases s.len() - i,
{
    if i < 0 || i >= s.len() {
        done.push(field)
    } else if s[i] == '"' && quoted && i + 1 < s.len() && s[i + 1] == '"' {
        csv_scan(s, i + 2, done, field.push('"'), quoted)
    } else if s[i] == '"' {
        csv_scan(s, i + 1, done, field, !quoted)
    } else if s[i] == ',' && !quoted {
        csv_scan(s, i + 1, done.push(field), Seq::empty(), quoted)
    } else {
        csv_scan(s, i + 1, done, field.push(s[i]), quoted)
    }
}

/// The fields of one CSV record: commas separate fields outside quotes,
/// quotes are dropped and a doubled quote inside quotes stands for one.
pub open spec fn csv_fields(s: Seq<char>) -> Seq<Seq<char>> {
    csv_scan(s, 0, Seq::empty(), Seq::empty(), false)
}

/// The fields of one CSV record.
pub fn parse_csv_record(line: &str) -> (fields: Vec<String>)
    ensures
        texts_of(fields@) == csv_fields(line@),
{
    let chars = chars_of(line);
    let mut fields: Vec<String> = Vec::new();
    let mut field = String::new();
    let mut quoted = false;
    let mut i: usize = 0;
    assert(texts_of(fields@) =~= Seq::<Seq<char>>::empty());
    while i < chars.len()
        invariant
            chars@ == line@,
            i <= chars@.len(),
            csv_scan(chars@, i as int, texts_of(fields@), field@, quoted) == csv_fields(line@),
        decreases chars@.len() - i,
    {
        let ch = chars[i];
        if ch == '"' && quoted && i + 1 < chars.len() && chars[i + 1] == '"' {
            push_char(&mut field, '"');
            i += 2;
        } else if ch == '"' {
            quoted = !quoted;
            i += 1;
        } else if ch == ',' && !quoted {
            let ghost prev = texts_of(fields@);
            let finished = field;
            fields.push(finished);
            field = String::new();
            assert(texts_of(fields@) =~= prev.push(finished@));
            i += 1;
        } else {
            push_char(&mut field, ch);
            i += 1;
        }
    }
    let ghost prev = texts_of(fields@);
    let last = field;
    fields.push(last);
    assert(texts_of(fields@) =~= prev.push(last@));
    fields
}

/// `s` with `&amp;`, `&lt;` and `&gt;` decoded, in that order.
pub open spec fn decode_basic_entities(s: Seq<char>) -> Seq<char> {
    replace_all(replace_all(replace_all(s, "&amp;"@, "&"@), "&lt;"@, "<"@), "&gt;"@, ">"@)
}

/// `s` with `&amp;`, `&lt;`, `&gt;`, `&quot;` and `&apos;` decoded, in that
/// order.
pub open spec fn decode_all_entities(s: Seq<char>) -> Seq<char> {
    replace_all(replace_all(decode_basic_entities(s), "&quot;"@, "\""@), "&apos;"@, "'"@)
}

/// Replaces one entity everywhere in `s`.
fn replace_entity(s: Vec<char>, from: &str, to: &str) -> (out: Vec<char>)
    requires
        from@.len() > 0,
    ensures
        out@ == replace_all(s@, from@, to@),
{
    let f = chars_of(from);
    let t = chars_of(to);
    replace_chars(s.as_slice(), f.as_slice(), t.as_slice())
}

/// Decodes `&amp;`, `&lt;` and `&gt;`.
pub fn decode_basic(s: Vec<char>) -> (out: Vec<char>)
    ensures
        out@ == decode_basic_entities(s@),
{
    proof {
        reveal_strlit("&amp;");
        reveal_strlit("&lt;");
        reveal_strlit("&gt;");
    }
    let a = replace_entity(s, "&amp;", "&");
    let b = replace_entity(a, "&lt;", "<");
    replace_entity(b, "&gt;", ">")
}

/// Decodes `&amp;`, `&lt;`, `&gt;`, `&quot;` and `&apos;`.
pub fn decode_all(s: Vec<char>) -> (out: Vec<char>)
    ensures
        out@ == decode_all_entities(s@),
{
    proof {
        reveal_strlit("&quot;");
        reveal_strlit("&apos;");
    }
    let a = decode_basic(s);
    let b = replace_entity(a, "&quot;", "\"");
    replace_entity(b, "&apos;", "'")
}

} // verus!

//! Importers for Japanese addresses, place names, stations and natural
//! features: Japan Post `KEN_ALL` CSV, JMnedict XML, GSI place-name CSV
//! and SKK dictionaries, each read from the lines of its file.
use vstd::prelude::*;

use crate::dict::{DictionaryCategory, DictionarySource};
use crate::dictionary_import::{pair_records, push_pairs, tag_elements};
use crate::dictionary_source::{
    entry_views, lemma_normalized_records_append, lemma_normalized_records_push, merge_normalized_entries, merged,
    normalized_records, push_entry, trim, trimmed, EntryView, NormalizedDictionaryEntry, RawRecord,
};
use crate::text::{chars_of, copy_str, opt_view, push_char, push_str, seq_contains_seq, str_contains, str_eq, string_from_chars};
use crate::text_scan::{
    decode_basic, decode_basic_entities, find_chars, find_seq, parse_csv_record, csv_fields,
    split_on, split_char, tag_contents, texts_of,
};

verus! {

// ---------------------------------------------------------------------------
// Japan Post
// ---------------------------------------------------------------------------

/// `s` up to its first opening parenthesis, full-width or ASCII.
pub open spec fn before_paren(s: Seq<char>) -> Seq<char>
    decreases s.len(),
{
    if s.len() == 0 || s[0] == '（' || s[0] == '(' {
        Seq::empty()
    } else {
        seq![s[0]] + before_paren(s.skip(1))
    }
}

/// A town name without its parenthesized notes; none for the placeholder
/// used where no town is listed, or when nothing is left.
pub open spec fn town_name(value: Seq<char>) -> Option<Seq<char>> {
    if seq_contains_seq(value, "以下に掲載がない場合"@) {
        None
    } else {
        let t = trimmed(before_paren(value));
        if t.len() > 0 { Some(t) } else { None }
    }
}

/// The town name in `value` (see [`town_name`]).
pub fn cleaned_town(value: &str) -> (r: Option<String>)
    ensures
        opt_view(r) == town_name(value@),
{
    if str_contains(value, "以下に掲載がない場合") {
        return None;
    }
    let chars = chars_of(value);
    let mut head = String::new();
    let mut i: usize = 0;
    assert(value@.skip(0) =~= value@);
    assert(head@ + before_paren(value@) =~= before_paren(value@));
    while i < chars.len() && chars[i] != '（' && chars[i] != '('
        invariant
            chars@ == value@,
            i <= chars@.len(),
            before_paren(value@) == head@ + before_paren(value@.skip(i as int)),
        decreases chars@.len() - i,
    {
        let ghost rest = value@.skip(i as int);
        assert(rest[0] == chars@[i as int]);
        assert(rest.skip(1) =~= value@.skip(i + 1));
        let ghost h = head@;
        push_char(&mut head, chars[i]);
        assert(h.push(rest[0]) + before_paren(rest.skip(1)) =~= h + (seq![rest[0]] + before_paren(rest.skip(1))));
        i += 1;
    }
    assert(before_paren(value@.skip(i as int)) =~= Seq::<char>::empty());
    assert(head@ + Seq::<char>::empty() =~= head@);
    let t = trim(head.as_str());
    if t.as_str().is_empty() { None } else { Some(t) }
}

/// The records of one `KEN_ALL` line: the prefecture, the municipality and
/// both together, then, when the town is listed, the town and the town
/// joined to the municipality and to both.
pub open spec fn japan_post_line(line: Seq<char>) -> Seq<RawRecord> {
    let c = csv_fields(line);
    if c.len() < 9 {
        Seq::empty()
    } else {
        let src = DictionarySource::JapanPost;
        let cat = DictionaryCategory::Address;
        let base = seq![
            (c[3], c[6], 50i64, src, cat, None),
            (c[4], c[7], 40i64, src, cat, Some(c[6])),
            (c[3] + c[4], c[6] + c[7], 20i64, src, cat, None)
        ];
        match (town_name(c[5]), town_name(c[8])) {
            (Some(tr), Some(t)) => base + seq![
                (tr, t, 30i64, src, cat, Some(c[6] + seq![' '] + c[7])),
                (c[4] + tr, c[7] + t, 15i64, src, cat, Some(c[6])),
                (c[3] + c[4] + tr, c[6] + c[7] + t, 10i64, src, cat, None)
            ],
            _ => base,
        }
    }
}

/// The records of the lines of a `KEN_ALL` file.
pub open spec fn japan_post_records(lines: Seq<Seq<char>>) -> Seq<RawRecord>
    decreases lines.len(),
{
    if lines.len() == 0 {
        Seq::empty()
    } else {
        japan_post_records(lines.drop_last()) + japan_post_line(lines.last())
    }
}

/// `a` followed by `b`.
fn concat(a: &str, b: &str) -> (s: String)
    ensures
        s@ == a@ + b@,
{
    let mut s = copy_str(a);
    push_str(&mut s, b);
    s
}

/// Appends the records of one `KEN_ALL` line.
#[verifier::rlimit(40)]
fn import_japan_post_line(line: &str, entries: &mut Vec<NormalizedDictionaryEntry>)
    ensures
        entry_views(final(entries)@) == entry_views(old(entries)@) + normalized_records(japan_post_line(line@)),
{
    let c = parse_csv_record(line);
    let ghost cs = texts_of(c@);
    let ghost recs = japan_post_line(line@);
    let ghost start = entry_views(entries@);
    if c.len() < 9 {
        assert(normalized_records(recs) == Seq::<EntryView>::empty()) by {
            assert(recs =~= Seq::<RawRecord>::empty());
        }
        assert(start + Seq::<EntryView>::empty() =~= start);
        return;
    }
    let src = DictionarySource::JapanPost;
    let cat = DictionaryCategory::Address;
    let ghost r0 = (cs[3], cs[6], 50i64, src, cat, None::<Seq<char>>);
    let ghost r1 = (cs[4], cs[7], 40i64, src, cat, Some(cs[6]));
    let ghost r2 = (cs[3] + cs[4], cs[6] + cs[7], 20i64, src, cat, None::<Seq<char>>);
    push_entry(entries, c[3].as_str(), c[6].as_str(), 50, src, cat, None);
    push_entry(entries, c[4].as_str(), c[7].as_str(), 40, src, cat, Some(copy_str(c[6].as_str())));
    let pc = concat(c[3].as_str(), c[4].as_str());
    let ps = concat(c[6].as_str(), c[7].as_str());
    push_entry(entries, pc.as_str(), ps.as_str(), 20, src, cat, None);
    proof {
        let e: Seq<RawRecord> = Seq::empty();
        lemma_normalized_records_push(e, r0);
        lemma_normalized_records_push(e.push(r0), r1);
        lemma_normalized_records_push(e.push(r0).push(r1), r2);
        assert(normalized_records(e) == Seq::<EntryView>::empty());
        assert(e.push(r0).push(r1).push(r2) =~= seq![r0, r1, r2]);
    }
    let town_reading = cleaned_town(c[5].as_str());
    let town = cleaned_town(c[8].as_str());
    match (town_reading, town) {
        (Some(tr), Some(t)) => {
            let ghost base = seq![r0, r1, r2];
            let ghost r3 = (tr@, t@, 30i64, src, cat, Some(cs[6] + seq![' '] + cs[7]));
            let ghost r4 = (cs[4] + tr@, cs[7] + t@, 15i64, src, cat, Some(cs[6]));
            let ghost r5 = (cs[3] + cs[4] + tr@, cs[6] + cs[7] + t@, 10i64, src, cat, None::<Seq<char>>);
            let mut parent = copy_str(c[6].as_str());
            push_char(&mut parent, ' ');
            push_str(&mut parent, c[7].as_str());
            assert(parent@ =~= cs[6] + seq![' '] + cs[7]);
            push_entry(entries, tr.as_str(), t.as_str(), 30, src, cat, Some(parent));
            let ct = concat(c[4].as_str(), tr.as_str());
            let cst = concat(c[7].as_str(), t.as_str());
            push_entry(entries, ct.as_str(), cst.as_str(), 15, src, cat, Some(copy_str(c[6].as_str())));
            let pct = concat(pc.as_str(), tr.as_str());
            let psct = concat(ps.as_str(), t.as_str());
            push_entry(entries, pct.as_str(), psct.as_str(), 10, src, cat, None);
            proof {
                lemma_normalized_records_push(base, r3);
                lemma_normalized_records_push(base.push(r3), r4);
                lemma_normalized_records_push(base.push(r3).push(r4), r5);
                assert(base.push(r3).push(r4).push(r5) =~= base + seq![r3, r4, r5]);
                assert(recs == base + seq![r3, r4, r5]);
                assert(entry_views(entries@) =~= start + normalized_records(recs));
            }
        },
        _ => {
            assert(recs == seq![r0, r1, r2]);
            assert(entry_views(entries@) =~= start + normalized_records(recs));
        },
    }
}

/// Imports the lines of Japan Post's UTF-8 `KEN_ALL` address CSV; a whole
/// address resolves in one lookup.
pub fn import_japan_post_lines(lines: &Vec<String>) -> (out: Vec<NormalizedDictionaryEntry>)
    ensures
        merged(normalized_records(japan_post_records(texts_of(lines@))), entry_views(out@)),
{
    let ghost ls = texts_of(lines@);
    let mut entries: Vec<NormalizedDictionaryEntry> = Vec::new();
    let mut i: usize = 0;
    while i < lines.len()
        invariant
            ls == texts_of(lines@),
            i <= lines@.len(),
            entry_views(entries@) == normalized_records(japan_post_records(ls.take(i as int))),
        decreases lines@.len() - i,
    {
        assert(ls.take(i + 1).drop_last() =~= ls.take(i as int));
        assert(ls.take(i + 1).last() == lines@[i as int]@);
        import_japan_post_line(lines[i].as_str(), &mut entries);
        proof {
            lemma_normalized_records_append(japan_post_records(ls.take(i as int)), japan_post_line(lines@[i as int]@));
        }
        i += 1;
    }
    assert(ls.take(i as int) =~= ls);
    merge_normalized_entries(entries)
}

// ---------------------------------------------------------------------------
// JMnedict
// ---------------------------------------------------------------------------

/// Each value with `&amp;`, `&lt;` and `&gt;` decoded.
pub open spec fn decoded_basic(vs: Seq<Seq<char>>) -> Seq<Seq<char>> {
    vs.map_values(|v: Seq<char>| decode_basic_entities(v))
}

/// The contents of the `<tag>` elements of `block`, with `&amp;`, `&lt;`
/// and `&gt;` decoded.
pub fn extract_xml_tags(block: &str, tag: &str) -> (values: Vec<String>)
    ensures
        texts_of(values@) == decoded_basic(tag_elements(block@, tag@)),
{
    let raw = tag_contents(block, tag);
    let mut values: Vec<String> = Vec::new();
    let mut k: usize = 0;
    while k < raw.len()
        invariant
            k <= raw@.len(),
            raw@.map_values(|v: Vec<char>| v@) == tag_elements(block@, tag@),
            texts_of(values@) == decoded_basic(tag_elements(block@, tag@)).take(k as int),
        decreases raw@.len() - k,
    {
        let ghost prev = texts_of(values@);
        let copy = crate::text_scan::take_chars(raw[k].as_slice(), raw[k].len());
        assert(copy@ =~= raw@[k as int]@);
        let decoded = decode_basic(copy);
        values.push(string_from_chars(decoded.as_slice()));
        assert(texts_of(values@) =~= prev.push(decode_basic_entities(raw@[k as int]@)));
        assert(decoded_basic(tag_elements(block@, tag@)).take(k + 1) =~= decoded_basic(tag_elements(block@, tag@)).take(k as int).push(decode_basic_entities(raw@[k as int]@)));
        k += 1;
    }
    assert(decoded_basic(tag_elements(block@, tag@)).take(k as int) =~= decoded_basic(tag_elements(block@, tag@)));
    values
}

/// The category that a JMnedict entry's name types give.
pub open spec fn name_category(block: Seq<char>) -> DictionaryCategory {
    if seq_contains_seq(block, "&station;"@) {
        DictionaryCategory::Station
    } else if seq_contains_seq(block, "&geog;"@) || seq_contains_seq(block, "&mount;"@) || seq_contains_seq(block, "&river;"@) {
        DictionaryCategory::NaturalFeature
    } else if seq_contains_seq(block, "&organization;"@) || seq_contains_seq(block, "&company;"@) {
        DictionaryCategory::Organization
    } else if seq_contains_seq(block, "&surname;"@) || seq_contains_seq(block, "&given;"@) || seq_contains_seq(block, "&person;"@) {
        DictionaryCategory::Person
    } else {
        DictionaryCategory::Place
    }
}

/// The category of a JMnedict entry (see [`name_category`]).
pub fn jmnedict_category(block: &str) -> (c: DictionaryCategory)
    ensures
        c == name_category(block@),
{
    if str_contains(block, "&station;") {
        DictionaryCategory::Station
    } else if str_contains(block, "&geog;") || str_contains(block, "&mount;") || str_contains(block, "&river;") {
        DictionaryCategory::NaturalFeature
    } else if str_contains(block, "&organization;") || str_contains(block, "&company;") {
        DictionaryCategory::Organization
    } else if str_contains(block, "&surname;") || str_contains(block, "&given;") || str_contains(block, "&person;") {
        DictionaryCategory::Person
    } else {
        DictionaryCategory::Place
    }
}

/// The records of one JMnedict `<entry>` block: every reading paired with
/// every written form, described by the first translation detail.
pub open spec fn jmnedict_entry(block: Seq<char>) -> Seq<RawRecord> {
    let readings = decoded_basic(tag_elements(block, "reb"@));
    let surfaces = decoded_basic(tag_elements(block, "keb"@));
    let details = decoded_basic(tag_elements(block, "trans_det"@));
    let description = if details.len() > 0 { Some(details[0]) } else { None };
    pair_records(readings, surfaces, 100, DictionarySource::JMnedict, name_category(block), description)
}

/// Appends the records of one JMnedict `<entry>` block.
pub fn import_jmnedict_entry(block: &str, output: &mut Vec<NormalizedDictionaryEntry>)
    ensures
        entry_views(final(output)@) == entry_views(old(output)@) + normalized_records(jmnedict_entry(block@)),
{
    let readings = extract_xml_tags(block, "reb");
    let surfaces = extract_xml_tags(block, "keb");
    let details = extract_xml_tags(block, "trans_det");
    let description = if details.len() > 0 { Some(copy_str(details[0].as_str())) } else { None };
    let category = jmnedict_category(block);
    push_pairs(output, &readings, &surfaces, 100, DictionarySource::JMnedict, category, &description);
}

/// The records of JMnedict lines from line `i` on, read in entry blocks
/// as JMdict lines are.
pub open spec fn jmnedict_scan(lines: Seq<Seq<char>>, i: int, block: Seq<char>, inside: bool) -> Seq<RawRecord>
    decreases lines.len() - i,
{
    if i < 0 || i >= lines.len() {
        Seq::empty()
    } else {
        let line = lines[i];
        let starts = seq_contains_seq(line, "<entry>"@);
        let inside1 = inside || starts;
        let block1 = if starts { Seq::empty() } else { block };
        let block2 = if inside1 { block1 + line + seq!['\n'] } else { block1 };
        if inside1 && seq_contains_seq(line, "</entry>"@) {
            jmnedict_entry(block2) + jmnedict_scan(lines, i + 1, block2, false)
        } else {
            jmnedict_scan(lines, i + 1, block2, inside1)
        }
    }
}

/// Imports the lines of a JMnedict XML file.
pub fn import_jmnedict_lines(lines: &Vec<String>) -> (out: Vec<NormalizedDictionaryEntry>)
    ensures
        merged(normalized_records(jmnedict_scan(texts_of(lines@), 0, Seq::empty(), false)), entry_views(out@)),
{
    let ghost ls = texts_of(lines@);
    let ghost whole = jmnedict_scan(ls, 0, Seq::empty(), false);
    let mut entries: Vec<NormalizedDictionaryEntry> = Vec::new();
    let mut block = String::new();
    let mut inside = false;
    let ghost mut done: Seq<RawRecord> = Seq::empty();
    let mut i: usize = 0;
    assert(Seq::<RawRecord>::empty() + whole =~= whole);
    while i < lines.len()
        invariant
            ls == texts_of(lines@),
            whole == jmnedict_scan(ls, 0, Seq::empty(), false),
            i <= lines@.len(),
            done + jmnedict_scan(ls, i as int, block@, inside) == whole,
            entry_views(entries@) == normalized_records(done),
        decreases lines@.len() - i,
    {
        let line = lines[i].as_str();
        let ghost old_block = block@;
        let ghost old_inside = inside;
        let starts = str_contains(line, "<entry>");
        if starts {
            inside = true;
            block = String::new();
        }
        if inside {
            push_str(&mut block, line);
            push_char(&mut block, '\n');
        }
        proof {
            let inside1 = old_inside || starts;
            let block1 = if starts { Seq::<char>::empty() } else { old_block };
            let block2 = if inside1 { block1 + line@ + seq!['\n'] } else { block1 };
            assert(ls[i as int] == line@);
            assert(inside == inside1);
            assert(block@ =~= block2);
        }
        if inside && str_contains(line, "</entry>") {
            import_jmnedict_entry(block.as_str(), &mut entries);
            proof {
                lemma_normalized_records_append(done, jmnedict_entry(block@));
                assert(done + (jmnedict_entry(block@) + jmnedict_scan(ls, i + 1, block@, false))
                    =~= done + jmnedict_entry(block@) + jmnedict_scan(ls, i + 1, block@, false));
                done = done + jmnedict_entry(block@);
            }
            inside = false;
        }
        i += 1;
    }
    assert(jmnedict_scan(ls, i as int, block@, inside) =~= Seq::<RawRecord>::empty());
    assert(done + Seq::<RawRecord>::empty() =~= done);
    merge_normalized_entries(entries)
}

// ---------------------------------------------------------------------------
// GSI place names
// ---------------------------------------------------------------------------

/// Whether `header`, trimmed, is one of `aliases`.
pub open spec fn names_column(header: Seq<char>, aliases: Seq<Seq<char>>) -> bool {
    exists|k: int| 0 <= k < aliases.len() && trimmed(header) == aliases[k]
}

/// The first header from position `i` on that one of `aliases` names.
pub open spec fn header_from(headers: Seq<Seq<char>>, aliases: Seq<Seq<char>>, i: int) -> Option<int>
    decreases headers.len() - i,
{
    if i < 0 || i >= headers.len() {
        None
    } else if names_column(headers[i], aliases) {
        Some(i)
    } else {
        header_from(headers, aliases, i + 1)
    }
}

/// The first header that one of `aliases` names.
pub open spec fn header_position(headers: Seq<Seq<char>>, aliases: Seq<Seq<char>>) -> Option<int> {
    header_from(headers, aliases, 0)
}

/// The views of some string slices.
pub open spec fn str_views(v: Seq<&str>) -> Seq<Seq<char>> {
    v.map_values(|a: &str| a@)
}

/// The position of the first header that one of `aliases` names.
pub fn header_index(headers: &[String], aliases: &[&str]) -> (r: Option<usize>)
    ensures
        match r {
            Some(i) => header_position(texts_of(headers@), str_views(aliases@)) == Some(i as int),
            None => header_position(texts_of(headers@), str_views(aliases@)) is None,
        },
{
    let ghost hs = texts_of(headers@);
    let ghost al = str_views(aliases@);
    let mut i: usize = 0;
    while i < headers.len()
        invariant
            hs == texts_of(headers@),
            al == str_views(aliases@),
            i <= headers@.len(),
            header_from(hs, al, 0) == header_from(hs, al, i as int),
        decreases headers@.len() - i,
    {
        let h = trim(headers[i].as_str());
        let mut k: usize = 0;
        let mut found = false;
        while k < aliases.len()
            invariant
                al == str_views(aliases@),
                k <= aliases@.len(),
                found == exists|j: int| 0 <= j < k && h@ == al[j],
            decreases aliases@.len() - k,
        {
            let ghost a = aliases@[k as int]@;
            assert(al[k as int] == a);
            let same = str_eq(h.as_str(), aliases[k]);
            if same {
                found = true;
            }
            assert(found == exists|j: int| 0 <= j < k + 1 && h@ == al[j]) by {
                if exists|j: int| 0 <= j < k + 1 && h@ == al[j] {
                    let j = choose|j: int| 0 <= j < k + 1 && h@ == al[j];
                    if j < k {
                        assert(exists|j2: int| 0 <= j2 < k && h@ == al[j2]);
                    }
                }
            }
            k += 1;
        }
        assert(found == names_column(hs[i as int], al));
        if found {
            return Some(i);
        }
        i += 1;
    }
    None
}

/// The category of a place by its kind and name: a station when either
/// says so, a natural feature for a mountain, river, lake, marsh, cape,
/// island, strait or waterfall, otherwise a place.
pub open spec fn place_category(kind: Seq<char>, surface: Seq<char>) -> DictionaryCategory {
    if kind.contains('駅') || (surface.len() > 0 && surface.last() == '駅') {
        DictionaryCategory::Station
    } else if seq_contains_seq(kind, "山"@) || seq_contains_seq(kind, "河川"@) || seq_contains_seq(kind, "湖"@)
        || seq_contains_seq(kind, "沼"@) || seq_contains_seq(kind, "岬"@) || seq_contains_seq(kind, "島"@)
        || seq_contains_seq(kind, "海峡"@) || seq_contains_seq(kind, "滝"@) {
        DictionaryCategory::NaturalFeature
    } else {
        DictionaryCategory::Place
    }
}

/// The category of a place (see [`place_category`]).
pub fn gsi_category(kind: &str, surface: &str) -> (c: DictionaryCategory)
    ensures
        c == place_category(kind@, surface@),
{
    let kc = chars_of(kind);
    let sc = chars_of(surface);
    if crate::text::chars_contain_char(kc.as_slice(), '駅') || (sc.len() > 0 && sc[sc.len() - 1] == '駅') {
        DictionaryCategory::Station
    } else if str_contains(kind, "山") || str_contains(kind, "河川") || str_contains(kind, "湖")
        || str_contains(kind, "沼") || str_contains(kind, "岬") || str_contains(kind, "島")
        || str_contains(kind, "海峡") || str_contains(kind, "滝") {
        DictionaryCategory::NaturalFeature
    } else {
        DictionaryCategory::Place
    }
}

/// `s` without any leading `c`.
pub open spec fn strip_leading(s: Seq<char>, c: char) -> Seq<char>
    decreases s.len(),
{
    if s.len() > 0 && s[0] == c { strip_leading(s.skip(1), c) } else { s }
}

/// `s` without any trailing `c`.
pub open spec fn strip_trailing(s: Seq<char>, c: char) -> Seq<char>
    decreases s.len(),
{
    if s.len() > 0 && s.last() == c { strip_trailing(s.drop_last(), c) } else { s }
}

/// `text` without any leading `c` (`str::trim_start_matches`).
pub fn trim_start_char(text: &str, c: char) -> (out: String)
    ensures
        out@ == strip_leading(text@, c),
{
    let chars = chars_of(text);
    let mut i: usize = 0;
    assert(text@.skip(0) =~= text@);
    while i < chars.len() && chars[i] == c
        invariant
            chars@ == text@,
            i <= chars@.len(),
            strip_leading(text@, c) == strip_leading(text@.skip(i as int), c),
        decreases chars@.len() - i,
    {
        assert(text@.skip(i as int).skip(1) =~= text@.skip(i + 1));
        i += 1;
    }
    let rest = crate::text_scan::skip_chars(chars.as_slice(), i);
    string_from_chars(rest.as_slice())
}

/// `text` without any leading or trailing `c` (`str::trim_matches`).
pub fn trim_char(text: &str, c: char) -> (out: String)
    ensures
        out@ == strip_trailing(strip_leading(text@, c), c),
{
    let front = trim_start_char(text, c);
    let chars = chars_of(front.as_str());
    let mut n: usize = chars.len();
    assert(front@.take(n as int) =~= front@);
    while n > 0 && chars[n - 1] == c
        invariant
            chars@ == front@,
            n <= chars@.len(),
            strip_trailing(front@, c) == strip_trailing(front@.take(n as int), c),
        decreases n,
    {
        assert(front@.take(n as int).drop_last() =~= front@.take(n - 1));
        n -= 1;
    }
    let kept = crate::text_scan::take_chars(chars.as_slice(), n);
    string_from_chars(kept.as_slice())
}

/// The column at `idx`, when it is present and not blank.
pub open spec fn present_part(cols: Seq<Seq<char>>, idx: Option<int>) -> Seq<Seq<char>> {
    match idx {
        Some(i) => if 0 <= i < cols.len() && trimmed(cols[i]).len() > 0 { seq![cols[i]] } else { Seq::empty() },
        None => Seq::empty(),
    }
}

/// Texts joined with single spaces.
pub open spec fn join_spaces(parts: Seq<Seq<char>>) -> Seq<char>
    decreases parts.len(),
{
    if parts.len() == 0 {
        Seq::empty()
    } else if parts.len() == 1 {
        parts[0]
    } else {
        join_spaces(parts.drop_last()) + seq![' '] + parts.last()
    }
}

/// The record of one GSI row, given the positions of the reading, name,
/// kind, prefecture and municipality columns.
pub open spec fn gsi_row(line: Seq<char>, r: int, s: int, k: Option<int>, p: Option<int>, c: Option<int>) -> Seq<RawRecord> {
    let cols = csv_fields(line);
    if r < 0 || r >= cols.len() || s < 0 || s >= cols.len() {
        Seq::empty()
    } else {
        let kind = match k {
            Some(ki) => if 0 <= ki < cols.len() { cols[ki] } else { Seq::empty() },
            None => Seq::empty(),
        };
        let description = join_spaces(present_part(cols, p) + present_part(cols, c));
        seq![(cols[r], cols[s], 150i64, DictionarySource::Gsi, place_category(kind, cols[s]),
            if description.len() > 0 { Some(description) } else { None })]
    }
}

/// The records of GSI rows.
pub open spec fn gsi_rows(rows: Seq<Seq<char>>, r: int, s: int, k: Option<int>, p: Option<int>, c: Option<int>) -> Seq<RawRecord>
    decreases rows.len(),
{
    if rows.len() == 0 {
        Seq::empty()
    } else {
        gsi_rows(rows.drop_last(), r, s, k, p, c) + gsi_row(rows.last(), r, s, k, p, c)
    }
}

/// Header names of the reading column.
pub open spec fn reading_aliases() -> Seq<Seq<char>> {
    seq!["読み仮名"@, "よみ"@, "読み"@, "reading"@]
}

/// Header names of the name column.
pub open spec fn name_aliases() -> Seq<Seq<char>> {
    seq!["地名"@, "名称"@, "name"@]
}

/// Header names of the kind column.
pub open spec fn kind_aliases() -> Seq<Seq<char>> {
    seq!["種別"@, "分類"@, "type"@]
}

/// Header names of the prefecture column.
pub open spec fn prefecture_aliases() -> Seq<Seq<char>> {
    seq!["都道府県"@, "都道府県名"@, "prefecture"@]
}

/// Header names of the municipality column.
pub open spec fn municipality_aliases() -> Seq<Seq<char>> {
    seq!["市区町村"@, "市区町村名"@, "municipality"@]
}

/// The records of a GSI place-name CSV: the first line names the columns
/// (after any byte-order marks); without a reading or a name column there
/// are none.
pub open spec fn gsi_records(lines: Seq<Seq<char>>) -> Seq<RawRecord> {
    if lines.len() == 0 {
        Seq::empty()
    } else {
        let headers = csv_fields(strip_leading(lines[0], '\u{feff}'));
        match (header_position(headers, reading_aliases()), header_position(headers, name_aliases())) {
            (Some(r), Some(s)) => gsi_rows(lines.skip(1), r, s, header_position(headers, kind_aliases()),
                header_position(headers, prefecture_aliases()), header_position(headers, municipality_aliases())),
            _ => Seq::empty(),
        }
    }
}

/// The column at `idx` of `cols`, when present and not blank.
fn present_column(cols: &Vec<String>, idx: Option<usize>) -> (r: Option<String>)
    ensures
        match r {
            Some(v) => present_part(texts_of(cols@), match idx { Some(i) => Some(i as int), None => None }) == seq![v@],
            None => present_part(texts_of(cols@), match idx { Some(i) => Some(i as int), None => None }) == Seq::<Seq<char>>::empty(),
        },
{
    match idx {
        Some(i) => {
            if i < cols.len() {
                let t = trim(cols[i].as_str());
                if t.as_str().is_empty() { None } else { Some(copy_str(cols[i].as_str())) }
            } else {
                None
            }
        },
        None => None,
    }
}

/// Appends the record of one GSI row.
#[verifier::rlimit(30)]
fn import_gsi_row(line: &str, r: usize, s: usize, k: Option<usize>, p: Option<usize>, c: Option<usize>, entries: &mut Vec<NormalizedDictionaryEntry>)
    ensures
        entry_views(final(entries)@) == entry_views(old(entries)@) + normalized_records(gsi_row(line@, r as int, s as int,
            match k { Some(i) => Some(i as int), None => None },
            match p { Some(i) => Some(i as int), None => None },
            match c { Some(i) => Some(i as int), None => None })),
{
    let cols = parse_csv_record(line);
    let ghost cs = texts_of(cols@);
    let ghost ki = match k { Some(i) => Some(i as int), None => None };
    let ghost pi = match p { Some(i) => Some(i as int), None => None };
    let ghost ci = match c { Some(i) => Some(i as int), None => None };
    let ghost recs = gsi_row(line@, r as int, s as int, ki, pi, ci);
    let ghost start = entry_views(entries@);
    if r >= cols.len() || s >= cols.len() {
        assert(recs =~= Seq::<RawRecord>::empty());
        assert(start + Seq::<EntryView>::empty() =~= start);
        return;
    }
    let none = String::new();
    let kind: &str = match k {
        Some(i) => if i < cols.len() { cols[i].as_str() } else { none.as_str() },
        None => none.as_str(),
    };
    let first = present_column(&cols, p);
    let second = present_column(&cols, c);
    let description = match (first, second) {
        (Some(a), Some(b)) => {
            let mut d = a;
            push_char(&mut d, ' ');
            push_str(&mut d, b.as_str());
            Some(d)
        },
        (Some(a), None) => Some(a),
        (None, Some(b)) => Some(b),
        (None, None) => None,
    };
    proof {
        let parts = present_part(cs, pi) + present_part(cs, ci);
        let joined = join_spaces(parts);
        if parts.len() == 2 {
            assert(parts.drop_last() =~= seq![parts[0]]);
            assert(join_spaces(parts.drop_last()) == parts[0]);
        }
        assert(opt_view(description) == (if joined.len() > 0 { Some(joined) } else { None::<Seq<char>> }));
    }
    let category = gsi_category(kind, cols[s].as_str());
    push_entry(entries, cols[r].as_str(), cols[s].as_str(), 150, DictionarySource::Gsi, category, description);
    proof {
        let one = recs[0];
        assert(recs =~= seq![one]);
        lemma_normalized_records_push(Seq::<RawRecord>::empty(), one);
        assert(Seq::<RawRecord>::empty().push(one) =~= seq![one]);
        assert(normalized_records(Seq::<RawRecord>::empty()) == Seq::<EntryView>::empty());
        assert(entry_views(entries@) =~= start + normalized_records(recs));
    }
}

/// A string slice list as a vector.
fn alias_list(a: &'static str, b: &'static str, c: &'static str, d: Option<&'static str>) -> (v: Vec<&'static str>)
    ensures
        str_views(v@) == (match d { Some(x) => seq![a@, b@, c@, x@], None => seq![a@, b@, c@] }),
{
    let mut v: Vec<&str> = Vec::new();
    v.push(a);
    v.push(b);
    v.push(c);
    match d {
        Some(x) => v.push(x),
        None => {},
    }
    assert(str_views(v@) =~= (match d { Some(x) => seq![a@, b@, c@, x@], None => seq![a@, b@, c@] }));
    v
}

/// The position as a spec value.
pub open spec fn opt_int(o: Option<usize>) -> Option<int> {
    match o {
        Some(i) => Some(i as int),
        None => None,
    }
}

/// Imports the lines of a GSI place-name CSV whose header uses common
/// Japanese or English column names.
pub fn import_gsi_lines(lines: &Vec<String>) -> (out: Vec<NormalizedDictionaryEntry>)
    ensures
        merged(normalized_records(gsi_records(texts_of(lines@))), entry_views(out@)),
{
    let ghost ls = texts_of(lines@);
    let mut entries: Vec<NormalizedDictionaryEntry> = Vec::new();
    if lines.len() == 0 {
        assert(gsi_records(ls) =~= Seq::<RawRecord>::empty());
        return merge_normalized_entries(entries);
    }
    let header = trim_start_char(lines[0].as_str(), '\u{feff}');
    let headers = parse_csv_record(header.as_str());
    let ghost hs = texts_of(headers@);
    let ra = alias_list("読み仮名", "よみ", "読み", Some("reading"));
    let na = alias_list("地名", "名称", "name", None);
    let ka = alias_list("種別", "分類", "type", None);
    let pa = alias_list("都道府県", "都道府県名", "prefecture", None);
    let ma = alias_list("市区町村", "市区町村名", "municipality", None);
    let reading_index = header_index(headers.as_slice(), ra.as_slice());
    let surface_index = header_index(headers.as_slice(), na.as_slice());
    let kind_index = header_index(headers.as_slice(), ka.as_slice());
    let pref_index = header_index(headers.as_slice(), pa.as_slice());
    let city_index = header_index(headers.as_slice(), ma.as_slice());
    proof {
        assert(str_views(ra@) == reading_aliases());
        assert(str_views(na@) == name_aliases());
        assert(str_views(ka@) == kind_aliases());
        assert(str_views(pa@) == prefecture_aliases());
        assert(str_views(ma@) == municipality_aliases());
    }
    let (r, s) = match (reading_index, surface_index) {
        (Some(r), Some(s)) => (r, s),
        _ => {
            assert(gsi_records(ls) =~= Seq::<RawRecord>::empty());
            return merge_normalized_entries(entries);
        },
    };
    let ghost rows = ls.skip(1);
    let ghost (ki, pi, ci) = (opt_int(kind_index), opt_int(pref_index), opt_int(city_index));
    assert(gsi_records(ls) == gsi_rows(rows, r as int, s as int, ki, pi, ci));
    let mut i: usize = 1;
    assert(rows.take(0) =~= Seq::<Seq<char>>::empty());
    while i < lines.len()
        invariant
            ls == texts_of(lines@),
            rows == ls.skip(1),
            1 <= i <= lines@.len(),
            ki == opt_int(kind_index) && pi == opt_int(pref_index) && ci == opt_int(city_index),
            entry_views(entries@) == normalized_records(gsi_rows(rows.take(i - 1), r as int, s as int, ki, pi, ci)),
        decreases lines@.len() - i,
    {
        assert(rows.take(i as int).drop_last() =~= rows.take(i - 1));
        assert(rows.take(i as int).last() == lines@[i as int]@);
        import_gsi_row(lines[i].as_str(), r, s, kind_index, pref_index, city_index, &mut entries);
        proof {
            lemma_normalized_records_append(gsi_rows(rows.take(i - 1), r as int, s as int, ki, pi, ci),
                gsi_row(lines@[i as int]@, r as int, s as int, ki, pi, ci));
        }
        i += 1;
    }
    assert(rows.take(i - 1) =~= rows);
    merge_normalized_entries(entries)
}

// ---------------------------------------------------------------------------
// SKK
// ---------------------------------------------------------------------------

/// `s` split at its first `c`, if any.
pub open spec fn split_once(s: Seq<char>, c: char) -> Option<(Seq<char>, Seq<char>)> {
    match find_seq(s, seq![c]) {
        Some(p) => Some((s.take(p), s.skip(p + 1))),
        None => None,
    }
}

/// `text` split at its first `c` (`str::split_once`).
pub fn split_once_char(text: &str, c: char) -> (r: Option<(String, String)>)
    ensures
        match r {
            Some((a, b)) => split_once(text@, c) == Some((a@, b@)),
            None => split_once(text@, c) is None,
        },
{
    let chars = chars_of(text);
    let n = chars.len();
    let mut needle: Vec<char> = Vec::new();
    needle.push(c);
    assert(needle@ =~= seq![c]);
    match find_chars(chars.as_slice(), needle.as_slice()) {
        Some(p) => {
            assert(p + 1 <= n);
            let a = crate::text_scan::take_chars(chars.as_slice(), p);
            let b = crate::text_scan::skip_chars(chars.as_slice(), p + 1);
            Some((string_from_chars(a.as_slice()), string_from_chars(b.as_slice())))
        },
        None => None,
    }
}

/// The record of one SKK candidate (`surface` or `surface;annotation`).
pub open spec fn skk_candidate(reading: Seq<char>, candidate: Seq<char>) -> RawRecord {
    match split_once(candidate, ';') {
        Some((surface, annotation)) => (reading, surface, 300i64, DictionarySource::Skk, place_category(annotation, surface), Some(annotation)),
        None => (reading, candidate, 300i64, DictionarySource::Skk, place_category(Seq::empty(), candidate), None),
    }
}

/// The records of an SKK line's candidates.
pub open spec fn skk_candidates(reading: Seq<char>, candidates: Seq<Seq<char>>) -> Seq<RawRecord> {
    candidates.map_values(|cand: Seq<char>| skk_candidate(reading, cand))
}

/// The records of one SKK line (`reading /candidate/candidate/`); blank
/// lines and `;` comments give none.
pub open spec fn skk_line(line: Seq<char>) -> Seq<RawRecord> {
    let t = trimmed(line);
    if t.len() == 0 || t[0] == ';' {
        Seq::empty()
    } else {
        match split_once(t, ' ') {
            None => Seq::empty(),
            Some((reading, rest)) => skk_candidates(reading, split_on(strip_trailing(strip_leading(rest, '/'), '/'), '/')),
        }
    }
}

/// The records of the lines of an SKK dictionary.
pub open spec fn skk_records(lines: Seq<Seq<char>>) -> Seq<RawRecord>
    decreases lines.len(),
{
    if lines.len() == 0 {
        Seq::empty()
    } else {
        skk_records(lines.drop_last()) + skk_line(lines.last())
    }
}

/// Appends the records of one SKK line.
fn import_skk_line(line: &str, entries: &mut Vec<NormalizedDictionaryEntry>)
    ensures
        entry_views(final(entries)@) == entry_views(old(entries)@) + normalized_records(skk_line(line@)),
{
    let ghost start = entry_views(entries@);
    let t = trim(line);
    let tc = chars_of(t.as_str());
    if tc.len() == 0 || tc[0] == ';' {
        assert(skk_line(line@) =~= Seq::<RawRecord>::empty());
        assert(start + Seq::<EntryView>::empty() =~= start);
        return;
    }
    let (reading, rest) = match split_once_char(t.as_str(), ' ') {
        Some(parts) => parts,
        None => {
            assert(skk_line(line@) =~= Seq::<RawRecord>::empty());
            assert(start + Seq::<EntryView>::empty() =~= start);
            return;
        },
    };
    let trimmed_rest = trim_char(rest.as_str(), '/');
    let candidates = split_char(trimmed_rest.as_str(), '/');
    let ghost cands = texts_of(candidates@);
    let ghost all = skk_candidates(reading@, cands);
    assert(skk_line(line@) == all);
    let mut k: usize = 0;
    while k < candidates.len()
        invariant
            cands == texts_of(candidates@),
            all == skk_candidates(reading@, cands),
            k <= candidates@.len(),
            entry_views(entries@) == start + normalized_records(all.take(k as int)),
        decreases candidates@.len() - k,
    {
        let cand = candidates[k].as_str();
        let ghost rec = skk_candidate(reading@, cand@);
        match split_once_char(cand, ';') {
            Some((surface, annotation)) => {
                let category = gsi_category(annotation.as_str(), surface.as_str());
                push_entry(entries, reading.as_str(), surface.as_str(), 300, DictionarySource::Skk, category, Some(annotation));
            },
            None => {
                let none = String::new();
                let category = gsi_category(none.as_str(), cand);
                push_entry(entries, reading.as_str(), cand, 300, DictionarySource::Skk, category, None);
            },
        }
        proof {
            assert(all.take(k + 1) =~= all.take(k as int).push(rec));
            lemma_normalized_records_push(all.take(k as int), rec);
        }
        k += 1;
    }
    assert(all.take(k as int) =~= all);
}

/// Imports the lines of an SKK dictionary of place names.
pub fn import_skk_lines(lines: &Vec<String>) -> (out: Vec<NormalizedDictionaryEntry>)
    ensures
        merged(normalized_records(skk_records(texts_of(lines@))), entry_views(out@)),
{
    let ghost ls = texts_of(lines@);
    let mut entries: Vec<NormalizedDictionaryEntry> = Vec::new();
    let mut i: usize = 0;
    while i < lines.len()
        invariant
            ls == texts_of(lines@),
            i <= lines@.len(),
            entry_views(entries@) == normalized_records(skk_records(ls.take(i as int))),
        decreases lines@.len() - i,
    {
        assert(ls.take(i + 1).drop_last() =~= ls.take(i as int));
        assert(ls.take(i + 1).last() == lines@[i as int]@);
        import_skk_line(lines[i].as_str(), &mut entries);
        proof {
            lemma_normalized_records_append(skk_records(ls.take(i as int)), skk_line(lines@[i as int]@));
        }
        i += 1;
    }
    assert(ls.take(i as int) =~= ls);
    merge_normalized_entries(entries)
}

// ---------------------------------------------------------------------------
// Diagnostics
// ---------------------------------------------------------------------------

/// How many of `es` have category `c`.
pub open spec fn category_count(es: Seq<NormalizedDictionaryEntry>, c: DictionaryCategory) -> nat
    decreases es.len(),
{
    if es.len() == 0 {
        0
    } else {
        category_count(es.drop_last(), c) + if es.last().category == c { 1nat } else { 0nat }
    }
}

/// The number of records of each category that occurs, categories in the
/// order they first occur.
pub fn category_counts(entries: &[NormalizedDictionaryEntry]) -> (counts: Vec<(DictionaryCategory, usize)>)
    ensures
        forall|a: int, b: int| 0 <= a < b < counts@.len() ==> (#[trigger] counts@[a]).0 != (#[trigger] counts@[b]).0,
        forall|k: int| 0 <= k < counts@.len() ==> (#[trigger] counts@[k]).1 == category_count(entries@, counts@[k].0),
        forall|c: DictionaryCategory| category_count(entries@, c) > 0 <==> exists|k: int| 0 <= k < counts@.len() && (#[trigger] counts@[k]).0 == c,
{
    let mut counts: Vec<(DictionaryCategory, usize)> = Vec::new();
    let mut i: usize = 0;
    while i < entries.len()
        invariant
            i <= entries@.len(),
            forall|a: int, b: int| 0 <= a < b < counts@.len() ==> (#[trigger] counts@[a]).0 != (#[trigger] counts@[b]).0,
            forall|k: int| 0 <= k < counts@.len() ==> (#[trigger] counts@[k]).1 == category_count(entries@.take(i as int), counts@[k].0),
            forall|c: DictionaryCategory| category_count(entries@.take(i as int), c) > 0 <==> exists|k: int| 0 <= k < counts@.len() && (#[trigger] counts@[k]).0 == c,
            forall|c: DictionaryCategory| category_count(entries@.take(i as int), c) <= i,
        decreases entries@.len() - i,
    {
        let cat = entries[i].category;
        let ghost prev = entries@.take(i as int);
        let ghost next = entries@.take(i + 1);
        assert(next.drop_last() =~= prev);
        assert(next.last() == entries@[i as int]);
        let mut k: usize = 0;
        while k < counts.len() && counts[k].0 != cat
            invariant
                k <= counts@.len(),
                forall|j: int| 0 <= j < k ==> (#[trigger] counts@[j]).0 != cat,
            decreases counts@.len() - k,
        {
            k += 1;
        }
        let ghost old_counts = counts@;
        if k < counts.len() {
            let (c0, n0) = counts[k];
            assert(n0 == category_count(prev, cat));
            counts.set(k, (c0, n0 + 1));
            proof {
                assert forall|c: DictionaryCategory| category_count(next, c) > 0 <==> exists|j: int| 0 <= j < counts@.len() && (#[trigger] counts@[j]).0 == c by {
                    if category_count(prev, c) > 0 {
                        let j = choose|j: int| 0 <= j < old_counts.len() && (#[trigger] old_counts[j]).0 == c;
                        assert(counts@[j].0 == c);
                    }
                    if exists|j: int| 0 <= j < counts@.len() && (#[trigger] counts@[j]).0 == c {
                        let j = choose|j: int| 0 <= j < counts@.len() && (#[trigger] counts@[j]).0 == c;
                        assert(old_counts[j].0 == c);
                    }
                }
            }
        } else {
            assert(category_count(prev, cat) == 0) by {
                if category_count(prev, cat) > 0 {
                    let j = choose|j: int| 0 <= j < old_counts.len() && (#[trigger] old_counts[j]).0 == cat;
                    assert(old_counts[j].0 != cat);
                }
            }
            counts.push((cat, 1));
            proof {
                assert forall|c: DictionaryCategory| category_count(next, c) > 0 <==> exists|j: int| 0 <= j < counts@.len() && (#[trigger] counts@[j]).0 == c by {
                    if category_count(prev, c) > 0 {
                        let j = choose|j: int| 0 <= j < old_counts.len() && (#[trigger] old_counts[j]).0 == c;
                        assert(counts@[j].0 == c);
                    }
                    if c == cat {
                        assert(counts@[old_counts.len() as int].0 == c);
                    }
                    if exists|j: int| 0 <= j < counts@.len() && (#[trigger] counts@[j]).0 == c {
                        let j = choose|j: int| 0 <= j < counts@.len() && (#[trigger] counts@[j]).0 == c;
                        if j < old_counts.len() {
                            assert(old_counts[j].0 == c);
                        }
                    }
                }
            }
        }
        i += 1;
    }
    assert(entries@.take(i as int) =~= entries@);
    counts
}

} // verus!

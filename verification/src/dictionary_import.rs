//! Importers for general Japanese dictionary sources: Mozc TSV, Sudachi
//! CSV and JMdict XML, each read from the lines of its file.
use vstd::prelude::*;

use crate::dict::{DictionaryCategory, DictionarySource};
use crate::dictionary_source::{
    entry_views, lemma_normalized_records_append, merge_normalized_entries, merged, normalized_one,
    normalized_records, push_entry, trim, trimmed, NormalizedDictionaryEntry, RawRecord,
};
use crate::segment_learning::{all_digits, digits_value, parse_unsigned, parse_unsigned_str};
use crate::text::{chars_of, copy_str, opt_view, seq_contains_seq, str_contains, str_eq, string_from_chars};
use crate::text_scan::{decode_all, decode_all_entities, split_char, split_on, tag_contents, tag_values, texts_of};

verus! {

/// The category that dictionary labels (part-of-speech or usage notes)
/// name.
pub open spec fn label_category(labels: Seq<char>) -> DictionaryCategory {
    if seq_contains_seq(labels, "成句"@) || seq_contains_seq(labels, "慣用"@) || seq_contains_seq(labels, "&exp;"@)
        || seq_contains_seq(labels, "&id;"@) {
        DictionaryCategory::Idiom
    } else if seq_contains_seq(labels, "人名"@) {
        DictionaryCategory::Person
    } else if seq_contains_seq(labels, "組織"@) {
        DictionaryCategory::Organization
    } else if seq_contains_seq(labels, "地名"@) {
        DictionaryCategory::Place
    } else {
        DictionaryCategory::General
    }
}

/// The category that `labels` name.
pub fn category_from_labels(labels: &str) -> (c: DictionaryCategory)
    ensures
        c == label_category(labels@),
{
    if str_contains(labels, "成句") || str_contains(labels, "慣用") || str_contains(labels, "&exp;")
        || str_contains(labels, "&id;") {
        DictionaryCategory::Idiom
    } else if str_contains(labels, "人名") {
        DictionaryCategory::Person
    } else if str_contains(labels, "組織") {
        DictionaryCategory::Organization
    } else if str_contains(labels, "地名") {
        DictionaryCategory::Place
    } else {
        DictionaryCategory::General
    }
}

/// The normalized records of one raw record.
proof fn lemma_normalized_single(r: RawRecord)
    ensures
        normalized_records(seq![r]) == normalized_one(r),
{
    assert(seq![r].drop_last() =~= Seq::<RawRecord>::empty());
    assert(seq![r].last() == r);
    assert(normalized_records(Seq::<RawRecord>::empty()) == Seq::<crate::dictionary_source::EntryView>::empty());
    assert(Seq::<crate::dictionary_source::EntryView>::empty() + normalized_one(r) =~= normalized_one(r));
}

// ---------------------------------------------------------------------------
// Mozc
// ---------------------------------------------------------------------------

/// The record of Mozc TSV line `index` (`reading`, `surface`, labels,
/// comment): blank lines and `#` comments give none, nor do lines with
/// fewer than two columns. The line number is the score.
pub open spec fn mozc_line(index: int, line: Seq<char>) -> Seq<RawRecord> {
    let t = trimmed(line);
    if t.len() == 0 || t[0] == '#' {
        Seq::empty()
    } else {
        let cols = split_on(t, '\t');
        if cols.len() < 2 {
            Seq::empty()
        } else {
            let labels = if cols.len() > 2 { cols[2] } else { Seq::empty() };
            let description = if cols.len() > 3 && trimmed(cols[3]).len() > 0 { Some(trimmed(cols[3])) } else { None };
            seq![(cols[0], cols[1], index as i64, DictionarySource::Mozc, label_category(labels), description)]
        }
    }
}

/// The records of the first `lines.len()` lines of a Mozc file.
pub open spec fn mozc_records(lines: Seq<Seq<char>>) -> Seq<RawRecord>
    decreases lines.len(),
{
    if lines.len() == 0 {
        Seq::empty()
    } else {
        mozc_records(lines.drop_last()) + mozc_line(lines.len() - 1, lines.last())
    }
}

/// Imports the lines of a Mozc user-dictionary TSV file.
pub fn import_mozc_lines(lines: &Vec<String>) -> (out: Vec<NormalizedDictionaryEntry>)
    requires
        lines@.len() <= i64::MAX,
    ensures
        merged(normalized_records(mozc_records(texts_of(lines@))), entry_views(out@)),
{
    let ghost ls = texts_of(lines@);
    let mut entries: Vec<NormalizedDictionaryEntry> = Vec::new();
    let mut i: usize = 0;
    while i < lines.len()
        invariant
            ls == texts_of(lines@),
            lines@.len() <= i64::MAX,
            i <= lines@.len(),
            entry_views(entries@) == normalized_records(mozc_records(ls.take(i as int))),
        decreases lines@.len() - i,
    {
        let ghost before = entry_views(entries@);
        let ghost line = lines@[i as int]@;
        assert(ls.take(i + 1).drop_last() =~= ls.take(i as int));
        assert(ls.take(i + 1).last() == line);
        let t = trim(lines[i].as_str());
        let tc = chars_of(t.as_str());
        let mut produced = false;
        if tc.len() > 0 && tc[0] != '#' {
            let cols = split_char(t.as_str(), '\t');
            if cols.len() >= 2 {
                let none = String::new();
                let labels = if cols.len() > 2 { cols[2].as_str() } else { none.as_str() };
                let description = if cols.len() > 3 {
                    let d = trim(cols[3].as_str());
                    if d.as_str().is_empty() { None } else { Some(d) }
                } else {
                    None
                };
                let category = category_from_labels(labels);
                let score: i64 = i as i64;
                push_entry(&mut entries, cols[0].as_str(), cols[1].as_str(), score, DictionarySource::Mozc, category, description);
                proof {
                    lemma_normalized_single(mozc_line(i as int, line)[0]);
                    assert(mozc_line(i as int, line) =~= seq![mozc_line(i as int, line)[0]]);
                }
                produced = true;
            }
        }
        proof {
            lemma_normalized_records_append(mozc_records(ls.take(i as int)), mozc_line(i as int, line));
            if !produced {
                assert(mozc_line(i as int, line) =~= Seq::<RawRecord>::empty());
                assert(before + Seq::<crate::dictionary_source::EntryView>::empty() =~= before);
            }
        }
        i += 1;
    }
    assert(ls.take(i as int) =~= ls);
    merge_normalized_entries(entries)
}

// ---------------------------------------------------------------------------
// Sudachi
// ---------------------------------------------------------------------------

/// What `str::parse::<i64>` gives: an optional sign, then at least one
/// ASCII digit and nothing else, within range.
pub open spec fn parse_integer(s: Seq<char>) -> Option<int> {
    if s.len() > 0 && s[0] == '-' {
        let rest = s.skip(1);
        if rest.len() > 0 && all_digits(rest) && digits_value(rest) <= 0x8000_0000_0000_0000 {
            Some(-(digits_value(rest) as int))
        } else {
            None
        }
    } else {
        match parse_unsigned(s, 0x7FFF_FFFF_FFFF_FFFF) {
            Some(v) => Some(v as int),
            None => None,
        }
    }
}

/// Parses a whole number the way `str::parse::<i64>` does.
pub fn parse_integer_str(text: &str) -> (r: Option<i64>)
    ensures
        match r {
            Some(v) => parse_integer(text@) == Some(v as int),
            None => parse_integer(text@) is None,
        },
{
    let chars = chars_of(text);
    if chars.len() > 0 && chars[0] == '-' {
        if chars.len() > 1 && chars[1] == '+' {
            assert(!all_digits(text@.skip(1))) by {
                assert(text@.skip(1)[0] == '+');
            }
            return None;
        }
        let rest_chars = crate::text_scan::skip_chars(chars.as_slice(), 1);
        let rest = string_from_chars(rest_chars.as_slice());
        proof {
            assert(rest@ == text@.skip(1));
        }
        match parse_unsigned_str(rest.as_str(), 0x8000_0000_0000_0000) {
            Some(v) => {
                if v == 0x8000_0000_0000_0000 {
                    Some(i64::MIN)
                } else {
                    let w: i64 = v as i64;
                    Some(-w)
                }
            },
            None => None,
        }
    } else {
        match parse_unsigned_str(text, 0x7FFF_FFFF_FFFF_FFFF) {
            Some(v) => Some(v as i64),
            None => None,
        }
    }
}

/// The record of a Sudachi CSV line: at least twelve comma-separated
/// columns, a whole-number cost in the fourth, the surface in the fifth,
/// the part of speech in the sixth to eighth and the katakana reading in
/// the twelfth.
pub open spec fn sudachi_line(line: Seq<char>) -> Seq<RawRecord> {
    let cols = split_on(trimmed(line), ',');
    if cols.len() < 12 {
        Seq::empty()
    } else {
        match parse_integer(cols[3]) {
            None => Seq::empty(),
            Some(cost) => {
                let labels = cols[5] + seq!['/'] + cols[6] + seq!['/'] + cols[7];
                seq![(cols[11], cols[4], cost as i64, DictionarySource::Sudachi, label_category(labels), None)]
            },
        }
    }
}

/// The records of the lines of a Sudachi file.
pub open spec fn sudachi_records(lines: Seq<Seq<char>>) -> Seq<RawRecord>
    decreases lines.len(),
{
    if lines.len() == 0 {
        Seq::empty()
    } else {
        sudachi_records(lines.drop_last()) + sudachi_line(lines.last())
    }
}

/// Imports the lines of a Sudachi dictionary CSV file; the cost is the
/// score.
pub fn import_sudachi_lines(lines: &Vec<String>) -> (out: Vec<NormalizedDictionaryEntry>)
    ensures
        merged(normalized_records(sudachi_records(texts_of(lines@))), entry_views(out@)),
{
    let ghost ls = texts_of(lines@);
    let mut entries: Vec<NormalizedDictionaryEntry> = Vec::new();
    let mut i: usize = 0;
    while i < lines.len()
        invariant
            ls == texts_of(lines@),
            i <= lines@.len(),
            entry_views(entries@) == normalized_records(sudachi_records(ls.take(i as int))),
        decreases lines@.len() - i,
    {
        let ghost before = entry_views(entries@);
        let ghost line = lines@[i as int]@;
        assert(ls.take(i + 1).drop_last() =~= ls.take(i as int));
        assert(ls.take(i + 1).last() == line);
        let t = trim(lines[i].as_str());
        let cols = split_char(t.as_str(), ',');
        let mut produced = false;
        if cols.len() >= 12 {
            match parse_integer_str(cols[3].as_str()) {
                Some(cost) => {
                    let mut labels = copy_str(cols[5].as_str());
                    crate::text::push_char(&mut labels, '/');
                    crate::text::push_str(&mut labels, cols[6].as_str());
                    crate::text::push_char(&mut labels, '/');
                    crate::text::push_str(&mut labels, cols[7].as_str());
                    let category = category_from_labels(labels.as_str());
                    push_entry(&mut entries, cols[11].as_str(), cols[4].as_str(), cost, DictionarySource::Sudachi, category, None);
                    proof {
                        assert(labels@ =~= cols@[5]@ + seq!['/'] + cols@[6]@ + seq!['/'] + cols@[7]@);
                        lemma_normalized_single(sudachi_line(line)[0]);
                        assert(sudachi_line(line) =~= seq![sudachi_line(line)[0]]);
                    }
                    produced = true;
                },
                None => {},
            }
        }
        proof {
            lemma_normalized_records_append(sudachi_records(ls.take(i as int)), sudachi_line(line));
            if !produced {
                assert(sudachi_line(line) =~= Seq::<RawRecord>::empty());
                assert(before + Seq::<crate::dictionary_source::EntryView>::empty() =~= before);
            }
        }
        i += 1;
    }
    assert(ls.take(i as int) =~= ls);
    merge_normalized_entries(entries)
}

// ---------------------------------------------------------------------------
// JMdict
// ---------------------------------------------------------------------------

/// The raw contents of the `<tag>` elements of `block`.
pub open spec fn tag_elements(block: Seq<char>, tag: Seq<char>) -> Seq<Seq<char>> {
    tag_values(block, seq!['<'] + tag + seq!['>'], seq!['<', '/'] + tag + seq!['>'])
}

/// Each value with its XML entities decoded.
pub open spec fn decoded_all(vs: Seq<Seq<char>>) -> Seq<Seq<char>> {
    vs.map_values(|v: Seq<char>| decode_all_entities(v))
}

/// The decoded contents of the `<tag>` elements of `block`.
pub fn extract_xml_tags(block: &str, tag: &str) -> (values: Vec<String>)
    ensures
        texts_of(values@) == decoded_all(tag_elements(block@, tag@)),
{
    let raw = tag_contents(block, tag);
    let mut values: Vec<String> = Vec::new();
    let mut k: usize = 0;
    while k < raw.len()
        invariant
            k <= raw@.len(),
            raw@.map_values(|v: Vec<char>| v@) == tag_elements(block@, tag@),
            texts_of(values@) == decoded_all(tag_elements(block@, tag@)).take(k as int),
        decreases raw@.len() - k,
    {
        let ghost prev = texts_of(values@);
        let copy = crate::text_scan::take_chars(raw[k].as_slice(), raw[k].len());
        assert(copy@ =~= raw@[k as int]@);
        let decoded = decode_all(copy);
        values.push(string_from_chars(decoded.as_slice()));
        assert(texts_of(values@) =~= prev.push(decode_all_entities(raw@[k as int]@)));
        assert(decoded_all(tag_elements(block@, tag@)).take(k + 1) =~= decoded_all(tag_elements(block@, tag@)).take(k as int).push(decode_all_entities(raw@[k as int]@)));
        k += 1;
    }
    assert(decoded_all(tag_elements(block@, tag@)).take(k as int) =~= decoded_all(tag_elements(block@, tag@)));
    values
}

/// One of the priority tags that mark the most common words.
pub open spec fn is_top_priority(v: Seq<char>) -> bool {
    v == "news1"@ || v == "ichi1"@ || v == "spec1"@ || v == "gai1"@
}

/// The priorities of a JMdict entry: its `ke_pri` then its `re_pri` values.
pub open spec fn jmdict_priorities(block: Seq<char>) -> Seq<Seq<char>> {
    decoded_all(tag_elements(block, "ke_pri"@)) + decoded_all(tag_elements(block, "re_pri"@))
}

/// Whether a JMdict entry is marked archaic, obscure or rare.
pub open spec fn is_uncommon(block: Seq<char>) -> bool {
    seq_contains_seq(block, "&arch;"@) || seq_contains_seq(block, "&obsc;"@) || seq_contains_seq(block, "&rare;"@)
}

/// The score of a JMdict entry: 0 with a top priority, else 100 with a
/// second-rank priority (ending in `2`), else 500; 1000 more when it is
/// marked archaic, obscure or rare.
pub open spec fn jmdict_rank(block: Seq<char>) -> i64 {
    let p = jmdict_priorities(block);
    let base: i64 = if exists|i: int| 0 <= i < p.len() && is_top_priority(#[trigger] p[i]) {
        0
    } else if exists|i: int| 0 <= i < p.len() && (#[trigger] p[i]).len() > 0 && p[i].last() == '2' {
        100
    } else {
        500
    };
    if is_uncommon(block) { (base + 1000) as i64 } else { base }
}

/// The score of a JMdict entry (see [`jmdict_rank`]).
pub fn jmdict_score(block: &str) -> (score: i64)
    ensures
        score == jmdict_rank(block@),
{
    let mut priority = extract_xml_tags(block, "ke_pri");
    let more = extract_xml_tags(block, "re_pri");
    let ghost p = jmdict_priorities(block@);
    let mut k: usize = 0;
    let ghost first = texts_of(priority@);
    while k < more.len()
        invariant
            k <= more@.len(),
            texts_of(priority@) == first + texts_of(more@).take(k as int),
        decreases more@.len() - k,
    {
        let ghost prev = texts_of(priority@);
        priority.push(copy_str(more[k].as_str()));
        assert(texts_of(priority@) =~= prev.push(more@[k as int]@));
        assert(texts_of(more@).take(k + 1) =~= texts_of(more@).take(k as int).push(more@[k as int]@));
        k += 1;
    }
    assert(texts_of(more@).take(k as int) =~= texts_of(more@));
    assert(texts_of(priority@) =~= p);
    let mut top = false;
    let mut second = false;
    let mut j: usize = 0;
    while j < priority.len()
        invariant
            j <= priority@.len(),
            texts_of(priority@) == p,
            top == exists|i: int| 0 <= i < j && is_top_priority(#[trigger] p[i]),
            second == exists|i: int| 0 <= i < j && (#[trigger] p[i]).len() > 0 && p[i].last() == '2',
        decreases priority@.len() - j,
    {
        let v = priority[j].as_str();
        assert(v@ == p[j as int]);
        if str_eq(v, "news1") || str_eq(v, "ichi1") || str_eq(v, "spec1") || str_eq(v, "gai1") {
            top = true;
        }
        let vc = chars_of(v);
        if vc.len() > 0 && vc[vc.len() - 1] == '2' {
            second = true;
        }
        j += 1;
    }
    let base: i64 = if top { 0 } else if second { 100 } else { 500 };
    if str_contains(block, "&arch;") || str_contains(block, "&obsc;") || str_contains(block, "&rare;") {
        base + 1000
    } else {
        base
    }
}

/// The records pairing reading with surface in each combination, readings
/// outermost.
pub open spec fn pair_records(
    readings: Seq<Seq<char>>,
    surfaces: Seq<Seq<char>>,
    score: i64,
    source: DictionarySource,
    category: DictionaryCategory,
    description: Option<Seq<char>>,
) -> Seq<RawRecord>
    decreases readings.len(),
{
    if readings.len() == 0 {
        Seq::empty()
    } else {
        pair_records(readings.drop_last(), surfaces, score, source, category, description)
            + surfaces.map_values(|s: Seq<char>| (readings.last(), s, score, source, category, description))
    }
}

/// Appends the records pairing each reading with each surface.
pub fn push_pairs(
    output: &mut Vec<NormalizedDictionaryEntry>,
    readings: &Vec<String>,
    surfaces: &Vec<String>,
    score: i64,
    source: DictionarySource,
    category: DictionaryCategory,
    description: &Option<String>,
)
    ensures
        entry_views(final(output)@) == entry_views(old(output)@)
            + normalized_records(pair_records(texts_of(readings@), texts_of(surfaces@), score, source, category, opt_view(*description))),
{
    let ghost rs = texts_of(readings@);
    let ghost ss = texts_of(surfaces@);
    let ghost d = opt_view(*description);
    let ghost start = entry_views(output@);
    let mut a: usize = 0;
    while a < readings.len()
        invariant
            rs == texts_of(readings@),
            ss == texts_of(surfaces@),
            d == opt_view(*description),
            a <= readings@.len(),
            entry_views(output@) == start + normalized_records(pair_records(rs.take(a as int), ss, score, source, category, d)),
        decreases readings@.len() - a,
    {
        let ghost row_start = entry_views(output@);
        let ghost r = rs[a as int];
        let mut b: usize = 0;
        while b < surfaces.len()
            invariant
                rs == texts_of(readings@),
                ss == texts_of(surfaces@),
                d == opt_view(*description),
                a < readings@.len(),
                r == rs[a as int],
                b <= surfaces@.len(),
                entry_views(output@) == row_start
                    + normalized_records(ss.take(b as int).map_values(|s: Seq<char>| (r, s, score, source, category, d))),
            decreases surfaces@.len() - b,
        {
            let desc = match description {
                Some(x) => Some(copy_str(x.as_str())),
                None => None,
            };
            let ghost prev = entry_views(output@);
            push_entry(output, readings[a].as_str(), surfaces[b].as_str(), score, source, category, desc);
            proof {
                let row = ss.take(b as int).map_values(|s: Seq<char>| (r, s, score, source, category, d));
                let rec = (r, ss[b as int], score, source, category, d);
                assert(ss.take(b + 1).map_values(|s: Seq<char>| (r, s, score, source, category, d)) =~= row.push(rec));
                assert(row.push(rec) =~= row + seq![rec]);
                lemma_normalized_records_append(row, seq![rec]);
                lemma_normalized_single(rec);
            }
            b += 1;
        }
        proof {
            let row = ss.map_values(|s: Seq<char>| (r, s, score, source, category, d));
            assert(ss.take(b as int) =~= ss);
            assert(rs.take(a + 1).drop_last() =~= rs.take(a as int));
            assert(rs.take(a + 1).last() == r);
            lemma_normalized_records_append(pair_records(rs.take(a as int), ss, score, source, category, d), row);
        }
        a += 1;
    }
    assert(rs.take(a as int) =~= rs);
}

/// The records of one JMdict `<entry>` block: every reading paired with
/// every written form (with the readings when there is none), scored by
/// [`jmdict_rank`], idioms described as such.
pub open spec fn jmdict_entry(block: Seq<char>) -> Seq<RawRecord> {
    let readings = decoded_all(tag_elements(block, "reb"@));
    let kebs = decoded_all(tag_elements(block, "keb"@));
    let surfaces = if kebs.len() == 0 { readings } else { kebs };
    let category = label_category(block);
    let description = if category == DictionaryCategory::Idiom { Some("慣用句"@) } else { None };
    pair_records(readings, surfaces, jmdict_rank(block), DictionarySource::JMdict, category, description)
}

/// Appends the records of one JMdict `<entry>` block.
pub fn import_jmdict_entry(block: &str, output: &mut Vec<NormalizedDictionaryEntry>)
    ensures
        entry_views(final(output)@) == entry_views(old(output)@) + normalized_records(jmdict_entry(block@)),
{
    let readings = extract_xml_tags(block, "reb");
    let kebs = extract_xml_tags(block, "keb");
    let surfaces = if kebs.len() == 0 {
        let mut copy: Vec<String> = Vec::new();
        let mut k: usize = 0;
        while k < readings.len()
            invariant
                k <= readings@.len(),
                texts_of(copy@) == texts_of(readings@).take(k as int),
            decreases readings@.len() - k,
        {
            let ghost prev = texts_of(copy@);
            copy.push(copy_str(readings[k].as_str()));
            assert(texts_of(copy@) =~= prev.push(readings@[k as int]@));
            assert(texts_of(readings@).take(k + 1) =~= texts_of(readings@).take(k as int).push(readings@[k as int]@));
            k += 1;
        }
        assert(texts_of(readings@).take(k as int) =~= texts_of(readings@));
        copy
    } else {
        kebs
    };
    let category = category_from_labels(block);
    let description = if category == DictionaryCategory::Idiom { Some(copy_str("慣用句")) } else { None };
    let score = jmdict_score(block);
    push_pairs(output, &readings, &surfaces, score, DictionarySource::JMdict, category, &description);
}

/// The records of JMdict lines from line `i` on, given the entry block
/// read so far and whether an entry is open: a line holding `<entry>`
/// starts a block, every line of an open entry joins it (with a newline),
/// and a line holding `</entry>` closes it.
pub open spec fn jmdict_scan(lines: Seq<Seq<char>>, i: int, block: Seq<char>, inside: bool) -> Seq<RawRecord>
    decreases lines.len() - i,
{
    if i < 0 || i >= lines.len() {
        Seq::empty()
    } else {
        let line = lines[i];
        let starts = seq_contains_seq(line, "<entry>"@);
        let inside1 = inside || starts;
        let block1 = if starts { Seq::empty() } else { block };
        let block2 = if inside1 { block1 + line + seq!['\n'] } else { block1 };
        if inside1 && seq_contains_seq(line, "</entry>"@) {
            jmdict_entry(block2) + jmdict_scan(lines, i + 1, block2, false)
        } else {
            jmdict_scan(lines, i + 1, block2, inside1)
        }
    }
}

/// Imports the lines of a JMdict XML file, one entry block at a time.
pub fn import_jmdict_lines(lines: &Vec<String>) -> (out: Vec<NormalizedDictionaryEntry>)
    ensures
        merged(normalized_records(jmdict_scan(texts_of(lines@), 0, Seq::empty(), false)), entry_views(out@)),
{
    let ghost ls = texts_of(lines@);
    let ghost whole = jmdict_scan(ls, 0, Seq::empty(), false);
    let mut entries: Vec<NormalizedDictionaryEntry> = Vec::new();
    let mut block = String::new();
    let mut inside = false;
    let ghost mut done: Seq<RawRecord> = Seq::empty();
    let mut i: usize = 0;
    assert(Seq::<RawRecord>::empty() + whole =~= whole);
    while i < lines.len()
        invariant
            ls == texts_of(lines@),
            whole == jmdict_scan(ls, 0, Seq::empty(), false),
            i <= lines@.len(),
            done + jmdict_scan(ls, i as int, block@, inside) == whole,
            entry_views(entries@) == normalized_records(done),
        decreases lines@.len() - i,
    {
        let line = lines[i].as_str();
        let ghost old_block = block@;
        let ghost old_inside = inside;
        let starts = str_contains(line, "<entry>");
        if starts {
            inside = true;
            block = String::new();
        }
        if inside {
            crate::text::push_str(&mut block, line);
            crate::text::push_char(&mut block, '\n');
        }
        proof {
            let inside1 = old_inside || starts;
            let block1 = if starts { Seq::<char>::empty() } else { old_block };
            let block2 = if inside1 { block1 + line@ + seq!['\n'] } else { block1 };
            assert(ls[i as int] == line@);
            assert(inside == inside1);
            assert(block@ =~= block2);
        }
        if inside && str_contains(line, "</entry>") {
            let ghost prev = entry_views(entries@);
            import_jmdict_entry(block.as_str(), &mut entries);
            proof {
                lemma_normalized_records_append(done, jmdict_entry(block@));
                assert(done + (jmdict_entry(block@) + jmdict_scan(ls, i + 1, block@, false))
                    =~= done + jmdict_entry(block@) + jmdict_scan(ls, i + 1, block@, false));
                done = done + jmdict_entry(block@);
            }
            inside = false;
        }
        i += 1;
    }
    assert(jmdict_scan(ls, i as int, block@, inside) =~= Seq::<RawRecord>::empty());
    assert(done + Seq::<RawRecord>::empty() =~= done);
    merge_normalized_entries(entries)
}

/// A JMdict entry with any of the priority tags `news1`, `ichi1`, `spec1`
/// or `gai1` among its `ke_pri` and `re_pri` values, and no archaic,
/// obscure or rare marker, scores 0, the best rank.
pub proof fn lemma_top_priority_tags_score_zero(block: Seq<char>, i: int)
    requires
        0 <= i < jmdict_priorities(block).len(),
        jmdict_priorities(block)[i] == "news1"@ || jmdict_priorities(block)[i] == "ichi1"@
            || jmdict_priorities(block)[i] == "spec1"@ || jmdict_priorities(block)[i] == "gai1"@,
        !seq_contains_seq(block, "&arch;"@),
        !seq_contains_seq(block, "&obsc;"@),
        !seq_contains_seq(block, "&rare;"@),
    ensures
        jmdict_rank(block) == 0,
{
    assert(is_top_priority(jmdict_priorities(block)[i]));
}

} // verus!

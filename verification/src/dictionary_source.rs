//! Version-pinned dictionary-source manifests: validation, checksum
//! verification, and the normalization of readings and surfaces.
use vstd::prelude::*;

use crate::kana::{kata_to_hira_char, katakana_to_hiragana, nfkc, normalize_nfkc};
use crate::dict::{DictionaryCategory, DictionarySource};
use crate::key_order::{
    before, distinct, in_bounds, key_le, key_lt, lemma_key_le_lt, lemma_key_lt_irreflexive,
    lemma_key_lt_le, lemma_key_lt_transitive, sort_positions, sorted_positions, text_keys, TextKey,
};
use crate::text::{chars_eq, chars_of, copy_str, opt_view, slice_to_string, str_eq};
use sha2::Digest;

verus! {

/// Top-level `dictionary-sources.toml` document.
#[derive(Debug)]
pub struct DictionarySourcesManifest {
    pub schema_version: u32,
    pub sources: Vec<DictionarySourceSpec>,
}

/// One version-pinned external dictionary source.
#[derive(Debug)]
pub struct DictionarySourceSpec {
    pub name: String,
    pub version: String,
    pub url: String,
    pub sha256: String,
    pub license: String,
    pub priority: i32,
    pub filename: String,
    pub archive: SourceArchive,
}

/// Archive type recorded for the importer that consumes a fetched source.
#[derive(Debug, Clone, Copy, PartialEq, Eq, Structural)]
pub enum SourceArchive {
    /// Not an archive.
    Plain,
    Zip,
    TarGz,
    Gzip,
}

/// Why a manifest is refused.
#[derive(Debug, PartialEq, Eq)]
pub enum ManifestError {
    /// The schema version is not 1.
    UnsupportedSchema(u32),
    /// Two sources share this name.
    DuplicateName(String),
    /// The named source has a blank required field.
    EmptyField(String),
    /// The named source's SHA-256 is not 64 hexadecimal digits.
    InvalidSha256(String),
}

/// The sentence that describes `e`.
pub open spec fn error_message(e: ManifestError) -> Seq<char> {
    match e {
        ManifestError::UnsupportedSchema(v) => "unsupported dictionary source schema: "@ + crate::segment_learning::decimal_seq(v as nat),
        ManifestError::DuplicateName(n) => "duplicate dictionary source name: "@ + n@,
        ManifestError::EmptyField(n) => "dictionary source '"@ + n@ + "' has an empty required field"@,
        ManifestError::InvalidSha256(n) => "dictionary source '"@ + n@ + "' has an invalid SHA-256"@,
    }
}

impl ManifestError {
    /// The error as a sentence.
    pub fn message(&self) -> (s: String)
        ensures
            s@ == error_message(*self),
    {
        let mut s = String::new();
        match self {
            ManifestError::UnsupportedSchema(v) => {
                crate::text::push_str(&mut s, "unsupported dictionary source schema: ");
                let d = crate::segment_learning::decimal(*v as u64);
                crate::text::push_str(&mut s, d.as_str());
            },
            ManifestError::DuplicateName(n) => {
                crate::text::push_str(&mut s, "duplicate dictionary source name: ");
                crate::text::push_str(&mut s, n.as_str());
            },
            ManifestError::EmptyField(n) => {
                crate::text::push_str(&mut s, "dictionary source '");
                crate::text::push_str(&mut s, n.as_str());
                crate::text::push_str(&mut s, "' has an empty required field");
            },
            ManifestError::InvalidSha256(n) => {
                crate::text::push_str(&mut s, "dictionary source '");
                crate::text::push_str(&mut s, n.as_str());
                crate::text::push_str(&mut s, "' has an invalid SHA-256");
            },
        }
        s
    }
}

/// Unicode `White_Space`, which `char::is_whitespace` and `str::trim` use.
pub open spec fn is_white_space(c: char) -> bool {
    let v = c as u32;
    (0x09 <= v && v <= 0x0D) || v == 0x20 || v == 0x85 || v == 0xA0 || v == 0x1680
        || (0x2000 <= v && v <= 0x200A) || v == 0x2028 || v == 0x2029 || v == 0x202F || v == 0x205F || v == 0x3000
}

fn white_space(c: char) -> (b: bool)
    ensures
        b == is_white_space(c),
{
    let v = c as u32;
    (0x09 <= v && v <= 0x0D) || v == 0x20 || v == 0x85 || v == 0xA0 || v == 0x1680
        || (0x2000 <= v && v <= 0x200A) || v == 0x2028 || v == 0x2029 || v == 0x202F || v == 0x205F || v == 0x3000
}

/// Index of the first character that is not white space (the length when
/// there is none).
pub open spec fn trim_start_index(s: Seq<char>) -> int
    decreases s.len(),
{
    if s.len() == 0 {
        0
    } else if is_white_space(s[0]) {
        1 + trim_start_index(s.subrange(1, s.len() as int))
    } else {
        0
    }
}

/// Index after the last character that is not white space (0 when there is
/// none).
pub open spec fn trim_end_index(s: Seq<char>) -> int
    decreases s.len(),
{
    if s.len() == 0 {
        0
    } else if is_white_space(s.last()) {
        trim_end_index(s.drop_last())
    } else {
        s.len() as int
    }
}

/// `s` without leading and trailing white space, as `str::trim` gives it.
pub open spec fn trimmed(s: Seq<char>) -> Seq<char> {
    let a = trim_start_index(s);
    let b = trim_end_index(s);
    if a < b { s.subrange(a, b) } else { Seq::empty() }
}

/// Whether `s` holds nothing but white space.
pub open spec fn is_blank(s: Seq<char>) -> bool {
    forall|i: int| 0 <= i < s.len() ==> is_white_space(#[trigger] s[i])
}

proof fn lemma_trim_start(s: Seq<char>)
    ensures
        0 <= trim_start_index(s) <= s.len(),
        forall|i: int| 0 <= i < trim_start_index(s) ==> is_white_space(#[trigger] s[i]),
        trim_start_index(s) < s.len() ==> !is_white_space(s[trim_start_index(s)]),
    decreases s.len(),
{
    if s.len() > 0 && is_white_space(s[0]) {
        let t = s.subrange(1, s.len() as int);
        lemma_trim_start(t);
        assert forall|i: int| 0 <= i < trim_start_index(s) implies is_white_space(#[trigger] s[i]) by {
            if i > 0 {
                assert(s[i] == t[i - 1]);
            }
        }
        if trim_start_index(s) < s.len() {
            assert(s[trim_start_index(s)] == t[trim_start_index(t)]);
        }
    }
}

proof fn lemma_trim_end(s: Seq<char>)
    ensures
        0 <= trim_end_index(s) <= s.len(),
        forall|i: int| trim_end_index(s) <= i < s.len() ==> is_white_space(#[trigger] s[i]),
        trim_end_index(s) > 0 ==> !is_white_space(s[trim_end_index(s) - 1]),
    decreases s.len(),
{
    if s.len() > 0 && is_white_space(s.last()) {
        let t = s.drop_last();
        lemma_trim_end(t);
        assert forall|i: int| trim_end_index(s) <= i < s.len() implies is_white_space(#[trigger] s[i]) by {
            if i < s.len() - 1 {
                assert(s[i] == t[i]);
            }
        }
        if trim_end_index(s) > 0 {
            assert(s[trim_end_index(s) - 1] == t[trim_end_index(t) - 1]);
        }
    }
}

/// A text is blank exactly when trimming leaves nothing.
pub proof fn lemma_blank_iff_trimmed_empty(s: Seq<char>)
    ensures
        is_blank(s) == (trimmed(s).len() == 0),
{
    lemma_trim_start(s);
    lemma_trim_end(s);
    let a = trim_start_index(s);
    let b = trim_end_index(s);
    if is_blank(s) {
        if a < s.len() {
            assert(is_white_space(s[a]));
        }
    } else {
        let k = choose|i: int| 0 <= i < s.len() && !is_white_space(#[trigger] s[i]);
        assert(a <= k);
        assert(k < b);
    }
}

/// `text` without leading and trailing white space (`str::trim`).
pub fn trim(text: &str) -> (out: String)
    ensures
        out@ == trimmed(text@),
{
    let chars = chars_of(text);
    let n = chars.len();
    let mut a: usize = 0;
    proof {
        lemma_trim_start(text@);
        lemma_trim_end(text@);
    }
    while a < n && white_space(chars[a])
        invariant
            n == chars@.len(),
            chars@ == text@,
            a <= trim_start_index(text@),
            forall|i: int| 0 <= i < trim_start_index(text@) ==> is_white_space(#[trigger] text@[i]),
            trim_start_index(text@) < n ==> !is_white_space(text@[trim_start_index(text@)]),
            trim_start_index(text@) <= n,
        decreases n - a,
    {
        a += 1;
    }
    let mut b: usize = n;
    while b > 0 && white_space(chars[b - 1])
        invariant
            n == chars@.len(),
            chars@ == text@,
            trim_end_index(text@) <= b <= n,
            forall|i: int| trim_end_index(text@) <= i < n ==> is_white_space(#[trigger] text@[i]),
            trim_end_index(text@) > 0 ==> !is_white_space(text@[trim_end_index(text@) - 1]),
        decreases b,
    {
        b -= 1;
    }
    if a < b {
        slice_to_string(chars.as_slice(), a, b)
    } else {
        String::new()
    }
}

fn is_blank_str(text: &str) -> (b: bool)
    ensures
        b == is_blank(text@),
{
    let t = trim(text);
    proof {
        lemma_blank_iff_trimmed_empty(text@);
    }
    t.as_str().is_empty()
}

/// Whether `c` is an ASCII hexadecimal digit.
pub open spec fn is_hex_digit(c: char) -> bool {
    ('0' <= c && c <= '9') || ('a' <= c && c <= 'f') || ('A' <= c && c <= 'F')
}

/// A SHA-256 written as 64 hexadecimal digits.
pub open spec fn valid_sha256(s: Seq<char>) -> bool {
    s.len() == 64 && forall|i: int| 0 <= i < s.len() ==> is_hex_digit(#[trigger] s[i])
}

fn valid_sha256_str(text: &str) -> (b: bool)
    ensures
        b == valid_sha256(text@),
{
    let chars = chars_of(text);
    if chars.len() != 64 {
        return false;
    }
    let mut i: usize = 0;
    while i < 64
        invariant
            chars@ == text@,
            chars@.len() == 64,
            i <= 64,
            forall|j: int| 0 <= j < i ==> is_hex_digit(#[trigger] chars@[j]),
        decreases 64 - i,
    {
        let c = chars[i];
        if !(('0' <= c && c <= '9') || ('a' <= c && c <= 'f') || ('A' <= c && c <= 'F')) {
            return false;
        }
        i += 1;
    }
    true
}

/// The problem with source `i`, checking in order: a name used by an
/// earlier source, a blank required field, a malformed SHA-256.
pub open spec fn source_problem(sources: Seq<DictionarySourceSpec>, i: int) -> Option<ManifestError> {
    let s = sources[i];
    if exists|j: int| 0 <= j < i && (#[trigger] sources[j]).name@ == s.name@ {
        Some(ManifestError::DuplicateName(s.name))
    } else if is_blank(s.name@) || is_blank(s.version@) || is_blank(s.url@) || is_blank(s.filename@) || is_blank(s.license@) {
        Some(ManifestError::EmptyField(s.name))
    } else if !valid_sha256(s.sha256@) {
        Some(ManifestError::InvalidSha256(s.name))
    } else {
        None
    }
}

/// Whether sources before `k` are all fine.
pub open spec fn sources_ok_before(sources: Seq<DictionarySourceSpec>, k: int) -> bool {
    forall|i: int| 0 <= i < k ==> #[trigger] source_problem(sources, i) is None
}

impl DictionarySourcesManifest {
    /// Checks the manifest: schema 1, and every source with a new name,
    /// no blank required field and a 64-digit hexadecimal SHA-256. The
    /// error names the first source, in order, that fails a check.
    pub fn validate(&self) -> (r: Result<(), ManifestError>)
        ensures
            self.schema_version != 1 ==> r == Err::<(), ManifestError>(ManifestError::UnsupportedSchema(self.schema_version)),
            self.schema_version == 1 ==> match r {
                Ok(()) => sources_ok_before(self.sources@, self.sources@.len() as int),
                Err(e) => exists|k: int| 0 <= k < self.sources@.len() && sources_ok_before(self.sources@, k)
                    && source_problem(self.sources@, k) == Some(e),
            },
    {
        if self.schema_version != 1 {
            return Err(ManifestError::UnsupportedSchema(self.schema_version));
        }
        let ghost s = self.sources@;
        let mut i: usize = 0;
        while i < self.sources.len()
            invariant
                i <= s.len(),
                s == self.sources@,
                self.schema_version == 1,
                sources_ok_before(s, i as int),
            decreases s.len() - i,
        {
            let source = &self.sources[i];
            let mut j: usize = 0;
            let mut duplicate = false;
            while j < i
                invariant
                    j <= i < s.len(),
                    s == self.sources@,
                    *source == s[i as int],
                    duplicate == exists|q: int| 0 <= q < j && (#[trigger] s[q]).name@ == s[i as int].name@,
                decreases i - j,
            {
                if str_eq(self.sources[j].name.as_str(), source.name.as_str()) {
                    duplicate = true;
                }
                j += 1;
            }
            if duplicate {
                return Err(ManifestError::DuplicateName(source.name.clone()));
            }
            if is_blank_str(source.name.as_str()) || is_blank_str(source.version.as_str()) || is_blank_str(source.url.as_str())
                || is_blank_str(source.filename.as_str()) || is_blank_str(source.license.as_str()) {
                return Err(ManifestError::EmptyField(source.name.clone()));
            }
            if !valid_sha256_str(source.sha256.as_str()) {
                return Err(ManifestError::InvalidSha256(source.name.clone()));
            }
            proof {
                assert(source_problem(s, i as int) is None);
            }
            i += 1;
        }
        Ok(())
    }
}

/// A reading made canonical: trimmed, NFKC-normalized, katakana as
/// hiragana.
pub open spec fn normalized_reading(s: Seq<char>) -> Seq<char> {
    nfkc(trimmed(s)).map_values(|c: char| kata_to_hira_char(c))
}

/// NFKC-normalizes a trimmed reading and writes katakana as hiragana.
pub fn normalize_reading(reading: &str) -> (out: String)
    ensures
        out@ == normalized_reading(reading@),
{
    let t = trim(reading);
    let n = normalize_nfkc(t.as_str());
    katakana_to_hiragana(n.as_str())
}

/// NFKC-normalizes a trimmed surface or description.
pub fn normalize_surface(surface: &str) -> (out: String)
    ensures
        out@ == nfkc(trimmed(surface@)),
{
    let t = trim(surface);
    normalize_nfkc(t.as_str())
}

/// The SHA-256 digest of some bytes. What it is for given bytes is fixed by
/// the SHA-256 standard, which the `sha2` crate implements.
pub uninterp spec fn sha256_digest(bytes: Seq<u8>) -> Seq<u8>;

/// The SHA-256 digest of `bytes` (`Sha256::digest` of the `sha2` crate):
/// the contract claims that it is the digest, 32 bytes long.
#[verifier::external_body]
fn sha256_bytes(bytes: &[u8]) -> (d: Vec<u8>)
    ensures
        d@ == sha256_digest(bytes@),
        d@.len() == 32,
{
    sha2::Sha256::digest(bytes).to_vec()
}

/// The lowercase hexadecimal digit for `v` (0 to 15).
pub open spec fn hex_char(v: u8) -> char {
    if v < 10 { ((v + 48) as u32) as char } else { ((v + 87) as u32) as char }
}

/// Bytes written as two lowercase hexadecimal digits each.
pub open spec fn hex_seq(bytes: Seq<u8>) -> Seq<char>
    decreases bytes.len(),
{
    if bytes.len() == 0 {
        Seq::empty()
    } else {
        hex_seq(bytes.drop_last()) + seq![hex_char(bytes.last() / 16), hex_char(bytes.last() % 16)]
    }
}

fn hex_digit(v: u8) -> (c: char)
    requires
        v < 16,
    ensures
        c == hex_char(v),
{
    let c: char = if v < 10 { ((v + 48) as u8) as char } else { ((v + 87) as u8) as char };
    proof {
        if v < 10 {
            vstd::utf8::char_u32_cast(c, (v + 48) as u32);
        } else {
            vstd::utf8::char_u32_cast(c, (v + 87) as u32);
        }
    }
    c
}

/// Bytes in lowercase hexadecimal.
pub fn hex_lower(bytes: &[u8]) -> (s: String)
    ensures
        s@ == hex_seq(bytes@),
{
    let mut s = String::new();
    let mut i: usize = 0;
    while i < bytes.len()
        invariant
            i <= bytes@.len(),
            s@ == hex_seq(bytes@.take(i as int)),
        decreases bytes@.len() - i,
    {
        let b = bytes[i];
        crate::text::push_char(&mut s, hex_digit(b / 16));
        crate::text::push_char(&mut s, hex_digit(b % 16));
        assert(bytes@.take(i + 1).drop_last() =~= bytes@.take(i as int));
        assert(s@ =~= hex_seq(bytes@.take(i + 1)));
        i += 1;
    }
    assert(bytes@.take(i as int) =~= bytes@);
    s
}

/// The SHA-256 digest of some bytes in lowercase hexadecimal.
pub open spec fn sha256_hex(bytes: Seq<u8>) -> Seq<char> {
    hex_seq(sha256_digest(bytes))
}

/// The SHA-256 digest of `bytes` in lowercase hexadecimal.
pub fn sha256(bytes: &[u8]) -> (hex: String)
    ensures
        hex@ == sha256_hex(bytes@),
{
    let d = sha256_bytes(bytes);
    hex_lower(d.as_slice())
}

/// `c` with an ASCII upper-case letter made lower-case.
pub open spec fn ascii_lower(c: char) -> char {
    if 'A' <= c && c <= 'Z' { ((c as u32 + 32) as u32) as char } else { c }
}

/// Whether two texts are equal once ASCII letters are compared without case
/// (`str::eq_ignore_ascii_case`).
pub open spec fn eq_ignore_ascii_case(a: Seq<char>, b: Seq<char>) -> bool {
    a.len() == b.len() && forall|i: int| 0 <= i < a.len() ==> ascii_lower(#[trigger] a[i]) == ascii_lower(b[i])
}

fn lower(c: char) -> (d: char)
    ensures
        d == ascii_lower(c),
{
    if 'A' <= c && c <= 'Z' {
        let v: u8 = (c as u32 + 32) as u8;
        let d = v as char;
        proof {
            vstd::utf8::char_u32_cast(d, (c as u32 + 32) as u32);
        }
        d
    } else {
        c
    }
}

fn eq_ignore_case(a: &str, b: &str) -> (r: bool)
    ensures
        r == eq_ignore_ascii_case(a@, b@),
{
    let x = chars_of(a);
    let y = chars_of(b);
    if x.len() != y.len() {
        return false;
    }
    let mut i: usize = 0;
    while i < x.len()
        invariant
            x@ == a@,
            y@ == b@,
            x@.len() == y@.len(),
            i <= x@.len(),
            forall|j: int| 0 <= j < i ==> ascii_lower(#[trigger] x@[j]) == ascii_lower(y@[j]),
        decreases x@.len() - i,
    {
        if lower(x[i]) != lower(y[i]) {
            return false;
        }
        i += 1;
    }
    true
}

/// A checksum that did not match.
#[derive(Debug, PartialEq, Eq)]
pub struct ChecksumMismatch {
    pub name: String,
    pub expected: String,
    pub actual: String,
}

/// Checks fetched bytes against the source's pinned SHA-256, ignoring the
/// case of hexadecimal letters.
pub fn verify_bytes(source: &DictionarySourceSpec, bytes: &[u8]) -> (r: Result<(), ChecksumMismatch>)
    ensures
        r is Ok == eq_ignore_ascii_case(sha256_hex(bytes@), source.sha256@),
        r matches Err(e) ==> e.actual@ == sha256_hex(bytes@) && e.expected@ == source.sha256@ && e.name@ == source.name@,
{
    let actual = sha256(bytes);
    if !eq_ignore_case(actual.as_str(), source.sha256.as_str()) {
        return Err(ChecksumMismatch { name: copy_str(source.name.as_str()), expected: copy_str(source.sha256.as_str()), actual });
    }
    Ok(())
}

/// One normalized record of an imported dictionary. Lower scores rank
/// better; scores are whole numbers.
#[derive(Debug, PartialEq, Eq)]
pub struct NormalizedDictionaryEntry {
    pub reading: String,
    pub surface: String,
    pub score: i64,
    pub source: DictionarySource,
    pub category: DictionaryCategory,
    pub description: Option<String>,
}

/// A record's contents as plain values.
pub type EntryView = (Seq<char>, Seq<char>, i64, DictionarySource, DictionaryCategory, Option<Seq<char>>);

/// The contents of `e`.
pub open spec fn entry_view(e: NormalizedDictionaryEntry) -> EntryView {
    (e.reading@, e.surface@, e.score, e.source, e.category, opt_view(e.description))
}

/// The `(reading, surface)` pair that identifies a record.
pub open spec fn entry_key(e: NormalizedDictionaryEntry) -> TextKey {
    (e.reading@, e.surface@)
}

/// A description normalized like a surface; blank ones are dropped.
pub open spec fn normalized_description(d: Option<Seq<char>>) -> Option<Seq<char>> {
    match d {
        Some(v) => if nfkc(trimmed(v)).len() > 0 { Some(nfkc(trimmed(v))) } else { None },
        None => None,
    }
}

impl NormalizedDictionaryEntry {
    /// A record with its reading, surface and description normalized, or
    /// `None` when the reading or the surface normalizes to nothing.
    pub fn new(
        reading: &str,
        surface: &str,
        score: i64,
        source: DictionarySource,
        category: DictionaryCategory,
        description: Option<String>,
    ) -> (r: Option<Self>)
        ensures
            r is Some <==> normalized_reading(reading@).len() > 0 && nfkc(trimmed(surface@)).len() > 0,
            r matches Some(e) ==> entry_view(e) == (normalized_reading(reading@), nfkc(trimmed(surface@)), score, source,
                category, normalized_description(opt_view(description))),
    {
        let reading = normalize_reading(reading);
        let surface = normalize_surface(surface);
        if reading.as_str().is_empty() || surface.as_str().is_empty() {
            return None;
        }
        let description = match description {
            Some(value) => {
                let value = normalize_surface(value.as_str());
                if value.as_str().is_empty() { None } else { Some(value) }
            },
            None => None,
        };
        Some(NormalizedDictionaryEntry { reading, surface, score, source, category, description })
    }
}

/// The arguments of a record before normalization: reading, surface,
/// score, source, category and description.
pub type RawRecord = (Seq<char>, Seq<char>, i64, DictionarySource, DictionaryCategory, Option<Seq<char>>);

/// The record `NormalizedDictionaryEntry::new` makes of `r`, if any.
pub open spec fn normalized_record(r: RawRecord) -> Option<EntryView> {
    let reading = normalized_reading(r.0);
    let surface = nfkc(trimmed(r.1));
    if reading.len() > 0 && surface.len() > 0 {
        Some((reading, surface, r.2, r.3, r.4, normalized_description(r.5)))
    } else {
        None
    }
}

/// The record made of `r`, as a sequence of at most one.
pub open spec fn normalized_one(r: RawRecord) -> Seq<EntryView> {
    match normalized_record(r) {
        Some(v) => seq![v],
        None => Seq::empty(),
    }
}

/// The records made of `rs`, in order, skipping those that normalize to
/// nothing.
pub open spec fn normalized_records(rs: Seq<RawRecord>) -> Seq<EntryView>
    decreases rs.len(),
{
    if rs.len() == 0 {
        Seq::empty()
    } else {
        normalized_records(rs.drop_last()) + normalized_one(rs.last())
    }
}

/// Normalizing a concatenation normalizes each part.
pub proof fn lemma_normalized_records_append(a: Seq<RawRecord>, b: Seq<RawRecord>)
    ensures
        normalized_records(a + b) == normalized_records(a) + normalized_records(b),
    decreases b.len(),
{
    if b.len() == 0 {
        assert(a + b =~= a);
        assert(normalized_records(a) + Seq::<EntryView>::empty() =~= normalized_records(a));
    } else {
        assert((a + b).drop_last() =~= a + b.drop_last());
        lemma_normalized_records_append(a, b.drop_last());
        assert(normalized_records(a) + normalized_records(b.drop_last()) + normalized_one(b.last())
            =~= normalized_records(a) + (normalized_records(b.drop_last()) + normalized_one(b.last())));
    }
}

/// Normalizing one more raw record appends its record, if any.
pub proof fn lemma_normalized_records_push(rs: Seq<RawRecord>, r: RawRecord)
    ensures
        normalized_records(rs.push(r)) == normalized_records(rs) + normalized_one(r),
{
    assert(rs.push(r).drop_last() =~= rs);
    assert(rs.push(r).last() == r);
}

/// Appends the record made of the arguments to `output`, unless it
/// normalizes to nothing.
pub fn push_entry(
    output: &mut Vec<NormalizedDictionaryEntry>,
    reading: &str,
    surface: &str,
    score: i64,
    source: DictionarySource,
    category: DictionaryCategory,
    description: Option<String>,
)
    ensures
        entry_views(final(output)@) == entry_views(old(output)@) + normalized_one((reading@, surface@, score, source, category, opt_view(description))),
{
    let ghost before = entry_views(output@);
    match NormalizedDictionaryEntry::new(reading, surface, score, source, category, description) {
        Some(entry) => {
            output.push(entry);
            assert(entry_views(output@) =~= before.push(entry_view(entry)));
        },
        None => {
            assert(before + Seq::<EntryView>::empty() =~= before);
        },
    }
}

/// A copy of `e`.
pub fn copy_entry(e: &NormalizedDictionaryEntry) -> (c: NormalizedDictionaryEntry)
    ensures
        entry_view(c) == entry_view(*e),
{
    let description = match &e.description {
        Some(d) => Some(copy_str(d.as_str())),
        None => None,
    };
    NormalizedDictionaryEntry {
        reading: copy_str(e.reading.as_str()),
        surface: copy_str(e.surface.as_str()),
        score: e.score,
        source: e.source,
        category: e.category,
        description,
    }
}

/// The key of a record's contents.
pub open spec fn view_key(v: EntryView) -> TextKey {
    (v.0, v.1)
}

/// The contents of each record.
pub open spec fn entry_views(es: Seq<NormalizedDictionaryEntry>) -> Seq<EntryView> {
    es.map_values(|e: NormalizedDictionaryEntry| entry_view(e))
}

/// Record `i` is the one kept for its `(reading, surface)`: no record with
/// the same pair scores lower, and none before it scores the same.
pub open spec fn kept_record(es: Seq<EntryView>, i: int) -> bool {
    &&& 0 <= i < es.len()
    &&& forall|j: int| 0 <= j < es.len() && #[trigger] view_key(es[j]) == view_key(es[i])
        ==> es[i].2 <= es[j].2 && (j < i ==> es[i].2 < es[j].2)
}

/// `v` is the contents of a kept record of `es`.
pub open spec fn is_kept(es: Seq<EntryView>, v: EntryView) -> bool {
    exists|i: int| kept_record(es, i) && v == es[i]
}

/// Some record of `out` has key `key`.
pub open spec fn has_key(out: Seq<EntryView>, key: TextKey) -> bool {
    exists|k: int| 0 <= k < out.len() && view_key(out[k]) == key
}

/// `out` is `input` merged: one record per `(reading, surface)`, the kept
/// one, in increasing key order.
pub open spec fn merged(input: Seq<EntryView>, out: Seq<EntryView>) -> bool {
    &&& forall|a: int, b: int| 0 <= a < b < out.len() ==> key_lt(view_key(#[trigger] out[a]), view_key(#[trigger] out[b]))
    &&& forall|k: int| 0 <= k < out.len() ==> is_kept(input, #[trigger] out[k])
    &&& forall|i: int| 0 <= i < input.len() ==> has_key(out, view_key(#[trigger] input[i]))
}

/// The keys of `es`.
pub open spec fn entry_keys(es: Seq<EntryView>) -> Seq<TextKey> {
    Seq::new(es.len(), |i: int| view_key(es[i]))
}

/// In sorted positions, earlier keys are not after later ones.
proof fn lemma_sorted_key_le(ks: Seq<TextKey>, s: Seq<usize>, p: int, q: int)
    requires
        sorted_positions(ks, s),
        0 <= p <= q < s.len(),
    ensures
        key_le(ks[s[p] as int], ks[s[q] as int]),
{
    if p < q {
        assert(before(ks, s[p] as int, s[q] as int));
    }
}

/// In sorted positions holding every record, the records with the key of a
/// maximal run all lie in the run.
proof fn lemma_run_holds_key(ks: Seq<TextKey>, s: Seq<usize>, start: int, end: int, j: int)
    requires
        sorted_positions(ks, s),
        s.len() == ks.len(),
        ks.len() <= usize::MAX,
        in_bounds(ks, s),
        forall|x: usize| s.contains(x) <==> x < ks.len(),
        0 <= start < end <= s.len(),
        start > 0 ==> ks[s[start - 1] as int] != ks[s[start] as int],
        end < s.len() ==> ks[s[end] as int] != ks[s[start] as int],
        0 <= j < ks.len(),
        ks[j] == ks[s[start] as int],
    ensures
        exists|p: int| start <= p < end && s[p] == j,
{
    let k = ks[s[start] as int];
    assert(s.contains(j as usize));
    let p = choose|p: int| 0 <= p < s.len() && s[p] == j as usize;
    assert(ks[s[p] as int] == k);
    if p < start {
        lemma_sorted_key_le(ks, s, p, start - 1);
        lemma_sorted_key_le(ks, s, start - 1, start);
        assert(key_lt(ks[s[start - 1] as int], k));
        lemma_key_le_lt(ks[s[p] as int], ks[s[start - 1] as int], k);
        lemma_key_lt_irreflexive(k);
        assert(false);
    } else if p >= end {
        lemma_sorted_key_le(ks, s, start, end);
        lemma_sorted_key_le(ks, s, end, p);
        assert(key_lt(k, ks[s[end] as int]));
        lemma_key_lt_le(k, ks[s[end] as int], ks[s[p] as int]);
        lemma_key_lt_irreflexive(k);
        assert(false);
    }
    assert(start <= p < end && s[p] == j);
}

/// The best record of a maximal run of equal keys is the one kept.
proof fn lemma_run_best_kept(es: Seq<EntryView>, s: Seq<usize>, start: int, end: int, best: usize)
    requires
        sorted_positions(entry_keys(es), s),
        s.len() == es.len(),
        es.len() <= usize::MAX,
        in_bounds(entry_keys(es), s),
        forall|x: usize| s.contains(x) <==> x < es.len(),
        0 <= start < end <= s.len(),
        start > 0 ==> view_key(es[s[start - 1] as int]) != view_key(es[s[start] as int]),
        end < s.len() ==> view_key(es[s[end] as int]) != view_key(es[s[start] as int]),
        forall|q: int| start <= q < end ==> view_key(es[#[trigger] s[q] as int]) == view_key(es[s[start] as int]),
        exists|q: int| start <= q < end && s[q] == best,
        forall|q: int| start <= q < end ==> es[best as int].2 <= es[#[trigger] s[q] as int].2
            && (s[q] < best ==> es[best as int].2 < es[s[q] as int].2),
    ensures
        kept_record(es, best as int),
{
    let ks = entry_keys(es);
    let q0 = choose|q: int| start <= q < end && s[q] == best;
    assert(view_key(es[best as int]) == view_key(es[s[start] as int]));
    assert(ks[s[start] as int] == view_key(es[s[start] as int]));
    assert forall|j: int| 0 <= j < es.len() && #[trigger] view_key(es[j]) == view_key(es[best as int])
        implies es[best as int].2 <= es[j].2 && (j < best ==> es[best as int].2 < es[j].2) by {
        assert(ks[j] == view_key(es[j]));
        lemma_run_holds_key(ks, s, start, end, j);
        let p = choose|p: int| start <= p < end && s[p] == j;
        assert(s[p] == j);
    }
}

/// The readings and the surfaces of `entries`, as characters.
fn key_columns(entries: &Vec<NormalizedDictionaryEntry>) -> (r: (Vec<Vec<char>>, Vec<Vec<char>>))
    ensures
        r.0@.len() == entries@.len(),
        r.1@.len() == entries@.len(),
        text_keys(r.0@, r.1@) == entry_keys(entry_views(entries@)),
{
    let n = entries.len();
    let mut first: Vec<Vec<char>> = Vec::new();
    let mut second: Vec<Vec<char>> = Vec::new();
    let mut i: usize = 0;
    while i < n
        invariant
            n == entries@.len(),
            i <= n,
            first@.len() == i,
            second@.len() == i,
            forall|k: int| 0 <= k < i ==> (#[trigger] first@[k])@ == entries@[k].reading@,
            forall|k: int| 0 <= k < i ==> (#[trigger] second@[k])@ == entries@[k].surface@,
        decreases n - i,
    {
        first.push(chars_of(entries[i].reading.as_str()));
        second.push(chars_of(entries[i].surface.as_str()));
        i += 1;
    }
    assert(text_keys(first@, second@) =~= entry_keys(entry_views(entries@)));
    (first, second)
}

/// The positions `0..n`.
fn all_positions(n: usize) -> (v: Vec<usize>)
    ensures
        v@.len() == n,
        forall|k: int| 0 <= k < n ==> #[trigger] v@[k] == k,
{
    let mut v: Vec<usize> = Vec::new();
    let mut i: usize = 0;
    while i < n
        invariant
            i <= n,
            v@.len() == i,
            forall|k: int| 0 <= k < i ==> #[trigger] v@[k] == k,
        decreases n - i,
    {
        v.push(i);
        i += 1;
    }
    v
}

/// Walks the runs of equal keys in sorted positions `s` and returns each
/// run's kept record, in key order.
#[verifier::rlimit(60)]
fn kept_positions(entries: &Vec<NormalizedDictionaryEntry>, first: &Vec<Vec<char>>, second: &Vec<Vec<char>>, s: &Vec<usize>) -> (winners: Vec<usize>)
    requires
        first@.len() == entries@.len(),
        second@.len() == entries@.len(),
        text_keys(first@, second@) == entry_keys(entry_views(entries@)),
        s@.len() == entries@.len(),
        sorted_positions(entry_keys(entry_views(entries@)), s@),
        in_bounds(entry_keys(entry_views(entries@)), s@),
        forall|x: usize| s@.contains(x) <==> x < entries@.len(),
    ensures
        forall|w: int| 0 <= w < winners@.len() ==> kept_record(entry_views(entries@), #[trigger] winners@[w] as int),
        forall|a: int, b: int| 0 <= a < b < winners@.len() ==> key_lt(view_key(entry_views(entries@)[#[trigger] winners@[a] as int]), view_key(entry_views(entries@)[#[trigger] winners@[b] as int])),
        forall|q: int| 0 <= q < s@.len() ==> exists|w: int| 0 <= w < winners@.len() && view_key(entry_views(entries@)[#[trigger] winners@[w] as int]) == view_key(entry_views(entries@)[#[trigger] s@[q] as int]),
{
    let ghost es = entry_views(entries@);
    let ghost ks = entry_keys(es);
    let n = entries.len();
    let mut winners: Vec<usize> = Vec::new();
    let mut run_start: usize = 0;
    let mut best: usize = 0;
    let mut t: usize = 0;
    while t < n
        invariant
            n == es.len() == ks.len() == s@.len(),
            es == entry_views(entries@),
            ks == entry_keys(es),
            first@.len() == n && second@.len() == n,
            text_keys(first@, second@) == ks,
            sorted_positions(ks, s@),
            in_bounds(ks, s@),
            forall|x: usize| s@.contains(x) <==> x < ks.len(),
            t <= n,
            run_start <= t,
            t == 0 ==> run_start == 0 && winners@.len() == 0,
            t > 0 ==> run_start < t,
            t > 0 ==> forall|q: int| run_start <= q < t ==> ks[#[trigger] s@[q] as int] == ks[s@[run_start as int] as int],
            t > 0 && run_start > 0 ==> ks[s@[run_start - 1] as int] != ks[s@[run_start as int] as int],
            t > 0 ==> exists|q: int| run_start <= q < t && s@[q] == best,
            t > 0 ==> forall|q: int| run_start <= q < t ==> es[best as int].2 <= es[#[trigger] s@[q] as int].2
                && (s@[q] < best ==> es[best as int].2 < es[s@[q] as int].2),
            forall|w: int| 0 <= w < winners@.len() ==> kept_record(es, #[trigger] winners@[w] as int),
            forall|a: int, b: int| 0 <= a < b < winners@.len() ==> key_lt(ks[#[trigger] winners@[a] as int], ks[#[trigger] winners@[b] as int]),
            t > 0 && winners@.len() > 0 ==> key_lt(ks[winners@.last() as int], ks[s@[run_start as int] as int]),
            forall|q: int| 0 <= q < run_start ==> exists|w: int| 0 <= w < winners@.len() && ks[#[trigger] winners@[w] as int] == ks[#[trigger] s@[q] as int],
        decreases n - t,
    {
        let cur = s[t];
        proof {
            assert(s@.contains(cur));
        }
        let same_run = t > 0 && chars_eq(first[cur].as_slice(), first[s[t - 1]].as_slice())
            && chars_eq(second[cur].as_slice(), second[s[t - 1]].as_slice());
        if same_run {
            proof {
                assert(ks[cur as int] == ks[s@[t - 1] as int]);
                assert forall|q: int| run_start <= q < t implies #[trigger] s@[q] < cur by {
                    assert(before(ks, s@[q] as int, cur as int));
                    lemma_key_lt_irreflexive(ks[cur as int]);
                }
            }
            if entries[cur].score < entries[best].score {
                best = cur;
            }
        } else {
            if t > 0 {
                let ghost k = ks[s@[run_start as int] as int];
                proof {
                    assert(ks[cur as int] != ks[s@[t - 1] as int]);
                    lemma_run_best_kept(es, s@, run_start as int, t as int, best);
                    assert(before(ks, s@[t - 1] as int, cur as int));
                    assert(key_lt(k, ks[cur as int]));
                }
                let ghost old_w = winners@;
                winners.push(best);
                proof {
                    let q0 = choose|q: int| run_start <= q < t && s@[q] == best;
                    assert(ks[best as int] == k);
                    assert forall|a: int, b: int| 0 <= a < b < winners@.len() implies key_lt(ks[#[trigger] winners@[a] as int], ks[#[trigger] winners@[b] as int]) by {
                        if b < old_w.len() {
                            assert(winners@[a] == old_w[a] && winners@[b] == old_w[b]);
                        } else {
                            assert(winners@[a] == old_w[a]);
                            if a < old_w.len() - 1 {
                                lemma_key_lt_transitive(ks[old_w[a] as int], ks[old_w.last() as int], k);
                            }
                        }
                    }
                    assert forall|q: int| 0 <= q < t implies exists|w: int| 0 <= w < winners@.len() && ks[#[trigger] winners@[w] as int] == ks[#[trigger] s@[q] as int] by {
                        if q < run_start {
                            let w = choose|w: int| 0 <= w < old_w.len() && ks[old_w[w] as int] == ks[s@[q] as int];
                            assert(winners@[w] == old_w[w]);
                        } else {
                            assert(winners@[winners@.len() - 1] == best);
                        }
                    }
                }
            }
            run_start = t;
            best = cur;
        }
        t += 1;
    }
    if n > 0 {
        let ghost k = ks[s@[run_start as int] as int];
        proof {
            lemma_run_best_kept(es, s@, run_start as int, n as int, best);
        }
        let ghost old_w = winners@;
        winners.push(best);
        proof {
            let q0 = choose|q: int| run_start <= q < n && s@[q] == best;
            assert(ks[best as int] == k);
            assert forall|a: int, b: int| 0 <= a < b < winners@.len() implies key_lt(ks[#[trigger] winners@[a] as int], ks[#[trigger] winners@[b] as int]) by {
                if b < old_w.len() {
                    assert(winners@[a] == old_w[a] && winners@[b] == old_w[b]);
                } else {
                    assert(winners@[a] == old_w[a]);
                    if a < old_w.len() - 1 {
                        lemma_key_lt_transitive(ks[old_w[a] as int], ks[old_w.last() as int], k);
                    }
                }
            }
            assert forall|q: int| 0 <= q < n implies exists|w: int| 0 <= w < winners@.len() && ks[#[trigger] winners@[w] as int] == ks[#[trigger] s@[q] as int] by {
                if q < run_start {
                    let w = choose|w: int| 0 <= w < old_w.len() && ks[old_w[w] as int] == ks[s@[q] as int];
                    assert(winners@[w] == old_w[w]);
                } else {
                    assert(winners@[winners@.len() - 1] == best);
                }
            }
        }
    }
    proof {
        assert forall|a: int, b: int| 0 <= a < b < winners@.len() implies key_lt(view_key(es[#[trigger] winners@[a] as int]), view_key(es[#[trigger] winners@[b] as int])) by {
            assert(ks[winners@[a] as int] == view_key(es[winners@[a] as int]));
            assert(ks[winners@[b] as int] == view_key(es[winners@[b] as int]));
        }
        assert forall|q: int| 0 <= q < s@.len() implies exists|w: int| 0 <= w < winners@.len() && view_key(es[#[trigger] winners@[w] as int]) == view_key(es[#[trigger] s@[q] as int]) by {
            let w = choose|w: int| 0 <= w < winners@.len() && ks[winners@[w] as int] == ks[s@[q] as int];
            assert(ks[winners@[w] as int] == view_key(es[winners@[w] as int]));
        }
    }
    winners
}

/// Merges records with the same `(reading, surface)`: the lowest score is
/// kept, the first record wins a tie, and the result is ordered by
/// `(reading, surface)`.
pub fn merge_normalized_entries(entries: Vec<NormalizedDictionaryEntry>) -> (out: Vec<NormalizedDictionaryEntry>)
    ensures
        merged(entry_views(entries@), entry_views(out@)),
{
    let ghost es = entry_views(entries@);
    let (first, second) = key_columns(&entries);
    let positions = all_positions(entries.len());
    let ghost ks = entry_keys(es);
    assert(distinct(positions@));
    assert(in_bounds(text_keys(first@, second@), positions@));
    let s = sort_positions(&first, &second, positions);
    proof {
        assert forall|x: usize| s@.contains(x) <==> x < es.len() by {
            if x < es.len() {
                assert(positions@[x as int] == x);
            }
        }
    }
    let winners = kept_positions(&entries, &first, &second, &s);
    let mut out: Vec<NormalizedDictionaryEntry> = Vec::new();
    let mut w: usize = 0;
    while w < winners.len()
        invariant
            es == entry_views(entries@),
            w <= winners@.len(),
            out@.len() == w,
            forall|v: int| 0 <= v < winners@.len() ==> kept_record(es, #[trigger] winners@[v] as int),
            forall|v: int| 0 <= v < w ==> entry_view(#[trigger] out@[v]) == es[winners@[v] as int],
        decreases winners@.len() - w,
    {
        out.push(copy_entry(&entries[winners[w]]));
        w += 1;
    }
    proof {
        let ov = entry_views(out@);
        assert forall|a: int, b: int| 0 <= a < b < ov.len() implies key_lt(view_key(#[trigger] ov[a]), view_key(#[trigger] ov[b])) by {
            assert(ov[a] == es[winners@[a] as int]);
            assert(ov[b] == es[winners@[b] as int]);
        }
        assert forall|k: int| 0 <= k < ov.len() implies is_kept(es, #[trigger] ov[k]) by {
            assert(kept_record(es, winners@[k] as int));
            assert(ov[k] == es[winners@[k] as int]);
        }
        assert forall|i: int| 0 <= i < es.len() implies has_key(ov, view_key(#[trigger] es[i])) by {
            assert(s@.contains(i as usize));
            let q = choose|q: int| 0 <= q < s@.len() && s@[q] == i as usize;
            let v = choose|v: int| 0 <= v < winners@.len() && view_key(es[winners@[v] as int]) == view_key(es[s@[q] as int]);
            assert(ov[v] == es[winners@[v] as int]);
        }
    }
    out
}
} // verus!

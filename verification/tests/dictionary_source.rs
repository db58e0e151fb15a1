use karukan::dict::{DictionaryCategory, DictionarySource};
use karukan::dictionary_source::{
    merge_normalized_entries, normalize_reading, normalize_surface, sha256, trim, verify_bytes, DictionarySourceSpec,
    DictionarySourcesManifest, ManifestError, NormalizedDictionaryEntry, SourceArchive,
};

fn fixture_source() -> DictionarySourceSpec {
    DictionarySourceSpec {
        name: "fixture".to_string(),
        version: "1".to_string(),
        url: "file:///fixture.tsv".to_string(),
        sha256: "0".repeat(64),
        license: "CC0-1.0".to_string(),
        priority: 10,
        filename: "fixture.tsv".to_string(),
        archive: SourceArchive::Plain,
    }
}

fn source(hash: String) -> DictionarySourceSpec {
    DictionarySourceSpec {
        name: "fixture".to_string(),
        version: "1".to_string(),
        url: "file:///fixture".to_string(),
        sha256: hash,
        license: "CC0-1.0".to_string(),
        priority: 0,
        filename: "fixture".to_string(),
        archive: SourceArchive::Plain,
    }
}

#[test]
fn manifest_validation_rejects_duplicate_names() {
    let manifest = DictionarySourcesManifest { schema_version: 1, sources: vec![fixture_source(), fixture_source()] };
    assert!(manifest.validate().is_err());
}

#[test]
fn verifies_fixture_sha256() {
    let bytes = b"karukan dictionary fixture\n";
    assert_eq!(sha256(bytes).len(), 64);
    assert!(verify_bytes(&source(sha256(bytes)), bytes).is_ok());
    assert!(verify_bytes(&source("0".repeat(64)), bytes).is_err());
}

#[test]
fn sha256_matches_the_standard_test_vector_in_any_case() {
    assert_eq!(sha256(b"abc"), "ba7816bf8f01cfea414140de5dae2223b00361a396177a9cb410ff61f20015ad");
    let upper = "BA7816BF8F01CFEA414140DE5DAE2223B00361A396177A9CB410FF61F20015AD".to_string();
    assert!(verify_bytes(&source(upper), b"abc").is_ok());
}

#[test]
fn manifest_errors_name_the_first_failing_source() {
    let ok = DictionarySourcesManifest { schema_version: 1, sources: vec![fixture_source()] };
    assert_eq!(ok.validate(), Ok(()));
    let schema = DictionarySourcesManifest { schema_version: 2, sources: vec![] };
    assert_eq!(schema.validate(), Err(ManifestError::UnsupportedSchema(2)));
    let mut blank = fixture_source();
    blank.license = " \u{3000}".to_string();
    let manifest = DictionarySourcesManifest { schema_version: 1, sources: vec![blank] };
    assert_eq!(manifest.validate(), Err(ManifestError::EmptyField("fixture".to_string())));
    let mut bad = fixture_source();
    bad.sha256 = "g".repeat(64);
    let manifest = DictionarySourcesManifest { schema_version: 1, sources: vec![bad] };
    assert_eq!(manifest.validate(), Err(ManifestError::InvalidSha256("fixture".to_string())));
    assert_eq!(
        ManifestError::DuplicateName("x".to_string()).message(),
        "duplicate dictionary source name: x"
    );
}

#[test]
fn readings_are_normalized_to_hiragana() {
    assert_eq!(normalize_reading(" ジュッチュウハック "), "じゅっちゅうはっく");
    assert_eq!(normalize_reading("ｶﾀｶﾅ"), "かたかな");
    assert_eq!(normalize_surface("  十中八九\t"), "十中八九");
    assert_eq!(normalize_surface("ＡＢＣ"), "ABC");
    assert_eq!(trim("\u{3000} a b \n"), "a b");
}

#[test]
fn normalizes_and_merges_fixture_records() {
    let entries = vec![
        NormalizedDictionaryEntry::new(
            "ジュッチュウハック",
            "十中八九",
            10,
            DictionarySource::Sudachi,
            DictionaryCategory::Idiom,
            None,
        )
        .unwrap(),
        NormalizedDictionaryEntry::new(
            "じゅっちゅうはっく",
            "十中八九",
            5,
            DictionarySource::JMdict,
            DictionaryCategory::Idiom,
            Some("慣用句".to_string()),
        )
        .unwrap(),
    ];
    let merged = merge_normalized_entries(entries);
    assert_eq!(merged.len(), 1);
    assert_eq!(merged[0].reading, "じゅっちゅうはっく");
    assert_eq!(merged[0].score, 5);
    assert_eq!(merged[0].description.as_deref(), Some("慣用句"));
}

fn entry(reading: &str, surface: &str, score: i64, source: DictionarySource) -> NormalizedDictionaryEntry {
    NormalizedDictionaryEntry::new(reading, surface, score, source, DictionaryCategory::General, None).unwrap()
}

#[test]
fn merge_keeps_the_first_of_equal_scores_and_orders_by_key() {
    let merged = merge_normalized_entries(vec![
        entry("か", "蚊", 3, DictionarySource::Mozc),
        entry("あ", "亜", 1, DictionarySource::Mozc),
        entry("か", "蚊", 3, DictionarySource::Skk),
        entry("か", "化", 9, DictionarySource::Mozc),
        entry("あ", "亜", 0, DictionarySource::Gsi),
    ]);
    let keys: Vec<(&str, &str)> = merged.iter().map(|e| (e.reading.as_str(), e.surface.as_str())).collect();
    assert_eq!(keys, [("あ", "亜"), ("か", "化"), ("か", "蚊")]);
    assert_eq!(merged[0].source, DictionarySource::Gsi);
    assert_eq!(merged[2].source, DictionarySource::Mozc);
}

#[test]
fn new_entry_normalizes_and_refuses_blank_fields() {
    let e = NormalizedDictionaryEntry::new(" トウキョウ ", "東京都", 1, DictionarySource::JapanPost, DictionaryCategory::Address, Some("  ".to_string())).unwrap();
    assert_eq!(e.reading, "とうきょう");
    assert_eq!(e.description, None);
    assert!(NormalizedDictionaryEntry::new("  ", "x", 0, DictionarySource::User, DictionaryCategory::General, None).is_none());
    assert!(NormalizedDictionaryEntry::new("x", "", 0, DictionarySource::User, DictionaryCategory::General, None).is_none());
}

use karukan::dict::{Dictionary, DictionaryCategory, DictionarySource};
use karukan::dictionary_source::NormalizedDictionaryEntry;
use karukan::lattice::{search_dictionary_lattice, LatticeDictionary, LatticeDictionaryKind, LatticeLimits};

fn entry(reading: &str, surface: &str, score: i64) -> NormalizedDictionaryEntry {
    NormalizedDictionaryEntry::new(reading, surface, score, DictionarySource::Mozc, DictionaryCategory::General, None)
        .unwrap()
}

#[test]
fn builds_viterbi_and_k_best_paths_from_overlapping_entries() {
    let dictionary = Dictionary::build_from_normalized(&[
        entry("とうきょう", "東京", 2),
        entry("と", "都", 50),
        entry("きょう", "京", 50),
        entry("えき", "駅", 1),
        entry("えき", "驛", 20),
    ]);
    let paths = search_dictionary_lattice(
        "とうきょうえき",
        &[LatticeDictionary { dictionary: &dictionary, kind: LatticeDictionaryKind::System, score_bias: 0 }],
        LatticeLimits { max_paths: 3, ..LatticeLimits::default() },
    );
    assert_eq!(paths[0].surface, "東京駅");
    assert_eq!(paths[0].segments.len(), 2);
    assert!(paths.iter().any(|path| path.surface == "東京驛"));
    assert!(paths.windows(2).all(|pair| pair[0].score <= pair[1].score));
}

#[test]
fn combines_user_and_system_dictionary_edges() {
    let user = Dictionary::build_from_normalized(&[entry("あと", "あと", 0)]);
    let system = Dictionary::build_from_normalized(&[entry("で", "で", 0), entry("す", "す", 0)]);
    let paths = search_dictionary_lattice(
        "あとです",
        &[
            LatticeDictionary { dictionary: &user, kind: LatticeDictionaryKind::User, score_bias: -100 },
            LatticeDictionary { dictionary: &system, kind: LatticeDictionaryKind::System, score_bias: 0 },
        ],
        LatticeLimits::default(),
    );
    assert_eq!(paths[0].surface, "あとです");
    assert_eq!(paths[0].segments[0].dictionary_kind, Some(LatticeDictionaryKind::User));
    assert!(!paths[0].has_unknown());
}

#[test]
fn emits_unknown_fallback_with_character_ranges() {
    let paths = search_dictionary_lattice("かな", &[], LatticeLimits::default());
    assert_eq!(paths.len(), 1);
    assert_eq!(paths[0].surface, "かな");
    assert_eq!(paths[0].segments[1].char_start, 1);
    assert_eq!(paths[0].segments[1].char_end, 2);
    assert!(paths[0].has_unknown());
}

#[test]
fn best_path_scores_are_exact_sums() {
    let dictionary = Dictionary::build_from_normalized(&[entry("とうきょう", "東京", 2), entry("えき", "駅", 1)]);
    let paths = search_dictionary_lattice(
        "とうきょうえき",
        &[LatticeDictionary { dictionary: &dictionary, kind: LatticeDictionaryKind::System, score_bias: 0 }],
        LatticeLimits::default(),
    );
    // 東京 (2 + 1) then 駅 (1 + 1).
    assert_eq!(paths[0].score, 5);
    assert_eq!(paths[0].segments[0].score, 3);
    assert_eq!(paths[0].segments[1].char_start, 5);
    assert_eq!(paths[0].segments[1].char_end, 7);
    assert_eq!(paths[0].segments[1].reading, "えき");
}

#[test]
fn zero_limits_or_empty_reading_give_no_path() {
    assert!(search_dictionary_lattice("", &[], LatticeLimits::default()).is_empty());
    assert!(search_dictionary_lattice("かな", &[], LatticeLimits { max_paths: 0, ..LatticeLimits::default() }).is_empty());
    assert!(search_dictionary_lattice("かな", &[], LatticeLimits { beam_width: 0, ..LatticeLimits::default() }).is_empty());
}

#[test]
fn segment_candidates_limit_the_edges_per_reading() {
    let dictionary = Dictionary::build_from_normalized(&[
        entry("えき", "駅", 1),
        entry("えき", "驛", 2),
        entry("えき", "易", 3),
    ]);
    let paths = search_dictionary_lattice(
        "えき",
        &[LatticeDictionary { dictionary: &dictionary, kind: LatticeDictionaryKind::System, score_bias: 0 }],
        LatticeLimits { segment_candidates: 2, ..LatticeLimits::default() },
    );
    let surfaces: Vec<&str> = paths.iter().map(|path| path.surface.as_str()).collect();
    assert_eq!(surfaces, ["駅", "驛", "えき"]);
}

#[test]
fn one_path_per_surface_keeps_the_lower_score() {
    let dictionary = Dictionary::build_from_normalized(&[
        entry("あ", "ア", 0),
        entry("い", "イ", 0),
        entry("あい", "アイ", 10),
    ]);
    let paths = search_dictionary_lattice(
        "あい",
        &[LatticeDictionary { dictionary: &dictionary, kind: LatticeDictionaryKind::System, score_bias: 0 }],
        LatticeLimits::default(),
    );
    let same: Vec<&karukan::lattice::LatticePath> = paths.iter().filter(|path| path.surface == "アイ").collect();
    assert_eq!(same.len(), 1);
    // ア + イ scores 1 + 1; アイ as one edge scores 10 + 1.
    assert_eq!(same[0].score, 2);
    assert_eq!(same[0].segments.len(), 2);
    for (i, a) in paths.iter().enumerate() {
        for b in &paths[i + 1..] {
            assert_ne!(a.surface, b.surface);
        }
    }
}

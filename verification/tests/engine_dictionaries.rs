use karukan::dict::{Dictionary, DictionaryCategory, DictionarySource};
use karukan::dictionary_source::NormalizedDictionaryEntry;
use karukan::engine::InputMethodEngine;
use karukan::types::{CandidateSource, InputMode};

fn entry(reading: &str, surface: &str, score: i64, description: Option<&str>) -> NormalizedDictionaryEntry {
    NormalizedDictionaryEntry::new(
        reading,
        surface,
        score,
        DictionarySource::User,
        DictionaryCategory::General,
        description.map(str::to_string),
    )
    .unwrap()
}

fn engine_with(user: &[NormalizedDictionaryEntry], system: &[NormalizedDictionaryEntry]) -> InputMethodEngine {
    let mut engine = InputMethodEngine::new();
    engine.dicts.user = Some(Dictionary::build_from_normalized(user));
    engine.dicts.system = Some(Dictionary::build_from_normalized(system));
    engine
}

#[test]
fn user_results_come_before_system_results_sorted_by_score() {
    let engine = engine_with(
        &[entry("かるかん", "karukan", 0, None)],
        &[entry("かるかん", "軽羹", 5, Some("菓子")), entry("かるかん", "軽燗", 1, None), entry("かるかん", "karukan", 0, None)],
    );
    let found = engine.search_dictionaries("かるかん", usize::MAX);
    let texts: Vec<&str> = found.iter().map(|c| c.text.as_str()).collect();
    assert_eq!(texts, ["karukan", "軽燗", "軽羹"]);
    assert_eq!(found[0].source, CandidateSource::UserDictionary);
    assert_eq!(found[1].source, CandidateSource::Dictionary);
    assert_eq!(found[2].description.as_deref(), Some("菓子"));

    let limited = engine.search_dictionaries("かるかん", 2);
    assert_eq!(limited.len(), 2);
    assert!(engine.search_dictionaries("かる", usize::MAX).is_empty());
}

#[test]
fn explicit_conversion_orders_dictionary_and_lattice_candidates() {
    let engine = engine_with(&[entry("かるかん", "karukan", 0, None)], &[entry("かるかん", "軽羹", 3, None)]);
    let built = engine.build_conversion_candidates("かるかん", 9, false);
    let texts: Vec<&str> = built.iter().map(|c| c.text.as_str()).collect();
    assert_eq!(texts, ["karukan", "軽羹", "かるかん", "カルカン"]);
}

#[test]
fn lattice_candidates_join_segment_descriptions() {
    let engine = engine_with(
        &[],
        &[entry("とうきょう", "東京", 2, Some("地名")), entry("えき", "駅", 1, Some("施設"))],
    );
    let candidates = engine.dictionary_lattice_candidates("とうきょうえき", 9);
    assert_eq!(candidates[0].text, "東京駅");
    assert_eq!(candidates[0].description.as_deref(), Some("地名 / 施設"));
    assert_eq!(candidates[0].source, CandidateSource::Dictionary);
    // The all-fallback path is not a dictionary result.
    assert!(candidates.iter().all(|c| c.text != "とうきょうえき"));
}

#[test]
fn without_dictionaries_conversion_falls_back_to_kana() {
    let engine = InputMethodEngine::new();
    let built = engine.build_conversion_candidates("かな", 9, false);
    let texts: Vec<&str> = built.iter().map(|c| c.text.as_str()).collect();
    assert_eq!(texts, ["かな", "カナ"]);
    assert!(engine.dictionary_lattice_candidates("かな", 9).is_empty());
}

#[test]
fn live_matches_respect_single_hiragana_priority() {
    let mut engine = engine_with(&[entry("あ", "亜", 0, None), entry("あい", "愛", 0, None)], &[]);
    engine.input_mode = InputMode::Hiragana;
    assert!(engine.live_user_dictionary_matches("あ").is_empty());
    let matches = engine.live_user_dictionary_matches("あい");
    assert_eq!(matches.len(), 1);
    assert_eq!(matches[0].candidates, ["愛"]);
}

#[test]
fn dictionary_lattice_emits_multiple_candidates_for_multiple_segments() {
    let entry = |reading: &str, surface: &str, score: i64| {
        NormalizedDictionaryEntry::new(
            reading,
            surface,
            score,
            DictionarySource::Mozc,
            DictionaryCategory::General,
            None,
        )
        .unwrap()
    };
    let dictionary = Dictionary::build_from_normalized(&[
        entry("とうきょう", "東京", 0),
        entry("えき", "駅", 0),
        entry("えき", "驛", 1),
    ]);
    let mut engine = InputMethodEngine::new();
    engine.dicts.system = Some(dictionary);

    let candidates = engine.dictionary_lattice_candidates("とうきょうえき", 9);
    let texts: Vec<_> = candidates.iter().map(|candidate| candidate.text.as_str()).collect();
    assert_eq!(texts[0], "東京駅");
    assert!(texts.contains(&"東京驛"));
    assert!(candidates.len() <= 9);
}

#[test]
fn a_long_reading_offers_its_spans_combined() {
    let engine = InputMethodEngine::new();
    let out = engine.build_conversion_candidates("あい、あい", 9, false);
    let texts: Vec<&str> = out.iter().map(|c| c.text.as_str()).collect();
    assert_eq!(texts, ["あい、あい", "あい、アイ", "アイ、あい", "アイ、アイ"]);
    assert_eq!(out[1].source, karukan::types::CandidateSource::Hybrid);
    let short = engine.build_conversion_candidates("あい", 9, false);
    let texts: Vec<&str> = short.iter().map(|c| c.text.as_str()).collect();
    assert_eq!(texts, ["あい", "アイ"]);
}

#[test]
fn composing_suggestions_offer_dictionary_candidates() {
    let mut engine = engine_with(&[entry("あい", "愛", 0, None)], &[entry("あい", "藍", 1, None)]);
    let modifiers = karukan::keycode::KeyModifiers::new();
    engine.process_key(&karukan::keycode::KeyEvent::new('a' as u32, modifiers, true));
    engine.process_key(&karukan::keycode::KeyEvent::new('i' as u32, modifiers, true));
    let list = engine.composing_candidates.as_ref().unwrap();
    let texts: Vec<&str> = list.candidates().iter().map(|c| c.text.as_str()).collect();
    assert!(texts.contains(&"愛"));
    assert!(texts.contains(&"藍"));
    assert!(texts.contains(&"あい"));
}

#[test]
fn the_model_beam_leads_the_generated_candidates() {
    let engine = InputMethodEngine::new();
    let beam = vec!["愛".to_string(), "藍".to_string()];
    let out = engine.build_conversion_candidates_with_model("あい", 9, false, &beam);
    let texts: Vec<&str> = out.iter().map(|c| c.text.as_str()).collect();
    assert_eq!(texts, ["愛", "藍", "あい", "アイ"]);
    assert_eq!(out[0].source, CandidateSource::Model);
}

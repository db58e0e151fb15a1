use karukan::dict::{Dictionary, DictionaryCategory, DictionarySource};
use karukan::dictionary_source::NormalizedDictionaryEntry;
use karukan::live_dictionary::select_live_user_dictionary_matches;

fn dictionary(entries: &[(&str, &str, i64)]) -> Dictionary {
    let normalized: Vec<NormalizedDictionaryEntry> = entries
        .iter()
        .map(|(reading, surface, score)| {
            NormalizedDictionaryEntry::new(
                reading,
                surface,
                *score,
                DictionarySource::User,
                DictionaryCategory::General,
                None,
            )
            .unwrap()
        })
        .collect();
    Dictionary::build_from_normalized(&normalized)
}

#[test]
fn maximizes_registered_character_coverage() {
    let dict = dictionary(&[("あい", "愛", 0), ("いうえ", "言う絵", 0)]);
    let matches = select_live_user_dictionary_matches(Some(&dict), "あいうえ");

    assert_eq!(matches.len(), 1);
    assert_eq!(matches[0].reading, "いうえ");
    assert_eq!(matches[0].candidates, ["言う絵"]);
}

#[test]
fn fewer_long_spans_win_when_coverage_is_equal() {
    let dict = dictionary(&[("あいうえ", "一語", 5), ("あい", "前", 0), ("うえ", "後", 0)]);
    let matches = select_live_user_dictionary_matches(Some(&dict), "あいうえ");

    assert_eq!(matches.len(), 1);
    assert_eq!(matches[0].reading, "あいうえ");
    assert_eq!(matches[0].candidates, ["一語"]);
}

#[test]
fn dictionary_score_breaks_equal_coverage_ties() {
    let dict = dictionary(&[("あい", "高コスト", 10), ("いう", "低コスト", 0)]);
    let matches = select_live_user_dictionary_matches(Some(&dict), "あいう");

    assert_eq!(matches.len(), 1);
    assert_eq!(matches[0].reading, "いう");
    assert_eq!(matches[0].candidates, ["低コスト"]);
}

#[test]
fn ignores_one_character_entries_only_when_embedded() {
    let dict = dictionary(&[("あ", "亜", 0)]);

    assert!(select_live_user_dictionary_matches(Some(&dict), "あい").is_empty());
    assert_eq!(select_live_user_dictionary_matches(Some(&dict), "あ")[0].candidates, ["亜"]);
}

#[test]
fn corrected_zu_du_match_keeps_original_character_range() {
    let dict = dictionary(&[("つづく", "続く", 0)]);
    let matches = select_live_user_dictionary_matches(Some(&dict), "つずくよ");

    assert_eq!(matches.len(), 1);
    assert_eq!(matches[0].char_start, 0);
    assert_eq!(matches[0].char_end, 3);
    assert_eq!(matches[0].reading, "つずく");
    assert_eq!(matches[0].candidates, ["続く"]);
}

#[test]
fn keeps_alternative_surfaces_in_dictionary_order() {
    let dict = dictionary(&[("かるかん", "karukan", 0), ("かるかん", "軽羹", 1)]);
    let matches = select_live_user_dictionary_matches(Some(&dict), "かるかんを");

    assert_eq!(matches[0].candidates, ["karukan", "軽羹"]);
}

#[test]
fn no_dictionary_pins_nothing() {
    assert!(select_live_user_dictionary_matches(None, "あいうえ").is_empty());
    let dict = dictionary(&[("あい", "愛", 0)]);
    assert!(select_live_user_dictionary_matches(Some(&dict), "").is_empty());
}

#[test]
fn two_disjoint_spans_cover_more_than_one() {
    let dict = dictionary(&[("あい", "愛", 3), ("うえ", "上", 4), ("いう", "言う", 0)]);
    let matches = select_live_user_dictionary_matches(Some(&dict), "あいうえ");

    assert_eq!(matches.len(), 2);
    assert_eq!((matches[0].char_start, matches[0].char_end), (0, 2));
    assert_eq!((matches[1].char_start, matches[1].char_end), (2, 4));
    assert_eq!(matches[1].candidates, ["上"]);
}

#[test]
fn candidates_follow_scores_not_registration_order() {
    let dict = dictionary(&[("かるかん", "軽羹", 7), ("かるかん", "karukan", 2), ("かるかん", "カルカン", 7)]);
    let found = dict.exact_match_search("かるかん").unwrap();
    let surfaces: Vec<&str> = found.candidates.iter().map(|c| c.surface.as_str()).collect();
    assert_eq!(surfaces, ["karukan", "軽羹", "カルカン"]);
    assert!(dict.exact_match_search("かる").is_none());
}

#[test]
fn exact_spelling_surfaces_lead_corrected_ones() {
    let dict = dictionary(&[("つずく", "つずく語", 0), ("つづく", "続く", 0)]);
    let matches = select_live_user_dictionary_matches(Some(&dict), "つずく");

    assert_eq!(matches.len(), 1);
    assert_eq!(matches[0].candidates, ["つずく語", "続く"]);
}

use karukan::morphology::{
    align_to_original_reading, analyze_token, edit_distance, model_candidate_preserves_reading, segment_analyzed_surface,
};

#[test]
fn rejects_kana_rewrite_that_changes_the_reading() {
    assert!(!model_candidate_preserves_reading("だし", "だけど"));
}

#[test]
fn accepts_matching_kana_across_width_and_script_variants() {
    assert!(model_candidate_preserves_reading("だけど", "だけど"));
    assert!(model_candidate_preserves_reading("ダケド", "だけど"));
    assert!(model_candidate_preserves_reading("ﾀﾞｹﾄﾞ", "だけど"));
}

#[test]
fn rejects_model_candidates_that_add_or_remove_a_wave_dash() {
    assert!(!model_candidate_preserves_reading("だから〜", "だから"));
    assert!(!model_candidate_preserves_reading("だから～", "だから"));
    assert!(!model_candidate_preserves_reading("だから", "だから〜"));
    assert!(!model_candidate_preserves_reading("だから〜〜", "だから～"));
}

#[test]
fn treats_both_wave_dash_forms_as_equivalent_by_count() {
    assert!(model_candidate_preserves_reading("だから～", "だから〜"));
    assert!(model_candidate_preserves_reading("だから〜", "だから～"));
}

#[test]
fn keeps_kanji_candidates_when_surface_reading_is_ambiguous() {
    assert!(model_candidate_preserves_reading("後", "あと"));
    assert!(model_candidate_preserves_reading("後", "のち"));
}

#[test]
fn keeps_non_kana_candidates_that_need_a_richer_reading_check() {
    assert!(model_candidate_preserves_reading("1つ", "ひとつ"));
    assert!(model_candidate_preserves_reading("後だし", "あと"));
}

#[test]
fn edit_distance_counts_single_character_edits() {
    let a: Vec<char> = "きずく".chars().collect();
    let b: Vec<char> = "きづく".chars().collect();
    assert_eq!(edit_distance(&a, &b), 1);
    assert_eq!(edit_distance(&a, &[]), 3);
}

#[test]
fn analyzed_tokens_with_readings_segment_the_surface() {
    // Tokens as a morphological analyzer reports them for 東京ミステリー駅.
    let tokens = vec![
        analyze_token("東京", Some("トウキョウ")),
        analyze_token("ミステリー", Some("ミステリー")),
        analyze_token("駅", Some("エキ")),
    ];
    let segments = segment_analyzed_surface(&tokens, "とうきょうなぞえき").unwrap();
    let pairs: Vec<(&str, &str)> =
        segments.iter().map(|segment| (segment.surface.as_str(), segment.reading.as_str())).collect();
    assert_eq!(pairs, [("東京", "とうきょう"), ("ミステリー", "なぞ"), ("駅", "えき")]);
}

#[test]
fn alignment_keeps_exact_tokens_and_confines_the_mismatch() {
    let tokens = vec![analyze_token("東京", Some("トウキョウ")), analyze_token("駅", Some("エキ"))];
    let exact: Vec<char> = "とうきょうえき".chars().collect();
    assert_eq!(align_to_original_reading(&tokens, &exact), Some(vec![(0, 5), (5, 7)]));
    let typo: Vec<char> = "とうきょうえぎ".chars().collect();
    assert_eq!(align_to_original_reading(&tokens, &typo), Some(vec![(0, 5), (5, 7)]));
    assert_eq!(align_to_original_reading(&tokens, &Vec::new()), None);
}

/// Segments `surface` as the embedded IPADIC tokenizes it: `tokens` are its
/// tokens with their dictionary readings (none for unknown words).
fn segment_live_surface(tokens: &[(&str, Option<&str>)], reading: &str) -> Option<Vec<karukan::morphology::SurfaceSegment>> {
    let analyzed: Vec<_> = tokens.iter().map(|(surface, dictionary)| analyze_token(surface, *dictionary)).collect();
    segment_analyzed_surface(&analyzed, reading)
}

#[test]
fn segments_the_live_surface_with_ipadic_boundaries() {
    let segments = segment_live_surface(
        &[("本来", Some("ホンライ")), ("の", Some("ノ")), ("用途", Some("ヨウト")), ("以外", Some("イガイ")), ("で", Some("デ")), ("は", Some("ハ"))],
        "ほんらいのようといがいでは",
    )
    .unwrap();
    let surfaces: Vec<_> = segments.iter().map(|segment| segment.surface.as_str()).collect();
    let readings: Vec<_> = segments.iter().map(|segment| segment.reading.as_str()).collect();

    assert_eq!(surfaces, ["本来", "の", "用途", "以外", "で", "は"]);
    assert_eq!(readings, ["ほんらい", "の", "ようと", "いがい", "で", "は"]);
}

#[test]
fn assigns_only_the_mismatched_token_an_approximate_reading() {
    let segments = segment_live_surface(
        &[("東京", Some("トウキョウ")), ("ミステリー", Some("ミステリー")), ("駅", Some("エキ"))],
        "とうきょうなぞえき",
    )
    .unwrap();

    assert_eq!(
        segments.iter().map(|segment| (segment.surface.as_str(), segment.reading.as_str())).collect::<Vec<_>>(),
        [("東京", "とうきょう"), ("ミステリー", "なぞ"), ("駅", "えき")]
    );
}

#[test]
fn distributes_a_mismatched_region_without_moving_an_exact_suffix() {
    let segments = segment_live_surface(
        &[("東京", Some("トウキョウ")), ("都", Some("ト")), ("駅", Some("エキ"))],
        "とうきょうえき",
    )
    .unwrap();

    assert_eq!(segments.iter().map(|segment| segment.surface.as_str()).collect::<String>(), "東京都駅");
    assert_eq!(segments.iter().map(|segment| segment.reading.as_str()).collect::<String>(), "とうきょうえき");
    assert_eq!(segments.last().unwrap().surface, "駅");
    assert_eq!(segments.last().unwrap().reading, "えき");
}

#[test]
fn preserves_non_japanese_runs_when_their_surface_matches() {
    let segments = segment_live_surface(
        &[("今日", Some("キョウ")), ("は", Some("ハ")), (" ", None), ("ChatGPT", None), ("。", Some("。"))],
        "きょうは ChatGPT。",
    )
    .unwrap();
    assert_eq!(segments.iter().map(|segment| segment.surface.as_str()).collect::<Vec<_>>().concat(), "今日は ChatGPT。");
}

use karukan::reading_correction::{interleave_model_candidates, zu_du_reading_variants, ModelCandidate};

fn model(text: &str) -> ModelCandidate {
    ModelCandidate::new(text)
}

#[test]
fn original_reading_stays_first_and_single_changes_come_before_combined_change() {
    assert_eq!(
        zu_du_reading_variants("ずづズヅ"),
        ["ずづズヅ", "づづズヅ", "ずずズヅ", "ずづヅヅ"]
    );
    assert_eq!(zu_du_reading_variants("ずづ"), ["ずづ", "づづ", "ずず", "づず"]);
}

#[test]
fn reading_without_target_kana_has_only_the_original_variant() {
    assert_eq!(zu_du_reading_variants("こんにちは"), ["こんにちは"]);
}

#[test]
fn model_beams_are_interleaved_and_deduplicated() {
    let merged = interleave_model_candidates(
        vec![
            vec![model("築く"), model("きずく")],
            vec![model("気付く"), model("築く")],
        ],
        3,
    );
    let texts: Vec<_> = merged.iter().map(|candidate| candidate.text.as_str()).collect();
    assert_eq!(texts, ["築く", "気付く", "きずく"]);
}

#[test]
fn zero_model_candidate_limit_produces_no_candidates() {
    assert!(interleave_model_candidates(vec![vec![model("築く")]], 0).is_empty());
}

#[test]
fn single_zu_reading_has_two_variants() {
    assert_eq!(zu_du_reading_variants("きずく"), ["きずく", "きづく"]);
}

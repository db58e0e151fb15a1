use karukan::async_live::live_candidate_texts;
use karukan::reading_correction::ModelCandidate;

fn model_candidate(text: &str) -> ModelCandidate {
    ModelCandidate::new(text)
}

fn validated_live_candidate_texts_for_test(reading: &str, candidates: Vec<ModelCandidate>) -> Vec<String> {
    live_candidate_texts(reading, vec![candidates], usize::MAX)
}

#[test]
fn invalid_top_kana_rewrite_is_removed_from_live_candidates() {
    let candidates = validated_live_candidate_texts_for_test(
        "だけど",
        vec![model_candidate("だし"), model_candidate("ダケド"), model_candidate("だけど")],
    );
    assert_eq!(candidates, ["ダケド", "だけど"]);
}

#[test]
fn raw_reading_is_used_when_every_live_model_candidate_is_invalid() {
    let candidates =
        validated_live_candidate_texts_for_test("だけど", vec![model_candidate("だし"), model_candidate("なので")]);
    assert_eq!(candidates, ["だけど"]);
}

#[test]
fn wave_dash_candidate_is_removed_before_the_next_valid_live_candidate() {
    let candidates =
        validated_live_candidate_texts_for_test("だから", vec![model_candidate("だから〜"), model_candidate("ダカラ")]);
    assert_eq!(candidates, ["ダカラ"]);
}

#[test]
fn raw_reading_is_used_when_all_live_candidates_add_a_wave_dash() {
    let candidates = validated_live_candidate_texts_for_test(
        "だから",
        vec![model_candidate("だから〜"), model_candidate("だから～")],
    );
    assert_eq!(candidates, ["だから"]);
}

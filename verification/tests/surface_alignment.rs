use karukan::candidate::CandidateList;
use karukan::surface_alignment::{partially_align_surface_to_candidates, PartialSurfaceAlignment};

#[test]
fn keeps_exact_neighbors_and_merges_only_the_unknown_middle() {
    let candidates = [
        CandidateList::from_strings(vec!["東京"]),
        CandidateList::from_strings(vec!["なぞ", "ナゾ"]),
        CandidateList::from_strings(vec!["駅"]),
    ];

    let result = partially_align_surface_to_candidates("東京ミステリー駅", &candidates).unwrap();

    assert_eq!(
        result,
        vec![
            PartialSurfaceAlignment::Exact { segment_index: 0, candidate_index: 0, surface_range: 0..2 },
            PartialSurfaceAlignment::Unmatched { segment_range: 1..2, surface_range: 2..7 },
            PartialSurfaceAlignment::Exact { segment_index: 2, candidate_index: 0, surface_range: 7..8 },
        ]
    );
}

#[test]
fn does_not_split_an_entirely_unmatched_surface_by_character_count() {
    let candidates = [CandidateList::from_strings(vec!["の", "野"]), CandidateList::from_strings(vec!["客"])];

    let result = partially_align_surface_to_candidates("別表記", &candidates).unwrap();

    assert_eq!(result, vec![PartialSurfaceAlignment::Unmatched { segment_range: 0..2, surface_range: 0..3 }]);
}

#[test]
fn aligns_every_segment_exactly_when_candidates_spell_the_surface() {
    let candidates = [CandidateList::from_strings(vec!["の", "野"]), CandidateList::from_strings(vec!["客"])];

    let result = partially_align_surface_to_candidates("野客", &candidates).unwrap();

    assert_eq!(
        result,
        vec![
            PartialSurfaceAlignment::Exact { segment_index: 0, candidate_index: 1, surface_range: 0..1 },
            PartialSurfaceAlignment::Exact { segment_index: 1, candidate_index: 0, surface_range: 1..2 },
        ]
    );
}

#[test]
fn empty_surface_or_no_segments_gives_nothing() {
    let candidates = [CandidateList::from_strings(vec!["駅"])];
    assert_eq!(partially_align_surface_to_candidates("", &candidates), None);
    assert_eq!(partially_align_surface_to_candidates("駅", &[]), None);
}

#[test]
fn more_segments_than_surface_characters_share_one_unmatched_piece() {
    let candidates = [CandidateList::from_strings(vec!["x"]), CandidateList::from_strings(vec!["y"])];
    assert_eq!(
        partially_align_surface_to_candidates("z", &candidates),
        Some(vec![PartialSurfaceAlignment::Unmatched { segment_range: 0..2, surface_range: 0..1 }])
    );
}

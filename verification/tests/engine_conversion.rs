use karukan::candidate::CandidateList;
use karukan::engine::InputMethodEngine;
use karukan::keycode::{KeyEvent, KeyModifiers, Keysym};
use karukan::preedit::AttributeType;
use karukan::segment_learning::SegmentLearningCache;
use karukan::state::{ConversionSegment, ConversionSession, InputState};
use karukan::types::{EngineAction, InputMode};

fn press(ch: char) -> KeyEvent {
    KeyEvent::new(ch as u32, KeyModifiers::new(), true)
}

fn press_key(keysym: u32) -> KeyEvent {
    KeyEvent::new(keysym, KeyModifiers::new(), true)
}

fn press_shift(ch: char) -> KeyEvent {
    KeyEvent::new(ch as u32, KeyModifiers::new().with_shift(true), true)
}

#[test]
fn test_conversion_char_commits_and_continues() {
    let mut engine = InputMethodEngine::new();

    engine.process_key(&press('a'));
    engine.process_key(&press('i'));
    engine.process_key(&press_key(Keysym::SPACE));
    assert!(matches!(engine.state(), InputState::Conversion { .. }));

    let result = engine.process_key(&press('k'));
    assert!(result.consumed);

    let has_commit = result.actions.iter().any(|a| matches!(a, EngineAction::Commit(_)));
    assert!(has_commit, "Should have a commit action");

    assert!(matches!(engine.state(), InputState::Composing { .. }));
    assert_eq!(engine.preedit().unwrap().text(), "k");
}

#[test]
fn test_conversion_char_commits_and_continues_romaji() {
    let mut engine = InputMethodEngine::new();

    engine.process_key(&press('a'));
    engine.process_key(&press_key(Keysym::SPACE));
    assert!(matches!(engine.state(), InputState::Conversion { .. }));

    engine.process_key(&press('k'));
    assert!(matches!(engine.state(), InputState::Composing { .. }));
    assert_eq!(engine.preedit().unwrap().text(), "k");

    engine.process_key(&press('a'));
    assert_eq!(engine.preedit().unwrap().text(), "か");
}

#[test]
fn test_alphabet_mode_space_inserts_literal_space() {
    let mut engine = InputMethodEngine::new();

    engine.process_key(&press_shift('N'));
    assert!(engine.input_mode == InputMode::Alphabet);

    engine.process_key(&press('e'));
    engine.process_key(&press('w'));
    assert_eq!(engine.preedit().unwrap().text(), "New");

    engine.process_key(&press_key(Keysym::SPACE));
    assert!(matches!(engine.state(), InputState::Composing { .. }));
    assert_eq!(engine.preedit().unwrap().text(), "New ");

    engine.process_key(&press('y'));
    engine.process_key(&press('o'));
    engine.process_key(&press('r'));
    engine.process_key(&press('k'));
    assert_eq!(engine.preedit().unwrap().text(), "New york");
}

#[test]
fn left_and_right_move_the_active_conversion_segment() {
    let segments = vec![
        ConversionSegment::new(0..3, "きょう".into(), CandidateList::from_strings_with_reading(vec!["今日", "京"], "きょう")),
        ConversionSegment::new(3..5, "いく".into(), CandidateList::from_strings_with_reading(vec!["行く", "往く"], "いく")),
    ];
    let mut engine = InputMethodEngine::new();
    engine.state = InputState::Conversion { session: ConversionSession::segmented("きょういく".into(), segments) };

    let result = engine.process_key(&press_key(Keysym::RIGHT));
    let InputState::Conversion { session } = engine.state() else {
        panic!("conversion state expected");
    };
    assert_eq!(session.active_segment, 1);
    assert_eq!(engine.candidates().unwrap().selected_text(), Some("行く"));
    assert!(result.actions.iter().any(|action| matches!(
        action,
        EngineAction::ShowCandidates(candidates) if candidates.selected_text() == Some("行く")
    )));
    assert_eq!(session.preedit().attributes()[0].attr_type, AttributeType::Underline);
    assert_eq!(session.preedit().attributes()[1].attr_type, AttributeType::Highlight);

    engine.process_key(&press_key(Keysym::LEFT));
    let InputState::Conversion { session } = engine.state() else {
        panic!("conversion state expected");
    };
    assert_eq!(session.active_segment, 0);
}

#[test]
fn shift_arrows_resize_only_the_active_and_next_segments() {
    let segments = vec![
        ConversionSegment::new(0..8, "じっちゅうはっく".into(), CandidateList::from_strings(vec!["十中八九"])),
        ConversionSegment::new(8..11, "あたる".into(), CandidateList::from_strings(vec!["当たる"])),
        ConversionSegment::new(11..13, "かも".into(), CandidateList::from_strings(vec!["かも"])),
    ];
    let mut engine = InputMethodEngine::new();
    engine.state = InputState::Conversion {
        session: ConversionSession::segmented("じっちゅうはっくあたるかも".into(), segments),
    };

    let shift_right = KeyEvent::new(Keysym::RIGHT, KeyModifiers::new().with_shift(true), true);
    engine.process_key(&shift_right);
    let InputState::Conversion { session } = engine.state() else {
        panic!("conversion state expected");
    };
    assert_eq!(session.segments[0].reading, "じっちゅうはっくあ");
    assert_eq!(session.segments[0].reading_range, 0..9);
    assert_eq!(session.segments[1].reading, "たる");
    assert_eq!(session.segments[1].reading_range, 9..11);
    assert_eq!(session.segments[2].candidates.selected_text(), Some("かも"));
    assert!(session.ranges_are_valid());

    let shift_left = KeyEvent::new(Keysym::LEFT, KeyModifiers::new().with_shift(true), true);
    engine.process_key(&shift_left);
    let InputState::Conversion { session } = engine.state() else {
        panic!("conversion state expected");
    };
    assert_eq!(session.segments[0].reading, "じっちゅうはっく");
    assert_eq!(session.segments[1].reading, "あたる");
    assert!(session.ranges_are_valid());
}

#[test]
fn shift_left_splits_a_single_conversion_segment() {
    let mut engine = InputMethodEngine::new();
    engine.state = InputState::Conversion {
        session: ConversionSession::single("じっちゅうはっく".into(), CandidateList::from_strings(vec!["十中八九"])),
    };

    let shift_left = KeyEvent::new(Keysym::LEFT, KeyModifiers::new().with_shift(true), true);
    let result = engine.process_key(&shift_left);
    let InputState::Conversion { session } = engine.state() else {
        panic!("conversion state expected");
    };

    assert!(result.consumed);
    assert_eq!(session.segments.len(), 2);
    assert_eq!(session.segments[0].reading, "じっちゅうはっ");
    assert_eq!(session.segments[0].reading_range, 0..7);
    assert_eq!(session.segments[1].reading, "く");
    assert_eq!(session.segments[1].reading_range, 7..8);
    assert!(!session.segments[0].candidates_dirty);
    assert!(session.segments[1].candidates_dirty);
    assert!(session.segments.iter().all(|segment| !segment.explicitly_modified));
    assert!(session
        .segments
        .iter()
        .all(|segment| { segment.candidates.selected_text() == Some(segment.selected_text()) }));
    assert!(session.ranges_are_valid());
}

#[test]
fn shift_right_merges_a_one_character_trailing_segment() {
    let mut engine = InputMethodEngine::new();
    engine.state = InputState::Conversion {
        session: ConversionSession::single("じっちゅうはっく".into(), CandidateList::from_strings(vec!["十中八九"])),
    };
    let shift_left = KeyEvent::new(Keysym::LEFT, KeyModifiers::new().with_shift(true), true);
    let shift_right = KeyEvent::new(Keysym::RIGHT, KeyModifiers::new().with_shift(true), true);

    engine.process_key(&shift_left);
    engine.process_key(&shift_right);
    let InputState::Conversion { session } = engine.state() else {
        panic!("conversion state expected");
    };

    assert_eq!(session.segments.len(), 1);
    assert_eq!(session.segments[0].reading_range, 0..8);
    assert_eq!(session.selected_text(), "じっちゅうはっく");
    assert_eq!(session.preedit().text(), "じっちゅうはっく");
    assert_eq!(session.segments[0].candidates.selected_text(), Some(session.segments[0].selected_text()));
    assert!(session.ranges_are_valid());
}

#[test]
fn boundary_resize_shows_the_same_candidate_list_used_by_first_navigation() {
    let mut engine = InputMethodEngine::new();
    engine.state = InputState::Conversion {
        session: ConversionSession::single("じっちゅうはっく".into(), CandidateList::from_strings(vec!["十中八九"])),
    };
    let shift_left = KeyEvent::new(Keysym::LEFT, KeyModifiers::new().with_shift(true), true);
    let resize = engine.process_key(&shift_left);
    let shown = |result: &karukan::types::EngineResult| -> Vec<String> {
        result
            .actions
            .iter()
            .find_map(|action| match action {
                EngineAction::ShowCandidates(candidates) => {
                    Some(candidates.candidates().iter().map(|candidate| candidate.text.clone()).collect::<Vec<_>>())
                }
                _ => None,
            })
            .unwrap()
    };
    let shown_after_resize = shown(&resize);

    let navigate = engine.process_key(&press_key(Keysym::SPACE));
    let shown_after_navigation = shown(&navigate);
    let InputState::Conversion { session } = engine.state() else {
        panic!("conversion state expected");
    };

    assert_eq!(shown_after_resize, shown_after_navigation);
    assert!(!session.segments[0].candidates_dirty);
    assert!(session.segments[0].candidates.len() > 1);
    assert!(session.segments[1].candidates_dirty);
    assert_eq!(session.segments[0].candidates.selected_text(), Some(session.segments[0].selected_text()));
}

#[test]
fn resizing_boundaries_does_not_enter_segment_learning() {
    let mut engine = InputMethodEngine::new();
    engine.segment_learning = Some(SegmentLearningCache::new(100));
    engine.state = InputState::Conversion {
        session: ConversionSession::single("じっちゅうはっく".into(), CandidateList::from_strings(vec!["十中八九"])),
    };
    let shift_left = KeyEvent::new(Keysym::LEFT, KeyModifiers::new().with_shift(true), true);
    engine.process_key(&shift_left);
    engine.process_key(&press_key(Keysym::RETURN));

    let cache = engine.segment_learning.as_ref().unwrap();
    assert!(cache.lookup("じっちゅうはっ", None, Some("九")).is_empty());
    assert!(cache.lookup("く", Some("八"), None).is_empty());
}

#[test]
fn shift_left_splits_the_final_conversion_segment() {
    let segments = vec![
        ConversionSegment::new(0..3, "きょう".into(), CandidateList::from_strings(vec!["今日"])),
        ConversionSegment::new(3..5, "いく".into(), CandidateList::from_strings(vec!["行く"])),
    ];
    let mut session = ConversionSession::segmented("きょういく".into(), segments);
    session.active_segment = 1;
    session.rebuild_preedit();
    let mut engine = InputMethodEngine::new();
    engine.state = InputState::Conversion { session };

    let shift_left = KeyEvent::new(Keysym::LEFT, KeyModifiers::new().with_shift(true), true);
    engine.process_key(&shift_left);
    let InputState::Conversion { session } = engine.state() else {
        panic!("conversion state expected");
    };

    assert_eq!(session.segments.len(), 3);
    assert_eq!(session.segments[1].reading, "い");
    assert_eq!(session.segments[1].reading_range, 3..4);
    assert_eq!(session.segments[2].reading, "く");
    assert_eq!(session.segments[2].reading_range, 4..5);
    assert!(session.ranges_are_valid());
}

#[test]
fn explicitly_selected_segment_is_learned_with_right_context() {
    let segments = vec![
        ConversionSegment::new(0..2, "あと".into(), CandidateList::from_strings(vec!["後", "あと"])),
        ConversionSegment::new(2..3, "、".into(), CandidateList::from_strings(vec!["、"])),
    ];
    let mut engine = InputMethodEngine::new();
    engine.segment_learning = Some(SegmentLearningCache::new(100));
    engine.state = InputState::Conversion { session: ConversionSession::segmented("あと、".into(), segments) };

    engine.select_candidate_on_page(1);
    engine.process_key(&press_key(Keysym::RETURN));

    let learned = engine.segment_learning.as_ref().unwrap().lookup("あと", None, Some("、"));
    assert_eq!(learned.len(), 1);
    assert_eq!(learned[0].0.surface, "あと");
}

#[test]
fn accepting_initial_segment_does_not_enter_segment_learning() {
    let segments = vec![ConversionSegment::new(0..2, "あと".into(), CandidateList::from_strings(vec!["後", "あと"]))];
    let mut engine = InputMethodEngine::new();
    engine.segment_learning = Some(SegmentLearningCache::new(100));
    engine.state = InputState::Conversion { session: ConversionSession::segmented("あと".into(), segments) };

    engine.process_key(&press_key(Keysym::RETURN));

    assert!(engine.segment_learning.as_ref().unwrap().lookup("あと", None, None).is_empty());
}

#[test]
fn segment_learning_precedes_initial_whole_reading_candidate() {
    let mut engine = InputMethodEngine::new();
    let mut cache = SegmentLearningCache::new(100);
    cache.record("あと", "あと", None, Some("、"));
    engine.segment_learning = Some(cache);
    engine.set_surrounding_context("", "、");

    let session = engine.build_initial_conversion_session("あと", CandidateList::from_strings(vec!["後", "あと"]));

    assert_eq!(session.selected_text(), "あと");
    assert_eq!(session.segments[0].candidates.candidates()[0].description.as_deref(), Some("文節修正"));
}

#[test]
fn escape_returns_to_composing_the_reading() {
    let mut engine = InputMethodEngine::new();
    engine.process_key(&press('a'));
    engine.process_key(&press('i'));
    engine.process_key(&press_key(Keysym::SPACE));
    assert!(matches!(engine.state(), InputState::Conversion { .. }));
    engine.process_key(&press_key(Keysym::ESCAPE));
    assert!(matches!(engine.state(), InputState::Composing { .. }));
    assert_eq!(engine.preedit().unwrap().text(), "あい");
}

#[test]
fn return_commits_the_selected_conversion() {
    let mut engine = InputMethodEngine::new();
    engine.process_key(&press('a'));
    engine.process_key(&press('i'));
    engine.process_key(&press_key(Keysym::SPACE));
    engine.process_key(&press_key(Keysym::SPACE));
    let result = engine.process_key(&press_key(Keysym::RETURN));
    assert!(result.actions.iter().any(|a| matches!(a, EngineAction::Commit(t) if t == "アイ")));
    assert!(matches!(engine.state(), InputState::Empty));
}

#[test]
fn keys_in_the_empty_state() {
    let mut engine = InputMethodEngine::new();
    let result = engine.process_key(&press_key(Keysym::RETURN));
    assert!(!result.consumed);
    assert!(matches!(engine.state(), InputState::Empty));
    let ctrl = KeyModifiers::new().with_control(true);
    let result = engine.process_key(&KeyEvent::new('a' as u32, ctrl, true));
    assert!(!result.consumed);
    assert!(matches!(engine.state(), InputState::Empty));
    let result = engine.process_key(&KeyEvent::new(Keysym::SPACE, ctrl, true));
    assert!(result.consumed);
    assert!(matches!(engine.state(), InputState::Composing { .. }));
    let result = engine.process_key(&KeyEvent::new('a' as u32, KeyModifiers::new(), false));
    assert!(!result.consumed);
}

#[test]
fn a_page_slot_commits_its_candidate() {
    let mut engine = InputMethodEngine::new();
    engine.process_key(&press('a'));
    engine.process_key(&press('i'));
    engine.process_key(&press_key(Keysym::SPACE));
    let texts: Vec<String> = engine.state().candidates().unwrap().candidates().iter().map(|c| c.text.clone()).collect();
    assert_eq!(texts, ["あい", "アイ"]);

    let result = engine.select_candidate_on_page(7);
    assert!(result.consumed);
    assert!(result.actions.is_empty());
    assert!(matches!(engine.state(), InputState::Conversion { .. }));

    let result = engine.select_candidate_on_page(1);
    assert!(result.consumed);
    assert_eq!(result.actions.len(), 4);
    assert!(matches!(&result.actions[0], EngineAction::UpdatePreedit(p) if p.text().is_empty()));
    assert!(matches!(&result.actions[1], EngineAction::HideCandidates));
    assert!(matches!(&result.actions[2], EngineAction::HideAuxText));
    assert!(matches!(&result.actions[3], EngineAction::Commit(t) if t == "アイ"));
    assert!(matches!(engine.state(), InputState::Empty));

    let result = engine.select_candidate_on_page(0);
    assert!(!result.consumed);
    assert!(result.actions.is_empty());
}

#[test]
fn space_keeps_the_shown_live_text_first_and_selects_the_next() {
    let mut engine = InputMethodEngine::new();
    engine.live.enabled = true;
    engine.process_key(&press('a'));
    engine.process_key(&press('i'));
    engine.live.text = "愛".to_string();
    engine.composing_candidates_model_ready = false;
    engine.start_conversion(false);
    let list = engine.state().candidates().unwrap();
    assert_eq!(list.candidates()[0].text, "愛");
    assert_eq!(list.cursor(), 1);
    assert!(list.candidates().iter().any(|c| c.text == "あい"));
}

#[test]
fn typing_a_character_while_composing_goes_into_the_reading() {
    let mut engine = InputMethodEngine::new();
    engine.process_key(&press('k'));
    let result = engine.process_key(&press('a'));
    assert!(result.consumed);
    assert_eq!(engine.input_buf.text, "か");
    assert!(matches!(&result.actions[0], EngineAction::UpdatePreedit(p) if p.text() == "か"));
    let ctrl = KeyModifiers::new().with_control(true);
    let result = engine.process_key(&KeyEvent::new('k' as u32, ctrl, true));
    assert!(!result.consumed);
    assert_eq!(engine.input_buf.text, "か");
}

#[test]
fn enter_in_katakana_mode_commits_the_katakana_reading() {
    let mut engine = InputMethodEngine::new();
    engine.input_mode = InputMode::Katakana;
    engine.process_key(&press('k'));
    engine.process_key(&press('a'));
    let result = engine.process_key(&press_key(Keysym::RETURN));
    assert!(result.consumed);
    assert_eq!(result.actions.len(), 4);
    assert!(matches!(&result.actions[1], EngineAction::Commit(t) if t == "カ"));
    assert!(matches!(engine.state(), InputState::Empty));
}

#[test]
fn a_digit_during_conversion_commits_the_candidate_it_numbers() {
    let mut engine = InputMethodEngine::new();
    engine.process_key(&press('a'));
    engine.process_key(&press('i'));
    engine.process_key(&press_key(Keysym::SPACE));
    let result = engine.process_key(&press('2'));
    assert!(result.consumed);
    assert!(matches!(&result.actions[3], EngineAction::Commit(t) if t == "アイ"));
    assert!(matches!(engine.state(), InputState::Empty));
}

use karukan::segment_learning::{escape, format_line, parse_line, unescape, LearnedSegment, SegmentLearningCache};

#[test]
fn right_context_promotes_hiragana_ato_before_comma() {
    let mut cache = SegmentLearningCache::new(100);
    cache.record("あと", "後", None, None);
    cache.record("あと", "あと", None, Some("、"));
    let results = cache.lookup("あと", None, Some("、"));
    assert_eq!(results[0].0.surface, "あと");
    assert_eq!(cache.lookup("あと", None, Some("で")).len(), 1);
    assert_eq!(cache.lookup("あと", None, Some("で"))[0].0.surface, "後");
}

#[test]
fn tsv_round_trip_preserves_optional_hints() {
    let mut cache = SegmentLearningCache::new(100);
    cache.record("あと", "あと", Some("。"), Some("、"));
    let lines = cache.save_lines();
    let loaded = SegmentLearningCache::load_lines(&lines, 100);
    let entry = loaded.lookup("あと", Some("。"), Some("、"))[0].0.clone();
    assert_eq!(entry.left_hint.as_deref(), Some("。"));
    assert_eq!(entry.right_hint.as_deref(), Some("、"));
}

#[test]
fn escape_and_unescape_are_inverse() {
    let text = "a\\b\tc\nd\re";
    assert_eq!(escape(text), "a\\\\b\\tc\\nd\\re");
    assert_eq!(unescape(&escape(text)), text);
    assert_eq!(unescape("x\\qy\\"), "x\\qy\\");
}

#[test]
fn line_format_round_trips() {
    let entry = LearnedSegment {
        reading: "あと".to_string(),
        surface: "後\t".to_string(),
        left_hint: None,
        right_hint: Some("、".to_string()),
        frequency: 7,
        last_used: 1_700_000_000,
    };
    let line = format_line(&entry);
    assert_eq!(line, "あと\t後\\t\t0\t\t1\t、\t7\t1700000000");
    assert_eq!(parse_line(&line), Some(entry));
    assert_eq!(parse_line("a\tb\tc"), None);
    assert_eq!(parse_line("あ\tい\t0\t\t0\t\t+3\t5").map(|e| e.frequency), Some(3));
    assert_eq!(parse_line("あ\tい\t0\t\t0\t\t4294967296\t5"), None);
}

#[test]
fn recording_again_counts_uses_and_capacity_evicts_the_oldest() {
    let mut cache = SegmentLearningCache::new(2);
    cache.record_at("あ", "亜", None, None, 10);
    cache.record_at("い", "胃", None, None, 20);
    cache.record_at("あ", "亜", None, None, 30);
    assert_eq!(cache.lookup("あ", None, None)[0].0.frequency, 2);
    assert!(cache.is_dirty());
    cache.record_at("う", "宇", None, None, 40);
    assert_eq!(cache.entry_count(), 2);
    assert!(cache.lookup("い", None, None).is_empty());
    let lines = cache.save_lines();
    assert!(cache.is_dirty());
    cache.mark_saved();
    assert!(!cache.is_dirty());
    assert_eq!(lines.len(), 3);
    assert!(lines[0].starts_with('#'));
}

#[test]
fn saved_lines_order_readings_and_keep_learned_order_within_one() {
    let mut cache = SegmentLearningCache::new(100);
    cache.record_at("か", "蚊", None, None, 1);
    cache.record_at("あ", "亜", None, None, 2);
    cache.record_at("か", "科", None, None, 3);
    let lines = cache.save_lines();
    let surfaces: Vec<&str> = lines[1..].iter().map(|l| l.split('\t').nth(1).unwrap()).collect();
    assert_eq!(surfaces, ["亜", "蚊", "科"]);
}

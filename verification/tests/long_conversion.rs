use karukan::long_conversion::{combine_segment_options, split_conversion_reading, ConversionSpan, RankedText};

#[test]
fn split_order_is_punctuation_lattice_then_hard_limit() {
    let spans = split_conversion_reading("あいうえお。かきくけこさし", 4, &[3, 5, 8, 10, 12]);
    assert_eq!(
        spans,
        vec![
            ConversionSpan { text: "あいう".into(), passthrough: false },
            ConversionSpan { text: "えお".into(), passthrough: false },
            ConversionSpan { text: "。".into(), passthrough: true },
            ConversionSpan { text: "かきくけ".into(), passthrough: false },
            ConversionSpan { text: "こさし".into(), passthrough: false },
        ]
    );
}

#[test]
fn segment_beam_is_bounded_and_sorted() {
    // Costs are counted in quarter units.
    let segment = |prefix: &str| -> Vec<RankedText> {
        (0..5u64).map(|index| RankedText { text: format!("{prefix}{index}"), cost: index * 4 }).collect()
    };
    let segments = vec![segment("A"), segment("B"), segment("C")];
    let combined = combine_segment_options(&segments, 20, 9);
    assert_eq!(combined.len(), 9);
    assert_eq!(combined[0].text, "A0B0C0");
    assert!(combined.windows(2).all(|pair| pair[0].cost <= pair[1].cost));
}

#[test]
fn empty_reading_has_no_spans() {
    assert!(split_conversion_reading("", 4, &[]).is_empty());
}

use karukan::dict::DictionaryCategory;
use karukan::dictionary_source::{normalize_reading, NormalizedDictionaryEntry};
use karukan::geographic_import::{
    category_counts, cleaned_town, gsi_category, header_index, import_gsi_lines, import_japan_post_lines,
    import_jmnedict_lines, import_skk_lines,
};
use karukan::text_scan::parse_csv_record;

fn lines(text: &str) -> Vec<String> {
    text.lines().map(str::to_string).collect()
}

#[test]
fn imports_japan_post_components_and_complete_address() {
    let entries = import_japan_post_lines(&lines(
        "\"13113\",\"150  \",\"1500041\",\"トウキョウト\",\"シブヤク\",\"ジンナン\",\"東京都\",\"渋谷区\",\"神南\"",
    ));
    let full = entries.iter().find(|entry| entry.reading == "とうきょうとしぶやくじんなん").unwrap();
    assert_eq!(full.surface, "東京都渋谷区神南");
    let town = entries.iter().find(|entry| entry.reading == "じんなん").unwrap();
    assert_eq!(town.description.as_deref(), Some("東京都 渋谷区"));
}

#[test]
fn imports_jmnedict_station_and_description() {
    let entries = import_jmnedict_lines(&lines(
        "<JMnedict><entry><k_ele><keb>東京駅</keb></k_ele><r_ele><reb>とうきょうえき</reb></r_ele><trans><name_type>&station;</name_type><trans_det>東京都千代田区</trans_det></trans></entry></JMnedict>",
    ));
    assert_eq!(entries[0].category, DictionaryCategory::Station);
    assert_eq!(entries[0].description.as_deref(), Some("東京都千代田区"));
}

#[test]
fn imports_gsi_natural_feature_and_skk_station() {
    let entries = import_gsi_lines(&lines("読み仮名,名称,種別,都道府県,市区町村\nふじさん,富士山,山,静岡県,富士宮市\n"));
    assert_eq!(entries[0].category, DictionaryCategory::NaturalFeature);
    assert_eq!(entries[0].description.as_deref(), Some("静岡県 富士宮市"));

    let entries = import_skk_lines(&lines("しんじゅくえき /新宿駅;駅/\n"));
    assert_eq!(entries[0].category, DictionaryCategory::Station);
}

#[test]
fn csv_records_keep_quoted_commas_and_doubled_quotes() {
    assert_eq!(parse_csv_record("a,\"b,c\",\"d\"\"e\","), vec!["a", "b,c", "d\"e", ""]);
    assert_eq!(parse_csv_record(""), vec![""]);
}

#[test]
fn towns_drop_notes_and_placeholders() {
    assert_eq!(cleaned_town("大手町（次のビルを除く）").as_deref(), Some("大手町"));
    assert_eq!(cleaned_town("以下に掲載がない場合"), None);
    assert_eq!(cleaned_town("（全域）"), None);
}

#[test]
fn japan_post_without_town_gives_three_records() {
    let entries = import_japan_post_lines(&lines("1,2,3,ホッカイドウ,サッポロシ,イカニケイサイガナイバアイ,北海道,札幌市,以下に掲載がない場合"));
    assert_eq!(entries.len(), 3);
    assert!(entries.iter().any(|e| e.surface == "北海道札幌市" && e.score == 20));
}

#[test]
fn gsi_headers_match_after_trimming_and_byte_order_marks() {
    let headers = parse_csv_record(" reading ,name");
    assert_eq!(header_index(&headers, &["よみ", "reading"]), Some(0));
    assert_eq!(header_index(&headers, &["種別"]), None);
    let entries = import_gsi_lines(&lines("\u{feff}よみ,地名\nしぶや,渋谷駅\n"));
    assert_eq!(entries[0].category, DictionaryCategory::Station);
    assert_eq!(entries[0].description, None);
    assert!(import_gsi_lines(&lines("a,b\nx,y\n")).is_empty());
}

#[test]
fn place_kinds_name_categories() {
    assert_eq!(gsi_category("河川", "多摩川"), DictionaryCategory::NaturalFeature);
    assert_eq!(gsi_category("", "品川駅"), DictionaryCategory::Station);
    assert_eq!(gsi_category("町", "品川"), DictionaryCategory::Place);
}

#[test]
fn skk_reads_every_candidate_and_skips_comments() {
    let entries = import_skk_lines(&lines(";; comment\nふじ /富士;山/藤/\n"));
    assert_eq!(entries.len(), 2);
    let fuji = entries.iter().find(|e| e.surface == "富士").unwrap();
    assert_eq!(fuji.category, DictionaryCategory::NaturalFeature);
    assert_eq!(fuji.description.as_deref(), Some("山"));
    assert_eq!(entries.iter().find(|e| e.surface == "藤").unwrap().category, DictionaryCategory::Place);
}

#[test]
fn categories_are_counted_in_order_of_appearance() {
    let make = |s: &str, c| {
        NormalizedDictionaryEntry::new(&normalize_reading("よみ"), s, 0, karukan::dict::DictionarySource::Gsi, c, None).unwrap()
    };
    let entries = vec![
        make("a", DictionaryCategory::Place),
        make("b", DictionaryCategory::Station),
        make("c", DictionaryCategory::Place),
    ];
    assert_eq!(category_counts(&entries), vec![(DictionaryCategory::Place, 2), (DictionaryCategory::Station, 1)]);
}

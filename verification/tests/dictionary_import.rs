use karukan::dict::{Dictionary, DictionaryCategory, DictionarySource};
use karukan::dictionary_import::{
    category_from_labels, import_jmdict_lines, import_mozc_lines, import_sudachi_lines, jmdict_score, parse_integer_str,
};
use karukan::dictionary_source::NormalizedDictionaryEntry;

fn lines(text: &str) -> Vec<String> {
    text.lines().map(str::to_string).collect()
}

#[test]
fn imports_common_idiom_from_all_general_sources() {
    let mozc_entries = import_mozc_lines(&lines("じゅっちゅうはっく\t十中八九\t慣用句\t\n"));
    assert_eq!(mozc_entries[0].category, DictionaryCategory::Idiom);

    let sudachi_entries = import_sudachi_lines(&lines("0,1,1,200,十中八九,名詞,普通名詞,成句,*,*,*,ジュッチュウハック\n"));
    assert_eq!(sudachi_entries[0].reading, "じゅっちゅうはっく");
    assert_eq!(sudachi_entries[0].surface, "十中八九");

    let jmdict_entries = import_jmdict_lines(&lines(
        "<JMdict><entry><k_ele><keb>十中八九</keb><ke_pri>ichi1</ke_pri></k_ele><r_ele><reb>じっちゅうはっく</reb></r_ele><sense><pos>&exp;</pos></sense></entry></JMdict>",
    ));
    assert_eq!(jmdict_entries[0].reading, "じっちゅうはっく");
    assert_eq!(jmdict_entries[0].score, 0);
    assert_eq!(jmdict_entries[0].category, DictionaryCategory::Idiom);

    let all: Vec<NormalizedDictionaryEntry> =
        mozc_entries.into_iter().chain(sudachi_entries).chain(jmdict_entries).collect();
    let dictionary = Dictionary::build_from_normalized(&all);
    for reading in ["じゅっちゅうはっく", "じっちゅうはっく"] {
        assert!(dictionary
            .exact_match_search(reading)
            .unwrap()
            .candidates
            .iter()
            .any(|candidate| candidate.surface == "十中八九"));
    }
}

#[test]
fn jmdict_rare_entries_rank_below_priority_entries() {
    assert!(jmdict_score("<ke_pri>ichi1</ke_pri>") < jmdict_score("<misc>&rare;</misc>"));
}

#[test]
fn jmdict_scores_follow_priority_ranks() {
    assert_eq!(jmdict_score("<ke_pri>news1</ke_pri>"), 0);
    assert_eq!(jmdict_score("<re_pri>nf12</re_pri>"), 100);
    assert_eq!(jmdict_score("<keb>x</keb>"), 500);
    assert_eq!(jmdict_score("<misc>&arch;</misc>"), 1500);
    assert_eq!(jmdict_score("<ke_pri>gai1</ke_pri><misc>&obsc;</misc>"), 1000);
}

#[test]
fn labels_name_categories_in_priority_order() {
    assert_eq!(category_from_labels("名詞,固有名詞,人名"), DictionaryCategory::Person);
    assert_eq!(category_from_labels("組織"), DictionaryCategory::Organization);
    assert_eq!(category_from_labels("地名"), DictionaryCategory::Place);
    assert_eq!(category_from_labels("成句,人名"), DictionaryCategory::Idiom);
    assert_eq!(category_from_labels("名詞"), DictionaryCategory::General);
}

#[test]
fn mozc_skips_comments_blank_and_short_lines_and_scores_by_line() {
    let entries = import_mozc_lines(&lines("# comment\n\nひとつ\nあめ\t雨\t名詞\t 空から \nかさ\t傘\n"));
    assert_eq!(entries.len(), 2);
    let ame = entries.iter().find(|e| e.surface == "雨").unwrap();
    assert_eq!(ame.score, 3);
    assert_eq!(ame.source, DictionarySource::Mozc);
    assert_eq!(ame.description.as_deref(), Some("空から"));
    let kasa = entries.iter().find(|e| e.surface == "傘").unwrap();
    assert_eq!(kasa.score, 4);
    assert_eq!(kasa.description, None);
}

#[test]
fn sudachi_skips_short_rows_and_unparsable_costs() {
    let entries = import_sudachi_lines(&lines(
        "0,1,1,x,雨,名詞,普通名詞,一般,*,*,*,アメ\n0,1,1,-5,飴,名詞,普通名詞,一般,*,*,*,アメ\n0,1,1,5,短い\n",
    ));
    assert_eq!(entries.len(), 1);
    assert_eq!(entries[0].surface, "飴");
    assert_eq!(entries[0].score, -5);
}

#[test]
fn integers_parse_like_std() {
    assert_eq!(parse_integer_str("200"), Some(200));
    assert_eq!(parse_integer_str("+7"), Some(7));
    assert_eq!(parse_integer_str("-9223372036854775808"), Some(i64::MIN));
    assert_eq!(parse_integer_str("9223372036854775808"), None);
    assert_eq!(parse_integer_str("-+1"), None);
    assert_eq!(parse_integer_str("-"), None);
    assert_eq!(parse_integer_str("1.5"), None);
}

#[test]
fn jmdict_without_written_forms_uses_readings_and_decodes_entities() {
    let entries = import_jmdict_lines(&lines("<entry>\n<r_ele><reb>あ&amp;い</reb></r_ele>\n</entry>\n"));
    assert_eq!(entries.len(), 1);
    assert_eq!(entries[0].reading, "あ&い");
    assert_eq!(entries[0].surface, "あ&い");
    assert_eq!(entries[0].score, 500);
}

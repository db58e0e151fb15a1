use karukan::settings::{join_opt, join_path_str, Settings};
use karukan::types::EngineConfig;

#[test]
fn test_default_settings() {
    let settings = Settings::default();
    assert_eq!(settings.conversion.live_num_candidates, 3);
    assert_eq!(settings.conversion.num_candidates, 9);
    assert!(settings.conversion.use_context);
    assert_eq!(settings.conversion.max_context_length, 10);
}

#[test]
fn test_user_dict_dir() {
    let dir = Settings::user_dict_dir();
    if let Some(dir) = dir {
        assert!(dir.ends_with("user_dicts"));
    }
}

#[test]
fn paths_join_with_a_single_separator() {
    assert_eq!(join_path_str("/home/u/.local/share/karukan-im", "learning.tsv"), "/home/u/.local/share/karukan-im/learning.tsv");
    assert_eq!(join_path_str("/data/", "x"), "/data/x");
    assert_eq!(join_path_str("", "x"), "x");
}

#[test]
fn engine_config_follows_settings() {
    let mut settings = Settings::default();
    let config = EngineConfig::from_settings(&settings);
    assert_eq!(config.num_candidates, 9);
    assert_eq!(config.max_api_context_len, 10);
    settings.conversion.use_context = false;
    assert_eq!(EngineConfig::from_settings(&settings).max_api_context_len, 0);
    assert_eq!(EngineConfig::default().composing_chunk_len, 30);
}

#[test]
fn file_locations_are_named_in_the_directory_found() {
    let dir = Some(String::from("/home/u/.config/karukan-im"));
    assert_eq!(join_opt(&dir, "config.toml"), Some(String::from("/home/u/.config/karukan-im/config.toml")));
    assert_eq!(join_opt(&None, "config.toml"), None);
    if let Some(d) = Settings::data_dir() {
        assert!(!d.is_empty());
        assert_eq!(Settings::learning_file(), Some(join_path_str(&d, "learning.tsv")));
    }
    if let Some(f) = Settings::config_file() {
        assert!(f.ends_with("/config.toml"));
    }
}

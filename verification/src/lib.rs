//! Karukan: Japanese input-method logic with machine-checked contracts.
pub mod text;
pub mod kana;
pub mod reading_correction;
pub mod morphology;
pub mod long_conversion;
pub mod async_live;
pub mod candidate;
pub mod preedit;
pub mod state;
pub mod segment_learning;
pub mod romaji;
pub mod keycode;
pub mod settings;
pub mod types;
pub mod input_buffer;
pub mod engine;
pub mod suggestions;
pub mod composing;
pub mod conversion;
pub mod dictionary_source;
pub mod surface_alignment;
pub mod key_order;
pub mod dict;
pub mod text_scan;
pub mod dictionary_import;
pub mod geographic_import;
pub mod live_update;
pub mod live_dictionary;
pub mod lattice;
pub mod engine_dictionaries;

//! User settings of the input method, and where its files live.
use vstd::prelude::*;

use crate::text::{chars_of, copy_str, push_char, push_str};

verus! {

/// Configuration settings for the IME.
#[derive(Debug, Clone, PartialEq, Eq)]
pub struct Settings {
    pub conversion: ConversionSettings,
    pub learning: LearningSettings,
}

/// Conversion-related settings.
#[derive(Debug, Clone, PartialEq, Eq)]
pub struct ConversionSettings {
    /// Number of model candidates generated during live conversion.
    pub live_num_candidates: usize,
    /// Number of candidates shown on Space conversion.
    pub num_candidates: usize,
    /// Use the text left of the cursor as conversion context.
    pub use_context: bool,
    /// Maximum number of surrounding characters passed as context.
    pub max_context_length: usize,
    /// Maximum reading length converted by the model in one call during
    /// live conversion.
    pub composing_chunk_len: usize,
    /// Path of the dictionary file (defaults to `data_dir/dict.bin`).
    pub dict_path: Option<String>,
    /// Model variant id (defaults to the registry default).
    pub model: Option<String>,
    /// Inference threads (0 = all cores).
    pub n_threads: u32,
    /// Whether live conversion is on at startup.
    pub live_conversion: bool,
}

/// Learning cache settings.
#[derive(Debug, Clone, PartialEq, Eq)]
pub struct LearningSettings {
    pub enabled: bool,
    /// Maximum number of entries in the learning cache.
    pub max_entries: usize,
}

/// The settings used when the user has configured nothing.
pub open spec fn default_settings(s: Settings) -> bool {
    &&& s.conversion.live_num_candidates == 3
    &&& s.conversion.num_candidates == 9
    &&& s.conversion.use_context
    &&& s.conversion.max_context_length == 10
    &&& s.conversion.composing_chunk_len == 30
    &&& s.conversion.dict_path is None
    &&& s.conversion.model is None
    &&& s.conversion.n_threads == 0
    &&& !s.conversion.live_conversion
    &&& s.learning.enabled
    &&& s.learning.max_entries == 10000
}

impl Default for Settings {
    fn default() -> (s: Self)
        ensures
            default_settings(s),
    {
        Settings {
            conversion: ConversionSettings {
                live_num_candidates: 3,
                num_candidates: 9,
                use_context: true,
                max_context_length: 10,
                composing_chunk_len: 30,
                dict_path: None,
                model: None,
                n_threads: 0,
                live_conversion: false,
            },
            learning: LearningSettings { enabled: true, max_entries: 10000 },
        }
    }
}

/// The project directories of `com.karukan.karukan-im`
/// (`directories::ProjectDirs`).
#[verifier::external_type_specification]
#[verifier::external_body]
pub struct ExProjectDirs(directories::ProjectDirs);

/// Looks up the platform's directories for this project
/// (`ProjectDirs::from("com", "karukan", "karukan-im")`). Whether there are
/// any depends on the environment (a home directory), so nothing is claimed.
#[verifier::external_body]
fn project_dirs() -> Option<directories::ProjectDirs> {
    directories::ProjectDirs::from("com", "karukan", "karukan-im")
}

/// The data directory of the project (`ProjectDirs::data_dir`) as text.
/// Which directory it is depends on the environment the directories were
/// found in (home directory, `XDG_DATA_HOME`), so the text is not claimed;
/// only that it is not empty, as the directory is a base directory joined
/// with the project's path and lossy conversion keeps every character.
#[verifier::external_body]
fn project_data_dir(dirs: &directories::ProjectDirs) -> (s: String)
    ensures
        s@.len() > 0,
{
    dirs.data_dir().to_string_lossy().into_owned()
}

/// The configuration directory of the project (`ProjectDirs::config_dir`)
/// as text. As for the data directory, only that it is not empty is
/// claimed; which directory it is depends on the environment.
#[verifier::external_body]
fn project_config_dir(dirs: &directories::ProjectDirs) -> (s: String)
    ensures
        s@.len() > 0,
{
    dirs.config_dir().to_string_lossy().into_owned()
}

/// `dir` joined with the relative name `name`, as `Path::join` joins on
/// Unix: a `/` is put between them unless `dir` is empty or already ends
/// with one.
pub open spec fn join_path(dir: Seq<char>, name: Seq<char>) -> Seq<char> {
    if dir.len() == 0 || dir.last() == '/' { dir + name } else { dir.push('/') + name }
}

/// Joins a relative file name onto a directory path.
pub fn join_path_str(dir: &str, name: &str) -> (p: String)
    ensures
        p@ == join_path(dir@, name@),
{
    let chars = chars_of(dir);
    let mut p = copy_str(dir);
    if chars.len() > 0 && chars[chars.len() - 1] != '/' {
        push_char(&mut p, '/');
    }
    push_str(&mut p, name);
    p
}

/// `dir` joined with `name`, when there is a directory.
pub open spec fn joined(dir: Option<String>, name: Seq<char>) -> Option<Seq<char>> {
    match dir {
        Some(d) => Some(join_path(d@, name)),
        None => None,
    }
}

/// `name` in the directory `dir`, when there is one: what the file
/// locations below are made of, given the directory that was found.
pub fn join_opt(dir: &Option<String>, name: &str) -> (p: Option<String>)
    ensures
        crate::text::opt_view(p) == joined(*dir, name@),
{
    match dir {
        Some(d) => Some(join_path_str(d.as_str(), name)),
        None => None,
    }
}

impl Settings {
    /// The data directory, when the platform has one; its path is never
    /// empty.
    pub fn data_dir() -> (d: Option<String>)
        ensures
            d matches Some(s) ==> s@.len() > 0,
    {
        match project_dirs() {
            Some(dirs) => Some(project_data_dir(&dirs)),
            None => None,
        }
    }

    /// The configuration directory, when the platform has one; its path is
    /// never empty.
    pub fn config_dir() -> (d: Option<String>)
        ensures
            d matches Some(s) ==> s@.len() > 0,
    {
        match project_dirs() {
            Some(dirs) => Some(project_config_dir(&dirs)),
            None => None,
        }
    }

    /// `config.toml` in the configuration directory.
    pub fn config_file() -> (p: Option<String>)
        ensures
            p matches Some(f) ==> exists|d: String| d@.len() > 0 && crate::text::opt_view(p) == joined(Some(d), "config.toml"@),
    {
        let dir = Self::config_dir();
        let p = join_opt(&dir, "config.toml");
        proof {
            if let Some(d) = dir {
                assert(crate::text::opt_view(p) == joined(Some(d), "config.toml"@));
            }
        }
        p
    }

    /// `user_dicts` in the data directory: every file there is loaded as a
    /// user dictionary.
    pub fn user_dict_dir() -> (p: Option<String>)
        ensures
            p matches Some(f) ==> exists|d: String| d@.len() > 0 && crate::text::opt_view(p) == joined(Some(d), "user_dicts"@),
    {
        let dir = Self::data_dir();
        let p = join_opt(&dir, "user_dicts");
        proof {
            if let Some(d) = dir {
                assert(crate::text::opt_view(p) == joined(Some(d), "user_dicts"@));
            }
        }
        p
    }

    /// `learning.tsv` in the data directory.
    pub fn learning_file() -> (p: Option<String>)
        ensures
            p matches Some(f) ==> exists|d: String| d@.len() > 0 && crate::text::opt_view(p) == joined(Some(d), "learning.tsv"@),
    {
        let dir = Self::data_dir();
        let p = join_opt(&dir, "learning.tsv");
        proof {
            if let Some(d) = dir {
                assert(crate::text::opt_view(p) == joined(Some(d), "learning.tsv"@));
            }
        }
        p
    }

    /// `segment_learning.tsv` in the data directory.
    pub fn segment_learning_file() -> (p: Option<String>)
        ensures
            p matches Some(f) ==> exists|d: String| d@.len() > 0 && crate::text::opt_view(p) == joined(Some(d), "segment_learning.tsv"@),
    {
        let dir = Self::data_dir();
        let p = join_opt(&dir, "segment_learning.tsv");
        proof {
            if let Some(d) = dir {
                assert(crate::text::opt_view(p) == joined(Some(d), "segment_learning.tsv"@));
            }
        }
        p
    }
}

} // verus!

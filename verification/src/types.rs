//! The plain data the library hands to and receives from its callers.
use vstd::prelude::*;
use crate::text::copy_str;

verus! {

/// The user's settings.
#[derive(Debug, Clone)]
pub struct Settings {
    pub input_dir: String,
    pub output_dir: String,
    pub dict_path: String,
    pub is_move_mode: bool,
    pub recursive_scan: bool,
    pub options: ClassifyOptions,
}

/// The default of `is_move_mode`: files are moved.
pub fn default_true() -> (b: bool)
    ensures
        b,
{
    true
}

/// The default dictionary file name, `folder_dictionary.json`.
pub fn default_dict_path() -> (s: String)
    ensures
        s@ == "folder_dictionary.json"@,
{
    copy_str("folder_dictionary.json")
}

impl Default for Settings {
    /// No folders chosen, the default dictionary file, move mode, no
    /// recursive scan, no file name corrections.
    fn default() -> (s: Self)
        ensures
            s.input_dir@ == Seq::<char>::empty(),
            s.output_dir@ == Seq::<char>::empty(),
            s.dict_path@ == "folder_dictionary.json"@,
            s.is_move_mode,
            !s.recursive_scan,
            !s.options.remove_tag,
            !s.options.normalize_numbers,
    {
        Settings {
            input_dir: String::new(),
            output_dir: String::new(),
            dict_path: default_dict_path(),
            is_move_mode: default_true(),
            recursive_scan: false,
            options: ClassifyOptions::default(),
        }
    }
}

/// The file name corrections applied when a file is placed.
#[derive(Debug, Clone, Copy)]
pub struct ClassifyOptions {
    pub remove_tag: bool,
    pub normalize_numbers: bool,
}

impl Default for ClassifyOptions {
    /// Both corrections off.
    fn default() -> (o: Self)
        ensures
            !o.remove_tag,
            !o.normalize_numbers,
    {
        ClassifyOptions { remove_tag: false, normalize_numbers: false }
    }
}

/// What a dry run finds for one file.
#[derive(Debug, Clone)]
pub struct DryRunResult {
    pub file_name: String,
    pub file_path: String,
    pub destination: Option<String>,
    pub tag: Option<String>,
    pub status: FileStatus,
    pub match_type: Option<MatchType>,
}

/// Whether a file can be classified.
#[derive(Debug, Clone, Copy, PartialEq, Eq, Structural)]
pub enum FileStatus {
    /// The file has a tag, so it has a destination.
    Classifiable,
    /// The file has no usable tag.
    Unclassifiable,
}

/// How a tag found its folder.
#[derive(Debug, Clone, Copy, PartialEq, Eq, Structural)]
pub enum MatchType {
    /// Its key is in the dictionary.
    DictExact,
    /// A dictionary folder or key is similar to it.
    DictSimilar,
    /// No folder matched; the tag names a new folder.
    AutoCreated,
}

/// A destination that the user changed by hand before classifying.
#[derive(Debug, Clone)]
pub struct DestinationOverride {
    pub file_path: String,
    pub original_destination: String,
    pub new_destination: String,
    pub tag: String,
    pub match_type: MatchType,
}

/// Progress of a classification run.
#[derive(Debug, Clone)]
pub struct ClassifyProgress {
    pub current: usize,
    pub total: usize,
    pub file_name: String,
}

/// One line of the operation log.
#[derive(Debug, Clone)]
pub struct LogEntry {
    pub timestamp: String,
    pub operation: String,
    pub source: String,
    pub destination: String,
    pub action: String,
    pub detail: String,
}

/// A group of folder names that look like spellings of one name.
#[derive(Debug, Clone)]
pub struct SimilarGroup {
    pub id: usize,
    pub candidates: Vec<SimilarCandidate>,
}

/// A folder name in a similar group, and where it was found.
#[derive(Debug, Clone)]
pub struct SimilarCandidate {
    pub name: String,
    pub is_real_folder: bool,
    pub is_dictionary: bool,
}

/// A folder with few files.
#[derive(Debug, Clone)]
pub struct SmallFolder {
    pub name: String,
    pub file_count: usize,
}

/// Folders to merge into one target folder.
#[derive(Debug, Clone)]
pub struct MergeGroup {
    pub target_name: String,
    pub source_names: Vec<String>,
}

/// The dictionary as shown to the user: one group per folder.
#[derive(Debug, Clone)]
pub struct DictionaryData {
    pub entries: Vec<DictionaryGroup>,
}

/// A folder and the keys that lead to it.
#[derive(Debug, Clone)]
pub struct DictionaryGroup {
    pub folder_name: String,
    pub keys: Vec<String>,
}

/// The outcome counts of a classification run.
#[derive(Debug, Clone)]
pub struct ClassifySummary {
    pub success: usize,
    pub skipped: usize,
    pub errors: usize,
}

} // verus!

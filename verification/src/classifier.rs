//! Classification decisions: which folder a tagged file goes to, what a dry
//! run reports, and how the dictionary learns from a classification run.
use vstd::prelude::*;
use crate::dictionary::{inserted, keys_distinct, lemma_inserted, lookup, opt_view, Dictionary};
use crate::normalize::{normalize, normalized};
use crate::similarity::{find_similar_dict_match, similar_match};
use crate::tag::{correct_filename, corrected_filename, extract_tag, tag_of};
use crate::fs_utils::{decimal, decimal_chars};
use crate::text::{copy_str, str_equal, string_of};
use crate::types::{ClassifyOptions, ClassifySummary, DryRunResult, FileStatus, LogEntry, MatchType};

verus! {

/// A file found in the input folder: its name and its full path.
#[derive(Debug, Clone)]
pub struct ScannedFile {
    pub file_name: String,
    pub file_path: String,
}

/// Where a tag leads and how: the folder of its normalised key; else the
/// folder found by similarity; else a new folder named after the tag.
pub open spec fn destination_of(tag: Seq<char>, s: Seq<(Seq<char>, Seq<char>)>) -> (Seq<char>, MatchType) {
    let key = normalized(tag);
    match lookup(s, key) {
        Some(f) => (f, MatchType::DictExact),
        None => match similar_match(key, s) {
            Some(f) => (f, MatchType::DictSimilar),
            None => (tag, MatchType::AutoCreated),
        },
    }
}

/// Resolves the destination folder of a tag and how it was found.
fn resolve_destination(tag_name: &str, dict: &Dictionary) -> (r: (String, MatchType))
    requires
        dict.wf(),
    ensures
        (r.0@, r.1) == destination_of(tag_name@, dict@),
{
    let key = normalize(tag_name);
    if let Some(folder) = dict.get(key.as_str()) {
        return (folder.clone(), MatchType::DictExact);
    }
    if let Some(folder) = find_similar_dict_match(key.as_str(), dict) {
        return (folder, MatchType::DictSimilar);
    }
    (copy_str(tag_name), MatchType::AutoCreated)
}

/// What a dry run reports for one file, as (name, path, destination, tag,
/// status, match type): a file without a tag is unclassifiable; a tagged
/// file goes where its tag leads.
pub open spec fn dry_run_entry(name: Seq<char>, path: Seq<char>, s: Seq<(Seq<char>, Seq<char>)>) -> (
    Seq<char>,
    Seq<char>,
    Option<Seq<char>>,
    Option<Seq<char>>,
    FileStatus,
    Option<MatchType>,
) {
    match tag_of(name) {
        None => (name, path, None, None, FileStatus::Unclassifiable, None),
        Some(t) => (
            name,
            path,
            Some(destination_of(t, s).0),
            Some(t),
            FileStatus::Classifiable,
            Some(destination_of(t, s).1),
        ),
    }
}

impl View for DryRunResult {
    type V = (Seq<char>, Seq<char>, Option<Seq<char>>, Option<Seq<char>>, FileStatus, Option<MatchType>);

    open spec fn view(&self) -> Self::V {
        (self.file_name@, self.file_path@, opt_view(self.destination), opt_view(self.tag), self.status, self.match_type)
    }
}

/// Reports, file by file, where each file would go, without moving anything.
pub fn dry_run(files: &Vec<ScannedFile>, dict: &Dictionary) -> (results: Vec<DryRunResult>)
    requires
        dict.wf(),
    ensures
        results.len() == files.len(),
        forall|i: int| 0 <= i < files.len() ==> (#[trigger] results@[i])@ == dry_run_entry(
            files@[i].file_name@,
            files@[i].file_path@,
            dict@,
        ),
        forall|i: int| 0 <= i < files.len() ==> (#[trigger] results@[i]).file_name@ == files@[i].file_name@
            && results@[i].file_path@ == files@[i].file_path@,
        forall|i: int| 0 <= i < files.len() && tag_of(files@[i].file_name@) is None ==> (#[trigger] results@[i]).status
            == FileStatus::Unclassifiable && results@[i].destination is None,
        forall|i: int| 0 <= i < files.len() ==> (tag_of(files@[i].file_name@) matches Some(t) ==> ((
        #[trigger] results@[i]).status == FileStatus::Classifiable && opt_view(results@[i].tag) == Some(t) && (lookup(
            dict@,
            normalized(t),
        ) matches Some(f) ==> opt_view(results@[i].destination) == Some(f) && results@[i].match_type == Some(
            MatchType::DictExact,
        )))),
{
    let mut results: Vec<DryRunResult> = Vec::new();
    for i in 0..files.len()
        invariant
            dict.wf(),
            results.len() == i,
            forall|j: int| 0 <= j < i ==> (#[trigger] results@[j])@ == dry_run_entry(
                files@[j].file_name@,
                files@[j].file_path@,
                dict@,
            ),
    {
        let file = &files[i];
        let entry = match extract_tag(file.file_name.as_str()) {
            None => DryRunResult {
                file_name: file.file_name.clone(),
                file_path: file.file_path.clone(),
                destination: None,
                tag: None,
                status: FileStatus::Unclassifiable,
                match_type: None,
            },
            Some(tag_name) => {
                let (destination, mt) = resolve_destination(tag_name.as_str(), dict);
                DryRunResult {
                    file_name: file.file_name.clone(),
                    file_path: file.file_path.clone(),
                    destination: Some(destination),
                    tag: Some(tag_name),
                    status: FileStatus::Classifiable,
                    match_type: Some(mt),
                }
            },
        };
        results.push(entry);
    }
    results
}

/// The folder a classification run sends a tagged file to, and what it
/// learns: an override for the file's path wins and changes nothing; else
/// the folder of the tag's key; else, the key being new, the folder found by
/// similarity or a folder named after the tag, and the key is registered
/// with that folder in the dictionary and among the new entries.
pub open spec fn classify_step(
    tag: Seq<char>,
    path: Seq<char>,
    dict: Seq<(Seq<char>, Seq<char>)>,
    new_entries: Seq<(Seq<char>, Seq<char>)>,
    overrides: Seq<(Seq<char>, Seq<char>)>,
) -> (Seq<char>, Seq<(Seq<char>, Seq<char>)>, Seq<(Seq<char>, Seq<char>)>) {
    let key = normalized(tag);
    match lookup(overrides, path) {
        Some(o) => (o, dict, new_entries),
        None => match lookup(dict, key) {
            Some(f) => (f, dict, new_entries),
            None => {
                let f = match similar_match(key, dict) {
                    Some(f) => f,
                    None => tag,
                };
                (f, inserted(dict, key, f), inserted(new_entries, key, f))
            },
        },
    }
}

/// Decides the destination folder of a tagged file during a classification
/// run and registers a new key in the dictionary and among the new entries.
pub fn classify_destination(
    tag: &str,
    file_path: &str,
    dict: &mut Dictionary,
    new_entries: &mut Dictionary,
    overrides: &Dictionary,
) -> (folder: String)
    requires
        old(dict).wf(),
        old(new_entries).wf(),
        overrides.wf(),
    ensures
        final(dict).wf(),
        final(new_entries).wf(),
        (folder@, final(dict)@, final(new_entries)@) == classify_step(
            tag@,
            file_path@,
            old(dict)@,
            old(new_entries)@,
            overrides@,
        ),
        lookup(overrides@, file_path@) is None ==> lookup(final(dict)@, normalized(tag@)) == Some(folder@),
        lookup(overrides@, file_path@) matches Some(o) ==> folder@ == o && final(dict)@ == old(dict)@
            && final(new_entries)@ == old(new_entries)@,
        lookup(overrides@, file_path@) is None ==> (lookup(old(dict)@, normalized(tag@)) matches Some(f)
            ==> folder@ == f && final(dict)@ == old(dict)@ && final(new_entries)@ == old(new_entries)@),
{
    let key = normalize(tag);
    if let Some(overridden) = overrides.get(file_path) {
        return overridden.clone();
    }
    if let Some(folder) = dict.get(key.as_str()) {
        return folder.clone();
    }
    let folder = match find_similar_dict_match(key.as_str(), dict) {
        Some(f) => f,
        None => copy_str(tag),
    };
    dict.insert(key.clone(), folder.clone());
    new_entries.insert(key, folder.clone());
    folder
}

/// What a classification run does with one file.
#[derive(Debug, Clone)]
pub enum FilePlan {
    /// The file has no tag: it is left where it is.
    Skip,
    /// The file goes into `folder` under the name `new_name`.
    Place { folder: String, new_name: String },
}

/// Decides what a classification run does with one file: a file without a
/// tag is skipped and nothing changes; a tagged file goes to the folder
/// `classify_destination` decides, which may register its key, under its
/// corrected name.
pub fn plan_file(
    file_name: &str,
    file_path: &str,
    options: ClassifyOptions,
    dict: &mut Dictionary,
    new_entries: &mut Dictionary,
    overrides: &Dictionary,
) -> (p: FilePlan)
    requires
        old(dict).wf(),
        old(new_entries).wf(),
        overrides.wf(),
    ensures
        final(dict).wf(),
        final(new_entries).wf(),
        match tag_of(file_name@) {
            None => p is Skip && final(dict)@ == old(dict)@ && final(new_entries)@ == old(new_entries)@,
            Some(t) => (p matches FilePlan::Place { folder, new_name }
                && (folder@, final(dict)@, final(new_entries)@)
                == classify_step(t, file_path@, old(dict)@, old(new_entries)@, overrides@)
                && new_name@ == corrected_filename(file_name@, options.remove_tag, options.normalize_numbers)),
        },
        lookup(overrides@, file_path@) matches Some(o) ==> (tag_of(file_name@) is Some ==> (
        p matches FilePlan::Place { folder, .. } && folder@ == o && final(dict)@ == old(dict)@
            && final(new_entries)@ == old(new_entries)@)),
{
    match extract_tag(file_name) {
        None => FilePlan::Skip,
        Some(tag) => {
            let folder = classify_destination(tag.as_str(), file_path, dict, new_entries, overrides);
            let new_name = correct_filename(file_name, options.remove_tag, options.normalize_numbers);
            FilePlan::Place { folder, new_name }
        },
    }
}

/// A hand-made override for a file's path decides its folder, whatever the
/// dictionary holds, and nothing is learned; without an override, a tag
/// whose key the dictionary holds goes to that key's folder, and nothing is
/// learned either.
pub proof fn lemma_override_wins(
    tag: Seq<char>,
    path: Seq<char>,
    dict: Seq<(Seq<char>, Seq<char>)>,
    new_entries: Seq<(Seq<char>, Seq<char>)>,
    overrides: Seq<(Seq<char>, Seq<char>)>,
)
    ensures
        lookup(overrides, path) matches Some(o) ==> classify_step(tag, path, dict, new_entries, overrides) == (
            o,
            dict,
            new_entries,
        ),
        lookup(overrides, path) is None ==> (lookup(dict, normalized(tag)) matches Some(f) ==> classify_step(
            tag,
            path,
            dict,
            new_entries,
            overrides,
        ) == (f, dict, new_entries)),
{
}

/// A dry run predicts the folder a classification run sends a file to,
/// whenever no override is given for the file.
pub proof fn lemma_dry_run_predicts_classification(
    tag: Seq<char>,
    path: Seq<char>,
    dict: Seq<(Seq<char>, Seq<char>)>,
    new_entries: Seq<(Seq<char>, Seq<char>)>,
    overrides: Seq<(Seq<char>, Seq<char>)>,
)
    requires
        lookup(overrides, path) is None,
    ensures
        classify_step(tag, path, dict, new_entries, overrides).0 == destination_of(tag, dict).0,
{
}

/// Once a classification run has registered a tag, the tag is an exact
/// dictionary match for the folder it was sent to.
pub proof fn lemma_classification_registers_tag(
    tag: Seq<char>,
    path: Seq<char>,
    dict: Seq<(Seq<char>, Seq<char>)>,
    new_entries: Seq<(Seq<char>, Seq<char>)>,
    overrides: Seq<(Seq<char>, Seq<char>)>,
)
    requires
        keys_distinct(dict),
        lookup(overrides, path) is None,
    ensures
        destination_of(tag, classify_step(tag, path, dict, new_entries, overrides).1) == (
            classify_step(tag, path, dict, new_entries, overrides).0,
            MatchType::DictExact,
        ),
{
    let key = normalized(tag);
    if lookup(dict, key) is None {
        let f = match similar_match(key, dict) {
            Some(f) => f,
            None => tag,
        };
        lemma_inserted(dict, key, f);
    }
}

/// What happened to one file of a classification run.
#[derive(Debug, Clone)]
pub enum RunEvent {
    /// The run was cancelled before the file at `index`; the run stops.
    Cancelled { index: usize },
    /// The file has no tag and was skipped.
    Untagged,
    /// Placing the file failed, for the reason given.
    Failed { detail: String },
    /// The file was moved (`moved`) or copied.
    Placed { moved: bool },
}

/// The action a log entry records for an event.
pub open spec fn event_action(e: RunEvent) -> Seq<char> {
    match e {
        RunEvent::Cancelled { .. } => "cancelled"@,
        RunEvent::Untagged => "skip"@,
        RunEvent::Failed { .. } => "error"@,
        RunEvent::Placed { moved } => if moved {
            "move"@
        } else {
            "copy"@
        },
    }
}

/// The detail a log entry records for an event: where a cancelled run
/// stopped, that an untagged file has no tag, or why placing failed.
pub open spec fn event_detail(e: RunEvent) -> Seq<char> {
    match e {
        RunEvent::Cancelled { index } => decimal(index as nat) + "件目で中断しました"@,
        RunEvent::Untagged => "タグなし"@,
        RunEvent::Failed { detail } => detail@,
        RunEvent::Placed { .. } => Seq::empty(),
    }
}

/// The log entry a classification run records for one event: the source
/// and destination are left empty for a cancelled run, and the destination
/// for an untagged file.
pub fn run_log_entry(timestamp: &str, source: &str, destination: &str, event: RunEvent) -> (l: LogEntry)
    ensures
        l.timestamp@ == timestamp@,
        l.operation@ == "classify"@,
        l.source@ == (if event is Cancelled {
            Seq::<char>::empty()
        } else {
            source@
        }),
        l.destination@ == (if event is Cancelled || event is Untagged {
            Seq::<char>::empty()
        } else {
            destination@
        }),
        l.action@ == event_action(event),
        l.detail@ == event_detail(event),
{
    let (src, dst, action, detail) = match event {
        RunEvent::Cancelled { index } => {
            let digits = decimal_chars(index as u64);
            let mut d = string_of(&digits);
            d.append("件目で中断しました");
            (String::new(), String::new(), copy_str("cancelled"), d)
        },
        RunEvent::Untagged => (copy_str(source), String::new(), copy_str("skip"), copy_str("タグなし")),
        RunEvent::Failed { detail } => (copy_str(source), copy_str(destination), copy_str("error"), detail),
        RunEvent::Placed { moved } => {
            let a = if moved {
                copy_str("move")
            } else {
                copy_str("copy")
            };
            (copy_str(source), copy_str(destination), a, String::new())
        },
    };
    LogEntry {
        timestamp: copy_str(timestamp),
        operation: copy_str("classify"),
        source: src,
        destination: dst,
        action,
        detail,
    }
}

/// How many entries of `logs` have an action in `actions`.
pub open spec fn count_actions(logs: Seq<LogEntry>, actions: Seq<Seq<char>>) -> nat
    decreases logs.len(),
{
    if logs.len() == 0 {
        0
    } else {
        count_actions(logs.drop_last(), actions) + if actions.contains(logs.last().action@) {
            1nat
        } else {
            0nat
        }
    }
}

/// Counts a run's outcomes: files copied or moved, files skipped, errors.
pub fn summarize_logs(logs: &Vec<LogEntry>) -> (s: ClassifySummary)
    ensures
        s.success == count_actions(logs@, seq!["copy"@, "move"@]),
        s.skipped == count_actions(logs@, seq!["skip"@]),
        s.errors == count_actions(logs@, seq!["error"@]),
{
    let mut success: usize = 0;
    let mut skipped: usize = 0;
    let mut errors: usize = 0;
    for i in 0..logs.len()
        invariant
            success == count_actions(logs@.take(i as int), seq!["copy"@, "move"@]),
            skipped == count_actions(logs@.take(i as int), seq!["skip"@]),
            errors == count_actions(logs@.take(i as int), seq!["error"@]),
            success <= i,
            skipped <= i,
            errors <= i,
    {
        let action = logs[i].action.as_str();
        assert(logs@.take(i + 1).drop_last() == logs@.take(i as int));
        assert(logs@.take(i + 1).last() == logs@[i as int]);
        let is_copy = str_equal(action, "copy");
        let is_move = str_equal(action, "move");
        proof {
            crate::text::lemma_push_contains(seq!["copy"@], "move"@, action@);
            crate::text::lemma_push_contains(Seq::<Seq<char>>::empty(), "copy"@, action@);
            crate::text::lemma_push_contains(Seq::<Seq<char>>::empty(), "skip"@, action@);
            crate::text::lemma_push_contains(Seq::<Seq<char>>::empty(), "error"@, action@);
            assert(seq!["copy"@, "move"@] == seq!["copy"@].push("move"@));
            assert(seq!["copy"@] == Seq::<Seq<char>>::empty().push("copy"@));
            assert(seq!["skip"@] == Seq::<Seq<char>>::empty().push("skip"@));
            assert(seq!["error"@] == Seq::<Seq<char>>::empty().push("error"@));
        }
        if is_copy || is_move {
            success = success + 1;
        }
        if str_equal(action, "skip") {
            skipped = skipped + 1;
        }
        if str_equal(action, "error") {
            errors = errors + 1;
        }
    }
    assert(logs@.take(logs.len() as int) == logs@);
    ClassifySummary { success, skipped, errors }
}

} // verus!

use tag_classifier::classifier::{
    classify_destination, dry_run, plan_file, run_log_entry, summarize_logs, FilePlan, RunEvent,
    ScannedFile,
};
use tag_classifier::dictionary::Dictionary;
use tag_classifier::tag::{correct_filename, extract_tag};
use tag_classifier::types::{ClassifyOptions, FileStatus, LogEntry, MatchType};

fn file(name: &str) -> ScannedFile {
    ScannedFile { file_name: name.to_string(), file_path: format!("/input/{}", name) }
}

#[test]
fn test_dry_run_classifiable() {
    let files = vec![file("[Author] file.txt"), file("no_tag.txt")];
    let mut dict = Dictionary::new();
    dict.insert("author".to_string(), "Author".to_string());

    let results = dry_run(&files, &dict);
    assert_eq!(results.len(), 2);

    let classifiable = results.iter().find(|r| r.file_name == "[Author] file.txt").unwrap();
    assert_eq!(classifiable.status, FileStatus::Classifiable);
    assert_eq!(classifiable.destination.as_deref(), Some("Author"));
    assert_eq!(classifiable.match_type, Some(MatchType::DictExact));

    let skipped = results.iter().find(|r| r.file_name == "no_tag.txt").unwrap();
    assert_eq!(skipped.status, FileStatus::Unclassifiable);
    assert_eq!(skipped.destination, None);
    assert_eq!(skipped.tag, None);
}

#[test]
fn test_dry_run_similar_match() {
    let files = vec![file("[ムラノタミ] file.txt")];
    let mut dict = Dictionary::new();
    dict.insert("むらのたみ".to_string(), "むらの・たみ".to_string());

    let results = dry_run(&files, &dict);
    assert_eq!(results.len(), 1);
    assert_eq!(results[0].status, FileStatus::Classifiable);
    assert_eq!(results[0].destination.as_deref(), Some("むらの・たみ"));
    assert_eq!(results[0].match_type, Some(MatchType::DictSimilar));
}

#[test]
fn test_dry_run_auto_create() {
    let files = vec![file("[NewTag] file.txt")];
    let dict = Dictionary::new();
    let results = dry_run(&files, &dict);
    assert_eq!(results.len(), 1);
    assert_eq!(results[0].status, FileStatus::Classifiable);
    assert_eq!(results[0].destination.as_deref(), Some("NewTag"));
    assert_eq!(results[0].tag.as_deref(), Some("NewTag"));
    assert_eq!(results[0].match_type, Some(MatchType::AutoCreated));
    assert_eq!(results[0].file_path, "/input/[NewTag] file.txt");
}

#[test]
fn classification_registers_new_tags() {
    let mut dict = Dictionary::new();
    let mut new_entries = Dictionary::new();
    let overrides = Dictionary::new();
    let folder = classify_destination("NewAuthor", "/input/[NewAuthor] file.txt", &mut dict, &mut new_entries, &overrides);
    assert_eq!(folder, "NewAuthor");
    assert_eq!(dict.get("newauthor").unwrap(), "NewAuthor");
    assert_eq!(new_entries.get("newauthor").unwrap(), "NewAuthor");
    // The same tag is now an exact match and nothing more is registered.
    let again = classify_destination("NewAuthor", "/input/[NewAuthor] other.txt", &mut dict, &mut new_entries, &overrides);
    assert_eq!(again, "NewAuthor");
    assert_eq!(dict.len(), 1);
    assert_eq!(new_entries.len(), 1);
    let results = dry_run(&vec![file("[NewAuthor] x.txt")], &dict);
    assert_eq!(results[0].match_type, Some(MatchType::DictExact));
}

#[test]
fn classification_registers_similar_matches() {
    let mut dict = Dictionary::new();
    dict.insert("むらのたみ".to_string(), "むらの・たみ".to_string());
    let mut new_entries = Dictionary::new();
    let folder = classify_destination("ムラノタミ", "/p", &mut dict, &mut new_entries, &Dictionary::new());
    assert_eq!(folder, "むらの・たみ");
    assert_eq!(dict.get("ムラノタミ").unwrap(), "むらの・たみ");
    assert_eq!(new_entries.len(), 1);
}

#[test]
fn classification_override_wins() {
    let mut dict = Dictionary::new();
    let mut new_entries = Dictionary::new();
    let mut overrides = Dictionary::new();
    overrides.insert("/input/[Tag] file.txt".to_string(), "CustomFolder".to_string());
    let folder = classify_destination("Tag", "/input/[Tag] file.txt", &mut dict, &mut new_entries, &overrides);
    assert_eq!(folder, "CustomFolder");
    assert!(dict.is_empty());
    assert!(new_entries.is_empty());
}

fn log(action: &str) -> LogEntry {
    LogEntry {
        timestamp: "0".to_string(),
        operation: "classify".to_string(),
        source: String::new(),
        destination: String::new(),
        action: action.to_string(),
        detail: String::new(),
    }
}

#[test]
fn summary_counts_actions() {
    let logs = vec![log("copy"), log("move"), log("skip"), log("error"), log("error"), log("cancelled")];
    let s = summarize_logs(&logs);
    assert_eq!(s.success, 2);
    assert_eq!(s.skipped, 1);
    assert_eq!(s.errors, 2);
}

#[test]
fn test_classify_files_auto_register() {
    let mut dict = Dictionary::new();
    let mut new_entries = Dictionary::new();
    let overrides = Dictionary::new();
    let tag = extract_tag("[NewAuthor] file.txt").unwrap();
    let folder = classify_destination(
        &tag,
        "/input/[NewAuthor] file.txt",
        &mut dict,
        &mut new_entries,
        &overrides,
    );
    assert!(dict.contains_key("newauthor"));
    assert!(new_entries.contains_key("newauthor"));
    assert_eq!(folder, "NewAuthor");
    assert_eq!(correct_filename("[NewAuthor] file.txt", false, false), "[NewAuthor] file.txt");
}

#[test]
fn test_classify_with_overrides() {
    let mut dict = Dictionary::new();
    let mut new_entries = Dictionary::new();
    let mut overrides = Dictionary::new();
    let file_path = "/input/[Tag] file.txt";
    overrides.insert(file_path.to_string(), "CustomFolder".to_string());
    let tag = extract_tag("[Tag] file.txt").unwrap();
    let folder = classify_destination(&tag, file_path, &mut dict, &mut new_entries, &overrides);
    assert_eq!(folder, "CustomFolder");
    assert!(dict.is_empty());
    assert!(new_entries.is_empty());
}

#[test]
fn files_are_planned_one_by_one() {
    let mut dict = Dictionary::new();
    dict.insert("author".to_string(), "Author".to_string());
    let mut new_entries = Dictionary::new();
    let overrides = Dictionary::new();
    let options = ClassifyOptions { remove_tag: true, normalize_numbers: true };

    let skipped = plan_file("no_tag.txt", "/in/no_tag.txt", options, &mut dict, &mut new_entries, &overrides);
    assert!(matches!(skipped, FilePlan::Skip));
    assert_eq!(dict.len(), 1);
    assert!(new_entries.is_empty());

    match plan_file("[Author] vol ３ .txt", "/in/a.txt", options, &mut dict, &mut new_entries, &overrides) {
        FilePlan::Place { folder, new_name } => {
            assert_eq!(folder, "Author");
            assert_eq!(new_name, "vol3.txt");
        }
        FilePlan::Skip => panic!("a tagged file is placed"),
    }
    assert!(new_entries.is_empty());

    match plan_file("[Fresh] b.txt", "/in/b.txt", options, &mut dict, &mut new_entries, &overrides) {
        FilePlan::Place { folder, new_name } => {
            assert_eq!(folder, "Fresh");
            assert_eq!(new_name, "b.txt");
        }
        FilePlan::Skip => panic!("a tagged file is placed"),
    }
    assert_eq!(dict.get("fresh").unwrap(), "Fresh");
    assert_eq!(new_entries.get("fresh").unwrap(), "Fresh");
}

#[test]
fn run_events_are_logged() {
    let c = run_log_entry("7", "/in/a.txt", "/out/A/a.txt", RunEvent::Cancelled { index: 12 });
    assert_eq!((c.timestamp.as_str(), c.operation.as_str()), ("7", "classify"));
    assert_eq!((c.source.as_str(), c.destination.as_str()), ("", ""));
    assert_eq!((c.action.as_str(), c.detail.as_str()), ("cancelled", "12件目で中断しました"));
    let s = run_log_entry("7", "/in/a.txt", "/out/A", RunEvent::Untagged);
    assert_eq!((s.source.as_str(), s.destination.as_str()), ("/in/a.txt", ""));
    assert_eq!((s.action.as_str(), s.detail.as_str()), ("skip", "タグなし"));
    let e = run_log_entry("7", "/in/a.txt", "/out/A", RunEvent::Failed { detail: "boom".to_string() });
    assert_eq!((e.destination.as_str(), e.action.as_str(), e.detail.as_str()), ("/out/A", "error", "boom"));
    let m = run_log_entry("7", "/in/a.txt", "/out/A/a.txt", RunEvent::Placed { moved: true });
    assert_eq!((m.action.as_str(), m.detail.as_str()), ("move", ""));
    let k = run_log_entry("7", "/in/a.txt", "/out/A/a.txt", RunEvent::Placed { moved: false });
    assert_eq!(k.action, "copy");
    let summary = summarize_logs(&vec![c, s, e, m, k]);
    assert_eq!((summary.success, summary.skipped, summary.errors), (2, 1, 1));
}

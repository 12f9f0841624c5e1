use tag_classifier::tag::{correct_filename, extract_tag};

#[test]
fn test_extract_tag() {
    assert_eq!(extract_tag("[TagA] file.txt"), Some("TagA".to_string()));
    assert_eq!(extract_tag("prefix [Tag B] file.txt"), Some("Tag B".to_string()));
    assert_eq!(extract_tag("no_tag_file.txt"), None);
    assert_eq!(extract_tag("[] empty.txt"), None);
    assert_eq!(extract_tag("[ ] spaces.txt"), None);
}

#[test]
fn test_sanitize_path_traversal() {
    assert_eq!(extract_tag("[../etc/passwd]"), Some("etcpasswd".to_string()));
    assert_eq!(extract_tag("[foo/bar]"), Some("foobar".to_string()));
    assert_eq!(extract_tag("[.hidden]"), Some("hidden".to_string()));
}

#[test]
fn test_correct_filename_remove_tag() {
    assert_eq!(correct_filename("[Author] file.txt", true, false), "file.txt");
    assert_eq!(correct_filename("prefix [Tag] file.txt", true, false), "prefix file.txt");
    assert_eq!(correct_filename("[Author] file.txt", false, false), "[Author] file.txt");
}

#[test]
fn extract_tag_edge_cases() {
    assert_eq!(extract_tag("] before [late] x"), Some("late".to_string()));
    assert_eq!(extract_tag("[unclosed file.txt"), None);
    assert_eq!(extract_tag("[..] dots.txt"), None);
    assert_eq!(extract_tag("[ a ] [b]"), Some("a".to_string()));
    assert_eq!(extract_tag("[C:\\x]"), Some("Cx".to_string()));
}

#[test]
fn extracted_tags_are_safe() {
    for name in ["[../../x]", "[....//y]", "[.a..b]", "[/:\\]", "[...z]"] {
        if let Some(t) = extract_tag(name) {
            assert!(!t.is_empty());
            assert!(!t.contains('/') && !t.contains('\\') && !t.contains(':'));
            assert!(!t.contains(".."));
            assert!(!t.starts_with('.'));
        }
    }
}

#[test]
fn correct_filename_unifies_digits() {
    assert_eq!(correct_filename("file ２０２４ version.txt", false, true), "file2024version.txt");
    assert_eq!(correct_filename("vol 3.txt", false, true), "vol3.txt");
    assert_eq!(correct_filename("no digits here", false, true), "no digits here");
}

#[test]
fn correct_filename_both_options() {
    assert_eq!(correct_filename("[Tag]  vol   ３  end.txt", true, true), "vol3end.txt");
    assert_eq!(correct_filename("a  [t]  b", true, false), "a b");
}

#[test]
fn correct_filename_without_options_is_identity() {
    for name in ["x", "[a] b  c ２", ""] {
        assert_eq!(correct_filename(name, false, false), name);
    }
}

#[test]
fn whitespace_after_digits_is_removed_entirely() {
    assert_eq!(correct_filename("1  a", false, true), "1a");
    assert_eq!(correct_filename("第 １ 話.txt", false, true), "第1話.txt");
    assert_eq!(correct_filename("ep ３ \t\u{3000} end", false, true), "ep3end");
    assert_eq!(correct_filename("a  b 1", false, true), "a  b1");
}

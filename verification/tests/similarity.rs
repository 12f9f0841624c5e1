use tag_classifier::dictionary::Dictionary;
use tag_classifier::similarity::{
    analyze_name, are_similar, detect_similar_folders, detect_small_folders, find_similar_dict_match,
};
use tag_classifier::types::SmallFolder;

#[test]
fn test_similar_match_subsumption() {
    let mut dict = Dictionary::new();
    dict.insert("inkcomplex(智弘カイ)".to_string(), "Ink Complex (智弘カイ)".to_string());
    dict.insert("inkcomplex".to_string(), "Ink Complex (智弘カイ)".to_string());
    dict.insert("智弘カイ".to_string(), "Ink Complex (智弘カイ)".to_string());

    let mut dict2 = Dictionary::new();
    dict2.insert("むらのたみ".to_string(), "むらの・たみ".to_string());
    let result = find_similar_dict_match("ムラノタミ", &dict2);
    assert_eq!(result, Some("むらの・たみ".to_string()));
}

#[test]
fn test_similar_match_main_key() {
    let mut dict = Dictionary::new();
    dict.insert("somefolder".to_string(), "SomeFolder (SubA)".to_string());

    let mut dict2 = Dictionary::new();
    dict2.insert("x".to_string(), "SomeFolder (SubA)".to_string());

    let result = find_similar_dict_match("somefolder", &dict2);
    assert_eq!(result, Some("SomeFolder (SubA)".to_string()));
}

#[test]
fn test_similar_match_folder_sub_contains_tag() {
    let mut dict = Dictionary::new();
    dict.insert("x".to_string(), "関西漁業協同組合 (丸新)".to_string());

    let result = find_similar_dict_match("丸新", &dict);
    assert_eq!(result, Some("関西漁業協同組合 (丸新)".to_string()));
}

#[test]
fn similar_match_none_cases() {
    let mut dict = Dictionary::new();
    dict.insert("x".to_string(), "Other".to_string());
    assert_eq!(find_similar_dict_match("unrelated", &dict), None);
    assert_eq!(find_similar_dict_match("()", &dict), None);
    assert_eq!(find_similar_dict_match("", &dict), None);
}

#[test]
fn similar_match_prefers_folder_names_then_keys() {
    let mut dict = Dictionary::new();
    dict.insert("ａｂｃ".to_string(), "First".to_string());
    dict.insert("y".to_string(), "ABC".to_string());
    // "ABC" is similar by its name; the key fallback would give "First".
    assert_eq!(find_similar_dict_match("abc", &dict), Some("ABC".to_string()));
    let mut only_keys = Dictionary::new();
    only_keys.insert("ａｂｃ".to_string(), "First".to_string());
    assert_eq!(find_similar_dict_match("abc", &only_keys), Some("First".to_string()));
}

#[test]
fn test_detect_similar_folders_transitivity() {
    let real = vec!["A・B".to_string(), "A-B".to_string(), "A-B(C)".to_string(), "XYZ".to_string()];
    let dict = Dictionary::new();
    let groups = detect_similar_folders(&real, &dict);
    assert_eq!(groups.len(), 1);
    assert_eq!(groups[0].candidates.len(), 3);
    let names: Vec<&str> = groups[0].candidates.iter().map(|c| c.name.as_str()).collect();
    assert!(names.contains(&"A・B"));
    assert!(names.contains(&"A-B"));
    assert!(names.contains(&"A-B(C)"));
    assert_eq!(groups[0].id, 0);
}

#[test]
fn test_detect_similar_folders_no_false_positives() {
    let real = vec!["FolderA".to_string(), "FolderB".to_string(), "完全に別".to_string()];
    let dict = Dictionary::new();
    let groups = detect_similar_folders(&real, &dict);
    assert_eq!(groups.len(), 0);
}

#[test]
fn similar_folders_include_dictionary_names() {
    let real = vec!["Ink Complex".to_string()];
    let mut dict = Dictionary::new();
    dict.insert("x".to_string(), "Ink Complex (智弘カイ)".to_string());
    dict.insert("y".to_string(), "Ink Complex (智弘カイ)".to_string());
    let groups = detect_similar_folders(&real, &dict);
    assert_eq!(groups.len(), 1);
    let c = &groups[0].candidates;
    assert_eq!(c.len(), 2);
    assert_eq!(c[0].name, "Ink Complex");
    assert!(c[0].is_real_folder && !c[0].is_dictionary);
    assert_eq!(c[1].name, "Ink Complex (智弘カイ)");
    assert!(!c[1].is_real_folder && c[1].is_dictionary);
}

#[test]
fn dictionary_names_alone_are_not_grouped() {
    let real: Vec<String> = vec![];
    let mut dict = Dictionary::new();
    dict.insert("x".to_string(), "Same".to_string());
    dict.insert("y".to_string(), "same".to_string());
    assert!(detect_similar_folders(&real, &dict).is_empty());
}

#[test]
fn two_groups_are_numbered_in_order() {
    let real = vec!["b1".to_string(), "a".to_string(), "B1".to_string(), "A".to_string()];
    let groups = detect_similar_folders(&real, &Dictionary::new());
    assert_eq!(groups.len(), 2);
    assert_eq!(groups[0].id, 0);
    assert_eq!(groups[0].candidates[0].name, "b1");
    assert_eq!(groups[0].candidates[1].name, "B1");
    assert_eq!(groups[1].id, 1);
    assert_eq!(groups[1].candidates[0].name, "a");
    assert_eq!(groups[1].candidates[1].name, "A");
}

#[test]
fn small_folders_sorted_by_count_then_name() {
    let folders = vec![
        SmallFolder { name: "b".to_string(), file_count: 2 },
        SmallFolder { name: "a".to_string(), file_count: 2 },
        SmallFolder { name: "c".to_string(), file_count: 10 },
        SmallFolder { name: "d".to_string(), file_count: 0 },
    ];
    let result = detect_small_folders(&folders, 5);
    let got: Vec<(&str, usize)> = result.iter().map(|f| (f.name.as_str(), f.file_count)).collect();
    assert_eq!(got, vec![("d", 0), ("a", 2), ("b", 2)]);
    assert!(detect_small_folders(&folders, 0).iter().all(|f| f.file_count == 0));
}

#[test]
fn similarity_is_symmetric_and_reflexive() {
    let names = ["A・B", "A-B(C)", "Ink Complex (智弘カイ)", "智弘カイ", "XYZ", "", "(Sub)"];
    for a in names {
        let ka = analyze_name(a);
        assert!(are_similar(&ka, &ka));
        for b in names {
            let kb = analyze_name(b);
            assert_eq!(are_similar(&ka, &kb), are_similar(&kb, &ka));
        }
    }
    assert!(are_similar(&analyze_name("A・B"), &analyze_name("A-B(C)")));
    assert!(!are_similar(&analyze_name("XYZ"), &analyze_name("A-B(C)")));
}

use tag_classifier::dictionary::{dictionary_to_groups, generate_keys_from_folder_name, parse_main_sub, Dictionary};
use tag_classifier::dictionary_file::{
    dictionary_from_members, dictionary_json, parse_dictionary, DictionaryLoadError, DictionaryWarning,
    JsonMember,
};

#[test]
fn test_parse_main_sub() {
    let (main, subs) = parse_main_sub("Ink Complex (智弘カイ)").unwrap();
    assert_eq!(main, "Ink Complex");
    assert_eq!(subs, vec!["智弘カイ"]);

    let (main, subs) = parse_main_sub("関西漁業協同組合 (丸新)").unwrap();
    assert_eq!(main, "関西漁業協同組合");
    assert_eq!(subs, vec!["丸新"]);

    assert!(parse_main_sub("SimpleFolder").is_none());
}

#[test]
fn test_generate_keys() {
    let keys = generate_keys_from_folder_name("Ink Complex (智弘カイ)");
    assert!(keys.len() >= 3);
}

#[test]
fn test_dictionary_to_groups() {
    let mut dict = Dictionary::new();
    dict.insert("key1".to_string(), "FolderA".to_string());
    dict.insert("key2".to_string(), "FolderA".to_string());
    dict.insert("key3".to_string(), "FolderB".to_string());

    let groups = dictionary_to_groups(&dict);
    assert_eq!(groups.len(), 2);
    assert_eq!(groups[0].folder_name, "FolderA");
    assert_eq!(groups[0].keys.len(), 2);
}

#[test]
fn parse_main_sub_forms() {
    let (main, subs) = parse_main_sub("  Main ( a , , b ,) ").unwrap();
    assert_eq!(main, "Main");
    assert_eq!(subs, vec!["a", "b"]);
    let (main, subs) = parse_main_sub("(only sub)").unwrap();
    assert_eq!(main, "");
    assert_eq!(subs, vec!["only sub"]);
    let (main, subs) = parse_main_sub("Main ()").unwrap();
    assert_eq!(main, "Main");
    assert!(subs.is_empty());
    assert!(parse_main_sub("()").is_none());
    assert!(parse_main_sub("(").is_none());
    assert!(parse_main_sub("a(b)c").is_none());
}

#[test]
fn generated_keys_exact() {
    let keys = generate_keys_from_folder_name("Ink Complex (智弘カイ)");
    let expected = vec![
        ("inkcomplex(智弘カイ)".to_string(), "Ink Complex (智弘カイ)".to_string()),
        ("inkcomplex".to_string(), "Ink Complex (智弘カイ)".to_string()),
        ("智弘カイ".to_string(), "Ink Complex (智弘カイ)".to_string()),
    ];
    assert_eq!(keys, expected);
    assert_eq!(generate_keys_from_folder_name("!!!"), vec![]);
    assert_eq!(
        generate_keys_from_folder_name("Plain"),
        vec![("plain".to_string(), "Plain".to_string())]
    );
}

#[test]
fn insert_get_remove() {
    let mut dict = Dictionary::new();
    assert!(dict.is_empty());
    assert_eq!(dict.insert("k".to_string(), "A".to_string()), None);
    assert_eq!(dict.insert("k".to_string(), "B".to_string()), Some("A".to_string()));
    assert_eq!(dict.len(), 1);
    assert_eq!(dict.get("k").unwrap(), "B");
    assert!(dict.contains_key("k"));
    dict.remove("k");
    assert!(!dict.contains_key("k"));
    assert_eq!(dict.get("k"), None);
}

#[test]
fn groups_are_sorted_and_complete() {
    let mut dict = Dictionary::new();
    dict.insert("zeta".to_string(), "B".to_string());
    dict.insert("alpha".to_string(), "B".to_string());
    dict.insert("mid".to_string(), "A".to_string());
    let groups = dictionary_to_groups(&dict);
    assert_eq!(groups.len(), 2);
    assert_eq!(groups[0].folder_name, "A");
    assert_eq!(groups[0].keys, vec!["mid"]);
    assert_eq!(groups[1].folder_name, "B");
    assert_eq!(groups[1].keys, vec!["alpha", "zeta"]);
}

#[test]
fn test_load_invalid_json() {
    match parse_dictionary("not json") {
        Err(DictionaryLoadError::InvalidJson(msg)) => assert!(!msg.is_empty()),
        _ => panic!("invalid JSON must be refused"),
    }
}

#[test]
fn test_load_non_object_json() {
    assert!(matches!(parse_dictionary("[1,2,3]"), Err(DictionaryLoadError::NotAnObject)));
}

#[test]
fn test_load_non_string_values() {
    let (dict, warnings) = parse_dictionary(r#"{"key1": "Folder", "key2": 123}"#).unwrap();
    assert_eq!(dict.len(), 1);
    assert_eq!(dict.get("key1").unwrap(), "Folder");
    assert_eq!(warnings.len(), 1);
    assert!(matches!(&warnings[0], DictionaryWarning::NotAString { key } if key == "key2"));
}

#[test]
fn test_load_normalizes_keys() {
    let (dict, warnings) = parse_dictionary(r#"{"Folder Name A": "FolderA"}"#).unwrap();
    assert!(dict.contains_key("foldernamea"));
    assert!(!dict.contains_key("Folder Name A"));
    assert!(matches!(&warnings[0],
        DictionaryWarning::KeyNotNormalized { key, normalized } if key == "Folder Name A" && normalized == "foldernamea"));
}

#[test]
fn test_load_empty_file() {
    let (dict, warnings) = parse_dictionary("{}").unwrap();
    assert!(dict.is_empty());
    assert!(warnings.is_empty());
}

#[test]
fn json_text_is_ordered_by_key() {
    let mut dict = Dictionary::new();
    dict.insert("b".to_string(), "B".to_string());
    dict.insert("a".to_string(), "A".to_string());
    let text = dictionary_json(&dict).unwrap();
    assert_eq!(text, "{\n  \"a\": \"A\",\n  \"b\": \"B\"\n}");
    let (back, warnings) = parse_dictionary(&text).unwrap();
    assert!(warnings.is_empty());
    assert_eq!(back.get("a").unwrap(), "A");
    assert_eq!(back.get("b").unwrap(), "B");
    assert_eq!(back.len(), 2);
}

#[test]
fn saved_dictionary_reads_back() {
    let mut dict = Dictionary::new();
    dict.insert("むらのたみ".to_string(), "むらの・たみ".to_string());
    dict.insert("quoted".to_string(), "A \"quoted\" \\ folder\n".to_string());
    dict.insert("inkcomplex(智弘カイ)".to_string(), "Ink Complex (智弘カイ)".to_string());
    let text = dictionary_json(&dict).unwrap();
    let (back, warnings) = parse_dictionary(&text).unwrap();
    assert!(warnings.is_empty());
    assert_eq!(back.len(), 3);
    assert_eq!(back.get("むらのたみ").unwrap(), "むらの・たみ");
    assert_eq!(back.get("quoted").unwrap(), "A \"quoted\" \\ folder\n");
    assert_eq!(back.get("inkcomplex(智弘カイ)").unwrap(), "Ink Complex (智弘カイ)");
}

#[test]
fn members_make_a_dictionary_with_warnings() {
    let members = vec![
        JsonMember { key: "Folder A".to_string(), value: Some("FA".to_string()) },
        JsonMember { key: "bad".to_string(), value: None },
        JsonMember { key: "foldera".to_string(), value: Some("FB".to_string()) },
    ];
    let (dict, warnings) = dictionary_from_members(&members);
    assert_eq!(dict.len(), 1);
    assert_eq!(dict.get("foldera").unwrap(), "FB");
    assert_eq!(warnings.len(), 2);
    assert!(matches!(&warnings[0],
        DictionaryWarning::KeyNotNormalized { key, normalized } if key == "Folder A" && normalized == "foldera"));
    assert!(matches!(&warnings[1], DictionaryWarning::NotAString { key } if key == "bad"));
}

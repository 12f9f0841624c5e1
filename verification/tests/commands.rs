use tag_classifier::commands::{
    add_dictionary_entry, apply_merge_groups, apply_overrides, dictionary_from_folder_names, override_map,
    remove_dictionary_folder, remove_dictionary_key, update_dictionary_entry, DictionaryEditError,
};
use tag_classifier::dictionary::Dictionary;
use tag_classifier::types::{DestinationOverride, MatchType, MergeGroup};

fn ov(path: &str, original: &str, new: &str, tag: &str, mt: MatchType) -> DestinationOverride {
    DestinationOverride {
        file_path: path.to_string(),
        original_destination: original.to_string(),
        new_destination: new.to_string(),
        tag: tag.to_string(),
        match_type: mt,
    }
}

#[test]
fn add_entry_with_key() {
    let mut dict = Dictionary::new();
    assert_eq!(add_dictionary_entry(&mut dict, "Folder".to_string(), Some("Key A".to_string())).unwrap(), "keya");
    assert_eq!(dict.get("keya").unwrap(), "Folder");
    // Same folder again is fine.
    assert!(add_dictionary_entry(&mut dict, "Folder".to_string(), Some("KEYA".to_string())).is_ok());
    match add_dictionary_entry(&mut dict, "Other".to_string(), Some("keya".to_string())) {
        Err(DictionaryEditError::KeyTaken { key, existing }) => {
            assert_eq!(key, "keya");
            assert_eq!(existing, "Folder");
        },
        _ => panic!("expected a key conflict"),
    }
    assert!(matches!(
        add_dictionary_entry(&mut dict, "Other".to_string(), Some("!!".to_string())),
        Err(DictionaryEditError::EmptyKey)
    ));
    assert_eq!(dict.len(), 1);
}

#[test]
fn add_entry_from_folder_name() {
    let mut dict = Dictionary::new();
    assert_eq!(add_dictionary_entry(&mut dict, "Ink Complex (智弘カイ)".to_string(), None).unwrap(), "Ink Complex (智弘カイ)");
    assert_eq!(dict.len(), 3);
    assert_eq!(dict.get("inkcomplex").unwrap(), "Ink Complex (智弘カイ)");
    assert!(matches!(add_dictionary_entry(&mut dict, String::new(), None), Err(DictionaryEditError::EmptyFolderName)));
    assert!(matches!(
        add_dictionary_entry(&mut dict, "Ink Complex (智弘カイ)".to_string(), None),
        Err(DictionaryEditError::FolderExists { .. })
    ));
    match add_dictionary_entry(&mut dict, "Ink Complex".to_string(), None) {
        Err(DictionaryEditError::KeyTaken { key, existing }) => {
            assert_eq!(key, "inkcomplex");
            assert_eq!(existing, "Ink Complex (智弘カイ)");
        },
        _ => panic!("expected a key conflict"),
    }
    assert_eq!(dict.len(), 3);
}

#[test]
fn remove_key_folder_and_rename() {
    let mut dict = dictionary_from_folder_names(&vec!["Ink Complex (智弘カイ)".to_string(), "Other".to_string()]);
    assert_eq!(dict.len(), 4);
    remove_dictionary_key(&mut dict, "Ink Complex");
    assert!(!dict.contains_key("inkcomplex"));
    assert_eq!(dict.len(), 3);
    update_dictionary_entry(&mut dict, "Other", "Renamed");
    assert_eq!(dict.get("other").unwrap(), "Renamed");
    remove_dictionary_folder(&mut dict, "Ink Complex (智弘カイ)");
    assert_eq!(dict.len(), 1);
    assert_eq!(dict.get("other").unwrap(), "Renamed");
}

#[test]
fn overrides_update_the_dictionary() {
    let mut dict = Dictionary::new();
    dict.insert("author".to_string(), "Author".to_string());
    let overrides = vec![
        ov("/in/a", "Author", "Writers/Author", "Author", MatchType::DictExact),
        ov("/in/b", "NewTag", "Fresh", "NewTag", MatchType::AutoCreated),
        ov("/in/c", "Same", "Same", "Same", MatchType::AutoCreated),
        ov("/in/d", "X", "..", "X", MatchType::AutoCreated),
    ];
    apply_overrides(&mut dict, &overrides);
    assert_eq!(dict.get("author").unwrap(), "WritersAuthor");
    assert_eq!(dict.get("writersauthor").unwrap(), "WritersAuthor");
    assert_eq!(dict.get("newtag").unwrap(), "Fresh");
    assert_eq!(dict.get("fresh").unwrap(), "Fresh");
    assert!(!dict.contains_key("same"));
    assert!(!dict.contains_key("x"));
    assert_eq!(dict.len(), 4);

    let m = override_map(&overrides);
    assert_eq!(m.len(), 2);
    assert_eq!(m.get("/in/a").unwrap(), "WritersAuthor");
    assert_eq!(m.get("/in/b").unwrap(), "Fresh");
}

#[test]
fn merge_groups_redirect_keys() {
    let mut dict = dictionary_from_folder_names(&vec!["Target".to_string(), "Src (Alias)".to_string()]);
    let groups = vec![MergeGroup { target_name: "Target".to_string(), source_names: vec!["Src (Alias)".to_string()] }];
    apply_merge_groups(&mut dict, &groups);
    assert_eq!(dict.get("target").unwrap(), "Target");
    assert_eq!(dict.get("src(alias)").unwrap(), "Target");
    assert_eq!(dict.get("src").unwrap(), "Target");
    assert_eq!(dict.get("alias").unwrap(), "Target");
}

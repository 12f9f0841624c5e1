use tag_classifier::types::{default_dict_path, default_true, ClassifyOptions, Settings};

#[test]
fn settings_defaults() {
    let s = Settings::default();
    assert!(s.input_dir.is_empty());
    assert!(s.output_dir.is_empty());
    assert!(s.is_move_mode);
    assert!(!s.recursive_scan);
    assert_eq!(s.dict_path, "folder_dictionary.json");
    assert!(!s.options.remove_tag && !s.options.normalize_numbers);
    let o = ClassifyOptions::default();
    assert!(!o.remove_tag && !o.normalize_numbers);
    assert!(default_true());
    assert_eq!(default_dict_path(), "folder_dictionary.json");
}

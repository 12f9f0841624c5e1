use tag_classifier::fs_utils::{
    relative_path_check, resolve_collision, sanitize_folder_name, validate_path_within_dir,
    RelativePath, COLLISION_LIMIT,
};

#[test]
fn sanitize_folder_name_examples() {
    assert_eq!(sanitize_folder_name("../etc/passwd"), "etcpasswd");
    assert_eq!(sanitize_folder_name("a....b"), "ab");
    assert_eq!(sanitize_folder_name("a...b"), "a.b");
    assert_eq!(sanitize_folder_name(".../x"), "x");
    assert_eq!(sanitize_folder_name("C:\\dir"), "Cdir");
    assert_eq!(sanitize_folder_name("Normal Name"), "Normal Name");
    assert_eq!(sanitize_folder_name("..."), "");
}

#[test]
fn collision_names_in_turn() {
    assert_eq!(resolve_collision("test.txt", 0), Some("test.txt".to_string()));
    assert_eq!(resolve_collision("test.txt", 1), Some("test_1.txt".to_string()));
    assert_eq!(resolve_collision("test.txt", 2), Some("test_2.txt".to_string()));
    assert_eq!(resolve_collision("[Tag] file.txt", 1), Some("[Tag] file_1.txt".to_string()));
}

#[test]
fn collision_names_follow_stem_and_extension() {
    assert_eq!(resolve_collision("archive.tar.gz", 3), Some("archive.tar_3.gz".to_string()));
    assert_eq!(resolve_collision(".hidden", 1), Some(".hidden_1".to_string()));
    assert_eq!(resolve_collision("noext", 12), Some("noext_12".to_string()));
}

#[test]
fn collision_attempts_run_out() {
    assert_eq!(COLLISION_LIMIT, 10000);
    assert_eq!(resolve_collision("a.b", 10000), Some("a_10000.b".to_string()));
    assert_eq!(resolve_collision("a.b", 10001), None);
}

#[test]
fn relative_paths_are_checked() {
    assert_eq!(relative_path_check("/base", "/base/subfolder"), RelativePath::Inside);
    assert_eq!(relative_path_check("/base", "/base/sub/nested"), RelativePath::Inside);
    assert_eq!(relative_path_check("/base", "/base/../etc"), RelativePath::Escapes);
    assert_eq!(relative_path_check("/base", "/other/x"), RelativePath::NotUnderBase);
}

#[test]
fn test_validate_path_within_dir() {
    let base = "/tmp/classifier_base";
    assert!(validate_path_within_dir(base, "/tmp/classifier_base/subfolder", base, None).is_ok());
    assert!(validate_path_within_dir(base, "/tmp/classifier_base/sub/nested", base, None).is_ok());
}

#[test]
fn paths_outside_the_base_are_refused() {
    let base = "/out";
    assert_eq!(
        validate_path_within_dir(base, "/out/../etc", base, None),
        Err("不正なパスが検出されました: '/out/../etc' は '/out' の外部です".to_string())
    );
    assert!(validate_path_within_dir(base, "/elsewhere/x", base, None).is_err());
    assert!(validate_path_within_dir(base, "/link/x", "/real/out", Some("/real/out/x")).is_ok());
    assert!(validate_path_within_dir(base, "/link/x", "/real/out", Some("/real/outside/x")).is_err());
}

#[test]
fn collision_names_never_repeat() {
    let mut seen: Vec<String> = Vec::new();
    for counter in 0..=120u32 {
        let name = resolve_collision("photo.jpg", counter).unwrap();
        assert!(!seen.contains(&name));
        seen.push(name);
    }
    assert_eq!(seen[0], "photo.jpg");
    assert_eq!(seen[11], "photo_11.jpg");
    assert_eq!(seen[110], "photo_110.jpg");
}

/// The first name `resolve_collision` offers that is not among `existing`.
fn first_free(existing: &[&str], filename: &str) -> Option<String> {
    let mut counter: u32 = 0;
    loop {
        let name = resolve_collision(filename, counter)?;
        if !existing.contains(&name.as_str()) {
            return Some(name);
        }
        counter += 1;
    }
}

#[test]
fn test_resolve_collision() {
    assert_eq!(first_free(&[], "test.txt"), Some("test.txt".to_string()));
    assert_eq!(first_free(&["test.txt"], "test.txt"), Some("test_1.txt".to_string()));
    assert_eq!(
        first_free(&["test.txt", "test_1.txt"], "test.txt"),
        Some("test_2.txt".to_string())
    );
}

#[test]
fn test_classify_files_collision() {
    assert_eq!(
        first_free(&["[Tag] file.txt"], "[Tag] file.txt"),
        Some("[Tag] file_1.txt".to_string())
    );
}

#[test]
fn sanitizing_leaves_characters_out_and_is_stable() {
    assert_eq!(sanitize_folder_name("a./.b"), "ab");
    assert_eq!(sanitize_folder_name("../x"), "x");
    for name in ["a./.b", "../x", "..../..\\:a..b", ".hidden", "Normal (Name)", "...", "x.y..z"] {
        let once = sanitize_folder_name(name);
        assert_eq!(sanitize_folder_name(&once), once);
        let mut rest = name.chars();
        assert!(once.chars().all(|c| rest.any(|d| d == c)));
    }
}

use tag_classifier::normalize::{key_from_lowered, normalize, normalize_for_similarity};

#[test]
fn test_normalize_basic() {
    assert_eq!(normalize("フォルダ 名A"), "フォルダ名a");
    assert_eq!(normalize("Folder Name A"), "foldernamea");
    assert_eq!(normalize("Folder(B)"), "folder(b)");
    assert_eq!(normalize("！Full Width！"), "fullwidth");
    assert_eq!(normalize("A, B"), "a,b");
}

#[test]
fn test_normalize_nfkc() {
    assert_eq!(normalize("Ａ１Ｂ"), "a1b");
}

#[test]
fn test_similarity_normalization() {
    assert_eq!(normalize_for_similarity("A・B"), normalize_for_similarity("A-B"));
    assert_eq!(normalize_for_similarity("むらの・たみ"), normalize_for_similarity("むらのたみ"));
    assert_eq!(normalize_for_similarity("ムラノタミ"), normalize_for_similarity("むらのたみ"));
    assert_eq!(normalize_for_similarity("第一工房"), normalize_for_similarity("第1工房"));
    assert_eq!(normalize_for_similarity("Ａ１Ｂ"), normalize_for_similarity("A1B"));
}

#[test]
fn normalize_keeps_only_key_characters() {
    assert_eq!(normalize("a-b_c.d!e(f),g"), "abcde(f),g");
    assert_eq!(normalize("  \t\n "), "");
    assert_eq!(normalize(""), "");
}

#[test]
fn similarity_key_exact_values() {
    assert_eq!(normalize_for_similarity("ムラノタミ"), "むらのたみ");
    assert_eq!(normalize_for_similarity("十万"), "1010000");
    assert_eq!(normalize_for_similarity("二百三"), "21003");
    assert_eq!(normalize_for_similarity("四五六七八九千"), "4567891000");
    assert_eq!(normalize_for_similarity("Main(Sub, X)"), "mainsubx");
}

#[test]
fn similarity_key_has_no_punctuation() {
    let k = normalize_for_similarity("(a),(b),(c)");
    assert!(!k.contains('(') && !k.contains(')') && !k.contains(','));
    assert_eq!(k, "abc");
}

#[test]
fn katakana_edges_map_to_hiragana() {
    // U+30A1 and U+30F6 are the ends of the converted range; U+30F7 stays.
    assert_eq!(normalize_for_similarity("\u{30A1}\u{30F6}"), "\u{3041}\u{3096}");
    assert_eq!(normalize_for_similarity("\u{30F7}"), normalize("\u{30F7}"));
}

#[test]
fn ascii_names_normalise_by_the_ascii_rule() {
    assert_eq!(normalize("Folder Name A"), "foldernamea");
    assert_eq!(normalize("Tab\tAnd  (X, Y)!"), "taband(x,y)");
    assert_eq!(normalize("ABC-xyz_09"), "abcxyz09");
}

#[test]
fn keys_hold_no_capital_or_whitespace() {
    for name in ["ÀBÇ Ｄé", "Straße (Ⅻ)", "ΣΑΣ, Ω", "\u{3000}Tab\tX"] {
        let key = normalize(name);
        assert!(key.chars().all(|c| !c.is_ascii_uppercase() && !c.is_whitespace()));
        assert!(key.chars().all(|c| c.is_alphanumeric() || "(),".contains(c)));
    }
}

#[test]
fn lowered_text_is_filtered_into_a_key() {
    assert_eq!(key_from_lowered("a b\t(c), d!"), "ab(c),d");
    assert_eq!(key_from_lowered("むらの・たみ 1"), "むらのたみ1");
    assert_eq!(key_from_lowered(""), "");
}

use memo_cache::{get_memo_cache_path, memo_file_name, sanitize_file_name};

#[test]
fn test_sanitize_file_name() {
    assert_eq!(sanitize_file_name("file<name>"), "file_name_");

    assert_eq!(sanitize_file_name("file..name"), "file_name");

    assert_eq!(sanitize_file_name("..filename."), "_filename");

    assert_eq!(sanitize_file_name("file   name"), "file_name");

    assert_eq!(sanitize_file_name("file___name"), "file_name");

    assert_eq!(
        sanitize_file_name("..my<file>:  name|with*bad?chars.."),
        "_my_file_name_with_bad_chars_"
    );
}

#[test]
fn sanitize_output_is_bounded() {
    let long: String = std::iter::repeat('a').take(400).collect();
    let out = sanitize_file_name(&long);
    assert_eq!(out.chars().count(), 255);
    let short = sanitize_file_name("abc");
    assert_eq!(short, "abc");
}

#[test]
fn sanitize_never_leaves_underscore_runs() {
    let inputs = [
        "a____b",
        "<<<<>>>>",
        "a ..  b",
        " . _ . ",
        "x<>:\"/\\|?*y",
        "__a__b__c__",
    ];
    for input in inputs {
        let out = sanitize_file_name(input);
        assert!(!out.contains("__"), "double underscore in {:?} from {:?}", out, input);
        assert!(out.chars().count() <= 255);
    }
}

#[test]
fn sanitize_empty_and_dot_inputs() {
    assert_eq!(sanitize_file_name(""), "");
    assert_eq!(sanitize_file_name("..."), "_");
    assert_eq!(sanitize_file_name(".."), "_");
    assert_eq!(sanitize_file_name("."), "");
    assert_eq!(sanitize_file_name("   "), "");
}

#[test]
fn sanitize_folds_dot_pairs_left_to_right() {
    assert_eq!(sanitize_file_name("a...b"), "a_.b");
    assert_eq!(sanitize_file_name("a....b"), "a_b");
    assert_eq!(sanitize_file_name("a. .b"), "a._.b");
}

#[test]
fn sanitize_collapses_unicode_whitespace() {
    assert_eq!(sanitize_file_name("a\u{3000}b"), "a_b");
    assert_eq!(sanitize_file_name("a\t\r\n b"), "a_b");
    assert_eq!(sanitize_file_name("\u{00A0}a\u{00A0}"), "a");
}

#[test]
fn cache_path_requires_identities() {
    let err = get_memo_cache_path("/tmp/cache", "", "alice").unwrap_err();
    assert_eq!(err, "Host info not found, maybe not login");
    let err = get_memo_cache_path("/tmp/cache", "https://example.com", "").unwrap_err();
    assert_eq!(err, "Host info not found, maybe not login");
}

#[test]
fn cache_path_joins_sanitized_identities() {
    let p = get_memo_cache_path("/tmp/cache", "https://example.com", "alice").unwrap();
    assert_eq!(p, "/tmp/cache/https_example.com_alice");
}

#[test]
fn memo_file_name_wraps_sanitized_name() {
    assert_eq!(memo_file_name("my memo"), "memo_my_memo.json");
    assert_eq!(memo_file_name("a/b"), "memo_a_b.json");
}

use storage::explore::{escape_json_for_script, explore_page, replace_text};

#[test]
fn escapes_script_breakout_characters() {
    let escaped = escape_json_for_script(r#"["</script><script>alert(1)</script>"]"#);
    assert!(!escaped.contains("</script>"));
    assert!(escaped.contains("\\u003c/script\\u003e"));
}

#[test]
fn escapes_each_breakout_character_and_keeps_the_rest() {
    assert_eq!(escape_json_for_script("a&b"), "a\\u0026b");
    assert_eq!(escape_json_for_script("<>"), "\\u003c\\u003e");
    assert_eq!(escape_json_for_script("\u{2028}\u{2029}"), "\\u2028\\u2029");
    assert_eq!(escape_json_for_script("{\"k\":\"é\"}"), "{\"k\":\"é\"}");
    assert_eq!(escape_json_for_script(""), "");
}

#[test]
fn escaped_text_holds_no_breakout_character() {
    let escaped = escape_json_for_script("&<>\u{2028}\u{2029}<script>&amp;");
    for c in escaped.chars() {
        assert!(!matches!(c, '&' | '<' | '>' | '\u{2028}' | '\u{2029}'));
    }
}

#[test]
fn replace_text_follows_str_replace() {
    for (s, pat, rep) in [
        ("aaaa", "aa", "b"),
        ("abcabc", "bc", "XY"),
        ("nothing here", "zz", "q"),
        ("ababa", "aba", "-"),
        ("", "x", "y"),
        ("héllo wörld", "ö", "o"),
    ] {
        assert_eq!(replace_text(s, pat, rep), s.replace(pat, rep));
    }
}

#[test]
fn explore_page_fills_the_template() {
    let html = "<style>/* CSS */</style><script>const _files = [];</script>";
    let page = explore_page(html, "body{}", r#"[{"path":"/</script>"}]"#);
    assert_eq!(
        page,
        "<style>body{}</style><script>const _files = [{\"path\":\"/\\u003c/script\\u003e\"}];</script>"
    );
}

#[test]
fn explorer_entries_give_times_in_milliseconds() {
    let files = vec![
        storage::state::QueryFile {
            path: "/a.txt".to_string(),
            size: 3,
            headers: vec![("Content-Type".to_string(), "text/plain".to_string())],
            created: 1_700_000_123_456_789,
            modified: 1_999_999,
            hash: "ab".to_string(),
        },
        storage::state::QueryFile {
            path: "/b.txt".to_string(),
            size: 0,
            headers: vec![],
            created: -1_500_000,
            modified: 999_999,
            hash: "cd".to_string(),
        },
    ];
    let entries = storage::explore::explore_entries(&files);
    assert_eq!(entries.len(), 2);
    assert_eq!(entries[0].path, "/a.txt");
    assert_eq!(entries[0].created, 1_700_000_123);
    assert_eq!(entries[0].modified, 1);
    assert_eq!(entries[0].headers, files[0].headers);
    assert_eq!(entries[0].hash, "ab");
    assert_eq!(entries[1].created, -1);
    assert_eq!(entries[1].modified, 0);
}

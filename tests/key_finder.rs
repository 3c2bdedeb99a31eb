use intl_lens::key_finder::{offset_to_position, KeyFinder};

#[test]
fn test_find_t_function() {
    let finder = KeyFinder::default();
    let content = r#"const msg = t("hello.world");"#;
    let keys = finder.find_keys(content);
    assert_eq!(keys.len(), 1);
    assert_eq!(keys[0].key, "hello.world");
}

#[test]
fn test_find_dollar_t() {
    let finder = KeyFinder::default();
    let content = r#"const msg = $t("common.button");"#;
    let keys = finder.find_keys(content);
    assert_eq!(keys.len(), 1);
    assert_eq!(keys[0].key, "common.button");
}

#[test]
fn test_find_multiple_keys() {
    let finder = KeyFinder::default();
    let content = r#"
            const a = t("first.key");
            const b = t("second.key");
        "#;
    let keys = finder.find_keys(content);
    assert_eq!(keys.len(), 2);
    assert_eq!(keys[0].key, "first.key");
    assert_eq!(keys[1].key, "second.key");
}

#[test]
fn test_find_trans_component() {
    let finder = KeyFinder::default();
    let content = r#"<Trans i18nKey="my.key">Default</Trans>"#;
    let keys = finder.find_keys(content);
    assert_eq!(keys.len(), 1);
    assert_eq!(keys[0].key, "my.key");
}

#[test]
fn test_find_key_at_position() {
    let finder = KeyFinder::default();
    let content = r#"const msg = t("hello.world");"#;

    let found = finder.find_key_at_position(content, 0, 16);
    assert!(found.is_some());
    assert_eq!(found.unwrap().key, "hello.world");

    let not_found = finder.find_key_at_position(content, 0, 0);
    assert!(not_found.is_none());
}

#[test]
fn found_key_span_and_position() {
    let finder = KeyFinder::default();
    let content = "const msg = t(\"hello.world\");";
    let keys = finder.find_keys(content);
    assert_eq!(keys.len(), 1);
    assert_eq!(keys[0].start_offset, 15);
    assert_eq!(keys[0].end_offset, 26);
    assert_eq!(keys[0].line, 0);
    assert_eq!(keys[0].start_char, 15);
    assert_eq!(keys[0].end_char, 26);
    assert!(finder.find_key_at_position(content, 0, 15).is_some());
    assert!(finder.find_key_at_position(content, 0, 26).is_some());
    assert!(finder.find_key_at_position(content, 0, 27).is_none());
    assert!(finder.find_key_at_position(content, 1, 16).is_none());
}

#[test]
fn positions_on_later_lines() {
    let finder = KeyFinder::default();
    let content = "a\nbb\n  t('x.y')";
    let keys = finder.find_keys(content);
    assert_eq!(keys.len(), 1);
    assert_eq!(keys[0].line, 2);
    assert_eq!(keys[0].start_char, 5);
    assert_eq!(keys[0].end_char, 8);
    assert_eq!(offset_to_position(content, 10, 13), (2, 5, 8));
    assert_eq!(offset_to_position(content, 0, 1), (0, 0, 1));
}

#[test]
fn same_start_matches_are_deduplicated() {
    let patterns = vec![
        r#"t\(["']([^"']+)["']"#.to_string(),
        r#"t\(["']([a-z]+)"#.to_string(),
    ];
    let finder = KeyFinder::new(&patterns);
    let keys = finder.find_keys("t('abc.def')");
    assert_eq!(keys.len(), 1);
    assert_eq!(keys[0].key, "abc.def");
}

#[test]
fn keys_are_ordered_by_start_across_patterns() {
    let patterns = vec![r#"b\("([^"]+)"\)"#.to_string(), r#"a\("([^"]+)"\)"#.to_string()];
    let finder = KeyFinder::new(&patterns);
    let keys = finder.find_keys(r#"a("one") b("two") a("three")"#);
    let names: Vec<&str> = keys.iter().map(|k| k.key.as_str()).collect();
    assert_eq!(names, vec!["one", "two", "three"]);
}

#[test]
fn invalid_patterns_are_dropped() {
    let patterns = vec!["(unclosed".to_string(), r#"k\("([^"]+)"\)"#.to_string()];
    let finder = KeyFinder::new(&patterns);
    let keys = finder.find_keys(r#"k("ok")"#);
    assert_eq!(keys.len(), 1);
    assert_eq!(keys[0].key, "ok");
}

#[test]
fn no_patterns_find_nothing() {
    let finder = KeyFinder::new(&[]);
    assert!(finder.find_keys("t('a')").is_empty());
}

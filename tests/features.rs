use intl_lens::features::{
    completion_keys, extract_completion_prefix, get_hover_content, hint_column, inlay_hint_label,
    inlay_hints, ranges_overlap, truncate_string,
};
use intl_lens::key_finder::KeyFinder;
use intl_lens::store::TranslationStore;

#[test]
fn truncation_keeps_short_text() {
    assert_eq!(truncate_string("short", 30), "short");
    assert_eq!(truncate_string("abcdefghij", 10), "abcdefghij");
    assert_eq!(truncate_string("abcdefghijk", 10), "abcdefg...");
    assert_eq!(truncate_string("abcdef", 2), "...");
    assert_eq!(truncate_string("héllo wörld", 8), "héllo...");
}

#[test]
fn inlay_label_and_column() {
    assert_eq!(inlay_hint_label("Hello"), "= Hello");
    assert_eq!(
        inlay_hint_label("This translation is rather long indeed"),
        "= This translation is rather ..."
    );
    assert_eq!(hint_column("t('a.b')", 6), 7);
    assert_eq!(hint_column("t(\"a.b\")", 6), 7);
    assert_eq!(hint_column("t(a.b)", 5), 5);
    assert_eq!(hint_column("ab", 2), 2);
}

#[test]
fn overlap_of_ranges() {
    assert!(ranges_overlap(1, 4, 8, 0, 0, 5, 0));
    assert!(ranges_overlap(1, 4, 8, 1, 8, 1, 20));
    assert!(!ranges_overlap(1, 4, 8, 1, 9, 1, 20));
    assert!(!ranges_overlap(3, 0, 2, 0, 0, 2, 99));
}

#[test]
fn completion_prefix_inside_call() {
    assert_eq!(extract_completion_prefix("const a = t('common.he", 22), Some("common.he".to_string()));
    assert_eq!(extract_completion_prefix("$t(\"x", 5), Some("x".to_string()));
    assert_eq!(extract_completion_prefix("i18n.t('", 8), Some(String::new()));
    assert_eq!(extract_completion_prefix("t('done') + x", 13), None);
    assert_eq!(extract_completion_prefix("no call here", 5), None);
    assert_eq!(extract_completion_prefix("t('abc", 4), Some("a".to_string()));
    assert_eq!(extract_completion_prefix("t('abc", 99), Some("abc".to_string()));
}

#[test]
fn completion_candidates_filter_and_cap() {
    let keys: Vec<String> = vec!["common.a".into(), "other".into(), "common.b".into()];
    assert_eq!(completion_keys(&keys, "common."), vec!["common.a".to_string(), "common.b".to_string()]);
    assert_eq!(completion_keys(&keys, ""), keys);
    let many: Vec<String> = (0..150).map(|i| format!("k{}", i)).collect();
    let c = completion_keys(&many, "k");
    assert_eq!(c.len(), 100);
    assert_eq!(c[99], "k99");
}

#[test]
fn hover_lists_source_locale_first() {
    let mut store = TranslationStore::new();
    assert!(store.load_file("fr.json", None, "fr.json", r#"{"hi": "Salut"}"#));
    assert!(store.load_file("en.json", None, "en.json", r#"{"hi": "Hello"}"#));
    let entries = store.get_all_translations("hi");
    let text = get_hover_content("hi", &entries, "en").unwrap();
    assert_eq!(text, "### \u{1F310} `hi`\n\n**en**: Hello\n\n---\n\n**fr**: Salut\n\n");
    assert!(get_hover_content("none", &store.get_all_translations("none"), "en").is_none());
}

#[test]
fn inlay_hints_follow_translated_keys() {
    let mut store = TranslationStore::new();
    assert!(store.load_file("en.json", None, "en.json", r#"{"a": "Alpha"}"#));
    let content = "t('a')\nt('b')\n  t(\"a\")";
    let found = KeyFinder::default().find_keys(content);
    assert_eq!(found.len(), 3);
    let all = inlay_hints(&found, &store, "en", content, None);
    assert_eq!(all.len(), 2);
    assert_eq!((all[0].line, all[0].column), (0, 5));
    assert_eq!(all[0].label, "= Alpha");
    assert_eq!((all[1].line, all[1].column), (2, 7));
    let first_line = inlay_hints(&found, &store, "en", content, Some((0, 0, 0, 10)));
    assert_eq!(first_line.len(), 1);
    assert!(inlay_hints(&found, &store, "fr", content, None).is_empty());
}

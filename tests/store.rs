use intl_lens::diagnostics::{compute_diagnostics, DiagnosticKind, Severity};
use intl_lens::key_finder::KeyFinder;
use intl_lens::location::find_key_line;
use intl_lens::parser::TranslationParser;
use intl_lens::store::TranslationStore;

fn sample_store() -> TranslationStore {
    let mut store = TranslationStore::new();
    assert!(store.load_file("en.json", Some("locales"), "/w/locales/en.json", r#"{"hello": "Hello", "only": "Only en"}"#));
    assert!(store.load_file("fr.json", Some("locales"), "/w/locales/fr.json", r#"{"hello": "Bonjour"}"#));
    store
}

#[test]
fn lookups_by_key_and_locale() {
    let store = sample_store();
    assert_eq!(store.get_locales(), vec!["en".to_string(), "fr".to_string()]);
    assert_eq!(store.get_translation("hello", "fr"), Some("Bonjour".to_string()));
    assert_eq!(store.get_translation("only", "fr"), None);
    assert_eq!(store.get_translation("hello", "de"), None);
    assert!(store.key_exists("only"));
    assert!(!store.key_exists("nowhere"));
}

#[test]
fn missing_locales_against_presence() {
    let store = sample_store();
    let locales = store.get_locales();
    assert_eq!(store.get_missing_locales("hello"), Vec::<String>::new());
    assert_eq!(store.get_missing_locales("only"), vec!["fr".to_string()]);
    assert!(store.get_missing_locales("only").len() < locales.len());
    assert_eq!(store.get_missing_locales("nowhere"), locales);
}

#[test]
fn all_keys_and_all_translations() {
    let store = sample_store();
    let mut keys = store.get_all_keys();
    keys.sort();
    assert_eq!(keys, vec!["hello".to_string(), "only".to_string()]);
    let all = store.get_all_translations("hello");
    assert_eq!(all.len(), 2);
    assert_eq!(all[0].locale, "en");
    assert_eq!(all[0].value, "Hello");
    assert_eq!(all[1].locale, "fr");
    assert_eq!(all[1].value, "Bonjour");
    assert_eq!(all[1].file_path, "/w/locales/fr.json");
    assert_eq!(store.get_all_translations("only").len(), 1);
}

#[test]
fn same_locale_files_merge_last_wins() {
    let mut store = TranslationStore::new();
    assert!(store.load_file("en.json", None, "a/en.json", r#"{"a": "1", "b": "2"}"#));
    assert!(store.load_file("messages.yaml", Some("en"), "b/en/messages.yaml", "b: two\nc: three"));
    assert_eq!(store.get_locales(), vec!["en".to_string()]);
    assert_eq!(store.get_translation("a", "en"), Some("1".to_string()));
    assert_eq!(store.get_translation("b", "en"), Some("two".to_string()));
    assert_eq!(store.get_translation("c", "en"), Some("three".to_string()));
}

#[test]
fn skipped_files_leave_index_unchanged() {
    let mut store = TranslationStore::new();
    assert!(!store.load_file("readme.md", Some("en"), "en/readme.md", "# hi"));
    assert!(!store.load_file("messages.json", Some("shared"), "shared/messages.json", r#"{"a": "b"}"#));
    assert!(!store.load_file("en.json", None, "en.json", "{ not json"));
    assert!(!store.load_file("en.php", None, "en.php", "<?php return 1;"));
    assert!(store.get_locales().is_empty());
    assert!(store.load_file("de_DE.php", None, "lang/de_DE.php", "<?php return ['a' => 'b'];"));
    assert_eq!(store.get_translation("a", "de_DE"), Some("b".to_string()));
}

#[test]
fn reload_swaps_in_a_complete_index() {
    let mut store = sample_store();
    let finder = KeyFinder::default();
    let text = r#"t("hello")"#;
    let found = finder.find_keys(text);
    assert!(compute_diagnostics(&found, &store).is_empty());
    let mut fresh = TranslationStore::new();
    assert!(fresh.load_file("en.json", None, "en.json", r#"{"hello": "Hi"}"#));
    assert!(store.key_exists("hello"));
    assert!(compute_diagnostics(&found, &store).is_empty());
    assert!(fresh.load_file("fr.json", None, "fr.json", r#"{"hello": "Salut"}"#));
    store.reload(fresh);
    assert!(compute_diagnostics(&found, &store).is_empty());
    assert_eq!(store.get_translation("hello", "en"), Some("Hi".to_string()));
    assert!(!store.key_exists("only"));
}

#[test]
fn location_uses_textual_search() {
    let store = sample_store();
    let content = "{\n  \"hello\": \"Bonjour\"\n}";
    let loc = store.get_translation_location("hello", "fr", Some(content)).unwrap();
    assert_eq!(loc.file_path, "/w/locales/fr.json");
    assert_eq!(loc.locale, "fr");
    assert_eq!(loc.line, 1);
    assert!(store.get_translation_location("hello", "fr", None).is_none());
    assert!(store.get_translation_location("hello", "fr", Some("{}")).is_none());
    assert!(store.get_translation_location("only", "fr", Some(content)).is_none());
}

#[test]
fn key_line_search_shapes() {
    assert_eq!(find_key_line("a:\n  b:\n    c: x", "a.b.c"), Some(2));
    assert_eq!(find_key_line("x\n'c' => 'y'", "a.c"), Some(1));
    assert_eq!(find_key_line("nothing here", "a.c"), None);
    assert_eq!(find_key_line("{\"key\": 1}", "key"), Some(0));
}

#[test]
fn parsed_tables_flatten_through_the_store() {
    let t = TranslationParser::parse_json(r#"{"x": {"y": "z"}}"#).unwrap();
    let mut store = TranslationStore::new();
    store.add_translations("en", "en.json", &t);
    assert_eq!(store.get_translation("x.y", "en"), Some("z".to_string()));
    let e = store.get_entry("x.y", "en").unwrap();
    assert_eq!(e.key, "x.y");
    assert_eq!(e.file_path, "en.json");
    assert_eq!(e.line, 0);
}

#[test]
fn diagnostics_classify_each_usage() {
    let store = sample_store();
    let finder = KeyFinder::default();
    let text = "t('hello')\nt('only')\nt('nowhere')";
    let found = finder.find_keys(text);
    assert_eq!(found.len(), 3);
    let d = compute_diagnostics(&found, &store);
    assert_eq!(d.len(), 2);
    assert_eq!(d[0].kind, DiagnosticKind::IncompleteTranslation);
    assert_eq!(d[0].severity, Severity::Hint);
    assert_eq!(d[0].code(), "incomplete-translation");
    assert_eq!(d[0].missing_locales, vec!["fr".to_string()]);
    assert_eq!(d[0].message, "Translation 'only' missing in: fr");
    assert_eq!((d[0].line, d[0].start_char, d[0].end_char), (1, 3, 7));
    assert_eq!(d[1].kind, DiagnosticKind::MissingTranslation);
    assert_eq!(d[1].severity, Severity::Warning);
    assert_eq!(d[1].code(), "missing-translation");
    assert_eq!(d[1].message, "Translation key 'nowhere' not found");
    assert_eq!((d[1].line, d[1].start_char, d[1].end_char), (2, 3, 10));
}

#[test]
fn incomplete_lists_every_missing_locale() {
    let mut store = sample_store();
    assert!(store.load_file("de.json", None, "de.json", r#"{"other": "x"}"#));
    let found = KeyFinder::default().find_keys("t('only')");
    let d = compute_diagnostics(&found, &store);
    assert_eq!(d.len(), 1);
    assert_eq!(d[0].message, "Translation 'only' missing in: fr, de");
}

#[test]
fn empty_index_reports_every_key_missing() {
    let store = TranslationStore::new();
    let found = KeyFinder::default().find_keys("t('a.b')");
    let d = compute_diagnostics(&found, &store);
    assert_eq!(d.len(), 1);
    assert_eq!(d[0].kind, DiagnosticKind::MissingTranslation);
}

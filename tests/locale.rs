use intl_lens::config::{
    default_function_patterns, default_key_style, default_locale_paths, default_source_locale,
    detect_framework_locale_paths, is_angular_project, is_laravel_project, I18nConfig, KeyStyle,
    Manifest,
};
use intl_lens::locale::{
    extension_of, extract_locale_from_path, file_stem_of, format_for, is_locale_code,
    is_resource_file,
};
use intl_lens::parser::ResourceFormat;

#[test]
fn locale_code_shapes() {
    assert!(is_locale_code("en"));
    assert!(is_locale_code("pt-BR"));
    assert!(is_locale_code("zh_tw"));
    assert!(!is_locale_code("EN"));
    assert!(!is_locale_code("eng"));
    assert!(!is_locale_code("en-Us"));
    assert!(!is_locale_code("messages"));
}

#[test]
fn locale_from_stem_then_parent() {
    assert_eq!(extract_locale_from_path("fr.json", Some("locales")), Some("fr".to_string()));
    assert_eq!(extract_locale_from_path("common.json", Some("de-DE")), Some("de-DE".to_string()));
    assert_eq!(extract_locale_from_path("common.json", Some("shared")), None);
    assert_eq!(extract_locale_from_path("common.json", None), None);
}

#[test]
fn names_and_extensions() {
    assert_eq!(extension_of("en.json"), Some("json".to_string()));
    assert_eq!(extension_of("a.b.yml"), Some("yml".to_string()));
    assert_eq!(extension_of(".json"), None);
    assert_eq!(extension_of("noext"), None);
    assert_eq!(file_stem_of("a.b.yml"), "a.b");
    assert_eq!(file_stem_of(".json"), ".json");
    assert!(is_resource_file("en.yaml"));
    assert!(is_resource_file("en.php"));
    assert!(!is_resource_file("en.txt"));
    assert_eq!(format_for("en.yml"), ResourceFormat::Yaml);
    assert_eq!(format_for("en.php"), ResourceFormat::Php);
    assert_eq!(format_for("en.json"), ResourceFormat::Json);
    assert_eq!(format_for("en.other"), ResourceFormat::Json);
}

#[test]
fn config_defaults() {
    let c = I18nConfig::default();
    assert_eq!(c.locale_paths, default_locale_paths());
    assert_eq!(c.locale_paths.len(), 6);
    assert_eq!(c.locale_paths[3], "public/locales");
    assert_eq!(c.source_locale, default_source_locale());
    assert_eq!(c.source_locale, "en");
    assert_eq!(c.key_style, default_key_style());
    assert_eq!(c.key_style, KeyStyle::Auto);
    assert_eq!(KeyStyle::default(), KeyStyle::Nested);
    assert!(!c.namespace_enabled);
    assert_eq!(c.function_patterns, default_function_patterns());
    assert_eq!(c.function_patterns.len(), 13);
}

#[test]
fn detected_paths_are_appended_once() {
    let mut c = I18nConfig::default();
    c.add_detected_locale_paths(&vec!["lang".to_string(), "locales".to_string(), "lang".to_string()]);
    assert_eq!(c.locale_paths.len(), 7);
    assert_eq!(c.locale_paths[6], "lang");
}

#[test]
fn framework_detection() {
    let angular = Manifest {
        sections: vec![("devDependencies".to_string(), vec!["@angular/cli".to_string()])],
        name: None,
    };
    let laravel = Manifest { sections: vec![], name: Some("laravel/laravel".to_string()) };
    let plain = Manifest {
        sections: vec![("dependencies".to_string(), vec!["react".to_string()])],
        name: Some("app".to_string()),
    };
    assert!(is_angular_project(Some(&angular)));
    assert!(!is_angular_project(Some(&plain)));
    assert!(!is_angular_project(None));
    assert!(is_laravel_project(Some(&laravel)));
    assert!(!is_laravel_project(Some(&plain)));
    assert_eq!(
        detect_framework_locale_paths(Some(&angular), Some(&laravel)),
        vec!["src/assets/i18n".to_string(), "resources/lang".to_string(), "lang".to_string()]
    );
    assert!(detect_framework_locale_paths(Some(&plain), None).is_empty());
}

#[test]
fn listed_paths_suppress_detection() {
    let mut listed = I18nConfig::default();
    listed.complete_locale_paths(true, &vec!["lang".to_string()]);
    assert_eq!(listed.locale_paths.len(), 6);
    let mut unlisted = I18nConfig::default();
    unlisted.complete_locale_paths(false, &vec!["lang".to_string()]);
    assert_eq!(unlisted.locale_paths.len(), 7);
}

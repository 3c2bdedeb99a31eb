//! Workspace configuration: where locale files live, the source locale, and
//! the extraction patterns, with their defaults and framework detection.
use vstd::prelude::*;
use crate::store::string_views;
use crate::text::same_text;

verus! {

broadcast use vstd::std_specs::vec::group_vec_axioms, vstd::seq::group_seq_axioms;

/// How keys are written in resource files (reserved; not yet acted on).
#[derive(Clone, Copy, PartialEq, Eq, Structural, Debug)]
pub enum KeyStyle {
    Nested,
    Flat,
    Auto,
}

impl Default for KeyStyle {
    fn default() -> (r: KeyStyle)
        ensures
            r == KeyStyle::Nested,
    {
        KeyStyle::Nested
    }
}

/// The configuration of one workspace.
pub struct I18nConfig {
    /// Directories, relative to the workspace root, that hold locale files.
    pub locale_paths: Vec<String>,
    /// The locale shown first and used for completions and definitions.
    pub source_locale: String,
    /// Reserved.
    pub key_style: KeyStyle,
    /// Reserved.
    pub namespace_enabled: bool,
    /// Extraction patterns for the key finder.
    pub function_patterns: Vec<String>,
}

pub open spec fn default_locale_paths_spec() -> Seq<Seq<char>> {
    seq![
        "locales"@,
        "i18n"@,
        "translations"@,
        "public/locales"@,
        "src/locales"@,
        "src/i18n"@,
    ]
}

pub open spec fn default_function_patterns_spec() -> Seq<Seq<char>> {
    seq![
        "t\\s*\\(\\s*[\"']([^\"']+)[\"']"@,
        "i18n\\.t\\s*\\(\\s*[\"']([^\"']+)[\"']"@,
        "useTranslation\\s*\\(\\s*\\)\\s*.*?t\\s*\\(\\s*[\"']([^\"']+)[\"']"@,
        "\\$t\\s*\\(\\s*[\"']([^\"']+)[\"']"@,
        "formatMessage\\s*\\(\\s*\\{\\s*id:\\s*[\"']([^\"']+)[\"']"@,
        "translate(?:Service)?\\.(?:instant|get|stream)\\s*\\(\\s*[\"']([^\"']+)[\"']"@,
        "transloco(?:Service)?\\.(?:translate|selectTranslate)\\s*\\(\\s*[\"']([^\"']+)[\"']"@,
        "[\"']([^\"']+)[\"']\\s*\\|\\s*(?:translate|transloco)\\b"@,
        "__\\s*\\(\\s*[\"']([^\"']+)[\"']"@,
        "trans(?:_choice)?\\s*\\(\\s*[\"']([^\"']+)[\"']"@,
        "Lang::(?:get|choice)\\s*\\(\\s*[\"']([^\"']+)[\"']"@,
        "@lang\\s*\\(\\s*[\"']([^\"']+)[\"']"@,
        "@choice\\s*\\(\\s*[\"']([^\"']+)[\"']"@,
    ]
}

/// The directories searched for locale files by default.
pub fn default_locale_paths() -> (r: Vec<String>)
    ensures
        string_views(r@) == default_locale_paths_spec(),
{
    let r = vec![
        "locales".to_owned(),
        "i18n".to_owned(),
        "translations".to_owned(),
        "public/locales".to_owned(),
        "src/locales".to_owned(),
        "src/i18n".to_owned(),
    ];
    assert(string_views(r@) =~= default_locale_paths_spec());
    r
}

/// The default source locale, `en`.
pub fn default_source_locale() -> (r: String)
    ensures
        r@ == "en"@,
{
    "en".to_owned()
}

/// The default key style, `Auto`.
pub fn default_key_style() -> (r: KeyStyle)
    ensures
        r == KeyStyle::Auto,
{
    KeyStyle::Auto
}

/// The default extraction patterns, covering the common usage conventions.
pub fn default_function_patterns() -> (r: Vec<String>)
    ensures
        string_views(r@) == default_function_patterns_spec(),
{
    let r = vec![
        "t\\s*\\(\\s*[\"']([^\"']+)[\"']".to_owned(),
        "i18n\\.t\\s*\\(\\s*[\"']([^\"']+)[\"']".to_owned(),
        "useTranslation\\s*\\(\\s*\\)\\s*.*?t\\s*\\(\\s*[\"']([^\"']+)[\"']".to_owned(),
        "\\$t\\s*\\(\\s*[\"']([^\"']+)[\"']".to_owned(),
        "formatMessage\\s*\\(\\s*\\{\\s*id:\\s*[\"']([^\"']+)[\"']".to_owned(),
        "translate(?:Service)?\\.(?:instant|get|stream)\\s*\\(\\s*[\"']([^\"']+)[\"']".to_owned(),
        "transloco(?:Service)?\\.(?:translate|selectTranslate)\\s*\\(\\s*[\"']([^\"']+)[\"']".to_owned(),
        "[\"']([^\"']+)[\"']\\s*\\|\\s*(?:translate|transloco)\\b".to_owned(),
        "__\\s*\\(\\s*[\"']([^\"']+)[\"']".to_owned(),
        "trans(?:_choice)?\\s*\\(\\s*[\"']([^\"']+)[\"']".to_owned(),
        "Lang::(?:get|choice)\\s*\\(\\s*[\"']([^\"']+)[\"']".to_owned(),
        "@lang\\s*\\(\\s*[\"']([^\"']+)[\"']".to_owned(),
        "@choice\\s*\\(\\s*[\"']([^\"']+)[\"']".to_owned(),
    ];
    assert(string_views(r@) =~= default_function_patterns_spec());
    r
}

impl Default for I18nConfig {
    fn default() -> (r: I18nConfig)
        ensures
            string_views(r.locale_paths@) == default_locale_paths_spec(),
            r.source_locale@ == "en"@,
            r.key_style == KeyStyle::Auto,
            !r.namespace_enabled,
            string_views(r.function_patterns@) == default_function_patterns_spec(),
    {
        I18nConfig {
            locale_paths: default_locale_paths(),
            source_locale: default_source_locale(),
            key_style: default_key_style(),
            namespace_enabled: false,
            function_patterns: default_function_patterns(),
        }
    }
}

/// `existing` followed by each path of `detected` not already in the list.
pub open spec fn with_paths(existing: Seq<Seq<char>>, detected: Seq<Seq<char>>) -> Seq<Seq<char>>
    decreases detected.len(),
{
    if detected.len() == 0 {
        existing
    } else {
        let before = with_paths(existing, detected.drop_last());
        if before.contains(detected.last()) {
            before
        } else {
            before.push(detected.last())
        }
    }
}

fn contains_string(v: &Vec<String>, s: &String) -> (r: bool)
    ensures
        r == string_views(v@).contains(s@),
{
    let mut i: usize = 0;
    while i < v.len()
        invariant
            i <= v.len(),
            forall|j: int| 0 <= j < i ==> v@[j]@ != s@,
        decreases v.len() - i,
    {
        if v[i] == *s {
            assert(string_views(v@)[i as int] == s@);
            return true;
        }
        i += 1;
    }
    false
}

impl I18nConfig {
    /// Completes the directory list of a loaded configuration: the detected
    /// framework directories are added unless the configuration file listed
    /// its own directories.
    pub fn complete_locale_paths(&mut self, file_lists_locale_paths: bool, detected: &Vec<String>)
        ensures
            string_views(final(self).locale_paths@) == if file_lists_locale_paths {
                string_views(old(self).locale_paths@)
            } else {
                with_paths(string_views(old(self).locale_paths@), string_views(detected@))
            },
            final(self).source_locale == old(self).source_locale,
            final(self).key_style == old(self).key_style,
            final(self).namespace_enabled == old(self).namespace_enabled,
            final(self).function_patterns == old(self).function_patterns,
    {
        if !file_lists_locale_paths {
            self.add_detected_locale_paths(detected);
        }
    }

    /// Appends the detected framework directories that are not listed yet.
    pub fn add_detected_locale_paths(&mut self, detected: &Vec<String>)
        ensures
            string_views(final(self).locale_paths@) == with_paths(
                string_views(old(self).locale_paths@),
                string_views(detected@),
            ),
            final(self).source_locale == old(self).source_locale,
            final(self).key_style == old(self).key_style,
            final(self).namespace_enabled == old(self).namespace_enabled,
            final(self).function_patterns == old(self).function_patterns,
    {
        let mut i: usize = 0;
        while i < detected.len()
            invariant
                i <= detected.len(),
                string_views(self.locale_paths@) == with_paths(
                    string_views(old(self).locale_paths@),
                    string_views(detected@.take(i as int)),
                ),
                self.source_locale == old(self).source_locale,
                self.key_style == old(self).key_style,
                self.namespace_enabled == old(self).namespace_enabled,
                self.function_patterns == old(self).function_patterns,
            decreases detected.len() - i,
        {
            let ghost before = self.locale_paths@;
            let ghost d = string_views(detected@.take(i + 1));
            assert(d.drop_last() =~= string_views(detected@.take(i as int)));
            assert(d.last() == detected@[i as int]@);
            if !contains_string(&self.locale_paths, &detected[i]) {
                self.locale_paths.push(detected[i].clone());
                assert(string_views(self.locale_paths@) =~= string_views(before).push(
                    detected@[i as int]@,
                ));
            }
            i += 1;
        }
        assert(detected@.take(detected@.len() as int) =~= detected@);
    }
}

/// What a dependency manifest (`package.json`, `composer.json`) says that
/// framework detection reads: the keys of each object-valued section, and
/// the package name.
pub struct Manifest {
    pub sections: Vec<(String, Vec<String>)>,
    pub name: Option<String>,
}

/// Whether `m` lists `dependency` in one of `sections`.
pub open spec fn lists_dependency(m: Manifest, dependency: Seq<char>, sections: Seq<&str>) -> bool {
    exists|i: int, j: int|
        0 <= i < sections.len() && 0 <= j < m.sections@.len() && #[trigger] m.sections@[j].0@
            == #[trigger] sections[i]@ && string_views(m.sections@[j].1@).contains(dependency)
}

fn section_lists(m: &Manifest, section: &str, dependency: &str) -> (r: bool)
    ensures
        r == exists|j: int|
            0 <= j < m.sections@.len() && #[trigger] m.sections@[j].0@ == section@ && string_views(
                m.sections@[j].1@,
            ).contains(dependency@),
{
    let mut j: usize = 0;
    while j < m.sections.len()
        invariant
            j <= m.sections.len(),
            forall|k: int|
                0 <= k < j ==> !(#[trigger] m.sections@[k].0@ == section@ && string_views(
                    m.sections@[k].1@,
                ).contains(dependency@)),
        decreases m.sections.len() - j,
    {
        if same_text(&m.sections[j].0, section) {
            let keys = &m.sections[j].1;
            let mut x: usize = 0;
            while x < keys.len()
                invariant
                    x <= keys.len(),
                    j < m.sections@.len(),
                    *keys == m.sections@[j as int].1,
                    m.sections@[j as int].0@ == section@,
                    forall|y: int| 0 <= y < x ==> keys@[y]@ != dependency@,
                decreases keys.len() - x,
            {
                if same_text(&keys[x], dependency) {
                    assert(string_views(keys@)[x as int] == dependency@);
                    return true;
                }
                x += 1;
            }
            proof {
                if string_views(keys@).contains(dependency@) {
                    let y = choose|y: int| 0 <= y < string_views(keys@).len() && string_views(keys@)[y] == dependency@;
                    assert(keys@[y]@ == dependency@);
                }
            }
        }
        j += 1;
    }
    false
}

/// Whether the manifest lists `dependency` in any of `sections`.
pub fn json_has_dependency(m: &Manifest, dependency: &str, sections: &[&str]) -> (r: bool)
    ensures
        r == lists_dependency(*m, dependency@, sections@),
{
    let mut i: usize = 0;
    while i < sections.len()
        invariant
            i <= sections@.len(),
            forall|k: int, j: int|
                0 <= k < i && 0 <= j < m.sections@.len() ==> !(#[trigger] m.sections@[j].0@
                    == #[trigger] sections@[k]@ && string_views(m.sections@[j].1@).contains(
                    dependency@,
                )),
        decreases sections@.len() - i,
    {
        if section_lists(m, sections[i], dependency) {
            return true;
        }
        i += 1;
    }
    false
}

/// Whether the manifest's package name is `name`.
pub fn json_has_name(m: &Manifest, name: &str) -> (r: bool)
    ensures
        r == (m.name matches Some(n) && n@ == name@),
{
    match &m.name {
        Some(n) => same_text(n, name),
        None => false,
    }
}

/// Whether a `package.json` marks an Angular project: it depends on
/// `@angular/core` or `@angular/cli`.
pub open spec fn angular_manifest(m: Option<Manifest>) -> bool {
    m matches Some(p) && (lists_dependency(p, "@angular/core"@, seq!["dependencies", "devDependencies"])
        || lists_dependency(p, "@angular/cli"@, seq!["dependencies", "devDependencies"]))
}

/// Whether a `composer.json` marks a Laravel project: it requires
/// `laravel/framework`, or it is the `laravel/laravel` package itself.
pub open spec fn laravel_manifest(m: Option<Manifest>) -> bool {
    m matches Some(p) && (lists_dependency(p, "laravel/framework"@, seq!["require", "require-dev"])
        || (p.name matches Some(n) && n@ == "laravel/laravel"@))
}

pub fn is_angular_project(package_json: Option<&Manifest>) -> (r: bool)
    ensures
        r == (package_json matches Some(p) && angular_manifest(Some(*p))),
{
    match package_json {
        None => false,
        Some(p) => {
            let sections = ["dependencies", "devDependencies"];
            assert(sections@ =~= seq!["dependencies", "devDependencies"]);
            json_has_dependency(p, "@angular/core", &sections) || json_has_dependency(
                p,
                "@angular/cli",
                &sections,
            )
        },
    }
}

pub fn is_laravel_project(composer_json: Option<&Manifest>) -> (r: bool)
    ensures
        r == (composer_json matches Some(p) && laravel_manifest(Some(*p))),
{
    match composer_json {
        None => false,
        Some(p) => {
            let sections = ["require", "require-dev"];
            assert(sections@ =~= seq!["require", "require-dev"]);
            json_has_dependency(p, "laravel/framework", &sections) || json_has_name(
                p,
                "laravel/laravel",
            )
        },
    }
}

/// The conventional locale directories of the frameworks the manifests
/// reveal: `src/assets/i18n` for Angular, then `resources/lang` and `lang`
/// for Laravel. Which of them exist on disk is for the caller to check.
pub fn detect_framework_locale_paths(package_json: Option<&Manifest>, composer_json: Option<&Manifest>) -> (r: Vec<String>)
    ensures
        string_views(r@) == (if angular_manifest(opt_copy(package_json)) {
            seq!["src/assets/i18n"@]
        } else {
            Seq::empty()
        }) + (if laravel_manifest(opt_copy(composer_json)) {
            seq!["resources/lang"@, "lang"@]
        } else {
            Seq::empty()
        }),
{
    let mut paths: Vec<String> = Vec::new();
    let ghost a = if angular_manifest(opt_copy(package_json)) {
        seq!["src/assets/i18n"@]
    } else {
        Seq::<Seq<char>>::empty()
    };
    if is_angular_project(package_json) {
        paths.push("src/assets/i18n".to_owned());
    }
    assert(string_views(paths@) =~= a);
    if is_laravel_project(composer_json) {
        let ghost before = paths@;
        paths.push("resources/lang".to_owned());
        paths.push("lang".to_owned());
        assert(string_views(paths@) =~= a + seq!["resources/lang"@, "lang"@]);
    } else {
        assert(a + Seq::<Seq<char>>::empty() =~= a);
    }
    paths
}

/// The manifest an optional reference points to.
pub open spec fn opt_copy(m: Option<&Manifest>) -> Option<Manifest> {
    match m {
        Some(p) => Some(*p),
        None => None,
    }
}

} // verus!

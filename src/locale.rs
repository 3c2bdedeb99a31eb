//! Classifying resource files by name and inferring their locale.
use vstd::prelude::*;
use crate::parser::ResourceFormat;
use crate::text::{chars_of, same_text, string_of};

verus! {

broadcast use vstd::std_specs::vec::group_vec_axioms, vstd::seq::group_seq_axioms;

pub open spec fn is_lower(c: char) -> bool {
    'a' <= c && c <= 'z'
}

pub open spec fn is_upper(c: char) -> bool {
    'A' <= c && c <= 'Z'
}

/// The shape of a locale code: two lowercase letters, optionally followed by
/// `-` or `_` and a two-letter region written all upper or all lower case.
pub open spec fn locale_shape(s: Seq<char>) -> bool {
    ||| (s.len() == 2 && is_lower(s[0]) && is_lower(s[1]))
    ||| (s.len() == 5 && is_lower(s[0]) && is_lower(s[1]) && (s[2] == '-' || s[2] == '_') && (
    (is_upper(s[3]) && is_upper(s[4])) || (is_lower(s[3]) && is_lower(s[4]))))
}

/// The fixed list of common locale codes.
pub open spec fn common_locale(s: Seq<char>) -> bool {
    ||| s == "en"@ ||| s == "en-US"@ ||| s == "en-GB"@ ||| s == "es"@ ||| s == "es-ES"@
    ||| s == "fr"@ ||| s == "fr-FR"@ ||| s == "de"@ ||| s == "de-DE"@ ||| s == "it"@
    ||| s == "it-IT"@ ||| s == "pt"@ ||| s == "pt-BR"@ ||| s == "ja"@ ||| s == "ja-JP"@
    ||| s == "ko"@ ||| s == "ko-KR"@ ||| s == "zh"@ ||| s == "zh-CN"@ ||| s == "zh-TW"@
    ||| s == "ru"@ ||| s == "ru-RU"@ ||| s == "ar"@ ||| s == "ar-SA"@ ||| s == "vi"@
    ||| s == "vi-VN"@
}

/// Whether a name can stand for a locale.
pub open spec fn locale_code(s: Seq<char>) -> bool {
    locale_shape(s) || common_locale(s)
}

fn lower(c: char) -> (r: bool)
    ensures
        r == is_lower(c),
{
    'a' <= c && c <= 'z'
}

fn upper(c: char) -> (r: bool)
    ensures
        r == is_upper(c),
{
    'A' <= c && c <= 'Z'
}

fn has_locale_shape(s: &str) -> (r: bool)
    ensures
        r == locale_shape(s@),
{
    let c = chars_of(s);
    if c.len() == 2 {
        lower(c[0]) && lower(c[1])
    } else if c.len() == 5 {
        lower(c[0]) && lower(c[1]) && (c[2] == '-' || c[2] == '_') && ((upper(c[3]) && upper(
            c[4],
        )) || (lower(c[3]) && lower(c[4])))
    } else {
        false
    }
}

fn is_common_locale(s: &str) -> (r: bool)
    ensures
        r == common_locale(s@),
{
    same_text(s, "en") || same_text(s, "en-US") || same_text(s, "en-GB") || same_text(s, "es")
        || same_text(s, "es-ES") || same_text(s, "fr") || same_text(s, "fr-FR") || same_text(s, "de")
        || same_text(s, "de-DE") || same_text(s, "it") || same_text(s, "it-IT") || same_text(s, "pt")
        || same_text(s, "pt-BR") || same_text(s, "ja") || same_text(s, "ja-JP") || same_text(s, "ko")
        || same_text(s, "ko-KR") || same_text(s, "zh") || same_text(s, "zh-CN") || same_text(
        s,
        "zh-TW",
    ) || same_text(s, "ru") || same_text(s, "ru-RU") || same_text(s, "ar") || same_text(s, "ar-SA")
        || same_text(s, "vi") || same_text(s, "vi-VN")
}

/// Whether `s` has the shape of a locale code or is one of the common codes.
pub fn is_locale_code(s: &str) -> (r: bool)
    ensures
        r == locale_code(s@),
{
    has_locale_shape(s) || is_common_locale(s)
}

/// The index of the last `.` in `s`, or -1.
pub open spec fn last_dot(s: Seq<char>) -> int
    decreases s.len(),
{
    if s.len() == 0 {
        -1
    } else if s.last() == '.' {
        s.len() - 1
    } else {
        last_dot(s.drop_last())
    }
}

/// A file name's extension: what follows its last `.`, when that dot is not
/// the name's first character.
pub open spec fn extension(name: Seq<char>) -> Option<Seq<char>> {
    if last_dot(name) > 0 {
        Some(name.subrange(last_dot(name) + 1, name.len() as int))
    } else {
        None
    }
}

/// A file name without its extension.
pub open spec fn file_stem(name: Seq<char>) -> Seq<char> {
    if last_dot(name) > 0 {
        name.take(last_dot(name))
    } else {
        name
    }
}

proof fn lemma_last_dot(s: Seq<char>)
    ensures
        -1 <= last_dot(s) < s.len(),
        last_dot(s) >= 0 ==> s[last_dot(s)] == '.',
        forall|k: int| last_dot(s) < k < s.len() ==> s[k] != '.',
    decreases s.len(),
{
    if s.len() > 0 && s.last() != '.' {
        lemma_last_dot(s.drop_last());
        assert forall|k: int| last_dot(s) < k < s.len() implies s[k] != '.' by {
            if k < s.len() - 1 {
                assert(s.drop_last()[k] == s[k]);
            }
        }
    }
}

/// `last_dot` is bounded by the text and names a dot.
pub proof fn lemma_last_dot_bounds(s: Seq<char>)
    ensures
        -1 <= last_dot(s) < s.len(),
        forall|k: int| last_dot(s) < k < s.len() ==> s[k] != '.',
{
    lemma_last_dot(s);
}

/// The last dot is at `i` when `s[i]` is a dot (or `i` is -1) and none follows.
pub proof fn lemma_last_dot_is(s: Seq<char>, i: int)
    requires
        -1 <= i < s.len(),
        i >= 0 ==> s[i] == '.',
        forall|k: int| i < k < s.len() ==> s[k] != '.',
    ensures
        last_dot(s) == i,
{
    lemma_last_dot(s);
}

fn find_last_dot(name: &Vec<char>) -> (r: Option<usize>)
    ensures
        match r {
            Some(i) => i as int == last_dot(name@),
            None => last_dot(name@) == -1,
        },
{
    let mut i: usize = name.len();
    assert(name@.take(i as int) =~= name@);
    while i > 0
        invariant
            i <= name.len(),
            last_dot(name@) == last_dot(name@.take(i as int)),
        decreases i,
    {
        let ghost t = name@.take(i as int);
        if name[i - 1] == '.' {
            assert(t.last() == '.');
            return Some(i - 1);
        }
        assert(t.drop_last() =~= name@.take(i - 1));
        i -= 1;
    }
    None
}

fn slice_chars(v: &Vec<char>, from: usize, to: usize) -> (r: Vec<char>)
    requires
        from <= to <= v.len(),
    ensures
        r@ == v@.subrange(from as int, to as int),
{
    let mut r: Vec<char> = Vec::new();
    let mut i = from;
    while i < to
        invariant
            from <= i <= to <= v.len(),
            r@ == v@.subrange(from as int, i as int),
        decreases to - i,
    {
        r.push(v[i]);
        i += 1;
        assert(r@ =~= v@.subrange(from as int, i as int));
    }
    r
}

fn chars_are(v: &Vec<char>, lit: &str) -> (r: bool)
    ensures
        r == (v@ == lit@),
{
    let l = chars_of(lit);
    if v.len() != l.len() {
        return false;
    }
    let mut i: usize = 0;
    while i < v.len()
        invariant
            v.len() == l.len(),
            l@ == lit@,
            i <= v.len(),
            forall|j: int| 0 <= j < i ==> v@[j] == l@[j],
        decreases v.len() - i,
    {
        if v[i] != l[i] {
            assert(v@[i as int] != l@[i as int]);
            return false;
        }
        i += 1;
    }
    assert(v@ =~= l@);
    true
}

/// The extension of a file name, if it has one.
pub fn extension_of(name: &str) -> (r: Option<String>)
    ensures
        match r {
            Some(e) => extension(name@) == Some(e@),
            None => extension(name@) is None,
        },
{
    let c = chars_of(name);
    proof {
        lemma_last_dot(c@);
    }
    match find_last_dot(&c) {
        Some(i) => {
            if i == 0 {
                None
            } else {
                Some(string_of(&slice_chars(&c, i + 1, c.len())))
            }
        },
        None => None,
    }
}

/// A file name without its extension.
pub fn file_stem_of(name: &str) -> (r: String)
    ensures
        r@ == file_stem(name@),
{
    let c = chars_of(name);
    proof {
        lemma_last_dot(c@);
    }
    match find_last_dot(&c) {
        Some(i) => {
            if i == 0 {
                string_of(&c)
            } else {
                string_of(&slice_chars(&c, 0, i))
            }
        },
        None => string_of(&c),
    }
}

/// Whether a file name has one of the resource extensions.
pub open spec fn resource_file(name: Seq<char>) -> bool {
    match extension(name) {
        Some(e) => e == "json"@ || e == "yaml"@ || e == "yml"@ || e == "php"@,
        None => false,
    }
}

/// The format a file is read in: YAML for `.yaml` and `.yml`, array literals
/// for `.php`, JSON for anything else.
pub open spec fn format_spec(name: Seq<char>) -> ResourceFormat {
    match extension(name) {
        Some(e) => if e == "yaml"@ || e == "yml"@ {
            ResourceFormat::Yaml
        } else if e == "php"@ {
            ResourceFormat::Php
        } else {
            ResourceFormat::Json
        },
        None => ResourceFormat::Json,
    }
}

/// Whether a file is a translation resource, judged by its extension.
pub fn is_resource_file(name: &str) -> (r: bool)
    ensures
        r == resource_file(name@),
{
    match extension_of(name) {
        Some(e) => {
            let c = chars_of(e.as_str());
            chars_are(&c, "json") || chars_are(&c, "yaml") || chars_are(&c, "yml") || chars_are(
                &c,
                "php",
            )
        },
        None => false,
    }
}

/// The format a file is read in, judged by its extension.
pub fn format_for(name: &str) -> (r: ResourceFormat)
    ensures
        r == format_spec(name@),
{
    match extension_of(name) {
        Some(e) => {
            let c = chars_of(e.as_str());
            if chars_are(&c, "yaml") || chars_are(&c, "yml") {
                ResourceFormat::Yaml
            } else if chars_are(&c, "php") {
                ResourceFormat::Php
            } else {
                ResourceFormat::Json
            }
        },
        None => ResourceFormat::Json,
    }
}

/// The locale of a file: its stem if that has a locale shape, else its
/// directory's name if that has one, else whichever of the two is a common
/// locale code; none when neither qualifies.
pub open spec fn inferred_locale(name: Seq<char>, parent: Option<Seq<char>>) -> Option<Seq<char>> {
    let stem = file_stem(name);
    if locale_shape(stem) {
        Some(stem)
    } else if parent is Some && locale_shape(parent->0) {
        parent
    } else if common_locale(stem) {
        Some(stem)
    } else if parent is Some && common_locale(parent->0) {
        parent
    } else {
        None
    }
}

/// The characters of an optional name.
pub open spec fn name_view(p: Option<&str>) -> Option<Seq<char>> {
    match p {
        Some(s) => Some(s@),
        None => None,
    }
}

/// The locale a resource file belongs to, from its name and the name of the
/// directory holding it.
pub fn extract_locale_from_path(file_name: &str, parent_name: Option<&str>) -> (r: Option<String>)
    ensures
        match r {
            Some(l) => inferred_locale(file_name@, name_view(parent_name)) == Some(l@),
            None => inferred_locale(file_name@, name_view(parent_name)) is None,
        },
{
    let stem = file_stem_of(file_name);
    if has_locale_shape(stem.as_str()) {
        return Some(stem);
    }
    if let Some(p) = parent_name {
        if has_locale_shape(p) {
            return Some(p.to_owned());
        }
    }
    if is_common_locale(stem.as_str()) {
        return Some(stem);
    }
    if let Some(p) = parent_name {
        if is_common_locale(p) {
            return Some(p.to_owned());
        }
    }
    None
}

} // verus!

//! Reading resource files of each supported format into a flat translation table.
use vstd::prelude::*;
use crate::php::{parse_php_tree, php_document, PhpParseError};
use crate::locale::{format_for, format_spec};
use crate::tree::{flat, flatten, tree_of, Translations, ResourceValue};

verus! {

#[verifier::external_type_specification]
#[verifier::external_body]
pub struct ExJsonValue(serde_json::Value);

#[verifier::external_type_specification]
#[verifier::external_body]
pub struct ExYamlValue(serde_yaml::Value);

/// The value tree of a JSON text as `serde_json::from_str` reads it, if it
/// reads it; objects list their members in `serde_json::Map`'s order.
pub uninterp spec fn json_doc(s: Seq<char>) -> Option<ResourceValue>;

/// The value tree of a YAML text as `serde_yaml::from_str` reads it, if it
/// reads it; tagged values count as null, keys without text as empty.
pub uninterp spec fn yaml_doc(s: Seq<char>) -> Option<ResourceValue>;

/// Relies on `serde_json::from_str` into `serde_json::Value`, whose result
/// depends on the text alone, converted one for one.
#[verifier::external_body]
fn json_document(s: &str) -> (r: Option<ResourceValue>)
    ensures
        r == json_doc(s@),
{
    serde_json::from_str::<serde_json::Value>(s).ok().map(|v| json_to_value(&v))
}

/// Relies on the variants of `serde_json::Value`: each becomes the same
/// variant here, a number its `Display` text, members in the map's order.
#[verifier::external_body]
fn json_to_value(v: &serde_json::Value) -> ResourceValue {
    match v {
        serde_json::Value::Null => ResourceValue::Null,
        serde_json::Value::Bool(b) => ResourceValue::Bool(*b),
        serde_json::Value::Number(n) => ResourceValue::Number(n.to_string()),
        serde_json::Value::String(s) => ResourceValue::Str(s.clone()),
        serde_json::Value::Array(a) => ResourceValue::Array(a.iter().map(json_to_value).collect()),
        serde_json::Value::Object(m) => ResourceValue::Object(
            m.iter().map(|(k, c)| (k.clone(), json_to_value(c))).collect(),
        ),
    }
}

/// Relies on `serde_yaml::from_str` into `serde_yaml::Value`, whose result
/// depends on the text alone, converted one for one.
#[verifier::external_body]
fn yaml_document(s: &str) -> (r: Option<ResourceValue>)
    ensures
        r == yaml_doc(s@),
{
    serde_yaml::from_str::<serde_yaml::Value>(s).ok().map(|v| yaml_to_value(&v))
}

/// Relies on the variants of `serde_yaml::Value`: a sequence becomes an
/// array, a mapping an object keyed by `Value::as_str`, a tagged value null.
#[verifier::external_body]
fn yaml_to_value(v: &serde_yaml::Value) -> ResourceValue {
    match v {
        serde_yaml::Value::Null | serde_yaml::Value::Tagged(_) => ResourceValue::Null,
        serde_yaml::Value::Bool(b) => ResourceValue::Bool(*b),
        serde_yaml::Value::Number(n) => ResourceValue::Number(n.to_string()),
        serde_yaml::Value::String(s) => ResourceValue::Str(s.clone()),
        serde_yaml::Value::Sequence(a) => ResourceValue::Array(a.iter().map(yaml_to_value).collect()),
        serde_yaml::Value::Mapping(m) => ResourceValue::Object(
            m.iter().map(|(k, c)| (k.as_str().unwrap_or_default().to_string(), yaml_to_value(c))).collect(),
        ),
    }
}

/// Why a resource could not be read.
#[derive(Clone, Copy, PartialEq, Eq, Structural, Debug)]
pub enum ParseError {
    /// The text is not well-formed JSON.
    Json,
    /// The text is not well-formed YAML.
    Yaml,
    /// The array-literal parser refused the text.
    Php(PhpParseError),
}

/// The format a resource is read in.
#[derive(Clone, Copy, PartialEq, Eq, Structural, Debug)]
pub enum ResourceFormat {
    Json,
    Yaml,
    Php,
}

/// The table a resource text gives in a format, or why it gives none.
pub open spec fn parsed(content: Seq<char>, format: ResourceFormat) -> Result<
    Map<Seq<char>, Seq<char>>,
    ParseError,
> {
    match format {
        ResourceFormat::Json => match json_doc(content) {
            Some(v) => Ok(flat(tree_of(v), Seq::empty())),
            None => Err(ParseError::Json),
        },
        ResourceFormat::Yaml => match yaml_doc(content) {
            Some(v) => Ok(flat(tree_of(v), Seq::empty())),
            None => Err(ParseError::Yaml),
        },
        ResourceFormat::Php => match php_document(content) {
            Ok(t) => Ok(flat(t, Seq::empty())),
            Err(e) => Err(ParseError::Php(e)),
        },
    }
}

/// Whether `r` is the outcome `expected` describes.
pub open spec fn gives(r: Result<Translations, ParseError>, expected: Result<Map<Seq<char>, Seq<char>>, ParseError>) -> bool {
    match expected {
        Ok(m) => r matches Ok(t) && t.wf() && t@ == m,
        Err(e) => r == Err::<Translations, ParseError>(e),
    }
}

/// Parses resource text of each format into a flat table of dotted keys.
pub struct TranslationParser;

impl TranslationParser {
    /// Reads an array-literal resource: the first array in the text, flattened.
    pub fn parse_php(content: &str) -> (r: Result<Translations, ParseError>)
        ensures
            gives(r, parsed(content@, ResourceFormat::Php)),
    {
        match parse_php_tree(content) {
            Ok(value) => Ok(flatten(&value)),
            Err(e) => Err(ParseError::Php(e)),
        }
    }

    /// Reads a JSON resource and flattens it.
    pub fn parse_json(content: &str) -> (r: Result<Translations, ParseError>)
        ensures
            gives(r, parsed(content@, ResourceFormat::Json)),
    {
        match json_document(content) {
            None => Err(ParseError::Json),
            Some(value) => Ok(flatten(&value)),
        }
    }

    /// Reads a YAML resource and flattens it.
    pub fn parse_yaml(content: &str) -> (r: Result<Translations, ParseError>)
        ensures
            gives(r, parsed(content@, ResourceFormat::Yaml)),
    {
        match yaml_document(content) {
            None => Err(ParseError::Yaml),
            Some(value) => Ok(flatten(&value)),
        }
    }

    /// Reads the text of a resource file in the format its name calls for.
    pub fn parse_file(file_name: &str, content: &str) -> (r: Result<Translations, ParseError>)
        ensures
            gives(r, parsed(content@, format_spec(file_name@))),
    {
        Self::parse_content(content, format_for(file_name))
    }

    /// Reads resource text in the given format.
    pub fn parse_content(content: &str, format: ResourceFormat) -> (r: Result<
        Translations,
        ParseError,
    >)
        ensures
            gives(r, parsed(content@, format)),
    {
        match format {
            ResourceFormat::Json => Self::parse_json(content),
            ResourceFormat::Yaml => Self::parse_yaml(content),
            ResourceFormat::Php => Self::parse_php(content),
        }
    }
}

} // verus!

use intl_lens::parser::{ParseError, ResourceFormat, TranslationParser};
use intl_lens::php::PhpParseError;
use intl_lens::tree::{flatten, ResourceValue};

#[test]
fn parser_test_parse_flat_json() {
    let json = r#"{"hello": "Hello", "world": "World"}"#;
    let result = TranslationParser::parse_json(json).unwrap();
    assert_eq!(result.get("hello"), Some(&"Hello".to_string()));
    assert_eq!(result.get("world"), Some(&"World".to_string()));
}

#[test]
fn parser_test_parse_nested_json() {
    let json = r#"{"common": {"hello": "Hello", "bye": "Goodbye"}}"#;
    let result = TranslationParser::parse_json(json).unwrap();
    assert_eq!(result.get("common.hello"), Some(&"Hello".to_string()));
    assert_eq!(result.get("common.bye"), Some(&"Goodbye".to_string()));
}

#[test]
fn parser_test_parse_deeply_nested() {
    let json = r#"{"a": {"b": {"c": "deep"}}}"#;
    let result = TranslationParser::parse_json(json).unwrap();
    assert_eq!(result.get("a.b.c"), Some(&"deep".to_string()));
}

#[test]
fn parser_test_parse_flat_yaml() {
    let yaml = "hello: Hello\nworld: World";
    let result = TranslationParser::parse_yaml(yaml).unwrap();
    assert_eq!(result.get("hello"), Some(&"Hello".to_string()));
    assert_eq!(result.get("world"), Some(&"World".to_string()));
}

#[test]
fn parser_test_parse_nested_yaml() {
    let yaml = "common:\n  hello: Hello\n  bye: Goodbye";
    let result = TranslationParser::parse_yaml(yaml).unwrap();
    assert_eq!(result.get("common.hello"), Some(&"Hello".to_string()));
    assert_eq!(result.get("common.bye"), Some(&"Goodbye".to_string()));
}

#[test]
fn test_parse_flat_php() {
    let php = r#"<?php return ['hello' => 'Hello', "world" => "World"];"#;
    let result = TranslationParser::parse_php(php).unwrap();
    assert_eq!(result.get("hello"), Some(&"Hello".to_string()));
    assert_eq!(result.get("world"), Some(&"World".to_string()));
}

#[test]
fn test_parse_nested_php() {
    let php = r#"<?php
        return [
            'common' => [
                'hello' => 'Hello',
                'bye' => "Goodbye",
            ],
        ];"#;
    let result = TranslationParser::parse_php(php).unwrap();
    assert_eq!(result.get("common.hello"), Some(&"Hello".to_string()));
    assert_eq!(result.get("common.bye"), Some(&"Goodbye".to_string()));
}

#[test]
fn flatten_nested_object_joins_with_dot() {
    let tree = ResourceValue::Object(vec![(
        "common".to_string(),
        ResourceValue::Object(vec![("hello".to_string(), ResourceValue::Str("Hello".to_string()))]),
    )]);
    let t = flatten(&tree);
    assert_eq!(t.len(), 1);
    assert_eq!(t.get("common.hello"), Some(&"Hello".to_string()));
    let parsed = TranslationParser::parse_json(r#"{"common":{"hello":"Hello"}}"#).unwrap();
    assert_eq!(parsed.len(), 1);
    assert_eq!(parsed.get("common.hello"), Some(&"Hello".to_string()));
}

#[test]
fn flatten_array_uses_indexes() {
    let tree = ResourceValue::Object(vec![(
        "a".to_string(),
        ResourceValue::Array(vec![
            ResourceValue::Str("x".to_string()),
            ResourceValue::Str("y".to_string()),
        ]),
    )]);
    let t = flatten(&tree);
    assert_eq!(t.len(), 2);
    assert_eq!(t.get("a.0"), Some(&"x".to_string()));
    assert_eq!(t.get("a.1"), Some(&"y".to_string()));
    let parsed = TranslationParser::parse_json(r#"{"a":["x","y"]}"#).unwrap();
    assert_eq!(parsed.len(), 2);
    assert_eq!(parsed.get("a.0"), Some(&"x".to_string()));
    assert_eq!(parsed.get("a.1"), Some(&"y".to_string()));
}

#[test]
fn flatten_drops_null_leaves() {
    let tree = ResourceValue::Object(vec![("a".to_string(), ResourceValue::Null)]);
    assert!(flatten(&tree).is_empty());
    let parsed = TranslationParser::parse_json(r#"{"a":null}"#).unwrap();
    assert!(parsed.is_empty());
}

#[test]
fn flatten_renders_numbers_and_booleans() {
    let parsed = TranslationParser::parse_json(r#"{"n": 42, "b": true, "f": false}"#).unwrap();
    assert_eq!(parsed.get("n"), Some(&"42".to_string()));
    assert_eq!(parsed.get("b"), Some(&"true".to_string()));
    assert_eq!(parsed.get("f"), Some(&"false".to_string()));
}

#[test]
fn flatten_root_leaf_gives_no_entry() {
    assert!(flatten(&ResourceValue::Str("lonely".to_string())).is_empty());
    assert!(TranslationParser::parse_json(r#""lonely""#).unwrap().is_empty());
}

#[test]
fn flatten_later_duplicate_key_wins() {
    let tree = ResourceValue::Object(vec![
        ("k".to_string(), ResourceValue::Str("first".to_string())),
        ("k".to_string(), ResourceValue::Str("second".to_string())),
    ]);
    let t = flatten(&tree);
    assert_eq!(t.len(), 1);
    assert_eq!(t.get("k"), Some(&"second".to_string()));
}

#[test]
fn php_matches_json_equivalent() {
    let php = TranslationParser::parse_php("return ['hello'=>'Hello','world'=>'World'];").unwrap();
    let json = TranslationParser::parse_json(r#"{"hello":"Hello","world":"World"}"#).unwrap();
    assert_eq!(php.len(), 2);
    assert_eq!(php.get("hello"), Some(&"Hello".to_string()));
    assert_eq!(php.get("world"), Some(&"World".to_string()));
    assert_eq!(php.len(), json.len());
    assert_eq!(php.get("hello"), json.get("hello"));
    assert_eq!(php.get("world"), json.get("world"));
}

#[test]
fn php_array_call_form_and_positional_items() {
    let php = "<?php return array('a' => array('x', 'y'), 'n' => 3.5, 't' => true, 'z' => null);";
    let t = TranslationParser::parse_php(php).unwrap();
    assert_eq!(t.get("a.0"), Some(&"x".to_string()));
    assert_eq!(t.get("a.1"), Some(&"y".to_string()));
    assert_eq!(t.get("n"), Some(&"3.5".to_string()));
    assert_eq!(t.get("t"), Some(&"true".to_string()));
    assert_eq!(t.get("z"), None);
    assert_eq!(t.len(), 4);
}

#[test]
fn php_comments_escapes_and_trailing_commas() {
    let php = "<?php\n// line comment\n# hash comment\n/* block\n comment */\nreturn [\n  'nl' => \"a\\nb\",\n  'q' => 'it\\'s',\n  'raw' => 'x\\qy',\n];";
    let t = TranslationParser::parse_php(php).unwrap();
    assert_eq!(t.get("nl"), Some(&"a\nb".to_string()));
    assert_eq!(t.get("q"), Some(&"it's".to_string()));
    assert_eq!(t.get("raw"), Some(&"xqy".to_string()));
}

#[test]
fn php_empty_key_is_dropped() {
    let t = TranslationParser::parse_php("return ['' => 'gone', 'kept' => 'yes'];").unwrap();
    assert_eq!(t.len(), 1);
    assert_eq!(t.get("kept"), Some(&"yes".to_string()));
}

#[test]
fn php_without_array_is_an_error() {
    let r = TranslationParser::parse_php("<?php return 42;");
    assert_eq!(r.err(), Some(ParseError::Php(PhpParseError::NoArray)));
}

#[test]
fn php_bad_value_is_an_error() {
    let r = TranslationParser::parse_php("return ['a' => ,];");
    assert_eq!(r.err(), Some(ParseError::Php(PhpParseError::UnexpectedToken)));
    let r = TranslationParser::parse_php("return ['a' =>");
    assert_eq!(r.err(), Some(ParseError::Php(PhpParseError::UnexpectedEnd)));
    let r = TranslationParser::parse_php("return array 'a';");
    assert_eq!(r.err(), Some(ParseError::Php(PhpParseError::ExpectedToken(intl_lens::php::PhpTokenKind::LParen))));
}

#[test]
fn malformed_json_and_yaml_are_errors() {
    assert_eq!(TranslationParser::parse_json("{\"a\": ").err(), Some(ParseError::Json));
    assert_eq!(TranslationParser::parse_yaml("a: [1, 2").err(), Some(ParseError::Yaml));
}

#[test]
fn parse_content_dispatches_by_format() {
    let y = TranslationParser::parse_content("k: v", ResourceFormat::Yaml).unwrap();
    assert_eq!(y.get("k"), Some(&"v".to_string()));
    let j = TranslationParser::parse_content(r#"{"k": "v"}"#, ResourceFormat::Json).unwrap();
    assert_eq!(j.get("k"), Some(&"v".to_string()));
    let p = TranslationParser::parse_content("return ['k' => 'v'];", ResourceFormat::Php).unwrap();
    assert_eq!(p.get("k"), Some(&"v".to_string()));
}

#[test]
fn parse_file_picks_format_by_extension() {
    let y = TranslationParser::parse_file("en.yml", "a:\n  b: c").unwrap();
    assert_eq!(y.get("a.b"), Some(&"c".to_string()));
    let p = TranslationParser::parse_file("en.php", "<?php return ['a' => ['b' => 'c']];").unwrap();
    assert_eq!(p.get("a.b"), Some(&"c".to_string()));
    let j = TranslationParser::parse_file("en.json", r#"{"a": {"b": "c"}}"#).unwrap();
    assert_eq!(j.get("a.b"), Some(&"c".to_string()));
    assert_eq!(TranslationParser::parse_file("en.json", "a: b").err(), Some(ParseError::Json));
}

#[test]
fn yaml_lists_and_scalars() {
    let t = TranslationParser::parse_yaml("items:\n  - one\n  - two\ncount: 3\nflag: false\nnothing: ~").unwrap();
    assert_eq!(t.get("items.0"), Some(&"one".to_string()));
    assert_eq!(t.get("items.1"), Some(&"two".to_string()));
    assert_eq!(t.get("count"), Some(&"3".to_string()));
    assert_eq!(t.get("flag"), Some(&"false".to_string()));
    assert_eq!(t.get("nothing"), None);
    assert_eq!(t.len(), 4);
}

#[test]
fn empty_yaml_is_an_empty_table() {
    assert!(TranslationParser::parse_yaml("").unwrap().is_empty());
}

#[test]
fn php_call_form_positional_nesting() {
    let t = TranslationParser::parse_php("<?php return array('a', 'b', array('c'));").unwrap();
    assert_eq!(t.len(), 3);
    assert_eq!(t.get("0"), Some(&"a".to_string()));
    assert_eq!(t.get("1"), Some(&"b".to_string()));
    assert_eq!(t.get("2.0"), Some(&"c".to_string()));
}

#[test]
fn php_duplicate_key_last_wins() {
    let t = TranslationParser::parse_php("return ['k' => 'a', 'k' => 'b'];").unwrap();
    assert_eq!(t.len(), 1);
    assert_eq!(t.get("k"), Some(&"b".to_string()));
}

#[test]
fn php_keys_are_stringified() {
    let t = TranslationParser::parse_php("return ['' => 'x', null => 'y', true => 'v', 5 => 'n', 'ok' => 'z'];").unwrap();
    assert_eq!(t.len(), 3);
    assert_eq!(t.get("true"), Some(&"v".to_string()));
    assert_eq!(t.get("5"), Some(&"n".to_string()));
    assert_eq!(t.get("ok"), Some(&"z".to_string()));
}

#[test]
fn php_comments_and_scalars() {
    let t = TranslationParser::parse_php("return [ // c\n 'a' => 'x', # h\n /* b */ 'b' => true, 'c' => 12.5, 'd' => false ];").unwrap();
    assert_eq!(t.len(), 4);
    assert_eq!(t.get("a"), Some(&"x".to_string()));
    assert_eq!(t.get("b"), Some(&"true".to_string()));
    assert_eq!(t.get("c"), Some(&"12.5".to_string()));
    assert_eq!(t.get("d"), Some(&"false".to_string()));
}

#[test]
fn php_malformed_inputs_are_errors() {
    assert_eq!(
        TranslationParser::parse_php("<?php $x = 1; return 'x';").err(),
        Some(ParseError::Php(PhpParseError::NoArray))
    );
    assert_eq!(
        TranslationParser::parse_php("return ['a' => => 'b'];").err(),
        Some(ParseError::Php(PhpParseError::UnexpectedToken))
    );
    let t = TranslationParser::parse_php("return ['a' => null, 'b' => 'x'];").unwrap();
    assert_eq!(t.len(), 1);
    assert_eq!(t.get("b"), Some(&"x".to_string()));
}

#[test]
fn php_unicode_whitespace_is_skipped() {
    let t = TranslationParser::parse_php("return\u{A0}[\u{2003}'a'\u{3000}=>\t'b'\u{85}];").unwrap();
    assert_eq!(t.len(), 1);
    assert_eq!(t.get("a"), Some(&"b".to_string()));
}

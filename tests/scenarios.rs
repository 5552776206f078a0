use json_keyquotes_convert::json_key_quote_utils::{
    json_add_key_quotes, json_escape_ctrlchars, json_remove_key_quotes, json_unescape_ctrlchars,
};
use json_keyquotes_convert::{JsonKeyQuoteConverter, Quotes};

#[test]
fn adds_double_quotes_to_bare_key() {
    assert_eq!(json_add_key_quotes("{key: \"val\"}", Quotes::DoubleQuote), "{\"key\": \"val\"}");
}

#[test]
fn keeps_already_quoted_key() {
    assert_eq!(json_add_key_quotes("{\"key\": \"val\"}", Quotes::DoubleQuote), "{\"key\": \"val\"}");
}

#[test]
fn removes_double_quotes_from_key() {
    assert_eq!(json_remove_key_quotes("{\"key\": \"val\"}"), "{key: \"val\"}");
}

#[test]
fn remove_keeps_bare_key() {
    assert_eq!(json_remove_key_quotes("{key: \"val\"}"), "{key: \"val\"}");
}

#[test]
fn escapes_newline_in_value() {
    assert_eq!(json_escape_ctrlchars("{\"key\": \"va\nl\"}"), "{\"key\": \"va\\nl\"}");
}

#[test]
fn unescapes_newline_in_value() {
    assert_eq!(json_unescape_ctrlchars("{key: \"va\\nl\"}"), "{key: \"va\nl\"}");
}

#[test]
fn adds_single_quotes_to_every_value_shape() {
    let json = "{a: 1, b: -2.5, c: .5, d: null, e: true, f: false, g: {h: [1, {i: 'x'}]}, j: [2]}";
    let expected = "{'a': 1, 'b': -2.5, 'c': .5, 'd': null, 'e': true, 'f': false, 'g': {'h': [1, {'i': 'x'}]}, 'j': [2]}";
    assert_eq!(json_add_key_quotes(json, Quotes::SingleQuote), expected);
}

#[test]
fn keeps_whitespace_around_keys() {
    let json = "{\n  key one :\t1,\n  other: 2\n}";
    let expected = "{\n  \"key one\" :\t1,\n  \"other\": 2\n}";
    assert_eq!(json_add_key_quotes(json, Quotes::DoubleQuote), expected);
    assert_eq!(json_remove_key_quotes(expected), json);
}

#[test]
fn empty_text_stays_empty() {
    assert_eq!(json_add_key_quotes("", Quotes::DoubleQuote), "");
    assert_eq!(json_remove_key_quotes(""), "");
    assert_eq!(json_escape_ctrlchars(""), "");
    assert_eq!(json_unescape_ctrlchars(""), "");
}

#[test]
fn key_like_text_inside_values_is_kept() {
    let json = "{a: \"x, b: 1\", c: 'y, \"d\": 2'}";
    let added = json_add_key_quotes(json, Quotes::DoubleQuote);
    assert_eq!(added, "{\"a\": \"x, b: 1\", \"c\": 'y, \"d\": 2'}");
    assert_eq!(json_remove_key_quotes(&added), json);
}

#[test]
fn add_is_idempotent_on_mixed_keys() {
    let json = "{a: 1, 'b': \"x\", \"c\": [true, {d: null}]}";
    let once = json_add_key_quotes(json, Quotes::DoubleQuote);
    assert_eq!(once, "{\"a\": 1, 'b': \"x\", \"c\": [true, {\"d\": null}]}");
    assert_eq!(json_add_key_quotes(&once, Quotes::DoubleQuote), once);
}

#[test]
fn remove_is_idempotent() {
    let json = "{'a': 1, \"b\": \"x\", c: 2}";
    let once = json_remove_key_quotes(json);
    assert_eq!(once, "{a: 1, b: \"x\", c: 2}");
    assert_eq!(json_remove_key_quotes(&once), once);
}

#[test]
fn remove_keeps_quotes_around_a_quoted_key() {
    assert_eq!(json_remove_key_quotes("{'\"a\"': 1}"), "{'\"a\"': 1}");
    assert_eq!(json_remove_key_quotes("{\" 'a' \": 1}"), "{\" 'a' \": 1}");
    assert_eq!(json_remove_key_quotes("{'a\": 1}"), "{'a\": 1}");
}

#[test]
fn remove_strips_keys_with_whitespace_or_empty() {
    assert_eq!(json_remove_key_quotes("{'': 1}"), "{: 1}");
    assert_eq!(json_remove_key_quotes("{' a': 1}"), "{ a: 1}");
    assert_eq!(json_remove_key_quotes("{\" a\":1}"), "{ a:1}");
    assert_eq!(json_remove_key_quotes("{\"a b \" : 1}"), "{a b  : 1}");
    let once = json_remove_key_quotes("{\" a \": 1, ' ': 2}");
    assert_eq!(once, "{ a : 1,  : 2}");
    assert_eq!(json_remove_key_quotes(&once), once);
}

#[test]
fn unicode_whitespace_counts_as_whitespace() {
    assert_eq!(json_add_key_quotes("{\u{a0}key\u{2028}:\u{3000}1}", Quotes::DoubleQuote),
        "{\u{a0}\"key\"\u{2028}:\u{3000}1}");
}

#[test]
fn add_then_remove_gives_remove() {
    let json = "{a: 1, 'b': {\"c\": [x]}}";
    let added = json_add_key_quotes(json, Quotes::SingleQuote);
    assert_eq!(added, "{'a': 1, 'b': {\"c\": [x]}}");
    assert_eq!(json_remove_key_quotes(&added), json_remove_key_quotes(json));
    assert_eq!(json_remove_key_quotes(&added), "{a: 1, b: {c: [x]}}");
}

#[test]
fn escapes_all_three_control_characters() {
    let json = "{\"k\": \"a\rb\nc\td\"}";
    let escaped = json_escape_ctrlchars(json);
    assert_eq!(escaped, "{\"k\": \"a\\rb\\nc\\td\"}");
    assert_eq!(json_escape_ctrlchars(&escaped), escaped);
}

#[test]
fn escape_drops_control_characters_from_quoted_keys() {
    assert_eq!(json_escape_ctrlchars("{\"ke\ny\": 1}"), "{\"key\": 1}");
    assert_eq!(json_escape_ctrlchars("{'k\te\ry': 'v'}"), "{'key': 'v'}");
}

#[test]
fn escape_keeps_formatting_whitespace() {
    let json = "{\n\t\"a\":\n\t\"x\ty\"\n}";
    assert_eq!(json_escape_ctrlchars(json), "{\n\t\"a\":\n\t\"x\\ty\"\n}");
}

#[test]
fn escape_reaches_the_end_of_an_unclosed_value() {
    assert_eq!(json_escape_ctrlchars("{a: \"x\ny"), "{a: \"x\\ny");
}

#[test]
fn unescape_drops_escapes_from_bare_keys() {
    assert_eq!(json_unescape_ctrlchars("{ke\\ny: 1}"), "{key: 1}");
    assert_eq!(json_unescape_ctrlchars("{\"ke\\ny\": 1}"), "{\"ke\\ny\": 1}");
}

#[test]
fn unescape_keeps_other_escapes() {
    let json = "{a: \"x\\\\ny \\\" \\u0041\"}";
    assert_eq!(json_unescape_ctrlchars(json), json);
}

#[test]
fn unescape_is_idempotent() {
    let json = "{a: 'x\\ty\\r', b: \"\\n\"}";
    let once = json_unescape_ctrlchars(json);
    assert_eq!(once, "{a: 'x\ty\r', b: \"\n\"}");
    assert_eq!(json_unescape_ctrlchars(&once), once);
}

#[test]
fn unescape_undoes_escape() {
    let json = "{\"a\": \"line\none\ttab\rcr\", b: [1, {c: 'x\ny'}]}";
    let escaped = json_escape_ctrlchars(json);
    assert_eq!(escaped, "{\"a\": \"line\\none\\ttab\\rcr\", b: [1, {c: 'x\\ny'}]}");
    assert_eq!(json_unescape_ctrlchars(&escaped), json);
}

#[test]
fn converter_chains_passes() {
    let json = JsonKeyQuoteConverter::new("{key: \"va\nl\"}", Quotes::default())
        .add_key_quotes()
        .escape_ctrlchars()
        .json();
    assert_eq!(json, "{\"key\": \"va\\nl\"}");
    let back = JsonKeyQuoteConverter::new(&json, Quotes::SingleQuote)
        .remove_key_quotes()
        .unescape_ctrlchars()
        .json();
    assert_eq!(back, "{key: \"va\nl\"}");
}

#[test]
fn converter_uses_its_quote_type() {
    let json = JsonKeyQuoteConverter::new("{key: 1}", Quotes::SingleQuote).add_key_quotes().json();
    assert_eq!(json, "{'key': 1}");
    let same = JsonKeyQuoteConverter::new(r#"{"key": "value"}"#, Quotes::default()).json();
    assert_eq!(same, r#"{"key": "value"}"#);
}

#[test]
fn quotes_as_str() {
    assert_eq!(Quotes::default().as_str(), "\"");
    assert_eq!(Quotes::SingleQuote.as_str(), "'");
    assert_eq!(Quotes::DoubleQuote.as_char(), '"');
}

#[test]
fn non_ascii_text_is_kept() {
    let json = "{cl\u{e9}: \"\u{e9}t\u{e9}\n\", \u{20AC}uro: 1}";
    assert_eq!(
        json_add_key_quotes(json, Quotes::DoubleQuote),
        "{cl\u{e9}: \"\u{e9}t\u{e9}\n\", \"\u{20AC}uro\": 1}"
    );
    assert_eq!(json_escape_ctrlchars(json), "{cl\u{e9}: \"\u{e9}t\u{e9}\\n\", \u{20AC}uro: 1}");
}

#[test]
fn adds_quotes_only_before_a_value() {
    assert_eq!(json_add_key_quotes("{a: b}", Quotes::DoubleQuote), "{a: b}");
    assert_eq!(json_add_key_quotes("{a: nul}", Quotes::DoubleQuote), "{a: nul}");
    assert_eq!(json_add_key_quotes("{a: }", Quotes::DoubleQuote), "{a: }");
    assert_eq!(json_add_key_quotes("{a: null}", Quotes::DoubleQuote), "{\"a\": null}");
    assert_eq!(json_add_key_quotes("{a:\n  true}", Quotes::DoubleQuote), "{\"a\":\n  true}");
    assert_eq!(json_add_key_quotes("{a: false}", Quotes::DoubleQuote), "{\"a\": false}");
    assert_eq!(json_add_key_quotes("{a: [b]}", Quotes::DoubleQuote), "{\"a\": [b]}");
}

#[test]
fn removes_quotes_whatever_follows() {
    assert_eq!(json_remove_key_quotes("{'a': b}"), "{a: b}");
}

#[test]
fn escape_leaves_keys_without_a_value() {
    assert_eq!(json_escape_ctrlchars("{\"k\ney\": x}"), "{\"k\ney\": x}");
    assert_eq!(json_unescape_ctrlchars("{k\\ney: x}"), "{k\\ney: x}");
}

#[test]
fn add_changes_only_quote_characters() {
    let json = "{a: 'x', \"b\": {c: [1, 2]}, d e : null}";
    let added = json_add_key_quotes(json, Quotes::SingleQuote);
    assert_eq!(added, "{'a': 'x', \"b\": {'c': [1, 2]}, 'd e' : null}");
    let strip = |s: &str| s.chars().filter(|c| *c != '\'').collect::<String>();
    assert_eq!(strip(&added), strip(json));
}

#[test]
fn remove_changes_only_quote_characters() {
    let json = "{'a': \"x\", \"b\": {' c ': [1, 2]}}";
    let removed = json_remove_key_quotes(json);
    assert_eq!(removed, "{a: \"x\", b: { c : [1, 2]}}");
    let strip = |s: &str| s.chars().filter(|c| *c != '\'' && *c != '"').collect::<String>();
    assert_eq!(strip(&removed), strip(json));
}

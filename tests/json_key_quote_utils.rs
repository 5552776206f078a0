use json_keyquotes_convert::{json_key_quote_utils, Quotes};

const SUPPORTED_KEY_CHARS: &str = r#"ABCDEFGHIJKLMNOPQRSTUVWXYZabcdefghijklmnopqrstuvwxyz0123456789`~!@#$%€^&*()-_=+\|;"'.<>/?"#;
const SUPPORTED_VALUE_CHARS: &str = r#"ABCDEFGHIJKLMNOPQRSTUVWXYZabcdefghijklmnopqrstuvwxyz0123456789`~!@#$%€^&*()-_=+\|:;"'.<>/?"#;

#[test]
fn test_json_add_key_quotes_single_quote_add_supported_characters() {
    let supported_key_chars = SUPPORTED_KEY_CHARS.replacen(r#"'"#, r#"\'"#, 1);
    let supported_value_chars = SUPPORTED_VALUE_CHARS.replacen(r#"'"#, r#"\'"#, 1);

    let json =
        r#"{"#.to_string() + &supported_key_chars + r#": '"# + &supported_value_chars + r#"'}"#;
    let expected = r#"{'"#.to_string()
        + &supported_key_chars
        + r#"': '"#
        + &supported_value_chars
        + r#"'}"#;

    let actual = json_key_quote_utils::json_add_key_quotes(&json, Quotes::SingleQuote);
    let actual_second_pass =
        json_key_quote_utils::json_add_key_quotes(&actual, Quotes::SingleQuote);

    assert_eq!(expected, actual);
    assert_eq!(expected, actual_second_pass);
}

#[test]
fn test_json_add_key_quotes_double_quote_add_supported_characters() {
    let supported_key_chars = SUPPORTED_KEY_CHARS.replacen(r#"""#, r#"\""#, 1);
    let supported_value_chars = SUPPORTED_VALUE_CHARS.replacen(r#"""#, r#"\""#, 1);

    let json =
        r#"{"#.to_string() + &supported_key_chars + r#": ""# + &supported_value_chars + r#""}"#;
    let expected = r#"{""#.to_string()
        + &supported_key_chars
        + r#"": ""#
        + &supported_value_chars
        + r#""}"#;

    let actual = json_key_quote_utils::json_add_key_quotes(&json, Quotes::DoubleQuote);
    let actual_second_pass =
        json_key_quote_utils::json_add_key_quotes(&actual, Quotes::DoubleQuote);

    assert_eq!(expected, actual);
    assert_eq!(expected, actual_second_pass);
}

#[test]
fn test_json_remove_key_quotes_single_quoted_supported_characters() {
    let supported_key_chars = SUPPORTED_KEY_CHARS.replacen(r#"'"#, r#"\'"#, 1);
    let supported_value_chars = SUPPORTED_VALUE_CHARS.replacen(r#"'"#, r#"\'"#, 1);

    let json = r#"{'"#.to_string()
        + &supported_key_chars
        + r#"': ""#
        + &supported_value_chars
        + r#""}"#;
    let expected =
        r#"{"#.to_string() + &supported_key_chars + r#": ""# + &supported_value_chars + r#""}"#;

    let actual = json_key_quote_utils::json_remove_key_quotes(&json);
    let actual_second_pass = json_key_quote_utils::json_remove_key_quotes(&actual);

    assert_eq!(expected, actual);
    assert_eq!(expected, actual_second_pass);
}

#[test]
fn test_json_remove_key_quotes_double_quoted_supported_characters() {
    let supported_key_chars = SUPPORTED_KEY_CHARS.replacen(r#"""#, r#"\""#, 1);
    let supported_value_chars = SUPPORTED_VALUE_CHARS.replacen(r#"""#, r#"\""#, 1);

    let json = r#"{""#.to_string()
        + &supported_key_chars
        + r#"": ""#
        + &supported_value_chars
        + r#""}"#;
    let expected =
        r#"{"#.to_string() + &supported_key_chars + r#": ""# + &supported_value_chars + r#""}"#;

    let actual = json_key_quote_utils::json_remove_key_quotes(&json);
    let actual_second_pass = json_key_quote_utils::json_remove_key_quotes(&actual);

    assert_eq!(expected, actual);
    assert_eq!(expected, actual_second_pass);
}

#[test]
fn test_json_escape_ctrlchars_single_quoted_supported_characters() {
    let supported_key_chars = SUPPORTED_KEY_CHARS.replacen(r#"'"#, r#"\'"#, 1);
    let supported_value_chars = SUPPORTED_VALUE_CHARS.replacen(r#"'"#, r#"\'"#, 1);

    let key = supported_key_chars.to_string();
    let value = supported_value_chars
        .replacen(
            "A", r#"A
"#, 1,
        )
        .replacen("B", r#"B	"#, 1);

    let expected_key = supported_key_chars.to_string();
    let expected_value = supported_value_chars
        .replacen("A", r#"A\n"#, 1)
        .replacen("B", r#"B\t"#, 1);

    let json = r#"{'"#.to_string() + &key + r#"': '"# + &value + r#"'}"#;
    let expected = r#"{'"#.to_string() + &expected_key + r#"': '"# + &expected_value + r#"'}"#;

    let actual = json_key_quote_utils::json_escape_ctrlchars(&json);
    let actual_second_pass = json_key_quote_utils::json_escape_ctrlchars(&actual);

    assert_eq!(expected, actual);
    assert_eq!(expected, actual_second_pass);
}

#[test]
fn test_json_escape_ctrlchars_double_quoted_supported_characters() {
    let supported_key_chars = SUPPORTED_KEY_CHARS.replacen(r#"""#, r#"\""#, 1);
    let supported_value_chars = SUPPORTED_VALUE_CHARS.replacen(r#"""#, r#"\""#, 1);

    let key = supported_key_chars.to_string();
    let value = supported_value_chars
        .replacen(
            "A", r#"A
"#, 1,
        )
        .replacen("B", r#"B	"#, 1);

    let expected_key = supported_key_chars.to_string();
    let expected_value = supported_value_chars
        .replacen("A", r#"A\n"#, 1)
        .replacen("B", r#"B\t"#, 1);

    let json = r#"{""#.to_string() + &key + r#"": ""# + &value + r#""}"#;
    let expected = r#"{""#.to_string() + &expected_key + r#"": ""# + &expected_value + r#""}"#;

    let actual = json_key_quote_utils::json_escape_ctrlchars(&json);
    let actual_second_pass = json_key_quote_utils::json_escape_ctrlchars(&actual);

    assert_eq!(expected, actual);
    assert_eq!(expected, actual_second_pass);
}

#[test]
fn test_json_escape_ctrlchars_unquoted_keys_supported_characters() {
    let supported_value_chars = SUPPORTED_VALUE_CHARS.replacen(r#"""#, r#"\""#, 1);

    let key = SUPPORTED_KEY_CHARS
        .replacen(
            "A", r#"A
"#, 1,
        )
        .replacen("B", r#"B	"#, 1);
    let value = supported_value_chars
        .replacen(
            "A", r#"A
"#, 1,
        )
        .replacen("B", r#"B	"#, 1);

    let expected_value = supported_value_chars
        .replacen("A", r#"A\n"#, 1)
        .replacen("B", r#"B\t"#, 1);

    let json = r#"{"#.to_string() + &key + r#": ""# + &value + r#""}"#;
    let expected = r#"{"#.to_string() + &key + r#": ""# + &expected_value + r#""}"#;

    let actual = json_key_quote_utils::json_escape_ctrlchars(&json);
    let actual_second_pass = json_key_quote_utils::json_escape_ctrlchars(&actual);

    assert_eq!(expected, actual);
    assert_eq!(expected, actual_second_pass);
}

#[test]
fn test_json_unescape_ctrlchars_single_quoted_supported_characters() {
    let supported_key_chars = SUPPORTED_KEY_CHARS.replacen(r#"'"#, r#"\'"#, 1);
    let supported_value_chars = SUPPORTED_VALUE_CHARS.replacen(r#"'"#, r#"\'"#, 1);

    let key = supported_key_chars.to_string();
    let value = supported_value_chars
        .replacen("A", r#"A\n"#, 1)
        .replacen("B", r#"B\t"#, 1);

    let expected_key = supported_key_chars.to_string();
    let expected_value = supported_value_chars
        .replacen(
            "A", r#"A
"#, 1,
        )
        .replacen("B", r#"B	"#, 1);

    let json = r#"{"#.to_string() + &key + r#": '"# + &value + r#"'}"#;
    let expected = r#"{"#.to_string() + &expected_key + r#": '"# + &expected_value + r#"'}"#;

    let actual = json_key_quote_utils::json_unescape_ctrlchars(&json);
    let actual_second_pass = json_key_quote_utils::json_unescape_ctrlchars(&actual);

    assert_eq!(expected, actual);
    assert_eq!(expected, actual_second_pass);
}

#[test]
fn test_json_unescape_ctrlchars_double_quoted_supported_characters() {
    let supported_key_chars = SUPPORTED_KEY_CHARS.replacen(r#"""#, r#"\""#, 1);
    let supported_value_chars = SUPPORTED_VALUE_CHARS.replacen(r#"""#, r#"\""#, 1);

    let key = supported_key_chars.to_string();
    let value = supported_value_chars
        .replacen("A", r#"A\n"#, 1)
        .replacen("B", r#"B\t"#, 1);

    let expected_key = supported_key_chars.to_string();
    let expected_value = supported_value_chars
        .replacen(
            "A", r#"A
"#, 1,
        )
        .replacen("B", r#"B	"#, 1);

    let json = r#"{"#.to_string() + &key + r#": ""# + &value + r#""}"#;
    let expected = r#"{"#.to_string() + &expected_key + r#": ""# + &expected_value + r#""}"#;

    let actual = json_key_quote_utils::json_unescape_ctrlchars(&json);
    let actual_second_pass = json_key_quote_utils::json_unescape_ctrlchars(&actual);

    assert_eq!(expected, actual);
    assert_eq!(expected, actual_second_pass);
}

#[test]
fn test_json_unescape_ctrlchars_double_quoted_keys_supported_characters() {
    let supported_value_chars = SUPPORTED_VALUE_CHARS.replacen(r#"""#, r#"\""#, 1);

    let key = SUPPORTED_KEY_CHARS
        .replacen("A", r#"A\n"#, 1)
        .replacen("B", r#"B\t"#, 1);
    let value = supported_value_chars
        .replacen("A", r#"A\n"#, 1)
        .replacen("B", r#"B\t"#, 1);

    let expected_value = supported_value_chars
        .replacen(
            "A", r#"A
"#, 1,
        )
        .replacen("B", r#"B	"#, 1);

    let json = r#"{""#.to_string() + &key + r#"": ""# + &value + r#""}"#;
    let expected = r#"{""#.to_string() + &key + r#"": ""# + &expected_value + r#""}"#;

    let actual = json_key_quote_utils::json_unescape_ctrlchars(&json);
    let actual_second_pass = json_key_quote_utils::json_unescape_ctrlchars(&actual);

    assert_eq!(expected, actual);
    assert_eq!(expected, actual_second_pass);
}

//! The four passes over JSON text: adding and removing key quotes, and
//! escaping and unescaping control characters.
use vstd::prelude::*;
use crate::rules::{escaped, unescaped, with_key_quotes, without_key_quotes};
use crate::scanner::{rewrite_chars, Pass};
use crate::text::{chars_of, string_of};
use crate::Quotes;

verus! {

/// Puts each bare key between two quotes of `quote_type`.
///
/// A key is a run of key characters after `{`, `[` or `,` that a colon ends;
/// its core is the run without the whitespace around it. Where a value (a
/// string, an object, an array, a number, `null`, `true` or `false`) follows
/// the colon, a core with no quote at either end is quoted; every other part
/// of the text is kept.
pub fn json_add_key_quotes(json: &str, quote_type: Quotes) -> (r: String)
    ensures
        r@ == with_key_quotes(json@, quote_type.spec_char()),
{
    let t = chars_of(json);
    string_of(&rewrite_chars(&t, Pass::AddQuotes(quote_type)))
}

/// Takes the quotes off each quoted key.
///
/// A core between two equal quotes loses them, unless what is left, without
/// the whitespace around it, is itself between two equal quotes; every other
/// part of the text, string values with their quotes included, is kept.
pub fn json_remove_key_quotes(json: &str) -> (r: String)
    ensures
        r@ == without_key_quotes(json@),
{
    let t = chars_of(json);
    string_of(&rewrite_chars(&t, Pass::RemoveQuotes))
}

/// Escapes the control characters of string values and drops those of
/// quoted keys.
///
/// In the body of each string value a newline, carriage return or tab
/// becomes a backslash and `n`, `r` or `t`; the core of each quoted key that
/// a value follows loses its newlines, carriage returns and tabs.
pub fn json_escape_ctrlchars(json: &str) -> (r: String)
    ensures
        r@ == escaped(json@),
{
    let t = chars_of(json);
    string_of(&rewrite_chars(&t, Pass::Escape))
}

/// Restores the escaped control characters of string values and drops the
/// escapes from bare keys.
///
/// In the body of each string value a backslash followed by `n`, `r` or `t`
/// becomes the newline, carriage return or tab that it names; a bare key
/// that a value follows loses those escapes where what is left is still a
/// bare key with no whitespace at either end.
pub fn json_unescape_ctrlchars(json: &str) -> (r: String)
    ensures
        r@ == unescaped(json@),
{
    let t = chars_of(json);
    string_of(&rewrite_chars(&t, Pass::Unescape))
}

} // verus!

//! Conversion between relaxed JSON, whose keys may be bare or quoted with
//! either quote, and strict JSON, whose keys are all quoted.
//!
//! The text is never parsed into a tree: each pass reads it lexeme by lexeme
//! (see `grammar`) and rewrites keys and string values in place, keeping the
//! rest, whitespace included, as it stands. The passes are
//! `json_key_quote_utils::json_add_key_quotes`, `json_remove_key_quotes`,
//! `json_escape_ctrlchars` and `json_unescape_ctrlchars`; `laws` states what
//! holds of them over every text, and `JsonKeyQuoteConverter` chains them.
use vstd::prelude::*;

pub mod grammar;
pub mod rules;
pub mod laws;
mod scanner;
mod text;
pub mod json_key_quote_utils;

verus! {

/// The quote character placed around keys that get quoted.
#[derive(Clone, Copy, PartialEq, Eq, Structural)]
pub enum Quotes {
    DoubleQuote,
    SingleQuote,
}

impl Quotes {
    /// The quote character itself.
    pub open spec fn spec_char(self) -> char {
        match self {
            Quotes::DoubleQuote => '"',
            Quotes::SingleQuote => '\'',
        }
    }

    /// The quote character itself.
    pub fn as_char(&self) -> (r: char)
        ensures
            r == self.spec_char(),
    {
        match self {
            Quotes::DoubleQuote => '"',
            Quotes::SingleQuote => '\'',
        }
    }

    /// The quote as a one-character string.
    pub fn as_str(&self) -> (r: &'static str)
        ensures
            r@ == seq![self.spec_char()],
    {
        match self {
            Quotes::DoubleQuote => {
                proof {
                    reveal_strlit("\"");
                }
                "\""
            },
            Quotes::SingleQuote => {
                proof {
                    reveal_strlit("'");
                }
                "'"
            },
        }
    }
}

/// Keys are double-quoted by default.
impl Default for Quotes {
    fn default() -> (r: Self)
        ensures
            r == Quotes::DoubleQuote,
    {
        Quotes::DoubleQuote
    }
}

/// A JSON text together with the quote to use for keys, to which the passes
/// can be applied one after the other.
pub struct JsonKeyQuoteConverter {
    json: String,
    quote_type: Quotes,
}

impl View for JsonKeyQuoteConverter {
    type V = Seq<char>;

    closed spec fn view(&self) -> Seq<char> {
        self.json@
    }
}

impl JsonKeyQuoteConverter {
    /// The quote that `add_key_quotes` puts around keys.
    pub closed spec fn spec_quote_type(&self) -> Quotes {
        self.quote_type
    }

    /// A converter holding `json`, that quotes keys with `quote_type`.
    pub fn new(json: &str, quote_type: Quotes) -> (r: JsonKeyQuoteConverter)
        ensures
            r@ == json@,
            r.spec_quote_type() == quote_type,
    {
        JsonKeyQuoteConverter { json: json.to_owned(), quote_type }
    }

    /// Quotes the bare keys (see `json_key_quote_utils::json_add_key_quotes`).
    pub fn add_key_quotes(self) -> (r: JsonKeyQuoteConverter)
        ensures
            r@ == rules::with_key_quotes(self@, self.spec_quote_type().spec_char()),
            r.spec_quote_type() == self.spec_quote_type(),
    {
        let json = json_key_quote_utils::json_add_key_quotes(self.json.as_str(), self.quote_type);
        JsonKeyQuoteConverter { json, quote_type: self.quote_type }
    }

    /// Takes the quotes off the keys (see
    /// `json_key_quote_utils::json_remove_key_quotes`).
    pub fn remove_key_quotes(self) -> (r: JsonKeyQuoteConverter)
        ensures
            r@ == rules::without_key_quotes(self@),
            r.spec_quote_type() == self.spec_quote_type(),
    {
        let json = json_key_quote_utils::json_remove_key_quotes(self.json.as_str());
        JsonKeyQuoteConverter { json, quote_type: self.quote_type }
    }

    /// Escapes control characters (see
    /// `json_key_quote_utils::json_escape_ctrlchars`).
    pub fn escape_ctrlchars(self) -> (r: JsonKeyQuoteConverter)
        ensures
            r@ == rules::escaped(self@),
            r.spec_quote_type() == self.spec_quote_type(),
    {
        let json = json_key_quote_utils::json_escape_ctrlchars(self.json.as_str());
        JsonKeyQuoteConverter { json, quote_type: self.quote_type }
    }

    /// Restores escaped control characters (see
    /// `json_key_quote_utils::json_unescape_ctrlchars`).
    pub fn unescape_ctrlchars(self) -> (r: JsonKeyQuoteConverter)
        ensures
            r@ == rules::unescaped(self@),
            r.spec_quote_type() == self.spec_quote_type(),
    {
        let json = json_key_quote_utils::json_unescape_ctrlchars(self.json.as_str());
        JsonKeyQuoteConverter { json, quote_type: self.quote_type }
    }

    /// The JSON text.
    pub fn json(self) -> (r: String)
        ensures
            r@ == self@,
    {
        self.json
    }
}

} // verus!

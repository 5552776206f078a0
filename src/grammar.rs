//! The lexical model of relaxed JSON text.
//!
//! A text is read left to right as a sequence of lexemes:
//! - a key: a delimiter (`{`, `[` or `,`) followed by a run of key characters
//!   that a colon ends; the key records whether a value follows the colon;
//! - a string value: a colon, optional whitespace, a quote, a body in which a
//!   backslash escapes the next character, and the matching closing quote
//!   (or the end of the text);
//! - plain text: everything else, copied as it stands.
//!
//! Every pass of this library rewrites the runs of keys and the bodies of
//! string values, and copies the rest.
use vstd::prelude::*;

verus! {

/// Whitespace: the characters of Unicode's White_Space property.
pub open spec fn is_ws(c: char) -> bool {
    c == ' ' || ('\t' as u32 <= c as u32 && c as u32 <= '\r' as u32) || c == '\u{85}' || c
        == '\u{A0}' || c == '\u{1680}' || ('\u{2000}' as u32 <= c as u32 && c as u32
        <= '\u{200A}' as u32) || c == '\u{2028}' || c == '\u{2029}' || c == '\u{202F}' || c
        == '\u{205F}' || c == '\u{3000}'
}

pub open spec fn is_quote(c: char) -> bool {
    c == '"' || c == '\''
}

pub open spec fn is_delim(c: char) -> bool {
    c == '{' || c == '[' || c == ','
}

/// The control characters that the escape passes handle.
pub open spec fn is_ctrl(c: char) -> bool {
    c == '\n' || c == '\r' || c == '\t'
}

/// The characters that a key may hold: ASCII letters and digits, whitespace,
/// both quotes, the euro sign and a fixed set of punctuation.
pub open spec fn is_key_char(c: char) -> bool {
    ('A' as u32 <= c as u32 && c as u32 <= 'Z' as u32) || ('a' as u32 <= c as u32 && c as u32
        <= 'z' as u32) || ('0' as u32 <= c as u32 && c as u32 <= '9' as u32) || is_ws(c) || c
        == '`' || c == '~' || c == '!' || c == '@' || c == '#' || c == '$' || c == '%' || c
        == '\u{20AC}' || c == '^' || c == '&' || c == '*' || c == '(' || c == ')' || c == '-' || c
        == '_' || c == '=' || c == '+' || c == '\\' || c == '|' || c == ';' || c == '"' || c
        == '\'' || c == '.' || c == '<' || c == '>' || c == '/' || c == '?'
}

pub open spec fn ws_class() -> spec_fn(char) -> bool {
    |c: char| is_ws(c)
}

pub open spec fn key_class() -> spec_fn(char) -> bool {
    |c: char| is_key_char(c)
}

pub open spec fn all_in(s: Seq<char>, p: spec_fn(char) -> bool) -> bool {
    forall|i: int| 0 <= i < s.len() ==> #[trigger] p(s[i])
}

/// The number of leading characters of `s` that satisfy `p`.
pub open spec fn span(s: Seq<char>, p: spec_fn(char) -> bool) -> nat
    decreases s.len(),
{
    if s.len() > 0 && p(s[0]) {
        1 + span(s.skip(1), p)
    } else {
        0
    }
}

/// The length of a string body that starts `s` and that the quote `q` closes:
/// a backslash takes the next character with it; a lone backslash at the end
/// of the text ends the body.
pub open spec fn body_span(s: Seq<char>, q: char) -> nat
    decreases s.len(),
{
    if s.len() == 0 || s[0] == q {
        0
    } else if s[0] == '\\' {
        if s.len() >= 2 {
            2 + body_span(s.skip(2), q)
        } else {
            1
        }
    } else {
        1 + body_span(s.skip(1), q)
    }
}

/// `b` is a sequence of whole units of a body closed by `q`: characters other
/// than `q` and backslash, and backslash pairs.
pub open spec fn unit_seq(b: Seq<char>, q: char) -> bool
    decreases b.len(),
{
    if b.len() == 0 {
        true
    } else if b[0] == '\\' {
        b.len() >= 2 && unit_seq(b.skip(2), q)
    } else {
        b[0] != q && unit_seq(b.skip(1), q)
    }
}

/// `b` is the body of a string that the end of the text cuts off.
pub open spec fn open_body(b: Seq<char>, q: char) -> bool {
    body_span(b, q) == b.len()
}

/// A character that starts a string, an object, an array or a number.
pub open spec fn is_value_start(c: char) -> bool {
    is_quote(c) || c == '{' || c == '[' || c == '-' || c == '.' || ('0' as u32 <= c as u32 && c as u32
        <= '9' as u32)
}

pub open spec fn starts_with(v: Seq<char>, w: Seq<char>) -> bool {
    w.len() <= v.len() && v.subrange(0, w.len() as int) == w
}

/// After optional whitespace, `v` starts with a value: a string, an object,
/// an array, a number, `null`, `true` or `false`.
pub open spec fn value_follows(v: Seq<char>) -> bool {
    let w = span(v, ws_class()) as int;
    w < v.len() && (is_value_start(v[w]) || starts_with(v.skip(w), seq!['n', 'u', 'l', 'l'])
        || starts_with(v.skip(w), seq!['t', 'r', 'u', 'e']) || starts_with(
        v.skip(w),
        seq!['f', 'a', 'l', 's', 'e'],
    ))
}

/// A lexeme of a text. A key records whether a value follows its colon.
pub enum Lexeme {
    Key { delim: char, run: Seq<char>, shaped: bool },
    Plain { text: Seq<char> },
    Str { lead: Seq<char>, quote: char, body: Seq<char>, closed: bool },
}

/// The lexeme at the start of a non-empty text.
pub open spec fn lexeme(t: Seq<char>) -> Lexeme {
    let c = t[0];
    if is_delim(c) {
        let r = span(t.skip(1), key_class()) as int;
        if 1 + r < t.len() && t[1 + r] == ':' {
            Lexeme::Key {
                delim: c,
                run: t.subrange(1, 1 + r),
                shaped: value_follows(t.skip(2 + r)),
            }
        } else {
            Lexeme::Plain { text: t.subrange(0, 1 + r) }
        }
    } else if c == ':' {
        let w = span(t.skip(1), ws_class()) as int;
        if 1 + w < t.len() && is_quote(t[1 + w]) {
            let q = t[1 + w];
            let b = body_span(t.skip(2 + w), q) as int;
            Lexeme::Str {
                lead: t.subrange(0, 1 + w),
                quote: q,
                body: t.subrange(2 + w, 2 + w + b),
                closed: 2 + w + b < t.len(),
            }
        } else {
            Lexeme::Plain { text: t.subrange(0, 1 + w) }
        }
    } else {
        Lexeme::Plain { text: t.subrange(0, 1) }
    }
}

pub open spec fn render(x: Lexeme) -> Seq<char> {
    match x {
        Lexeme::Key { delim, run, shaped } => seq![delim] + run,
        Lexeme::Plain { text } => text,
        Lexeme::Str { lead, quote, body, closed } => lead + seq![quote] + body + if closed {
            seq![quote]
        } else {
            Seq::empty()
        },
    }
}

pub open spec fn map_lexeme(
    fk: spec_fn(Seq<char>, bool) -> Seq<char>,
    fb: spec_fn(char, Seq<char>) -> Seq<char>,
    x: Lexeme,
) -> Lexeme {
    match x {
        Lexeme::Key { delim, run, shaped } => Lexeme::Key { delim, run: fk(run, shaped), shaped },
        Lexeme::Plain { text } => x,
        Lexeme::Str { lead, quote, body, closed } => Lexeme::Str {
            lead,
            quote,
            body: fb(quote, body),
            closed,
        },
    }
}

/// The text with the run of each key replaced by `fk` of it and of whether a
/// value follows, and the body of each string value by `fb` of its quote and
/// body.
pub open spec fn rewrite(
    fk: spec_fn(Seq<char>, bool) -> Seq<char>,
    fb: spec_fn(char, Seq<char>) -> Seq<char>,
    t: Seq<char>,
) -> Seq<char>
    decreases t.len(),
{
    if t.len() == 0 {
        Seq::empty()
    } else {
        let x = lexeme(t);
        let n = render(x).len();
        if 0 < n <= t.len() {
            render(map_lexeme(fk, fb, x)) + rewrite(fk, fb, t.skip(n as int))
        } else {
            t
        }
    }
}

/// Each lexeme of `t` meets `pk` (keys, by their run) or `pb` (string values,
/// by their quote and body).
pub open spec fn lexemes_satisfy(
    pk: spec_fn(Seq<char>) -> bool,
    pb: spec_fn(char, Seq<char>) -> bool,
    t: Seq<char>,
) -> bool
    decreases t.len(),
{
    if t.len() == 0 {
        true
    } else {
        let x = lexeme(t);
        let n = render(x).len();
        if 0 < n <= t.len() {
            &&& match x {
                Lexeme::Key { delim, run, shaped } => pk(run),
                Lexeme::Plain { text } => true,
                Lexeme::Str { lead, quote, body, closed } => pb(quote, body),
            }
            &&& lexemes_satisfy(pk, pb, t.skip(n as int))
        } else {
            true
        }
    }
}

/// The string values of `t`, in order, each as it stands in `t`: the colon
/// and whitespace before it, its quotes and its body.
pub open spec fn string_values(t: Seq<char>) -> Seq<Seq<char>>
    decreases t.len(),
{
    if t.len() == 0 {
        Seq::empty()
    } else {
        let x = lexeme(t);
        let n = render(x).len();
        if 0 < n <= t.len() {
            match x {
                Lexeme::Str { lead, quote, body, closed } => seq![render(x)] + string_values(
                    t.skip(n as int),
                ),
                _ => string_values(t.skip(n as int)),
            }
        } else {
            Seq::empty()
        }
    }
}

/// A rewrite of keys and bodies that leaves the lexical structure in place:
/// a run stays a run of key characters, a body stays a body of its kind.
pub open spec fn keeps_structure(
    fk: spec_fn(Seq<char>, bool) -> Seq<char>,
    fb: spec_fn(char, Seq<char>) -> Seq<char>,
) -> bool {
    &&& forall|r: Seq<char>, sh: bool|
        all_in(r, key_class()) ==> all_in(#[trigger] fk(r, sh), key_class())
    &&& forall|q: char, b: Seq<char>|
        is_quote(q) && unit_seq(b, q) ==> unit_seq(#[trigger] fb(q, b), q)
    &&& forall|q: char, b: Seq<char>|
        is_quote(q) && open_body(b, q) ==> open_body(#[trigger] fb(q, b), q)
}

// ---------------------------------------------------------------------------
// Spans
pub proof fn lemma_span(s: Seq<char>, p: spec_fn(char) -> bool)
    ensures
        span(s, p) <= s.len(),
        forall|i: int| 0 <= i < span(s, p) ==> #[trigger] p(s[i]),
        span(s, p) < s.len() ==> !p(s[span(s, p) as int]),
    decreases s.len(),
{
    if s.len() > 0 && p(s[0]) {
        lemma_span(s.skip(1), p);
        assert forall|i: int| 0 <= i < span(s, p) implies #[trigger] p(s[i]) by {
            if i > 0 {
                assert(s[i] == s.skip(1)[i - 1]);
            }
        }
    }
}

pub proof fn lemma_span_concat(a: Seq<char>, b: Seq<char>, p: spec_fn(char) -> bool)
    requires
        all_in(a, p),
    ensures
        span(a + b, p) == a.len() + span(b, p),
    decreases a.len(),
{
    if a.len() == 0 {
        assert(a + b =~= b);
    } else {
        assert(p(a[0]));
        assert((a + b).skip(1) =~= a.skip(1) + b);
        lemma_span_concat(a.skip(1), b, p);
    }
}

pub proof fn lemma_span_stop(s: Seq<char>, p: spec_fn(char) -> bool)
    requires
        s.len() == 0 || !p(s[0]),
    ensures
        span(s, p) == 0,
{
}

// ---------------------------------------------------------------------------
// Bodies
pub proof fn lemma_body_span_bound(s: Seq<char>, q: char)
    ensures
        body_span(s, q) <= s.len(),
    decreases s.len(),
{
    if s.len() > 0 && s[0] != q {
        if s[0] == '\\' {
            if s.len() >= 2 {
                lemma_body_span_bound(s.skip(2), q);
            }
        } else {
            lemma_body_span_bound(s.skip(1), q);
        }
    }
}

/// A body that stops before the end stops at its closing quote, after whole units.
pub proof fn lemma_body_span_closed(s: Seq<char>, q: char)
    requires
        body_span(s, q) < s.len(),
    ensures
        s[body_span(s, q) as int] == q,
        unit_seq(s.subrange(0, body_span(s, q) as int), q),
    decreases s.len(),
{
    let n = body_span(s, q) as int;
    if s[0] == q {
        assert(s.subrange(0, 0) =~= Seq::<char>::empty());
    } else if s[0] == '\\' {
        let t = s.skip(2);
        lemma_body_span_closed(t, q);
        assert(s[n] == t[n - 2]);
        let b = s.subrange(0, n);
        assert(b.skip(2) =~= t.subrange(0, n - 2));
    } else {
        let t = s.skip(1);
        lemma_body_span_closed(t, q);
        assert(s[n] == t[n - 1]);
        let b = s.subrange(0, n);
        assert(b.skip(1) =~= t.subrange(0, n - 1));
    }
}

pub proof fn lemma_unit_seq_concat(b: Seq<char>, s: Seq<char>, q: char)
    requires
        q != '\\',
        unit_seq(b, q),
    ensures
        body_span(b + s, q) == b.len() + body_span(s, q),
    decreases b.len(),
{
    if b.len() == 0 {
        assert(b + s =~= s);
    } else if b[0] == '\\' {
        assert((b + s)[0] == b[0]);
        assert((b + s).skip(2) =~= b.skip(2) + s);
        lemma_unit_seq_concat(b.skip(2), s, q);
    } else {
        assert((b + s)[0] == b[0]);
        assert((b + s).skip(1) =~= b.skip(1) + s);
        lemma_unit_seq_concat(b.skip(1), s, q);
    }
}

// ---------------------------------------------------------------------------
// Lexemes
/// The facts about the lexeme at the start of `t` that the rewrite relies on.
pub proof fn lemma_lexeme(t: Seq<char>)
    requires
        t.len() > 0,
    ensures
        0 < render(lexeme(t)).len() <= t.len(),
        render(lexeme(t)) =~= t.subrange(0, render(lexeme(t)).len() as int),
        ({
            let n = render(lexeme(t)).len() as int;
            match lexeme(t) {
                Lexeme::Key { delim, run, shaped } => {
                    &&& is_delim(delim)
                    &&& all_in(run, key_class())
                    &&& n < t.len()
                    &&& t[n] == ':'
                },
                Lexeme::Plain { text } => {
                    &&& !is_delim(t[0]) && t[0] != ':' ==> n == 1
                    &&& is_delim(t[0]) ==> all_in(text.skip(1), key_class()) && (n == t.len() || (
                    !is_key_char(t[n]) && t[n] != ':'))
                    &&& t[0] == ':' ==> all_in(text.skip(1), ws_class()) && (n == t.len() || (
                    !is_ws(t[n]) && !is_quote(t[n])))
                },
                Lexeme::Str { lead, quote, body, closed } => {
                    &&& lead.len() > 0
                    &&& lead[0] == ':'
                    &&& all_in(lead.skip(1), ws_class())
                    &&& is_quote(quote)
                    &&& closed ==> unit_seq(body, quote)
                    &&& !closed ==> open_body(body, quote) && n == t.len()
                },
            }
        }),
{
    let c = t[0];
    if is_delim(c) {
        let s = t.skip(1);
        lemma_span(s, key_class());
        let r = span(s, key_class()) as int;
        assert forall|i: int| 0 <= i < r implies #[trigger] key_class()(t.subrange(1, 1 + r)[i]) by {
            assert(key_class()(s[i]));
        }
        assert(t.subrange(0, 1 + r).skip(1) =~= t.subrange(1, 1 + r));
        if 1 + r < t.len() {
            assert(t[1 + r] == s[r]);
        }
    } else if c == ':' {
        let s = t.skip(1);
        lemma_span(s, ws_class());
        let w = span(s, ws_class()) as int;
        assert forall|i: int| 0 <= i < w implies #[trigger] ws_class()(t.subrange(0, 1 + w).skip(
            1,
        )[i]) by {
            assert(ws_class()(s[i]));
        }
        if 1 + w < t.len() {
            assert(t[1 + w] == s[w]);
        }
        if 1 + w < t.len() && is_quote(t[1 + w]) {
            let q = t[1 + w];
            let u = t.skip(2 + w);
            lemma_body_span_bound(u, q);
            let b = body_span(u, q) as int;
            assert(u.subrange(0, b) =~= t.subrange(2 + w, 2 + w + b));
            if 2 + w + b < t.len() {
                lemma_body_span_closed(u, q);
                assert(t[2 + w + b] == u[b]);
            } else {
                assert(u =~= t.subrange(2 + w, 2 + w + b));
            }
        }
    }
}

pub open spec fn any_key() -> spec_fn(Seq<char>) -> bool {
    |r: Seq<char>| true
}

pub open spec fn any_body() -> spec_fn(char, Seq<char>) -> bool {
    |q: char, b: Seq<char>| true
}

pub proof fn lemma_rewrite_unfold(
    fk: spec_fn(Seq<char>, bool) -> Seq<char>,
    fb: spec_fn(char, Seq<char>) -> Seq<char>,
    t: Seq<char>,
)
    requires
        t.len() > 0,
    ensures
        rewrite(fk, fb, t) == render(map_lexeme(fk, fb, lexeme(t))) + rewrite(
            fk,
            fb,
            t.skip(render(lexeme(t)).len() as int),
        ),
{
    lemma_lexeme(t);
}

/// A rewrite keeps the first character, and so the emptiness, of the text.
pub proof fn lemma_first_char(
    fk: spec_fn(Seq<char>, bool) -> Seq<char>,
    fb: spec_fn(char, Seq<char>) -> Seq<char>,
    t: Seq<char>,
)
    ensures
        t.len() == 0 ==> rewrite(fk, fb, t).len() == 0,
        t.len() > 0 ==> rewrite(fk, fb, t).len() > 0 && rewrite(fk, fb, t)[0] == t[0],
{
    if t.len() > 0 {
        lemma_lexeme(t);
        let x = lexeme(t);
        let y = map_lexeme(fk, fb, x);
        let rest = rewrite(fk, fb, t.skip(render(x).len() as int));
        assert(render(x)[0] == t[0]);
        match x {
            Lexeme::Key { delim, run, shaped } => {
                assert(render(y)[0] == delim);
            },
            Lexeme::Plain { text } => {},
            Lexeme::Str { lead, quote, body, closed } => {
                assert(render(y)[0] == lead[0]);
                assert(render(x)[0] == lead[0]);
            },
        }
        assert((render(y) + rest)[0] == render(y)[0]);
    }
}

/// Reading a rewritten lexeme, followed by what the rest of the text was
/// rewritten to, gives back the rewritten lexeme.
pub proof fn lemma_relex(
    fk: spec_fn(Seq<char>, bool) -> Seq<char>,
    fb: spec_fn(char, Seq<char>) -> Seq<char>,
    t: Seq<char>,
    s: Seq<char>,
)
    requires
        keeps_structure(fk, fb),
        t.len() > 0,
        (s.len() == 0) == (render(lexeme(t)).len() == t.len()),
        s.len() > 0 ==> s[0] == t[render(lexeme(t)).len() as int],
        s.len() > 0 && s[0] == ':' ==> value_follows(s.skip(1)) == value_follows(
            t.skip(render(lexeme(t)).len() + 1 as int),
        ),
    ensures
        lexeme(render(map_lexeme(fk, fb, lexeme(t))) + s) == map_lexeme(fk, fb, lexeme(t)),
{
    lemma_lexeme(t);
    let x = lexeme(t);
    let n = render(x).len() as int;
    let y = map_lexeme(fk, fb, x);
    let u = render(y) + s;
    match x {
        Lexeme::Key { delim, run, shaped } => {
            let k = fk(run, shaped);
            assert(all_in(k, key_class()));
            assert(u[0] == delim);
            assert(u.skip(1) =~= k + s);
            lemma_span_concat(k, s, key_class());
            assert(!key_class()(s[0]));
            lemma_span_stop(s, key_class());
            assert(u[1 + k.len() as int] == s[0]);
            assert(u.subrange(1, 1 + k.len() as int) =~= k);
            assert(u.skip(2 + k.len() as int) =~= s.skip(1));
        },
        Lexeme::Plain { text } => {
            assert(u[0] == t[0]);
            if is_delim(t[0]) {
                let r = text.skip(1);
                assert(u.skip(1) =~= r + s);
                lemma_span_concat(r, s, key_class());
                if s.len() > 0 {
                    assert(!key_class()(s[0]));
                    assert(u[n] == s[0]);
                }
                lemma_span_stop(s, key_class());
                assert(u.subrange(0, n) =~= text);
            } else if t[0] == ':' {
                let r = text.skip(1);
                assert(u.skip(1) =~= r + s);
                lemma_span_concat(r, s, ws_class());
                if s.len() > 0 {
                    assert(!ws_class()(s[0]));
                    assert(u[n] == s[0]);
                }
                lemma_span_stop(s, ws_class());
                assert(u.subrange(0, n) =~= text);
            } else {
                assert(u.subrange(0, 1) =~= text);
            }
        },
        Lexeme::Str { lead, quote, body, closed } => {
            let b = fb(quote, body);
            let w = lead.len() - 1 as int;
            assert(u[0] == ':');
            let tail = if closed {
                seq![quote]
            } else {
                Seq::empty()
            };
            assert(u.skip(1) =~= lead.skip(1) + (seq![quote] + b + tail + s));
            lemma_span_concat(lead.skip(1), seq![quote] + b + tail + s, ws_class());
            assert((seq![quote] + b + tail + s)[0] == quote);
            lemma_span_stop(seq![quote] + b + tail + s, ws_class());
            assert(u[1 + w] == quote);
            assert(u.subrange(0, 1 + w) =~= lead);
            if closed {
                assert(unit_seq(b, quote));
                assert(u.skip(2 + w) =~= b + (seq![quote] + s));
                lemma_unit_seq_concat(b, seq![quote] + s, quote);
                assert((seq![quote] + s)[0] == quote);
            } else {
                assert(open_body(b, quote));
                assert(s.len() == 0);
                assert(u.skip(2 + w) =~= b);
            }
            assert(u.subrange(2 + w, 2 + w + b.len() as int) =~= b);
        },
    }
}

/// Rewriting twice is one rewrite with the composed maps, wherever the first
/// rewrite keeps the structure.
pub proof fn lemma_compose(
    fk1: spec_fn(Seq<char>, bool) -> Seq<char>,
    fb1: spec_fn(char, Seq<char>) -> Seq<char>,
    fk2: spec_fn(Seq<char>, bool) -> Seq<char>,
    fb2: spec_fn(char, Seq<char>) -> Seq<char>,
    fk3: spec_fn(Seq<char>, bool) -> Seq<char>,
    fb3: spec_fn(char, Seq<char>) -> Seq<char>,
    pk: spec_fn(Seq<char>) -> bool,
    pb: spec_fn(char, Seq<char>) -> bool,
    t: Seq<char>,
)
    requires
        keeps_structure(fk1, fb1),
        forall|r: Seq<char>, sh: bool|
            all_in(r, key_class()) && pk(r) ==> #[trigger] fk2(fk1(r, sh), sh) == fk3(r, sh),
        forall|q: char, b: Seq<char>|
            is_quote(q) && (unit_seq(b, q) || open_body(b, q)) && #[trigger] pb(q, b) ==> fb2(
                q,
                fb1(q, b),
            ) == fb3(q, b),
        lexemes_satisfy(pk, pb, t),
    ensures
        rewrite(fk2, fb2, rewrite(fk1, fb1, t)) == rewrite(fk3, fb3, t),
    decreases t.len(),
{
    if t.len() > 0 {
        lemma_lexeme(t);
        let x = lexeme(t);
        let n = render(x).len() as int;
        let y = map_lexeme(fk1, fb1, x);
        let s = rewrite(fk1, fb1, t.skip(n));
        lemma_first_char(fk1, fb1, t.skip(n));
        if s.len() > 0 {
            assert(t.skip(n)[0] == t[n]);
            if s[0] == ':' {
                lemma_colon_kept(fk1, fb1, t.skip(n));
                assert(t.skip(n).skip(1) =~= t.skip(n + 1));
            }
        }
        lemma_relex(fk1, fb1, t, s);
        let u = render(y) + s;
        assert(rewrite(fk1, fb1, t) == u);
        lemma_lexeme(u);
        assert(u.skip(render(y).len() as int) =~= s);
        lemma_rewrite_unfold(fk2, fb2, u);
        assert(map_lexeme(fk2, fb2, y) == map_lexeme(fk3, fb3, x));
        lemma_compose(fk1, fb1, fk2, fb2, fk3, fb3, pk, pb, t.skip(n));
    }
}

pub proof fn lemma_all_satisfy(t: Seq<char>)
    ensures
        lexemes_satisfy(any_key(), any_body(), t),
    decreases t.len(),
{
    if t.len() > 0 {
        lemma_lexeme(t);
        lemma_all_satisfy(t.skip(render(lexeme(t)).len() as int));
    }
}

/// A rewrite whose maps leave each lexeme of `t` as it is leaves `t` as it is.
pub proof fn lemma_rewrite_identity(
    fk: spec_fn(Seq<char>, bool) -> Seq<char>,
    fb: spec_fn(char, Seq<char>) -> Seq<char>,
    pk: spec_fn(Seq<char>) -> bool,
    pb: spec_fn(char, Seq<char>) -> bool,
    t: Seq<char>,
)
    requires
        forall|r: Seq<char>, sh: bool|
            all_in(r, key_class()) && #[trigger] pk(r) ==> #[trigger] fk(r, sh) == r,
        forall|q: char, b: Seq<char>|
            is_quote(q) && (unit_seq(b, q) || open_body(b, q)) && #[trigger] pb(q, b) ==> fb(q, b)
                == b,
        lexemes_satisfy(pk, pb, t),
    ensures
        rewrite(fk, fb, t) == t,
    decreases t.len(),
{
    if t.len() > 0 {
        lemma_lexeme(t);
        let x = lexeme(t);
        let n = render(x).len() as int;
        assert(map_lexeme(fk, fb, x) == x);
        lemma_rewrite_identity(fk, fb, pk, pb, t.skip(n));
        assert(t.subrange(0, n) + t.skip(n) =~= t);
    }
}

/// A rewrite that keeps every body keeps the string values.
pub proof fn lemma_string_values(
    fk: spec_fn(Seq<char>, bool) -> Seq<char>,
    fb: spec_fn(char, Seq<char>) -> Seq<char>,
    t: Seq<char>,
)
    requires
        keeps_structure(fk, fb),
        forall|q: char, b: Seq<char>|
            is_quote(q) && (unit_seq(b, q) || open_body(b, q)) ==> #[trigger] fb(q, b) == b,
    ensures
        string_values(rewrite(fk, fb, t)) == string_values(t),
    decreases t.len(),
{
    if t.len() > 0 {
        lemma_lexeme(t);
        let x = lexeme(t);
        let n = render(x).len() as int;
        let y = map_lexeme(fk, fb, x);
        let s = rewrite(fk, fb, t.skip(n));
        lemma_first_char(fk, fb, t.skip(n));
        if s.len() > 0 {
            assert(t.skip(n)[0] == t[n]);
            if s[0] == ':' {
                lemma_colon_kept(fk, fb, t.skip(n));
                assert(t.skip(n).skip(1) =~= t.skip(n + 1));
            }
        }
        lemma_relex(fk, fb, t, s);
        let u = render(y) + s;
        lemma_lexeme(u);
        assert(u.skip(render(y).len() as int) =~= s);
        lemma_string_values(fk, fb, t.skip(n));
    }
}

/// Neither a delimiter nor a colon: a character that a rewrite copies alone.
pub open spec fn is_plain_char(c: char) -> bool {
    !is_delim(c) && c != ':'
}

pub proof fn lemma_starts_with_cons(v: Seq<char>, w: Seq<char>)
    requires
        w.len() > 0,
    ensures
        starts_with(v, w) == (v.len() > 0 && v[0] == w[0] && starts_with(v.skip(1), w.skip(1))),
{
    if starts_with(v, w) {
        assert(v.subrange(0, w.len() as int)[0] == v[0]);
        assert(v.skip(1).subrange(0, w.len() - 1) =~= v.subrange(0, w.len() as int).skip(1));
    }
    if v.len() > 0 && v[0] == w[0] && starts_with(v.skip(1), w.skip(1)) {
        assert(v.subrange(0, w.len() as int) =~= w) by {
            assert forall|i: int| 0 <= i < w.len() implies v.subrange(0, w.len() as int)[i] == w[i] by {
                if i > 0 {
                    assert(v.skip(1).subrange(0, w.len() - 1)[i - 1] == w.skip(1)[i - 1]);
                }
            }
        }
    }
}

/// A rewrite keeps whether the text starts with a word of plain characters.
pub proof fn lemma_word_kept(
    fk: spec_fn(Seq<char>, bool) -> Seq<char>,
    fb: spec_fn(char, Seq<char>) -> Seq<char>,
    v: Seq<char>,
    w: Seq<char>,
)
    requires
        forall|i: int| 0 <= i < w.len() ==> is_plain_char(#[trigger] w[i]),
    ensures
        starts_with(rewrite(fk, fb, v), w) == starts_with(v, w),
    decreases w.len(),
{
    if w.len() == 0 {
        assert(rewrite(fk, fb, v).subrange(0, 0) =~= w);
        assert(v.subrange(0, 0) =~= w);
    } else {
        lemma_first_char(fk, fb, v);
        lemma_starts_with_cons(v, w);
        lemma_starts_with_cons(rewrite(fk, fb, v), w);
        if v.len() > 0 && is_plain_char(v[0]) {
            lemma_lexeme(v);
            lemma_rewrite_unfold(fk, fb, v);
            let x = lexeme(v);
            assert(render(x).len() == 1);
            assert(rewrite(fk, fb, v).skip(1) =~= rewrite(fk, fb, v.skip(1)));
            assert forall|i: int| 0 <= i < w.skip(1).len() implies is_plain_char(
                #[trigger] w.skip(1)[i],
            ) by {
                assert(w.skip(1)[i] == w[i + 1]);
            }
            lemma_word_kept(fk, fb, v.skip(1), w.skip(1));
        } else {
            assert(is_plain_char(w[0]));
        }
    }
}

/// The colon lexeme of `c` is a string value, and a value follows the colon
/// before and after the rewrite.
proof fn lemma_colon_kept_str(
    fk: spec_fn(Seq<char>, bool) -> Seq<char>,
    fb: spec_fn(char, Seq<char>) -> Seq<char>,
    c: Seq<char>,
)
    requires
        c.len() > 0,
        c[0] == ':',
        lexeme(c) is Str,
    ensures
        value_follows(rewrite(fk, fb, c).skip(1)),
        value_follows(c.skip(1)),
{
    lemma_lexeme(c);
    lemma_rewrite_unfold(fk, fb, c);
    let x = lexeme(c);
    let n = render(x).len() as int;
    let out = rewrite(fk, fb, c);
    let rest = rewrite(fk, fb, c.skip(n));
    let lead = x->lead;
    let quote = x->quote;
    let after = render(map_lexeme(fk, fb, x)).skip(lead.len() as int) + rest;
    assert(render(map_lexeme(fk, fb, x)) =~= lead + render(map_lexeme(fk, fb, x)).skip(
        lead.len() as int,
    ));
    assert(out =~= lead + after);
    assert(out.skip(1) =~= lead.skip(1) + after);
    lemma_span_concat(lead.skip(1), after, ws_class());
    assert(after[0] == quote);
    lemma_span_stop(after, ws_class());
    assert(out.skip(1)[lead.len() - 1] == quote);
    let orig = c.skip(lead.len() as int);
    assert(c =~= lead + orig);
    assert(c.skip(1) =~= lead.skip(1) + orig);
    assert(orig[0] == quote);
    lemma_span_concat(lead.skip(1), orig, ws_class());
    lemma_span_stop(orig, ws_class());
    assert(c.skip(1)[lead.len() - 1] == quote);
}

/// After whitespace, the same text follows or not, and the same first
/// character and words.
proof fn lemma_value_follows_same(ws: Seq<char>, a: Seq<char>, b: Seq<char>)
    requires
        all_in(ws, ws_class()),
        a.len() == 0 <==> b.len() == 0,
        a.len() > 0 ==> a[0] == b[0] && !is_ws(a[0]),
        starts_with(a, seq!['n', 'u', 'l', 'l']) == starts_with(b, seq!['n', 'u', 'l', 'l']),
        starts_with(a, seq!['t', 'r', 'u', 'e']) == starts_with(b, seq!['t', 'r', 'u', 'e']),
        starts_with(a, seq!['f', 'a', 'l', 's', 'e']) == starts_with(
            b,
            seq!['f', 'a', 'l', 's', 'e'],
        ),
    ensures
        value_follows(ws + a) == value_follows(ws + b),
{
    lemma_span_concat(ws, a, ws_class());
    lemma_span_concat(ws, b, ws_class());
    lemma_span_stop(a, ws_class());
    lemma_span_stop(b, ws_class());
    assert((ws + a).skip(ws.len() as int) =~= a);
    assert((ws + b).skip(ws.len() as int) =~= b);
    if a.len() > 0 {
        assert((ws + a)[ws.len() as int] == a[0]);
        assert((ws + b)[ws.len() as int] == b[0]);
    }
}

/// A rewrite keeps whether a value follows a colon.
pub proof fn lemma_colon_kept(
    fk: spec_fn(Seq<char>, bool) -> Seq<char>,
    fb: spec_fn(char, Seq<char>) -> Seq<char>,
    c: Seq<char>,
)
    requires
        c.len() > 0,
        c[0] == ':',
    ensures
        value_follows(rewrite(fk, fb, c).skip(1)) == value_follows(c.skip(1)),
{
    lemma_lexeme(c);
    if lexeme(c) is Str {
        lemma_colon_kept_str(fk, fb, c);
    } else {
        lemma_rewrite_unfold(fk, fb, c);
        let x = lexeme(c);
        let n = render(x).len() as int;
        let text = x->text;
        let v = c.skip(n);
        let rest = rewrite(fk, fb, v);
        let ws = text.skip(1);
        lemma_first_char(fk, fb, v);
        assert(rewrite(fk, fb, c) =~= text + rest);
        assert(rewrite(fk, fb, c).skip(1) =~= ws + rest);
        assert(c =~= text + v);
        assert(c.skip(1) =~= ws + v);
        if v.len() > 0 {
            assert(v[0] == c[n]);
        }
        let null = seq!['n', 'u', 'l', 'l'];
        let tru = seq!['t', 'r', 'u', 'e'];
        let fals = seq!['f', 'a', 'l', 's', 'e'];
        assert forall|i: int| 0 <= i < null.len() implies is_plain_char(#[trigger] null[i]) by {}
        assert forall|i: int| 0 <= i < tru.len() implies is_plain_char(#[trigger] tru[i]) by {}
        assert forall|i: int| 0 <= i < fals.len() implies is_plain_char(#[trigger] fals[i]) by {}
        lemma_word_kept(fk, fb, v, null);
        lemma_word_kept(fk, fb, v, tru);
        lemma_word_kept(fk, fb, v, fals);
        lemma_value_follows_same(ws, rest, v);
    }
}

pub proof fn lemma_filter3(a: Seq<char>, b: Seq<char>, c: Seq<char>, p: spec_fn(char) -> bool)
    ensures
        (a + b + c).filter(p) == a.filter(p) + b.filter(p) + c.filter(p),
{
    Seq::filter_distributes_over_add(a, b, p);
    Seq::filter_distributes_over_add(a + b, c, p);
}

/// A rewrite whose key map keeps the characters that satisfy `p`, and that
/// keeps every body, keeps the characters of the text that satisfy `p`.
pub proof fn lemma_rewrite_filter(
    fk: spec_fn(Seq<char>, bool) -> Seq<char>,
    fb: spec_fn(char, Seq<char>) -> Seq<char>,
    p: spec_fn(char) -> bool,
    t: Seq<char>,
)
    requires
        forall|r: Seq<char>, sh: bool|
            all_in(r, key_class()) ==> (#[trigger] fk(r, sh)).filter(p) == r.filter(p),
        forall|q: char, b: Seq<char>|
            is_quote(q) && (unit_seq(b, q) || open_body(b, q)) ==> #[trigger] fb(q, b) == b,
    ensures
        rewrite(fk, fb, t).filter(p) == t.filter(p),
    decreases t.len(),
{
    if t.len() > 0 {
        lemma_lexeme(t);
        lemma_rewrite_unfold(fk, fb, t);
        let x = lexeme(t);
        let n = render(x).len() as int;
        let a = render(map_lexeme(fk, fb, x));
        let rest = t.skip(n);
        Seq::filter_distributes_over_add(a, rewrite(fk, fb, rest), p);
        assert(t =~= render(x) + rest);
        Seq::filter_distributes_over_add(render(x), rest, p);
        match x {
            Lexeme::Key { delim, run, shaped } => {
                Seq::filter_distributes_over_add(seq![delim], fk(run, shaped), p);
                Seq::filter_distributes_over_add(seq![delim], run, p);
            },
            _ => {
                assert(map_lexeme(fk, fb, x) == x);
            },
        }
        lemma_rewrite_filter(fk, fb, p, rest);
    }
}

} // verus!

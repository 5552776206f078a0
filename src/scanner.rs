//! The scan that carries out a pass: one walk over the characters of a
//! text, lexeme by lexeme.
use vstd::prelude::*;
use crate::grammar::{
    body_span, is_ctrl, is_delim, is_key_char, is_quote, is_ws, key_class, lemma_lexeme,
    lemma_rewrite_unfold, lexeme, map_lexeme, render, rewrite, span, starts_with, value_follows,
    ws_class,
};
use crate::rules::{
    add_key, add_rule, bare, clean, ctrl_of, drop_ctrl, escape_body, escape_key, escape_letter,
    escape_rule, escape_text, keep_body, key_core, lead_len, lemma_split, on_core, quoted,
    remove_key, remove_rule, rspan, strip_escapes, trail_len, unescape_body, unescape_key,
    unescape_rule, unescape_text,
};
use crate::Quotes;

verus! {

/// The pass that a scan carries out.
#[derive(Clone, Copy)]
pub enum Pass {
    AddQuotes(Quotes),
    RemoveQuotes,
    Escape,
    Unescape,
}

impl Pass {
    pub open spec fn core_map(self) -> spec_fn(Seq<char>) -> Seq<char> {
        match self {
            Pass::AddQuotes(q) => add_rule(q.spec_char()),
            Pass::RemoveQuotes => remove_rule(),
            Pass::Escape => escape_rule(),
            Pass::Unescape => unescape_rule(),
        }
    }

    pub open spec fn key_map(self) -> spec_fn(Seq<char>, bool) -> Seq<char> {
        match self {
            Pass::AddQuotes(q) => add_key(q.spec_char()),
            Pass::RemoveQuotes => remove_key(),
            Pass::Escape => escape_key(),
            Pass::Unescape => unescape_key(),
        }
    }

    pub open spec fn body_map(self) -> spec_fn(char, Seq<char>) -> Seq<char> {
        match self {
            Pass::AddQuotes(q) => keep_body(),
            Pass::RemoveQuotes => keep_body(),
            Pass::Escape => escape_body(),
            Pass::Unescape => unescape_body(),
        }
    }
}

fn ws_char(c: char) -> (r: bool)
    ensures
        r == is_ws(c),
{
    let u = c as u32;
    c == ' ' || ('\t' as u32 <= u && u <= '\r' as u32) || c == '\u{85}' || c == '\u{A0}' || c
        == '\u{1680}' || ('\u{2000}' as u32 <= u && u <= '\u{200A}' as u32) || c == '\u{2028}'
        || c == '\u{2029}' || c == '\u{202F}' || c == '\u{205F}' || c == '\u{3000}'
}

fn quote_char(c: char) -> (r: bool)
    ensures
        r == is_quote(c),
{
    c == '"' || c == '\''
}

fn ctrl_char(c: char) -> (r: bool)
    ensures
        r == is_ctrl(c),
{
    c == '\n' || c == '\r' || c == '\t'
}

fn key_char(c: char) -> (r: bool)
    ensures
        r == is_key_char(c),
{
    let u = c as u32;
    ('A' as u32 <= u && u <= 'Z' as u32) || ('a' as u32 <= u && u <= 'z' as u32) || ('0' as u32
        <= u && u <= '9' as u32) || ws_char(c) || c == '`' || c == '~' || c == '!' || c == '@'
        || c == '#' || c == '$' || c == '%' || c == '\u{20AC}' || c == '^' || c == '&' || c
        == '*' || c == '(' || c == ')' || c == '-' || c == '_' || c == '=' || c == '+' || c
        == '\\' || c == '|' || c == ';' || c == '"' || c == '\'' || c == '.' || c == '<' || c
        == '>' || c == '/' || c == '?'
}

/// The end of the run of whitespace that starts at `start`.
fn scan_ws(t: &Vec<char>, start: usize) -> (e: usize)
    requires
        start <= t.len(),
    ensures
        start <= e <= t.len(),
        e - start == span(t@.skip(start as int), ws_class()),
{
    let mut j = start;
    while j < t.len() && ws_char(t[j])
        invariant
            start <= j <= t.len(),
            span(t@.skip(start as int), ws_class()) == (j - start) + span(
                t@.skip(j as int),
                ws_class(),
            ),
        decreases t.len() - j,
    {
        proof {
            assert(t@.skip(j as int).skip(1) =~= t@.skip(j as int + 1));
            assert(t@.skip(j as int)[0] == t@[j as int]);
        }
        j = j + 1;
    }
    proof {
        if j < t.len() {
            assert(t@.skip(j as int)[0] == t@[j as int]);
        }
    }
    j
}

/// The end of the run of key characters that starts at `start`.
fn scan_key(t: &Vec<char>, start: usize) -> (e: usize)
    requires
        start <= t.len(),
    ensures
        start <= e <= t.len(),
        e - start == span(t@.skip(start as int), key_class()),
{
    let mut j = start;
    while j < t.len() && key_char(t[j])
        invariant
            start <= j <= t.len(),
            span(t@.skip(start as int), key_class()) == (j - start) + span(
                t@.skip(j as int),
                key_class(),
            ),
        decreases t.len() - j,
    {
        proof {
            assert(t@.skip(j as int).skip(1) =~= t@.skip(j as int + 1));
            assert(t@.skip(j as int)[0] == t@[j as int]);
        }
        j = j + 1;
    }
    proof {
        if j < t.len() {
            assert(t@.skip(j as int)[0] == t@[j as int]);
        }
    }
    j
}

/// The end of the string body that starts at `start` and that `q` closes.
fn scan_body(t: &Vec<char>, start: usize, q: char) -> (e: usize)
    requires
        start <= t.len(),
    ensures
        start <= e <= t.len(),
        e - start == body_span(t@.skip(start as int), q),
{
    let mut j = start;
    while j < t.len() && t[j] != q
        invariant
            start <= j <= t.len(),
            body_span(t@.skip(start as int), q) == (j - start) + body_span(t@.skip(j as int), q),
        decreases t.len() - j,
    {
        let ghost s = t@.skip(j as int);
        proof {
            assert(s[0] == t@[j as int]);
        }
        if t[j] == '\\' && j + 1 < t.len() {
            proof {
                assert(s.skip(2) =~= t@.skip(j as int + 2));
            }
            j = j + 2;
        } else {
            proof {
                assert(s.skip(1) =~= t@.skip(j as int + 1));
            }
            j = j + 1;
        }
    }
    proof {
        if j < t.len() {
            assert(t@.skip(j as int)[0] == t@[j as int]);
        }
    }
    j
}

/// The number of whitespace characters at the end of `r`.
fn scan_trailing_ws(r: &Vec<char>) -> (k: usize)
    ensures
        k == rspan(r@, ws_class()),
{
    let mut k = r.len();
    proof {
        assert(r@.subrange(0, k as int) =~= r@);
    }
    while k > 0 && ws_char(r[k - 1])
        invariant
            k <= r.len(),
            rspan(r@, ws_class()) == (r.len() - k) + rspan(r@.subrange(0, k as int), ws_class()),
        decreases k,
    {
        proof {
            let s = r@.subrange(0, k as int);
            assert(s.drop_last() =~= r@.subrange(0, k - 1));
            assert(s.last() == r@[k - 1]);
        }
        k = k - 1;
    }
    proof {
        if k > 0 {
            assert(r@.subrange(0, k as int).last() == r@[k - 1]);
        }
    }
    r.len() - k
}

fn push_range(out: &mut Vec<char>, t: &Vec<char>, a: usize, b: usize)
    requires
        a <= b <= t.len(),
    ensures
        final(out)@ == old(out)@ + t@.subrange(a as int, b as int),
{
    let ghost init = out@;
    let mut j = a;
    while j < b
        invariant
            a <= j <= b <= t.len(),
            out@ == init + t@.subrange(a as int, j as int),
        decreases b - j,
    {
        out.push(t[j]);
        proof {
            assert(t@.subrange(a as int, j + 1) =~= t@.subrange(a as int, j as int).push(t@[j as int]));
        }
        j = j + 1;
    }
}

fn slice_of(t: &Vec<char>, a: usize, b: usize) -> (r: Vec<char>)
    requires
        a <= b <= t.len(),
    ensures
        r@ == t@.subrange(a as int, b as int),
{
    let mut r = Vec::new();
    push_range(&mut r, t, a, b);
    r
}

fn push_all(out: &mut Vec<char>, v: &Vec<char>)
    ensures
        final(out)@ == old(out)@ + v@,
{
    push_range(out, v, 0, v.len());
    proof {
        assert(v@.subrange(0, v@.len() as int) =~= v@);
    }
}

fn drop_ctrl_chars(s: &Vec<char>) -> (r: Vec<char>)
    ensures
        r@ == drop_ctrl(s@),
{
    let mut out = Vec::new();
    let mut j: usize = 0;
    proof {
        assert(s@.skip(0) =~= s@);
    }
    while j < s.len()
        invariant
            j <= s.len(),
            out@ + drop_ctrl(s@.skip(j as int)) == drop_ctrl(s@),
        decreases s.len() - j,
    {
        let ghost rest = s@.skip(j as int);
        proof {
            assert(rest.skip(1) =~= s@.skip(j as int + 1));
            assert(rest[0] == s@[j as int]);
        }
        if !ctrl_char(s[j]) {
            proof {
                assert(out@.push(s@[j as int]) + drop_ctrl(s@.skip(j as int + 1)) =~= out@ + (
                seq![s@[j as int]] + drop_ctrl(s@.skip(j as int + 1))));
            }
            out.push(s[j]);
        }
        j = j + 1;
    }
    proof {
        assert(s@.skip(j as int).len() == 0);
        assert(out@ + Seq::<char>::empty() =~= out@);
    }
    out
}

fn ctrl_for(c: char) -> (r: char)
    ensures
        r == ctrl_of(c),
{
    if c == 'n' {
        '\n'
    } else if c == 'r' {
        '\r'
    } else {
        '\t'
    }
}

fn letter_for(c: char) -> (r: char)
    ensures
        r == escape_letter(c),
{
    if c == '\n' {
        'n'
    } else if c == '\r' {
        'r'
    } else {
        't'
    }
}

fn escape_chars(s: &Vec<char>) -> (r: Vec<char>)
    ensures
        r@ == escape_text(s@),
{
    let mut out = Vec::new();
    let mut j: usize = 0;
    proof {
        assert(s@.skip(0) =~= s@);
    }
    while j < s.len()
        invariant
            j <= s.len(),
            out@ + escape_text(s@.skip(j as int)) == escape_text(s@),
        decreases s.len() - j,
    {
        let ghost rest = s@.skip(j as int);
        let ghost tail = escape_text(s@.skip(j as int + 1));
        proof {
            assert(rest.skip(1) =~= s@.skip(j as int + 1));
            assert(rest[0] == s@[j as int]);
        }
        let c = s[j];
        if ctrl_char(c) {
            let l = letter_for(c);
            proof {
                assert(out@.push('\\').push(l) + tail =~= out@ + (seq!['\\', l] + tail));
            }
            out.push('\\');
            out.push(l);
        } else {
            proof {
                assert(out@.push(c) + tail =~= out@ + (seq![c] + tail));
            }
            out.push(c);
        }
        j = j + 1;
    }
    proof {
        assert(out@ + Seq::<char>::empty() =~= out@);
    }
    out
}

/// Walks `s` by backslash pairs; a pair with an escape letter becomes the
/// control character it names (`restore == true`) or is left out
/// (`restore == false`); everything else is kept.
fn resolve_escapes(s: &Vec<char>, restore: bool) -> (r: Vec<char>)
    ensures
        restore ==> r@ == unescape_text(s@),
        !restore ==> r@ == strip_escapes(s@),
{
    let mut out = Vec::new();
    let mut j: usize = 0;
    proof {
        assert(s@.skip(0) =~= s@);
    }
    while j < s.len()
        invariant
            j <= s.len(),
            restore ==> out@ + unescape_text(s@.skip(j as int)) == unescape_text(s@),
            !restore ==> out@ + strip_escapes(s@.skip(j as int)) == strip_escapes(s@),
        decreases s.len() - j,
    {
        let ghost rest = s@.skip(j as int);
        proof {
            assert(rest[0] == s@[j as int]);
        }
        if s[j] == '\\' && j + 1 < s.len() {
            let d = s[j + 1];
            let ghost u = unescape_text(s@.skip(j as int + 2));
            let ghost v = strip_escapes(s@.skip(j as int + 2));
            proof {
                assert(rest.skip(2) =~= s@.skip(j as int + 2));
                assert(rest[1] == d);
            }
            if d == 'n' || d == 'r' || d == 't' {
                if restore {
                    let c = ctrl_for(d);
                    proof {
                        assert(out@.push(c) + u =~= out@ + (seq![c] + u));
                    }
                    out.push(c);
                }
            } else {
                proof {
                    assert(out@.push('\\').push(d) + u =~= out@ + (seq!['\\', d] + u));
                    assert(out@.push('\\').push(d) + v =~= out@ + (seq!['\\', d] + v));
                }
                out.push('\\');
                out.push(d);
            }
            j = j + 2;
        } else {
            let c = s[j];
            let ghost u = unescape_text(s@.skip(j as int + 1));
            let ghost v = strip_escapes(s@.skip(j as int + 1));
            proof {
                assert(rest.skip(1) =~= s@.skip(j as int + 1));
                assert(out@.push(c) + u =~= out@ + (seq![c] + u));
                assert(out@.push(c) + v =~= out@ + (seq![c] + v));
            }
            out.push(c);
            j = j + 1;
        }
    }
    proof {
        assert(out@ + Seq::<char>::empty() =~= out@);
    }
    out
}

fn is_bare(c: &Vec<char>) -> (r: bool)
    ensures
        r == bare(c@),
{
    c.len() > 0 && !quote_char(c[0]) && !quote_char(c[c.len() - 1])
}

fn is_quoted(c: &Vec<char>) -> (r: bool)
    ensures
        r == quoted(c@),
{
    c.len() >= 2 && quote_char(c[0]) && c[c.len() - 1] == c[0]
}

fn is_clean(c: &Vec<char>) -> (r: bool)
    ensures
        r == clean(c@),
{
    c.len() > 0 && !ws_char(c[0]) && !ws_char(c[c.len() - 1])
}

fn wrap(q: char, c: &Vec<char>, r: char) -> (o: Vec<char>)
    ensures
        o@ == seq![q] + c@ + seq![r],
{
    let mut o = Vec::new();
    o.push(q);
    push_all(&mut o, c);
    o.push(r);
    proof {
        assert(o@ =~= seq![q] + c@ + seq![r]);
    }
    o
}

/// The lengths of the whitespace before and after the core of `r`.
fn split_run(r: &Vec<char>) -> (lt: (usize, usize))
    ensures
        lt.0 == lead_len(r@),
        lt.1 == trail_len(r@),
        lt.0 + lt.1 <= r.len(),
{
    let l = scan_ws(r, 0);
    proof {
        assert(r@.skip(0) =~= r@);
        lemma_split(r@);
    }
    let tr = if l == r.len() {
        0
    } else {
        scan_trailing_ws(r)
    };
    (l, tr)
}

/// The core of `r`: `r` without the whitespace around it.
fn core_of(r: &Vec<char>) -> (c: Vec<char>)
    ensures
        c@ == key_core(r@),
{
    let (l, tr) = split_run(r);
    slice_of(r, l, r.len() - tr)
}

fn map_core(pass: Pass, c: &Vec<char>) -> (r: Vec<char>)
    ensures
        r@ == pass.core_map()(c@),
{
    match pass {
        Pass::AddQuotes(q) => {
            if is_bare(c) {
                let qc = q.as_char();
                wrap(qc, c, qc)
            } else {
                slice_of(c, 0, c.len())
            }
        },
        Pass::RemoveQuotes => {
            if is_quoted(c) {
                let i = slice_of(c, 1, c.len() - 1);
                let k = core_of(&i);
                if !is_quoted(&k) {
                    return i;
                }
            }
            slice_of(c, 0, c.len())
        },
        Pass::Escape => {
            if is_quoted(c) {
                let i = slice_of(c, 1, c.len() - 1);
                let d = drop_ctrl_chars(&i);
                wrap(c[0], &d, c[0])
            } else {
                slice_of(c, 0, c.len())
            }
        },
        Pass::Unescape => {
            if is_bare(c) {
                let st = resolve_escapes(c, false);
                if is_bare(&st) && is_clean(&st) {
                    return st;
                }
            }
            slice_of(c, 0, c.len())
        },
    }
}

fn map_key(pass: Pass, r: &Vec<char>, shaped: bool) -> (o: Vec<char>)
    ensures
        o@ == pass.key_map()(r@, shaped),
{
    let ghost f = pass.core_map();
    let gated = match pass {
        Pass::RemoveQuotes => false,
        _ => true,
    };
    if gated && !shaped {
        proof {
            assert(r@.subrange(0, r@.len() as int) =~= r@);
        }
        return slice_of(r, 0, r.len());
    }
    let (l, tr) = split_run(r);
    let c = slice_of(r, l, r.len() - tr);
    let nc = map_core(pass, &c);
    let mut o = slice_of(r, 0, l);
    push_all(&mut o, &nc);
    push_range(&mut o, r, r.len() - tr, r.len());
    proof {
        assert(o@ == on_core(f)(r@));
    }
    o
}

fn map_body(pass: Pass, q: char, b: &Vec<char>) -> (o: Vec<char>)
    ensures
        o@ == pass.body_map()(q, b@),
{
    match pass {
        Pass::Escape => escape_chars(b),
        Pass::Unescape => resolve_escapes(b, true),
        _ => {
            let o = slice_of(b, 0, b.len());
            proof {
                assert(b@.subrange(0, b@.len() as int) =~= b@);
            }
            o
        },
    }
}

/// Copies or rewrites the lexeme that starts at `i`, which starts with a
/// delimiter, and returns where the next one starts.
fn step_delim(t: &Vec<char>, i: usize, pass: Pass, out: &mut Vec<char>) -> (next: usize)
    requires
        i < t.len(),
        is_delim(t@[i as int]),
    ensures
        next == i + render(lexeme(t@.skip(i as int))).len(),
        final(out)@ == old(out)@ + render(
            map_lexeme(pass.key_map(), pass.body_map(), lexeme(t@.skip(i as int))),
        ),
{
    let ghost s = t@.skip(i as int);
    proof {
        assert(s[0] == t@[i as int]);
        assert(s.skip(1) =~= t@.skip(i + 1));
    }
    let c = t[i];
    let e = scan_key(t, i + 1);
    if e < t.len() && t[e] == ':' {
        let run = slice_of(t, i + 1, e);
        let shaped = value_follows_at(t, e + 1);
        proof {
            assert(s.skip(e - i + 1) =~= t@.skip(e + 1));
        }
        let mapped = map_key(pass, &run, shaped);
        out.push(c);
        push_all(out, &mapped);
        proof {
            assert(s[e - i] == t@[e as int]);
            assert(s.subrange(1, e - i) =~= run@);
        }
    } else {
        push_range(out, t, i, e);
        proof {
            if e < t.len() {
                assert(s[e - i] == t@[e as int]);
            }
            assert(s.subrange(0, e - i) =~= t@.subrange(i as int, e as int));
        }
    }
    e
}

/// Copies or rewrites the lexeme that starts at `i`, which starts with a
/// colon, and returns where the next one starts.
fn step_colon(t: &Vec<char>, i: usize, pass: Pass, out: &mut Vec<char>) -> (next: usize)
    requires
        i < t.len(),
        t@[i as int] == ':',
    ensures
        next == i + render(lexeme(t@.skip(i as int))).len(),
        final(out)@ == old(out)@ + render(
            map_lexeme(pass.key_map(), pass.body_map(), lexeme(t@.skip(i as int))),
        ),
{
    let ghost s = t@.skip(i as int);
    proof {
        assert(s[0] == t@[i as int]);
        assert(s.skip(1) =~= t@.skip(i + 1));
    }
    let n = t.len();
    let w = scan_ws(t, i + 1);
    if w < n && quote_char(t[w]) {
        let q = t[w];
        let e = scan_body(t, w + 1, q);
        proof {
            assert(s[w - i] == q);
            assert(s.skip(w - i + 1) =~= t@.skip(w + 1));
        }
        let ghost before = out@;
        push_range(out, t, i, w);
        out.push(q);
        let body = slice_of(t, w + 1, e);
        let mapped = map_body(pass, q, &body);
        push_all(out, &mapped);
        proof {
            assert(s.subrange(0, w - i) =~= t@.subrange(i as int, w as int));
            assert(s.subrange(w - i + 1, e - i) =~= body@);
        }
        if e < n {
            out.push(q);
            proof {
                assert(out@ =~= before + (t@.subrange(i as int, w as int) + seq![q] + mapped@
                    + seq![q]));
            }
            e + 1
        } else {
            proof {
                assert(out@ =~= before + (t@.subrange(i as int, w as int) + seq![q] + mapped@
                    + Seq::<char>::empty()));
            }
            e
        }
    } else {
        push_range(out, t, i, w);
        proof {
            if w < n {
                assert(s[w - i] == t@[w as int]);
            }
            assert(s.subrange(0, w - i) =~= t@.subrange(i as int, w as int));
        }
        w
    }
}

/// Carries out `pass` on the text `t`.
pub fn rewrite_chars(t: &Vec<char>, pass: Pass) -> (out: Vec<char>)
    ensures
        out@ == rewrite(pass.key_map(), pass.body_map(), t@),
{
    let ghost fk = pass.key_map();
    let ghost fb = pass.body_map();
    let n = t.len();
    let mut out: Vec<char> = Vec::new();
    let mut i: usize = 0;
    proof {
        assert(t@.skip(0) =~= t@);
    }
    while i < n
        invariant
            n == t.len(),
            i <= n,
            fk == pass.key_map(),
            fb == pass.body_map(),
            out@ + rewrite(fk, fb, t@.skip(i as int)) == rewrite(fk, fb, t@),
        decreases n - i,
    {
        let ghost s = t@.skip(i as int);
        let ghost before = out@;
        proof {
            lemma_lexeme(s);
            lemma_rewrite_unfold(fk, fb, s);
            assert(s[0] == t@[i as int]);
        }
        let c = t[i];
        let next: usize;
        if c == '{' || c == '[' || c == ',' {
            next = step_delim(t, i, pass, &mut out);
        } else if c == ':' {
            next = step_colon(t, i, pass, &mut out);
        } else {
            out.push(c);
            proof {
                assert(s.subrange(0, 1) =~= seq![c]);
            }
            next = i + 1;
        }
        proof {
            assert(s.skip(next - i) =~= t@.skip(next as int));
            assert(out@ == before + render(map_lexeme(fk, fb, lexeme(s))));
            assert(out@ + rewrite(fk, fb, t@.skip(next as int)) =~= before + rewrite(fk, fb, s));
        }
        i = next;
    }
    proof {
        assert(out@ + Seq::<char>::empty() =~= out@);
    }
    out
}

/// `t` has `word` at `w`.
fn word_at(t: &Vec<char>, w: usize, word: &Vec<char>) -> (b: bool)
    requires
        w <= t.len(),
    ensures
        b == starts_with(t@.skip(w as int), word@),
{
    if word.len() > t.len() - w {
        return false;
    }
    let mut k: usize = 0;
    while k < word.len()
        invariant
            word.len() <= t.len() - w,
            k <= word.len(),
            forall|m: int| 0 <= m < k ==> t@[w + m] == word@[m],
        decreases word.len() - k,
    {
        if t[w + k] != word[k] {
            proof {
                assert(t@.skip(w as int).subrange(0, word@.len() as int)[k as int] == t@[w + k]);
            }
            return false;
        }
        k = k + 1;
    }
    proof {
        assert(t@.skip(w as int).subrange(0, word@.len() as int) =~= word@);
    }
    true
}

fn word4(a: char, b: char, c: char, d: char) -> (v: Vec<char>)
    ensures
        v@ == seq![a, b, c, d],
{
    let mut v = Vec::new();
    v.push(a);
    v.push(b);
    v.push(c);
    v.push(d);
    proof {
        assert(v@ =~= seq![a, b, c, d]);
    }
    v
}

/// After optional whitespace, the text at `j` starts with a value.
fn value_follows_at(t: &Vec<char>, j: usize) -> (b: bool)
    requires
        j <= t.len(),
    ensures
        b == value_follows(t@.skip(j as int)),
{
    let w = scan_ws(t, j);
    proof {
        assert(t@.skip(j as int).skip(w - j) =~= t@.skip(w as int));
    }
    if w >= t.len() {
        return false;
    }
    proof {
        assert(t@.skip(j as int)[w - j] == t@[w as int]);
    }
    let c = t[w];
    let u = c as u32;
    if quote_char(c) || c == '{' || c == '[' || c == '-' || c == '.' || ('0' as u32 <= u && u
        <= '9' as u32) {
        return true;
    }
    let null = word4('n', 'u', 'l', 'l');
    let tru = word4('t', 'r', 'u', 'e');
    let mut fals = word4('f', 'a', 'l', 's');
    fals.push('e');
    proof {
        assert(fals@ =~= seq!['f', 'a', 'l', 's', 'e']);
    }
    word_at(t, w, &null) || word_at(t, w, &tru) || word_at(t, w, &fals)
}

} // verus!

//! The rules of the four passes: what each does to the run of a key and to
//! the body of a string value.
//!
//! The run of a key is split into leading whitespace, a core and trailing
//! whitespace; the rules of keys rewrite the core only.
use vstd::prelude::*;
use crate::grammar::{
    all_in, body_span, is_ctrl, is_quote, is_ws, keeps_structure, key_class, lemma_filter3,
    lemma_span, lemma_span_concat, lemma_span_stop, open_body, rewrite, span, unit_seq,
    ws_class,
};

verus! {

/// The number of trailing characters of `s` that satisfy `p`.
pub open spec fn rspan(s: Seq<char>, p: spec_fn(char) -> bool) -> nat
    decreases s.len(),
{
    if s.len() > 0 && p(s.last()) {
        1 + rspan(s.drop_last(), p)
    } else {
        0
    }
}

pub open spec fn lead_len(r: Seq<char>) -> nat {
    span(r, ws_class())
}

pub open spec fn trail_len(r: Seq<char>) -> nat {
    if span(r, ws_class()) == r.len() {
        0
    } else {
        rspan(r, ws_class())
    }
}

/// The key itself: its run without the whitespace around it.
pub open spec fn key_core(r: Seq<char>) -> Seq<char> {
    r.subrange(lead_len(r) as int, r.len() - trail_len(r))
}

/// The run `r` with its core replaced by `c`.
pub open spec fn with_core(r: Seq<char>, c: Seq<char>) -> Seq<char> {
    r.subrange(0, lead_len(r) as int) + c + r.subrange(r.len() - trail_len(r), r.len() as int)
}

/// Non-empty, with no whitespace at either end.
pub open spec fn clean(c: Seq<char>) -> bool {
    c.len() > 0 && !is_ws(c[0]) && !is_ws(c.last())
}

/// A key with no quote at either end.
pub open spec fn bare(c: Seq<char>) -> bool {
    c.len() > 0 && !is_quote(c[0]) && !is_quote(c.last())
}

/// A key between two equal quotes.
pub open spec fn quoted(c: Seq<char>) -> bool {
    c.len() >= 2 && is_quote(c[0]) && c.last() == c[0]
}

pub open spec fn inner(c: Seq<char>) -> Seq<char> {
    c.subrange(1, c.len() - 1)
}

pub open spec fn no_ctrl(s: Seq<char>) -> bool {
    forall|i: int| 0 <= i < s.len() ==> !is_ctrl(#[trigger] s[i])
}

pub open spec fn no_backslash(s: Seq<char>) -> bool {
    forall|i: int| 0 <= i < s.len() ==> #[trigger] s[i] != '\\'
}

/// `s` without its control characters.
pub open spec fn drop_ctrl(s: Seq<char>) -> Seq<char>
    decreases s.len(),
{
    if s.len() == 0 {
        s
    } else if is_ctrl(s[0]) {
        drop_ctrl(s.skip(1))
    } else {
        seq![s[0]] + drop_ctrl(s.skip(1))
    }
}

/// The letter that names a control character in its escape.
pub open spec fn escape_letter(c: char) -> char {
    if c == '\n' {
        'n'
    } else if c == '\r' {
        'r'
    } else {
        't'
    }
}

pub open spec fn is_escape_letter(c: char) -> bool {
    c == 'n' || c == 'r' || c == 't'
}

/// The control character that an escape letter names.
pub open spec fn ctrl_of(c: char) -> char {
    if c == 'n' {
        '\n'
    } else if c == 'r' {
        '\r'
    } else {
        '\t'
    }
}

/// `s` without its escapes of control characters (backslash pairs are read
/// from the left).
pub open spec fn strip_escapes(s: Seq<char>) -> Seq<char>
    decreases s.len(),
{
    if s.len() >= 2 && s[0] == '\\' {
        if is_escape_letter(s[1]) {
            strip_escapes(s.skip(2))
        } else {
            seq![s[0], s[1]] + strip_escapes(s.skip(2))
        }
    } else if s.len() == 0 {
        s
    } else {
        seq![s[0]] + strip_escapes(s.skip(1))
    }
}

/// A body with each control character replaced by its escape.
pub open spec fn escape_text(s: Seq<char>) -> Seq<char>
    decreases s.len(),
{
    if s.len() == 0 {
        s
    } else if is_ctrl(s[0]) {
        seq!['\\', escape_letter(s[0])] + escape_text(s.skip(1))
    } else {
        seq![s[0]] + escape_text(s.skip(1))
    }
}

/// A body with each escape of a control character replaced by the character.
pub open spec fn unescape_text(s: Seq<char>) -> Seq<char>
    decreases s.len(),
{
    if s.len() >= 2 && s[0] == '\\' {
        if is_escape_letter(s[1]) {
            seq![ctrl_of(s[1])] + unescape_text(s.skip(2))
        } else {
            seq![s[0], s[1]] + unescape_text(s.skip(2))
        }
    } else if s.len() == 0 {
        s
    } else {
        seq![s[0]] + unescape_text(s.skip(1))
    }
}

/// Adding quotes: a bare key is put between two `q`.
pub open spec fn add_core(q: char, c: Seq<char>) -> Seq<char> {
    if bare(c) {
        seq![q] + c + seq![q]
    } else {
        c
    }
}

/// Removing quotes: a quoted key loses its two quotes, unless what is left,
/// without the whitespace around it, is itself quoted (so that a second
/// removal finds nothing more to take).
pub open spec fn remove_core(c: Seq<char>) -> Seq<char> {
    if quoted(c) && !quoted(key_core(inner(c))) {
        inner(c)
    } else {
        c
    }
}

/// Escaping: a quoted key loses its control characters.
pub open spec fn escape_core(c: Seq<char>) -> Seq<char> {
    if quoted(c) {
        seq![c[0]] + drop_ctrl(inner(c)) + seq![c[0]]
    } else {
        c
    }
}

/// Unescaping: a bare key loses its escapes of control characters, where what
/// is left is a clean bare key.
pub open spec fn unescape_core(c: Seq<char>) -> Seq<char> {
    if bare(c) && bare(strip_escapes(c)) && clean(strip_escapes(c)) {
        strip_escapes(c)
    } else {
        c
    }
}

/// The rewrite of a run that rewrites its core by `f`.
pub open spec fn on_core(f: spec_fn(Seq<char>) -> Seq<char>) -> spec_fn(Seq<char>) -> Seq<char> {
    |r: Seq<char>| with_core(r, f(key_core(r)))
}

/// Rewrites the core of a key by `f` where a value follows the key.
pub open spec fn when_shaped(f: spec_fn(Seq<char>) -> Seq<char>) -> spec_fn(Seq<char>, bool) -> Seq<
    char,
> {
    |r: Seq<char>, shaped: bool|
        if shaped {
            on_core(f)(r)
        } else {
            r
        }
}

/// Rewrites the core of every key by `f`.
pub open spec fn always(f: spec_fn(Seq<char>) -> Seq<char>) -> spec_fn(Seq<char>, bool) -> Seq<
    char,
> {
    |r: Seq<char>, shaped: bool| on_core(f)(r)
}

pub open spec fn add_rule(q: char) -> spec_fn(Seq<char>) -> Seq<char> {
    |c: Seq<char>| add_core(q, c)
}

pub open spec fn remove_rule() -> spec_fn(Seq<char>) -> Seq<char> {
    |c: Seq<char>| remove_core(c)
}

pub open spec fn escape_rule() -> spec_fn(Seq<char>) -> Seq<char> {
    |c: Seq<char>| escape_core(c)
}

pub open spec fn unescape_rule() -> spec_fn(Seq<char>) -> Seq<char> {
    |c: Seq<char>| unescape_core(c)
}

pub open spec fn add_key(q: char) -> spec_fn(Seq<char>, bool) -> Seq<char> {
    when_shaped(add_rule(q))
}

pub open spec fn remove_key() -> spec_fn(Seq<char>, bool) -> Seq<char> {
    always(remove_rule())
}

pub open spec fn escape_key() -> spec_fn(Seq<char>, bool) -> Seq<char> {
    when_shaped(escape_rule())
}

pub open spec fn unescape_key() -> spec_fn(Seq<char>, bool) -> Seq<char> {
    when_shaped(unescape_rule())
}

pub open spec fn keep_body() -> spec_fn(char, Seq<char>) -> Seq<char> {
    |q: char, b: Seq<char>| b
}

pub open spec fn escape_body() -> spec_fn(char, Seq<char>) -> Seq<char> {
    |q: char, b: Seq<char>| escape_text(b)
}

pub open spec fn unescape_body() -> spec_fn(char, Seq<char>) -> Seq<char> {
    |q: char, b: Seq<char>| unescape_text(b)
}

// ---------------------------------------------------------------------------
// Splitting a run
pub proof fn lemma_rspan(s: Seq<char>, p: spec_fn(char) -> bool)
    ensures
        rspan(s, p) <= s.len(),
        forall|i: int| s.len() - rspan(s, p) <= i < s.len() ==> #[trigger] p(s[i]),
        rspan(s, p) < s.len() ==> !p(s[s.len() - 1 - rspan(s, p)]),
    decreases s.len(),
{
    if s.len() > 0 && p(s.last()) {
        let d = s.drop_last();
        lemma_rspan(d, p);
        assert forall|i: int| s.len() - rspan(s, p) <= i < s.len() implies #[trigger] p(s[i]) by {
            if i < s.len() - 1 {
                assert(s[i] == d[i]);
            }
        }
        if rspan(s, p) < s.len() {
            assert(s[s.len() - 1 - rspan(s, p)] == d[d.len() - 1 - rspan(d, p)]);
        }
    }
}

pub proof fn lemma_rspan_concat(a: Seq<char>, b: Seq<char>, p: spec_fn(char) -> bool)
    requires
        all_in(b, p),
    ensures
        rspan(a + b, p) == b.len() + rspan(a, p),
    decreases b.len(),
{
    if b.len() == 0 {
        assert(a + b =~= a);
    } else {
        assert((a + b).last() == b.last());
        assert(p(b[b.len() - 1]));
        assert((a + b).drop_last() =~= a + b.drop_last());
        lemma_rspan_concat(a, b.drop_last(), p);
    }
}

/// A run is its leading whitespace, its core and its trailing whitespace.
pub proof fn lemma_split(r: Seq<char>)
    ensures
        lead_len(r) + trail_len(r) <= r.len(),
        all_in(r.subrange(0, lead_len(r) as int), ws_class()),
        all_in(r.subrange(r.len() - trail_len(r), r.len() as int), ws_class()),
        key_core(r).len() == 0 || clean(key_core(r)),
        with_core(r, key_core(r)) =~= r,
        all_in(r, key_class()) ==> all_in(key_core(r), key_class()),
{
    lemma_span(r, ws_class());
    lemma_rspan(r, ws_class());
    let l = lead_len(r) as int;
    let t = trail_len(r) as int;
    if l < r.len() {
        assert(!ws_class()(r[l]));
        if rspan(r, ws_class()) >= r.len() - l {
            assert(ws_class()(r[l]));
        }
        assert(!ws_class()(r[r.len() - 1 - t]));
        assert(key_core(r)[0] == r[l]);
        assert(key_core(r).last() == r[r.len() - 1 - t]);
    }
    assert forall|i: int| 0 <= i < l implies #[trigger] ws_class()(r.subrange(0, l)[i]) by {
        assert(ws_class()(r[i]));
    }
    assert forall|i: int| 0 <= i < t implies #[trigger] ws_class()(
        r.subrange(r.len() - t, r.len() as int)[i],
    ) by {
        assert(ws_class()(r[r.len() - t + i]));
    }
    assert forall|i: int| 0 <= i < key_core(r).len() && all_in(r, key_class()) implies #[trigger] key_class()(
        key_core(r)[i],
    ) by {
        assert(key_class()(r[l + i]));
    }
}

/// Whitespace around a clean core splits off again as it was.
pub proof fn lemma_split_stable(w1: Seq<char>, c: Seq<char>, w2: Seq<char>, d: Seq<char>)
    requires
        all_in(w1, ws_class()),
        all_in(w2, ws_class()),
        clean(c),
    ensures
        key_core(w1 + c + w2) == c,
        with_core(w1 + c + w2, d) =~= w1 + d + w2,
{
    let r = w1 + c + w2;
    assert(r =~= w1 + (c + w2));
    lemma_span_concat(w1, c + w2, ws_class());
    assert((c + w2)[0] == c[0]);
    lemma_span_stop(c + w2, ws_class());
    lemma_rspan_concat(w1 + c, w2, ws_class());
    assert((w1 + c).last() == c.last());
    assert(rspan(w1 + c, ws_class()) == 0);
    assert(lead_len(r) == w1.len());
    assert(trail_len(r) == w2.len());
    assert(key_core(r) =~= c);
    assert(r.subrange(0, w1.len() as int) =~= w1);
    assert(r.subrange(r.len() - w2.len(), r.len() as int) =~= w2);
}

/// A clean text is its own core.
pub proof fn lemma_clean_core(d: Seq<char>, e: Seq<char>)
    requires
        clean(d),
    ensures
        key_core(d) == d,
        with_core(d, e) == e,
{
    let z = Seq::<char>::empty();
    assert(all_in(z, ws_class()));
    lemma_split_stable(z, d, z, e);
    assert(z + d + z =~= d);
    assert(z + e + z =~= e);
}

/// A text of whitespace has an empty core.
pub proof fn lemma_all_ws_core(x: Seq<char>)
    requires
        all_in(x, ws_class()),
    ensures
        key_core(x) =~= Seq::<char>::empty(),
        with_core(x, Seq::empty()) =~= x,
{
    lemma_span_concat(x, Seq::empty(), ws_class());
    assert(x + Seq::<char>::empty() =~= x);
}

proof fn lemma_ws_concat(a: Seq<char>, b: Seq<char>)
    requires
        all_in(a, ws_class()),
        all_in(b, ws_class()),
    ensures
        all_in(a + b, ws_class()),
{
    assert forall|i: int| 0 <= i < (a + b).len() implies #[trigger] ws_class()((a + b)[i]) by {
        if i < a.len() {
            assert((a + b)[i] == a[i]);
        } else {
            assert((a + b)[i] == b[i - a.len()]);
        }
    }
}

/// Putting `d` into the place of the core of a run, and then `e` into the
/// place of the core of the result, is putting `e` into the place of the core
/// of `d`.
pub proof fn lemma_rekey(r: Seq<char>, d: Seq<char>, e: Seq<char>)
    requires
        key_core(d).len() == 0 ==> e.len() == 0,
    ensures
        key_core(with_core(r, d)) == key_core(d),
        with_core(with_core(r, d), e) == with_core(r, with_core(d, e)),
{
    lemma_split(r);
    lemma_split(d);
    let w1 = r.subrange(0, lead_len(r) as int);
    let w2 = r.subrange(r.len() - trail_len(r), r.len() as int);
    let d1 = d.subrange(0, lead_len(d) as int);
    let d2 = d.subrange(d.len() - trail_len(d), d.len() as int);
    let c = key_core(d);
    assert(d =~= d1 + c + d2);
    if c.len() > 0 {
        lemma_ws_concat(w1, d1);
        lemma_ws_concat(d2, w2);
        assert(with_core(r, d) =~= (w1 + d1) + c + (d2 + w2));
        lemma_split_stable(w1 + d1, c, d2 + w2, e);
        assert(with_core(r, with_core(d, e)) =~= (w1 + d1) + e + (d2 + w2));
    } else {
        assert(e =~= Seq::<char>::empty());
        assert(d =~= d1 + d2);
        lemma_ws_concat(d1, d2);
        lemma_ws_concat(w1, d);
        lemma_ws_concat(w1 + d, w2);
        assert(with_core(r, d) =~= w1 + d + w2);
        lemma_all_ws_core(w1 + d + w2);
        lemma_all_ws_core(d);
    }
}

pub open spec fn core_map_ok(f: spec_fn(Seq<char>) -> Seq<char>) -> bool {
    &&& f(Seq::empty()) == Seq::<char>::empty()
    &&& forall|c: Seq<char>|
        clean(c) && all_in(c, key_class()) ==> all_in(#[trigger] f(c), key_class())
}

/// Two rewrites of the core of a run, one after the other.
pub proof fn lemma_key_twice(
    f: spec_fn(Seq<char>) -> Seq<char>,
    g: spec_fn(Seq<char>) -> Seq<char>,
    r: Seq<char>,
)
    requires
        core_map_ok(f),
        g(Seq::empty()) == Seq::<char>::empty(),
        all_in(r, key_class()),
    ensures
        ({
            let k = key_core(r);
            let r1 = with_core(r, f(k));
            &&& all_in(r1, key_class())
            &&& with_core(r1, g(key_core(r1))) == with_core(
                r,
                with_core(f(k), g(key_core(f(k)))),
            )
        }),
{
    lemma_split(r);
    let k = key_core(r);
    if k.len() == 0 {
        assert(k =~= Seq::<char>::empty());
    }
    if key_core(f(k)).len() == 0 {
        assert(key_core(f(k)) =~= Seq::<char>::empty());
    }
    lemma_rekey(r, f(k), g(key_core(f(k))));
    let r1 = with_core(r, f(k));
    let l = lead_len(r) as int;
    let t = trail_len(r) as int;
    assert forall|i: int| 0 <= i < r1.len() implies #[trigger] key_class()(r1[i]) by {
        if i < l {
            assert(r1[i] == r[i]);
        } else if i < l + f(k).len() {
            assert(r1[i] == f(k)[i - l]);
        } else {
            assert(r1[i] == r[r.len() - t + (i - l - f(k).len())]);
        }
    }
}

// ---------------------------------------------------------------------------
// Character-level facts
pub proof fn lemma_drop_ctrl(s: Seq<char>, p: spec_fn(char) -> bool)
    ensures
        no_ctrl(drop_ctrl(s)),
        no_ctrl(s) ==> drop_ctrl(s) == s,
        all_in(s, p) ==> all_in(drop_ctrl(s), p),
    decreases s.len(),
{
    if s.len() > 0 {
        lemma_drop_ctrl(s.skip(1), p);
        if all_in(s, p) {
            assert forall|i: int| 0 <= i < s.skip(1).len() implies #[trigger] p(s.skip(1)[i]) by {
                assert(p(s[i + 1]));
            }
        }
        if no_ctrl(s) {
            assert(!is_ctrl(s[0]));
            assert(no_ctrl(s.skip(1))) by {
                assert forall|i: int| 0 <= i < s.skip(1).len() implies !is_ctrl(
                    #[trigger] s.skip(1)[i],
                ) by {
                    assert(s.skip(1)[i] == s[i + 1]);
                }
            }
            assert(seq![s[0]] + s.skip(1) =~= s);
        }
        if !is_ctrl(s[0]) {
            let d = seq![s[0]] + drop_ctrl(s.skip(1));
            assert forall|i: int| 0 <= i < d.len() implies !is_ctrl(#[trigger] d[i]) by {
                if i > 0 {
                    assert(d[i] == drop_ctrl(s.skip(1))[i - 1]);
                }
            }
            if all_in(s, p) {
                assert forall|i: int| 0 <= i < d.len() implies #[trigger] p(d[i]) by {
                    if i > 0 {
                        assert(d[i] == drop_ctrl(s.skip(1))[i - 1]);
                    } else {
                        assert(p(s[0]));
                    }
                }
            }
        }
    }
}

pub proof fn lemma_strip_escapes(s: Seq<char>, p: spec_fn(char) -> bool)
    ensures
        strip_escapes(strip_escapes(s)) == strip_escapes(s),
        no_backslash(s) ==> strip_escapes(s) == s,
        all_in(s, p) ==> all_in(strip_escapes(s), p),
    decreases s.len(),
{
    if s.len() >= 2 && s[0] == '\\' {
        let x = strip_escapes(s.skip(2));
        lemma_strip_escapes(s.skip(2), p);
        if all_in(s, p) {
            assert forall|i: int| 0 <= i < s.skip(2).len() implies #[trigger] p(s.skip(2)[i]) by {
                assert(p(s[i + 2]));
            }
        }
        if !is_escape_letter(s[1]) {
            let y = seq![s[0], s[1]] + x;
            assert(y.skip(2) =~= x);
            assert(y[0] == s[0] && y[1] == s[1]);
            if all_in(s, p) {
                assert(p(s[0]) && p(s[1]));
                assert forall|i: int| 0 <= i < y.len() implies #[trigger] p(y[i]) by {
                    if i >= 2 {
                        assert(y[i] == x[i - 2]);
                    }
                }
            }
        }
    } else if s.len() > 0 {
        let x = strip_escapes(s.skip(1));
        lemma_strip_escapes(s.skip(1), p);
        if all_in(s, p) {
            assert forall|i: int| 0 <= i < s.skip(1).len() implies #[trigger] p(s.skip(1)[i]) by {
                assert(p(s[i + 1]));
            }
        }
        let y = seq![s[0]] + x;
        assert(y.skip(1) =~= x);
        assert(y[0] == s[0]);
        if s[0] == '\\' {
            assert(s.len() == 1);
            assert(s.skip(1).len() == 0);
            assert(x.len() == 0);
        }
        if no_backslash(s) {
            assert(s[0] != '\\');
            assert(no_backslash(s.skip(1))) by {
                assert forall|i: int| 0 <= i < s.skip(1).len() implies #[trigger] s.skip(1)[i]
                    != '\\' by {
                    assert(s.skip(1)[i] == s[i + 1]);
                }
            }
            assert(y =~= s);
        }
        if all_in(s, p) {
            assert(p(s[0]));
            assert forall|i: int| 0 <= i < y.len() implies #[trigger] p(y[i]) by {
                if i >= 1 {
                    assert(y[i] == x[i - 1]);
                }
            }
        }
    }
}

// ---------------------------------------------------------------------------
// Bodies
pub proof fn lemma_escape_text(s: Seq<char>, q: char)
    requires
        is_quote(q),
    ensures
        no_ctrl(escape_text(s)),
        no_ctrl(s) ==> escape_text(s) == s,
        no_backslash(s) ==> unescape_text(escape_text(s)) == s,
    decreases s.len(),
{
    if s.len() > 0 {
        let x = escape_text(s.skip(1));
        lemma_escape_text(s.skip(1), q);
        let e = escape_text(s);
        if is_ctrl(s[0]) {
            let h = seq!['\\', escape_letter(s[0])];
            assert(e == h + x);
            assert(e[0] == '\\' && e[1] == escape_letter(s[0]));
            assert(e.skip(2) =~= x);
            assert forall|i: int| 0 <= i < e.len() implies !is_ctrl(#[trigger] e[i]) by {
                if i >= 2 {
                    assert(e[i] == x[i - 2]);
                }
            }
        } else {
            assert(e == seq![s[0]] + x);
            assert(e[0] == s[0]);
            assert(e.skip(1) =~= x);
            assert forall|i: int| 0 <= i < e.len() implies !is_ctrl(#[trigger] e[i]) by {
                if i >= 1 {
                    assert(e[i] == x[i - 1]);
                }
            }
        }
        if no_ctrl(s) {
            assert(!is_ctrl(s[0]));
            assert(no_ctrl(s.skip(1))) by {
                assert forall|i: int| 0 <= i < s.skip(1).len() implies !is_ctrl(
                    #[trigger] s.skip(1)[i],
                ) by {
                    assert(s.skip(1)[i] == s[i + 1]);
                }
            }
            assert(seq![s[0]] + s.skip(1) =~= s);
        }
        if no_backslash(s) {
            assert(s[0] != '\\');
            assert(no_backslash(s.skip(1))) by {
                assert forall|i: int| 0 <= i < s.skip(1).len() implies #[trigger] s.skip(1)[i]
                    != '\\' by {
                    assert(s.skip(1)[i] == s[i + 1]);
                }
            }
            assert(seq![s[0]] + s.skip(1) =~= s);
            if is_ctrl(s[0]) {
                assert(ctrl_of(escape_letter(s[0])) == s[0]);
            }
        }
    }
}

/// Escaping keeps a body a body of its kind.
pub proof fn lemma_escape_units(s: Seq<char>, q: char)
    requires
        is_quote(q),
    ensures
        unit_seq(s, q) ==> unit_seq(escape_text(s), q),
        open_body(s, q) ==> open_body(escape_text(s), q),
    decreases s.len(),
{
    if s.len() > 0 {
        let e = escape_text(s);
        let x = escape_text(s.skip(1));
        if s[0] == '\\' {
            assert(e == seq!['\\'] + x);
            assert(e[0] == '\\');
            if s.len() >= 2 {
                let y = escape_text(s.skip(2));
                lemma_escape_units(s.skip(2), q);
                assert(s.skip(1).skip(1) =~= s.skip(2));
                assert(s.skip(1)[0] == s[1]);
                if is_ctrl(s[1]) {
                    let l = escape_letter(s[1]);
                    assert(x == seq!['\\', l] + y);
                    let z = e.skip(2);
                    assert(z =~= seq![l] + y);
                    assert(z[0] == l);
                    assert(z.skip(1) =~= y);
                    assert(unit_seq(y, q) ==> unit_seq(z, q));
                    assert(open_body(y, q) ==> body_span(z, q) == 1 + y.len());
                } else {
                    assert(x == seq![s[1]] + y);
                    assert(e.skip(2) =~= y);
                }
            } else {
                assert(x.len() == 0);
            }
        } else {
            lemma_escape_units(s.skip(1), q);
            if is_ctrl(s[0]) {
                assert(e == seq!['\\', escape_letter(s[0])] + x);
                assert(e[0] == '\\');
                assert(e.skip(2) =~= x);
            } else {
                assert(e == seq![s[0]] + x);
                assert(e[0] == s[0]);
                assert(e.skip(1) =~= x);
            }
        }
    }
}


pub proof fn lemma_unescape_text(s: Seq<char>, q: char)
    requires
        is_quote(q),
    ensures
        unescape_text(unescape_text(s)) == unescape_text(s),
        unit_seq(s, q) ==> unit_seq(unescape_text(s), q),
        open_body(s, q) ==> open_body(unescape_text(s), q),
    decreases s.len(),
{
    let u = unescape_text(s);
    if s.len() >= 2 && s[0] == '\\' {
        let x = unescape_text(s.skip(2));
        lemma_unescape_text(s.skip(2), q);
        if is_escape_letter(s[1]) {
            let c = ctrl_of(s[1]);
            assert(u == seq![c] + x);
            assert(u[0] == c);
            assert(u.skip(1) =~= x);
        } else {
            assert(u == seq![s[0], s[1]] + x);
            assert(u[0] == '\\' && u[1] == s[1]);
            assert(u.skip(2) =~= x);
        }
    } else if s.len() > 0 {
        let x = unescape_text(s.skip(1));
        lemma_unescape_text(s.skip(1), q);
        assert(u == seq![s[0]] + x);
        assert(u[0] == s[0]);
        assert(u.skip(1) =~= x);
        if s[0] == '\\' {
            assert(s.skip(1).len() == 0);
            assert(x.len() == 0);
        }
    }
}

// ---------------------------------------------------------------------------
// Cores
pub proof fn lemma_add_core(q: char, c: Seq<char>)
    requires
        is_quote(q),
        clean(c),
        all_in(c, key_class()),
    ensures
        clean(add_core(q, c)),
        all_in(add_core(q, c), key_class()),
        with_core(add_core(q, c), add_core(q, key_core(add_core(q, c)))) == add_core(q, c),
        with_core(add_core(q, c), remove_core(key_core(add_core(q, c)))) == remove_core(c),
{
    lemma_clean_core(c, c);
    if bare(c) {
        let a = seq![q] + c + seq![q];
        assert(a[0] == q);
        assert(a.last() == q);
        assert(inner(a) =~= c);
        assert forall|i: int| 0 <= i < a.len() implies #[trigger] key_class()(a[i]) by {
            if 0 < i < a.len() - 1 {
                assert(a[i] == c[i - 1]);
            }
        }
    }
    lemma_clean_core(add_core(q, c), add_core(q, add_core(q, c)));
    lemma_clean_core(add_core(q, c), remove_core(add_core(q, c)));
}

pub proof fn lemma_remove_core(c: Seq<char>)
    requires
        clean(c),
        all_in(c, key_class()),
    ensures
        all_in(remove_core(c), key_class()),
        with_core(remove_core(c), remove_core(key_core(remove_core(c)))) == remove_core(c),
{
    lemma_clean_core(c, c);
    if quoted(c) {
        let i = inner(c);
        assert forall|j: int| 0 <= j < i.len() implies #[trigger] key_class()(i[j]) by {
            assert(i[j] == c[j + 1]);
        }
        lemma_split(i);
    }
}

pub proof fn lemma_escape_core(c: Seq<char>)
    requires
        clean(c),
        all_in(c, key_class()),
    ensures
        clean(escape_core(c)),
        all_in(escape_core(c), key_class()),
        escape_core(escape_core(c)) == escape_core(c),
        with_core(escape_core(c), escape_core(key_core(escape_core(c)))) == escape_core(c),
        no_backslash(c) && (quoted(c) ==> no_ctrl(inner(c))) ==> with_core(
            escape_core(c),
            unescape_core(key_core(escape_core(c))),
        ) == c,
{
    if quoted(c) {
        let i = inner(c);
        assert forall|j: int| 0 <= j < i.len() implies #[trigger] key_class()(i[j]) by {
            assert(i[j] == c[j + 1]);
        }
        lemma_drop_ctrl(i, key_class());
        let d = drop_ctrl(i);
        lemma_drop_ctrl(d, key_class());
        let e = seq![c[0]] + d + seq![c[0]];
        assert(e[0] == c[0]);
        assert(e.last() == c[0]);
        assert(inner(e) =~= d);
        assert(key_class()(c[0]));
        assert forall|j: int| 0 <= j < e.len() implies #[trigger] key_class()(e[j]) by {
            if 0 < j < e.len() - 1 {
                assert(e[j] == d[j - 1]);
            }
        }
        if no_ctrl(i) {
            assert(c =~= seq![c[0]] + i + seq![c[0]]);
        }
    } else {
        lemma_strip_escapes(c, key_class());
    }
    assert(clean(escape_core(c)));
    lemma_clean_core(escape_core(c), escape_core(escape_core(c)));
    lemma_clean_core(escape_core(c), unescape_core(escape_core(c)));
}

pub proof fn lemma_unescape_core(c: Seq<char>)
    requires
        clean(c),
        all_in(c, key_class()),
    ensures
        clean(unescape_core(c)),
        all_in(unescape_core(c), key_class()),
        with_core(unescape_core(c), unescape_core(key_core(unescape_core(c)))) == unescape_core(c),
{
    lemma_strip_escapes(c, key_class());
    lemma_strip_escapes(strip_escapes(c), key_class());
    lemma_clean_core(unescape_core(c), unescape_core(unescape_core(c)));
}

pub proof fn lemma_core_maps(q: char)
    requires
        is_quote(q),
    ensures
        core_map_ok(add_rule(q)),
        core_map_ok(remove_rule()),
        core_map_ok(escape_rule()),
        core_map_ok(unescape_rule()),
{
    assert forall|c: Seq<char>| clean(c) && all_in(c, key_class()) implies all_in(
        add_core(q, c),
        key_class(),
    ) && all_in(remove_core(c), key_class()) && all_in(escape_core(c), key_class()) && all_in(
        unescape_core(c),
        key_class(),
    ) by {
        lemma_add_core(q, c);
        lemma_remove_core(c);
        lemma_escape_core(c);
        lemma_unescape_core(c);
    }
}

// ---------------------------------------------------------------------------
// The passes
/// The text with each bare key put between two `q`.
pub open spec fn with_key_quotes(t: Seq<char>, q: char) -> Seq<char> {
    rewrite(add_key(q), keep_body(), t)
}

/// The text with the quotes taken off each quoted key.
pub open spec fn without_key_quotes(t: Seq<char>) -> Seq<char> {
    rewrite(remove_key(), keep_body(), t)
}

/// The text with control characters escaped in string values and dropped
/// from quoted keys.
pub open spec fn escaped(t: Seq<char>) -> Seq<char> {
    rewrite(escape_key(), escape_body(), t)
}

/// The text with escaped control characters restored in string values and
/// dropped from bare keys.
pub open spec fn unescaped(t: Seq<char>) -> Seq<char> {
    rewrite(unescape_key(), unescape_body(), t)
}

/// Keys with no backslash, and, where quoted, with no control character.
pub open spec fn plain_key() -> spec_fn(Seq<char>) -> bool {
    |r: Seq<char>|
        no_backslash(r) && (quoted(key_core(r)) ==> no_ctrl(inner(key_core(r))))
}

/// Bodies with no backslash.
pub open spec fn plain_body() -> spec_fn(char, Seq<char>) -> bool {
    |q: char, b: Seq<char>| no_backslash(b)
}

pub proof fn lemma_key_structure(f: spec_fn(Seq<char>) -> Seq<char>)
    requires
        core_map_ok(f),
    ensures
        forall|r: Seq<char>|
            all_in(r, key_class()) ==> all_in(#[trigger] on_core(f)(r), key_class()),
        forall|r: Seq<char>, sh: bool|
            all_in(r, key_class()) ==> all_in(#[trigger] when_shaped(f)(r, sh), key_class()),
        forall|r: Seq<char>, sh: bool|
            all_in(r, key_class()) ==> all_in(#[trigger] always(f)(r, sh), key_class()),
{
    assert forall|r: Seq<char>| all_in(r, key_class()) implies all_in(
        #[trigger] on_core(f)(r),
        key_class(),
    ) by {
        lemma_key_twice(f, f, r);
    }
    assert forall|r: Seq<char>, sh: bool| all_in(r, key_class()) implies all_in(
        #[trigger] when_shaped(f)(r, sh),
        key_class(),
    ) && all_in(always(f)(r, sh), key_class()) by {
        assert(all_in(on_core(f)(r), key_class()));
    }
}

/// Each pass keeps the lexical structure of the text.
pub proof fn lemma_passes_keep_structure(q: char)
    requires
        is_quote(q),
    ensures
        keeps_structure(add_key(q), keep_body()),
        keeps_structure(remove_key(), keep_body()),
        keeps_structure(escape_key(), escape_body()),
        keeps_structure(unescape_key(), unescape_body()),
{
    lemma_core_maps(q);
    lemma_key_structure(add_rule(q));
    lemma_key_structure(remove_rule());
    lemma_key_structure(escape_rule());
    lemma_key_structure(unescape_rule());
    assert forall|q2: char, b: Seq<char>| is_quote(q2) && unit_seq(b, q2) implies unit_seq(
        #[trigger] keep_body()(q2, b),
        q2,
    ) by {}
    assert forall|q2: char, b: Seq<char>| is_quote(q2) && open_body(b, q2) implies open_body(
        #[trigger] keep_body()(q2, b),
        q2,
    ) by {}
    assert forall|q2: char, b: Seq<char>| is_quote(q2) implies (unit_seq(b, q2) ==> unit_seq(
        #[trigger] escape_body()(q2, b),
        q2,
    )) && (open_body(b, q2) ==> open_body(escape_body()(q2, b), q2)) by {
        lemma_escape_units(b, q2);
    }
    assert forall|q2: char, b: Seq<char>| is_quote(q2) implies (unit_seq(b, q2) ==> unit_seq(
        #[trigger] unescape_body()(q2, b),
        q2,
    )) && (open_body(b, q2) ==> open_body(unescape_body()(q2, b), q2)) by {
        lemma_unescape_text(b, q2);
    }
}

/// Rewriting cores by `f` and then by `g` is rewriting them by `h`: `g`
/// rewrites the core of what `f` gave, and the whitespace around that core
/// stays.
pub proof fn lemma_key_fn_compose(
    f: spec_fn(Seq<char>) -> Seq<char>,
    g: spec_fn(Seq<char>) -> Seq<char>,
    h: spec_fn(Seq<char>) -> Seq<char>,
)
    requires
        core_map_ok(f),
        g(Seq::empty()) == Seq::<char>::empty(),
        h(Seq::empty()) == Seq::<char>::empty(),
        forall|c: Seq<char>|
            clean(c) && all_in(c, key_class()) ==> #[trigger] with_core(f(c), g(key_core(f(c))))
                == h(c),
    ensures
        forall|r: Seq<char>|
            all_in(r, key_class()) ==> #[trigger] on_core(g)(on_core(f)(r)) == on_core(h)(r),
{
    assert forall|r: Seq<char>| all_in(r, key_class()) implies #[trigger] on_core(g)(
        on_core(f)(r),
    ) == on_core(h)(r) by {
        lemma_key_twice(f, g, r);
        lemma_split(r);
        let k = key_core(r);
        if k.len() == 0 {
            assert(k =~= Seq::<char>::empty());
            lemma_all_ws_core(Seq::<char>::empty());
        }
    }
}

pub open spec fn other_than(q: char) -> spec_fn(char) -> bool {
    |x: char| x != q
}

pub open spec fn not_quote() -> spec_fn(char) -> bool {
    |x: char| !is_quote(x)
}

proof fn lemma_filter_one(c: char, p: spec_fn(char) -> bool)
    requires
        !p(c),
    ensures
        seq![c].filter(p) == Seq::<char>::empty(),
{
    reveal_with_fuel(Seq::<char>::filter, 2);
    assert(seq![c].drop_last() =~= Seq::<char>::empty());
    assert(seq![c].filter(p) =~= Seq::<char>::empty());
}

/// Adding quotes to a key adds nothing but the quote `q`.
pub proof fn lemma_add_key_filter(q: char, r: Seq<char>, sh: bool)
    ensures
        add_key(q)(r, sh).filter(other_than(q)) == r.filter(other_than(q)),
{
    let p = other_than(q);
    lemma_split(r);
    let k = key_core(r);
    let w1 = r.subrange(0, lead_len(r) as int);
    let w2 = r.subrange(r.len() - trail_len(r), r.len() as int);
    if sh && bare(k) {
        lemma_filter3(w1, seq![q] + k + seq![q], w2, p);
        lemma_filter3(seq![q], k, seq![q], p);
        lemma_filter_one(q, p);
        lemma_filter3(w1, k, w2, p);
        assert(seq![q].filter(p) + k.filter(p) + seq![q].filter(p) =~= k.filter(p));
    }
}

/// Removing quotes from a key removes nothing but quotes.
pub proof fn lemma_remove_key_filter(r: Seq<char>, sh: bool)
    ensures
        remove_key()(r, sh).filter(not_quote()) == r.filter(not_quote()),
{
    let p = not_quote();
    lemma_split(r);
    let k = key_core(r);
    let w1 = r.subrange(0, lead_len(r) as int);
    let w2 = r.subrange(r.len() - trail_len(r), r.len() as int);
    if quoted(k) && !quoted(key_core(inner(k))) {
        lemma_filter3(w1, inner(k), w2, p);
        lemma_filter3(w1, k, w2, p);
        assert(k =~= seq![k[0]] + inner(k) + seq![k[0]]);
        lemma_filter3(seq![k[0]], inner(k), seq![k[0]], p);
        lemma_filter_one(k[0], p);
        assert(seq![k[0]].filter(p) + inner(k).filter(p) + seq![k[0]].filter(p) =~= inner(
            k,
        ).filter(p));
    }
}

} // verus!

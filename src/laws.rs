//! What holds of the passes over every text.
use vstd::prelude::*;
use crate::grammar::{
    all_in, any_body, any_key, is_quote, keeps_structure, key_class, lemma_all_satisfy,
    lemma_compose, lemma_rewrite_filter, lemma_rewrite_identity, lemma_string_values,
    lexemes_satisfy, open_body, rewrite, string_values, unit_seq,
};
use crate::rules::{
    add_key, add_rule, always, clean, escape_body, escape_key, escape_rule, escaped, keep_body,
    key_core, lemma_add_core, lemma_add_key_filter, lemma_all_ws_core, lemma_core_maps,
    lemma_escape_core, lemma_escape_text, lemma_key_fn_compose, lemma_key_twice,
    lemma_passes_keep_structure, lemma_remove_core, lemma_remove_key_filter, lemma_split,
    lemma_unescape_core, lemma_unescape_text, not_quote, on_core, other_than, plain_body,
    plain_key, remove_key, remove_rule, unescape_body, unescape_key, unescape_rule, unescaped,
    when_shaped, with_core, with_key_quotes, without_key_quotes,
};
use crate::Quotes;

verus! {

proof fn lemma_idempotent(
    fk: spec_fn(Seq<char>, bool) -> Seq<char>,
    fb: spec_fn(char, Seq<char>) -> Seq<char>,
    t: Seq<char>,
)
    requires
        keeps_structure(fk, fb),
        forall|r: Seq<char>, sh: bool|
            all_in(r, key_class()) ==> #[trigger] fk(fk(r, sh), sh) == fk(r, sh),
        forall|q: char, b: Seq<char>|
            is_quote(q) && (unit_seq(b, q) || open_body(b, q)) ==> #[trigger] fb(q, fb(q, b))
                == fb(q, b),
    ensures
        rewrite(fk, fb, rewrite(fk, fb, t)) == rewrite(fk, fb, t),
{
    lemma_all_satisfy(t);
    lemma_compose(fk, fb, fk, fb, fk, fb, any_key(), any_body(), t);
}

proof fn lemma_shaped_compose(
    f: spec_fn(Seq<char>) -> Seq<char>,
    g: spec_fn(Seq<char>) -> Seq<char>,
    h: spec_fn(Seq<char>) -> Seq<char>,
)
    requires
        forall|r: Seq<char>|
            all_in(r, key_class()) ==> #[trigger] on_core(g)(on_core(f)(r)) == on_core(h)(r),
    ensures
        forall|r: Seq<char>, sh: bool|
            all_in(r, key_class()) ==> #[trigger] when_shaped(g)(when_shaped(f)(r, sh), sh)
                == when_shaped(h)(r, sh),
        forall|r: Seq<char>, sh: bool|
            all_in(r, key_class()) ==> #[trigger] always(g)(always(f)(r, sh), sh) == always(h)(
                r,
                sh,
            ),
        forall|r: Seq<char>, sh: bool|
            all_in(r, key_class()) && on_core(g)(r) == on_core(h)(r) ==> #[trigger] always(g)(
                when_shaped(f)(r, sh),
                sh,
            ) == always(h)(r, sh),
{
    assert forall|r: Seq<char>, sh: bool| all_in(r, key_class()) implies #[trigger] when_shaped(
        g,
    )(when_shaped(f)(r, sh), sh) == when_shaped(h)(r, sh) && always(g)(always(f)(r, sh), sh)
        == always(h)(r, sh) by {
        assert(on_core(g)(on_core(f)(r)) == on_core(h)(r));
    }
    assert forall|r: Seq<char>, sh: bool|
        all_in(r, key_class()) && on_core(g)(r) == on_core(h)(r) implies #[trigger] always(g)(
        when_shaped(f)(r, sh),
        sh,
    ) == always(h)(r, sh) by {
        assert(on_core(g)(on_core(f)(r)) == on_core(h)(r));
    }
}

/// Adding key quotes a second time changes nothing.
pub proof fn lemma_add_key_quotes_idempotent(t: Seq<char>, quote_type: Quotes)
    ensures
        with_key_quotes(with_key_quotes(t, quote_type.spec_char()), quote_type.spec_char())
            == with_key_quotes(t, quote_type.spec_char()),
{
    let q = quote_type.spec_char();
    lemma_passes_keep_structure(q);
    lemma_core_maps(q);
    assert forall|c: Seq<char>| clean(c) && all_in(c, key_class()) implies #[trigger] with_core(
        add_rule(q)(c),
        add_rule(q)(key_core(add_rule(q)(c))),
    ) == add_rule(q)(c) by {
        lemma_add_core(q, c);
    }
    lemma_key_fn_compose(add_rule(q), add_rule(q), add_rule(q));
    lemma_shaped_compose(add_rule(q), add_rule(q), add_rule(q));
    lemma_idempotent(add_key(q), keep_body(), t);
}

/// Removing key quotes a second time changes nothing.
pub proof fn lemma_remove_key_quotes_idempotent(t: Seq<char>)
    ensures
        without_key_quotes(without_key_quotes(t)) == without_key_quotes(t),
{
    lemma_passes_keep_structure('"');
    lemma_core_maps('"');
    assert forall|c: Seq<char>| clean(c) && all_in(c, key_class()) implies #[trigger] with_core(
        remove_rule()(c),
        remove_rule()(key_core(remove_rule()(c))),
    ) == remove_rule()(c) by {
        lemma_remove_core(c);
    }
    lemma_key_fn_compose(remove_rule(), remove_rule(), remove_rule());
    lemma_shaped_compose(remove_rule(), remove_rule(), remove_rule());
    lemma_idempotent(remove_key(), keep_body(), t);
}

/// Escaping a second time changes nothing.
pub proof fn lemma_escape_ctrlchars_idempotent(t: Seq<char>)
    ensures
        escaped(escaped(t)) == escaped(t),
{
    lemma_passes_keep_structure('"');
    lemma_core_maps('"');
    assert forall|c: Seq<char>| clean(c) && all_in(c, key_class()) implies #[trigger] with_core(
        escape_rule()(c),
        escape_rule()(key_core(escape_rule()(c))),
    ) == escape_rule()(c) by {
        lemma_escape_core(c);
    }
    lemma_key_fn_compose(escape_rule(), escape_rule(), escape_rule());
    lemma_shaped_compose(escape_rule(), escape_rule(), escape_rule());
    assert forall|q: char, b: Seq<char>|
        is_quote(q) && (unit_seq(b, q) || open_body(b, q)) implies #[trigger] escape_body()(
        q,
        escape_body()(q, b),
    ) == escape_body()(q, b) by {
        lemma_escape_text(b, q);
        lemma_escape_text(escape_body()(q, b), q);
    }
    lemma_idempotent(escape_key(), escape_body(), t);
}

/// Unescaping a second time changes nothing.
pub proof fn lemma_unescape_ctrlchars_idempotent(t: Seq<char>)
    ensures
        unescaped(unescaped(t)) == unescaped(t),
{
    lemma_passes_keep_structure('"');
    lemma_core_maps('"');
    assert forall|c: Seq<char>| clean(c) && all_in(c, key_class()) implies #[trigger] with_core(
        unescape_rule()(c),
        unescape_rule()(key_core(unescape_rule()(c))),
    ) == unescape_rule()(c) by {
        lemma_unescape_core(c);
    }
    lemma_key_fn_compose(unescape_rule(), unescape_rule(), unescape_rule());
    lemma_shaped_compose(unescape_rule(), unescape_rule(), unescape_rule());
    assert forall|q: char, b: Seq<char>|
        is_quote(q) && (unit_seq(b, q) || open_body(b, q)) implies #[trigger] unescape_body()(
        q,
        unescape_body()(q, b),
    ) == unescape_body()(q, b) by {
        lemma_unescape_text(b, q);
    }
    lemma_idempotent(unescape_key(), unescape_body(), t);
}

/// Adding key quotes and then removing them is removing them: the keys end
/// up as the removal alone leaves them, and the rest of the text is kept.
pub proof fn lemma_add_then_remove(t: Seq<char>, quote_type: Quotes)
    ensures
        without_key_quotes(with_key_quotes(t, quote_type.spec_char())) == without_key_quotes(t),
{
    let q = quote_type.spec_char();
    lemma_passes_keep_structure(q);
    lemma_core_maps(q);
    assert forall|c: Seq<char>| clean(c) && all_in(c, key_class()) implies #[trigger] with_core(
        add_rule(q)(c),
        remove_rule()(key_core(add_rule(q)(c))),
    ) == remove_rule()(c) by {
        lemma_add_core(q, c);
    }
    lemma_key_fn_compose(add_rule(q), remove_rule(), remove_rule());
    lemma_shaped_compose(add_rule(q), remove_rule(), remove_rule());
    lemma_all_satisfy(t);
    lemma_compose(
        add_key(q),
        keep_body(),
        remove_key(),
        keep_body(),
        remove_key(),
        keep_body(),
        any_key(),
        any_body(),
        t,
    );
}

/// On a text whose keys and string values hold no backslash, and whose
/// quoted keys hold no control character, unescaping undoes escaping.
pub proof fn lemma_escape_then_unescape(t: Seq<char>)
    requires
        lexemes_satisfy(plain_key(), plain_body(), t),
    ensures
        unescaped(escaped(t)) == t,
{
    lemma_passes_keep_structure('"');
    lemma_core_maps('"');
    let id_key = |r: Seq<char>, sh: bool| r;
    let id_body = |q: char, b: Seq<char>| b;
    assert forall|r: Seq<char>, sh: bool|
        all_in(r, key_class()) && plain_key()(r) implies #[trigger] unescape_key()(
        escape_key()(r, sh),
        sh,
    ) == id_key(r, sh) by {
        lemma_key_twice(escape_rule(), unescape_rule(), r);
        lemma_split(r);
        let k = key_core(r);
        if k.len() == 0 {
            assert(k =~= Seq::<char>::empty());
            lemma_all_ws_core(Seq::<char>::empty());
        } else {
            let l = crate::rules::lead_len(r) as int;
            assert forall|i: int| 0 <= i < k.len() implies #[trigger] k[i] != '\\' by {
                assert(k[i] == r[l + i]);
            }
            lemma_escape_core(k);
        }
    }
    assert forall|q: char, b: Seq<char>|
        is_quote(q) && (unit_seq(b, q) || open_body(b, q)) && #[trigger] plain_body()(
            q,
            b,
        ) implies unescape_body()(q, escape_body()(q, b)) == id_body(q, b) by {
        lemma_escape_text(b, q);
    }
    lemma_compose(
        escape_key(),
        escape_body(),
        unescape_key(),
        unescape_body(),
        id_key,
        id_body,
        plain_key(),
        plain_body(),
        t,
    );
    lemma_all_satisfy(t);
    lemma_rewrite_identity(id_key, id_body, any_key(), any_body(), t);
}

/// Adding or removing key quotes leaves every string value as it is: its
/// body, its quotes and the colon and whitespace before it.
pub proof fn lemma_quotes_keep_values(t: Seq<char>, quote_type: Quotes)
    ensures
        string_values(with_key_quotes(t, quote_type.spec_char())) == string_values(t),
        string_values(without_key_quotes(t)) == string_values(t),
{
    lemma_passes_keep_structure(quote_type.spec_char());
    lemma_string_values(add_key(quote_type.spec_char()), keep_body(), t);
    lemma_string_values(remove_key(), keep_body(), t);
}

/// Adding key quotes changes the text only by quotes `quote_type`: with
/// those taken out, the text before and after is the same.
pub proof fn lemma_add_changes_only_quotes(t: Seq<char>, quote_type: Quotes)
    ensures
        with_key_quotes(t, quote_type.spec_char()).filter(other_than(quote_type.spec_char()))
            == t.filter(other_than(quote_type.spec_char())),
{
    let q = quote_type.spec_char();
    assert forall|r: Seq<char>, sh: bool| all_in(r, key_class()) implies (#[trigger] add_key(q)(
        r,
        sh,
    )).filter(other_than(q)) == r.filter(other_than(q)) by {
        lemma_add_key_filter(q, r, sh);
    }
    lemma_rewrite_filter(add_key(q), keep_body(), other_than(q), t);
}

/// Removing key quotes changes the text only by quote characters: with
/// quotes taken out, the text before and after is the same.
pub proof fn lemma_remove_changes_only_quotes(t: Seq<char>)
    ensures
        without_key_quotes(t).filter(not_quote()) == t.filter(not_quote()),
{
    assert forall|r: Seq<char>, sh: bool| all_in(r, key_class()) implies (#[trigger] remove_key()(
        r,
        sh,
    )).filter(not_quote()) == r.filter(not_quote()) by {
        lemma_remove_key_filter(r, sh);
    }
    lemma_rewrite_filter(remove_key(), keep_body(), not_quote(), t);
}

} // verus!

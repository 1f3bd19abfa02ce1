//! Properties of the renderer and the request helpers that hold for every
//! input.

use vstd::prelude::*;
use crate::fetch::{fields_of, form_fields, keys, merge_field};
use crate::inline::{color_code, grey_css};
use crate::links::{rewritten, sanitized, script_scheme, visible, ignorable, dest_hash, node_path, NOMAD_DEFAULT_PAGE_PATH};
use crate::text::{
    dec_digit, decimal, digit_char, escape_char, escaped, find_first, has_prefix, hex_digit,
    lemma_find_first_none, lower, lower_seq,
};

verus! {

/// No character that could open or close a tag or an attribute value.
pub open spec fn no_markup(s: Seq<char>) -> bool {
    forall|i: int| 0 <= i < s.len() ==> #[trigger] s[i] != '<' && s[i] != '>' && s[i] != '"'
}

/// Joining two pieces of markup-free text gives markup-free text.
pub proof fn lemma_no_markup_concat(a: Seq<char>, b: Seq<char>)
    requires
        no_markup(a),
        no_markup(b),
    ensures
        no_markup(a + b),
{
    assert forall|i: int| 0 <= i < (a + b).len() implies #[trigger] (a + b)[i] != '<' && (a
        + b)[i] != '>' && (a + b)[i] != '"' by {
        if i < a.len() {
            assert((a + b)[i] == a[i]);
        } else {
            assert((a + b)[i] == b[i - a.len()]);
        }
    }
}

proof fn lemma_escape_char_inert(c: char)
    ensures
        no_markup(escape_char(c)),
{
    reveal_strlit("&amp;");
    reveal_strlit("&lt;");
    reveal_strlit("&gt;");
    reveal_strlit("&quot;");
}

/// Escaped text holds no `<`, `>` or `"`: whatever a page's text holds, it
/// can neither open a tag nor leave an attribute value.
pub proof fn escaped_is_inert(s: Seq<char>)
    ensures
        no_markup(escaped(s)),
    decreases s.len(),
{
    if s.len() > 0 {
        escaped_is_inert(s.drop_last());
        lemma_escape_char_inert(s.last());
        lemma_no_markup_concat(escaped(s.drop_last()), escape_char(s.last()));
    }
}

proof fn lemma_decimal_digits(n: nat)
    ensures
        forall|i: int| 0 <= i < decimal(n).len() ==> dec_digit(#[trigger] decimal(n)[i]),
    decreases n,
{
    if n >= 10 {
        lemma_decimal_digits(n / 10);
        assert forall|i: int| 0 <= i < decimal(n).len() implies dec_digit(#[trigger] decimal(n)[i])
            by {
            if i < decimal(n / 10).len() {
                assert(decimal(n)[i] == decimal(n / 10)[i]);
            }
        }
    }
}

/// A colour that a `` `F ``/`` `B `` directive sets holds no `<`, `>` or `"`:
/// directives cannot break out of the `style` attribute they end up in.
pub proof fn color_code_is_inert(rest: Seq<char>)
    ensures
        color_code(rest).0 matches Some(c) ==> no_markup(c),
{
    if let Some(c) = color_code(rest).0 {
        if rest.len() >= 7 && rest[0] == 'T' {
            assert forall|i: int| 0 <= i < c.len() implies #[trigger] c[i] != '<' && c[i] != '>'
                && c[i] != '"' by {
                if i > 0 {
                    assert(c[i] == rest[i]);
                    assert(hex_digit(rest[i]));
                }
            }
        } else if rest[0] == 'g' && crate::inline::two_digit_value(rest[1], rest[2]) is Some {
            let v = crate::inline::grey_level(crate::inline::two_digit_value(rest[1], rest[2])->0);
            reveal_strlit("rgb(");
            reveal_strlit(")");
            lemma_decimal_digits(v);
            let d = decimal(v);
            assert(no_markup(d));
            assert(no_markup("rgb("@));
            assert(no_markup(")"@));
            assert(no_markup(seq![',']));
            lemma_no_markup_concat("rgb("@, d);
            lemma_no_markup_concat("rgb("@ + d, seq![',']);
            lemma_no_markup_concat("rgb("@ + d + seq![','], d);
            lemma_no_markup_concat("rgb("@ + d + seq![','] + d, seq![',']);
            lemma_no_markup_concat("rgb("@ + d + seq![','] + d + seq![','], d);
            lemma_no_markup_concat("rgb("@ + d + seq![','] + d + seq![','] + d, ")"@);
        }
    }
}

/// A character a CSS colour of a directive may hold: `#`, a hex digit, or
/// one of `r`, `g`, `b`, `(`, `,`, `)`.
pub open spec fn color_char(x: char) -> bool {
    x == '#' || hex_digit(x) || x == 'r' || x == 'g' || x == 'b' || x == '(' || x == ',' || x
        == ')'
}

/// Every character of `s` may stand in a colour.
pub open spec fn color_chars(s: Seq<char>) -> bool {
    forall|i: int| 0 <= i < s.len() ==> color_char(#[trigger] s[i])
}

proof fn lemma_color_chars_concat(a: Seq<char>, b: Seq<char>)
    requires
        color_chars(a),
        color_chars(b),
    ensures
        color_chars(a + b),
{
    assert forall|i: int| 0 <= i < (a + b).len() implies color_char(#[trigger] (a + b)[i]) by {
        if i < a.len() {
            assert((a + b)[i] == a[i]);
        } else {
            assert((a + b)[i] == b[i - a.len()]);
        }
    }
}

/// A colour code takes no, three or seven characters, never more than there
/// are; one that takes none sets no colour; and a colour it sets is made of
/// `#` and hex digits, or of `rgb(`, decimal digits, `,` and `)`.
pub proof fn color_code_shape(rest: Seq<char>)
    ensures
        color_code(rest).1 == 0 || color_code(rest).1 == 3 || color_code(rest).1 == 7,
        color_code(rest).1 <= rest.len(),
        color_code(rest).1 == 0 ==> color_code(rest).0 is None,
        color_code(rest).0 matches Some(c) ==> color_chars(c),
{
    if let Some(c) = color_code(rest).0 {
        if rest.len() >= 7 && rest[0] == 'T' {
            assert forall|i: int| 0 <= i < c.len() implies color_char(#[trigger] c[i]) by {
                if i > 0 {
                    assert(c[i] == rest[i]);
                    assert(hex_digit(rest[i]));
                }
            }
        } else if rest[0] == 'g' && crate::inline::two_digit_value(rest[1], rest[2]) is Some {
            let v = crate::inline::grey_level(crate::inline::two_digit_value(rest[1], rest[2])->0);
            reveal_strlit("rgb(");
            reveal_strlit(")");
            lemma_decimal_digits(v);
            let d = decimal(v);
            assert(color_chars(d)) by {
                assert forall|i: int| 0 <= i < d.len() implies color_char(#[trigger] d[i]) by {
                    assert(dec_digit(d[i]));
                }
            }
            assert("rgb("@ =~= seq!['r', 'g', 'b', '(']);
            assert(color_chars("rgb("@));
            assert(color_chars(")"@));
            assert(color_chars(seq![',']));
            lemma_color_chars_concat("rgb("@, d);
            lemma_color_chars_concat("rgb("@ + d, seq![',']);
            lemma_color_chars_concat("rgb("@ + d + seq![','], d);
            lemma_color_chars_concat("rgb("@ + d + seq![','] + d, seq![',']);
            lemma_color_chars_concat("rgb("@ + d + seq![','] + d + seq![','], d);
            lemma_color_chars_concat("rgb("@ + d + seq![','] + d + seq![','] + d, ")"@);
        } else {
            assert forall|i: int| 0 <= i < c.len() implies color_char(#[trigger] c[i]) by {}
        }
    }
}

// ---------------------------------------------------------------------------
// Link targets.

pub proof fn lemma_visible_concat(a: Seq<char>, b: Seq<char>)
    ensures
        visible(a + b) == visible(a) + visible(b),
    decreases b.len(),
{
    if b.len() == 0 {
        assert(a + b =~= a);
        assert(visible(a) + visible(b) =~= visible(a));
    } else {
        lemma_visible_concat(a, b.drop_last());
        assert((a + b).drop_last() =~= a + b.drop_last());
        assert((a + b).last() == b.last());
        if ignorable(b.last()) {
        } else {
            assert(visible(a) + visible(b) =~= (visible(a) + visible(b.drop_last())).push(b.last()));
        }
    }
}

proof fn lemma_visible_from(s: Seq<char>)
    ensures
        forall|i: int|
            0 <= i < visible(s).len() ==> exists|j: int| 0 <= j < s.len() && s[j] == #[trigger] visible(s)[i],
    decreases s.len(),
{
    if s.len() > 0 {
        lemma_visible_from(s.drop_last());
        assert forall|i: int| 0 <= i < visible(s).len() implies exists|j: int|
            0 <= j < s.len() && s[j] == #[trigger] visible(s)[i] by {
            if i < visible(s.drop_last()).len() {
                assert(visible(s)[i] == visible(s.drop_last())[i]);
                let j = choose|j: int| 0 <= j < s.drop_last().len() && s.drop_last()[j] == visible(s.drop_last())[i];
                assert(s[j] == s.drop_last()[j]);
            } else {
                assert(visible(s)[i] == s.last());
                assert(s[s.len() - 1] == s.last());
            }
        }
    }
}

/// A sequence that starts with a character other than the first of each
/// script scheme, once white space is dropped and letters lowered.
pub proof fn lemma_not_script_by_first(s: Seq<char>, c: char)
    requires
        visible(seq![c]) == seq![c],
        lower(c) != 'j' && lower(c) != 'd' && lower(c) != 'v',
    ensures
        !script_scheme(seq![c] + s),
{
    lemma_visible_concat(seq![c], s);
    reveal_strlit("javascript:");
    reveal_strlit("data:");
    reveal_strlit("vbscript:");
    let v = visible(seq![c] + s);
    assert(v == seq![c] + visible(s));
    assert(v[0] == c);
    let n = lower_seq(v);
    assert(n[0] == lower(c));
    if has_prefix(n, "javascript:"@) {
        assert(n.subrange(0, 11)[0] == n[0]);
    }
    if has_prefix(n, "data:"@) {
        assert(n.subrange(0, 5)[0] == n[0]);
    }
    if has_prefix(n, "vbscript:"@) {
        assert(n.subrange(0, 9)[0] == n[0]);
    }
}

pub proof fn lemma_visible_single(c: char)
    requires
        !ignorable(c),
    ensures
        visible(seq![c]) == seq![c],
{
    assert(seq![c].drop_last() =~= Seq::<char>::empty());
    assert(seq![c].last() == c);
    assert(visible(Seq::<char>::empty()) =~= Seq::<char>::empty());
    assert(visible(seq![c]) =~= Seq::<char>::empty().push(c));
}

pub proof fn lemma_not_script_without_colon(s: Seq<char>)
    requires
        forall|i: int| 0 <= i < s.len() ==> s[i] != ':',
    ensures
        !script_scheme(s),
{
    lemma_visible_from(s);
    reveal_strlit("javascript:");
    reveal_strlit("data:");
    reveal_strlit("vbscript:");
    let v = visible(s);
    let n = lower_seq(v);
    assert forall|i: int| 0 <= i < n.len() implies #[trigger] n[i] != ':' by {
        let j = choose|j: int| 0 <= j < s.len() && s[j] == v[i];
        assert(s[j] != ':');
    }
    if has_prefix(n, "javascript:"@) {
        assert(n.subrange(0, 11)[10] == ':');
    }
    if has_prefix(n, "data:"@) {
        assert(n.subrange(0, 5)[4] == ':');
    }
    if has_prefix(n, "vbscript:"@) {
        assert(n.subrange(0, 9)[8] == ':');
    }
}

pub proof fn lemma_nomad_prefix(s: Seq<char>)
    ensures
        !script_scheme("nomad://"@ + s),
{
    reveal_strlit("nomad://");
    let rest = "nomad://"@.drop_first() + s;
    assert("nomad://"@ + s =~= seq!['n'] + rest);
    lemma_visible_single('n');
    lemma_not_script_by_first(rest, 'n');
}

/// A link's `href` never names a script-bearing scheme: blocked targets
/// become `#blocked`, and the rewriting of the others cannot produce one.
pub proof fn sanitized_never_script(url: Seq<char>)
    ensures
        !script_scheme(sanitized(url)),
{
    if script_scheme(url) {
        reveal_strlit("#blocked");
        let rest = "#blocked"@.drop_first();
        assert("#blocked"@ =~= seq!['#'] + rest);
        lemma_visible_single('#');
        lemma_not_script_by_first(rest, '#');
    } else if has_prefix(url, "nomadnetwork://"@) {
        lemma_nomad_prefix(url.skip("nomadnetwork://"@.len() as int));
    } else {
        match find_first(url, ':') {
            Some(k) => {
                let first = url.take(k);
                let path = url.skip(k + 1);
                if dest_hash(first) {
                    assert("nomad://"@ + first + node_path(path) =~= "nomad://"@ + (first + node_path(path)));
                    lemma_nomad_prefix(first + node_path(path));
                } else if first.len() == 0 && path.len() > 0 && find_first(path, ':') is None {
                    lemma_find_first_none(path, ':');
                    lemma_not_script_without_colon(path);
                }
            },
            None => {
                if dest_hash(url) {
                    assert("nomad://"@ + url + NOMAD_DEFAULT_PAGE_PATH@ =~= "nomad://"@ + (url
                        + NOMAD_DEFAULT_PAGE_PATH@));
                    lemma_nomad_prefix(url + NOMAD_DEFAULT_PAGE_PATH@);
                }
            },
        }
    }
}

/// `p` stands in `t` at `k`.
pub open spec fn occurs_at(t: Seq<char>, k: int, p: Seq<char>) -> bool {
    0 <= k && k + p.len() <= t.len() && t.subrange(k, k + p.len()) == p
}

/// One of the four entities the escape writes starts at `k`.
pub open spec fn entity_at(t: Seq<char>, k: int) -> bool {
    occurs_at(t, k, "&amp;"@) || occurs_at(t, k, "&lt;"@) || occurs_at(t, k, "&gt;"@)
        || occurs_at(t, k, "&quot;"@)
}

/// None of the four characters that the escape replaces.
pub open spec fn plain_text(s: Seq<char>) -> bool {
    forall|i: int|
        0 <= i < s.len() ==> #[trigger] s[i] != '&' && s[i] != '<' && s[i] != '>' && s[i] != '"'
}

proof fn lemma_entity_literals()
    ensures
        "&amp;"@ == seq!['&', 'a', 'm', 'p', ';'],
        "&lt;"@ == seq!['&', 'l', 't', ';'],
        "&gt;"@ == seq!['&', 'g', 't', ';'],
        "&quot;"@ == seq!['&', 'q', 'u', 'o', 't', ';'],
{
    reveal_strlit("&amp;");
    reveal_strlit("&lt;");
    reveal_strlit("&gt;");
    reveal_strlit("&quot;");
}

proof fn lemma_occurs_in_prefix(a: Seq<char>, b: Seq<char>, k: int, p: Seq<char>)
    requires
        occurs_at(a, k, p),
    ensures
        occurs_at(a + b, k, p),
{
    assert((a + b).subrange(k, k + p.len()) =~= a.subrange(k, k + p.len()));
}

proof fn lemma_occurs_in_suffix(a: Seq<char>, b: Seq<char>, k: int, p: Seq<char>)
    requires
        occurs_at(b, k, p),
    ensures
        occurs_at(a + b, a.len() + k, p),
{
    assert((a + b).subrange(a.len() + k, a.len() + k + p.len()) =~= b.subrange(k, k + p.len()));
}

/// Every `&` in escaped text starts one of the entities `&amp;`, `&lt;`,
/// `&gt;`, `&quot;`.
pub proof fn escaped_ampersands_start_entities(s: Seq<char>)
    ensures
        forall|k: int| 0 <= k < escaped(s).len() && escaped(s)[k] == '&' ==> #[trigger] entity_at(
            escaped(s),
            k,
        ),
    decreases s.len(),
{
    if s.len() > 0 {
        let a = escaped(s.drop_last());
        let e = escape_char(s.last());
        escaped_ampersands_start_entities(s.drop_last());
        lemma_entity_literals();
        assert forall|k: int| 0 <= k < (a + e).len() && (a + e)[k] == '&' implies #[trigger] entity_at(
            a + e,
            k,
        ) by {
            if k < a.len() {
                assert(a[k] == '&');
                assert(entity_at(a, k));
                if occurs_at(a, k, "&amp;"@) {
                    lemma_occurs_in_prefix(a, e, k, "&amp;"@);
                } else if occurs_at(a, k, "&lt;"@) {
                    lemma_occurs_in_prefix(a, e, k, "&lt;"@);
                } else if occurs_at(a, k, "&gt;"@) {
                    lemma_occurs_in_prefix(a, e, k, "&gt;"@);
                } else {
                    lemma_occurs_in_prefix(a, e, k, "&quot;"@);
                }
            } else {
                let j = k - a.len();
                assert(e[j] == '&');
                let c = s.last();
                if c == '&' {
                    assert(j == 0);
                    assert(e.subrange(0, e.len() as int) =~= e);
                    assert(occurs_at(e, 0, "&amp;"@));
                    lemma_occurs_in_suffix(a, e, 0, "&amp;"@);
                } else if c == '<' {
                    assert(j == 0);
                    assert(e.subrange(0, e.len() as int) =~= e);
                    assert(occurs_at(e, 0, "&lt;"@));
                    lemma_occurs_in_suffix(a, e, 0, "&lt;"@);
                } else if c == '>' {
                    assert(j == 0);
                    assert(e.subrange(0, e.len() as int) =~= e);
                    assert(occurs_at(e, 0, "&gt;"@));
                    lemma_occurs_in_suffix(a, e, 0, "&gt;"@);
                } else if c == '"' {
                    assert(j == 0);
                    assert(e.subrange(0, e.len() as int) =~= e);
                    assert(occurs_at(e, 0, "&quot;"@));
                    lemma_occurs_in_suffix(a, e, 0, "&quot;"@);
                } else {
                    assert(e == seq![c]);
                }
            }
        }
    }
}

/// Text holding none of `&`, `<`, `>`, `"` is left as it is by the escape.
pub proof fn escape_keeps_plain_text(s: Seq<char>)
    requires
        plain_text(s),
    ensures
        escaped(s) == s,
    decreases s.len(),
{
    if s.len() > 0 {
        assert(plain_text(s.drop_last())) by {
            assert forall|i: int| 0 <= i < s.drop_last().len() implies #[trigger] s.drop_last()[i]
                != '&' && s.drop_last()[i] != '<' && s.drop_last()[i] != '>' && s.drop_last()[i]
                != '"' by {
                assert(s.drop_last()[i] == s[i]);
            }
        }
        escape_keeps_plain_text(s.drop_last());
        assert(s[s.len() - 1] == s.last());
        assert(escaped(s) =~= s.drop_last() + seq![s.last()]);
        assert(s =~= s.drop_last() + seq![s.last()]);
    }
}

/// One left-to-right pass over `t` that turns each `&amp;`, `&lt;`, `&gt;`,
/// `&quot;` back into the character it stands for.
pub open spec fn unescaped(t: Seq<char>) -> Seq<char>
    decreases t.len(),
{
    if t.len() == 0 {
        Seq::empty()
    } else if has_prefix(t, "&amp;"@) && "&amp;"@.len() > 0 {
        seq!['&'] + unescaped(t.skip("&amp;"@.len() as int))
    } else if has_prefix(t, "&lt;"@) && "&lt;"@.len() > 0 {
        seq!['<'] + unescaped(t.skip("&lt;"@.len() as int))
    } else if has_prefix(t, "&gt;"@) && "&gt;"@.len() > 0 {
        seq!['>'] + unescaped(t.skip("&gt;"@.len() as int))
    } else if has_prefix(t, "&quot;"@) && "&quot;"@.len() > 0 {
        seq!['"'] + unescaped(t.skip("&quot;"@.len() as int))
    } else {
        seq![t[0]] + unescaped(t.skip(1))
    }
}

proof fn lemma_escaped_concat(a: Seq<char>, b: Seq<char>)
    ensures
        escaped(a + b) == escaped(a) + escaped(b),
    decreases b.len(),
{
    if b.len() == 0 {
        assert(a + b =~= a);
        assert(escaped(a) + escaped(b) =~= escaped(a));
    } else {
        lemma_escaped_concat(a, b.drop_last());
        assert((a + b).drop_last() =~= a + b.drop_last());
        assert((a + b).last() == b.last());
        assert(escaped(a + b) =~= escaped(a) + escaped(b));
    }
}

proof fn lemma_unescape_step(c: char, rest: Seq<char>)
    ensures
        unescaped(escape_char(c) + rest) == seq![c] + unescaped(rest),
{
    lemma_entity_literals();
    let t = escape_char(c) + rest;
    if c == '&' {
        assert(t.subrange(0, 5) =~= "&amp;"@);
        assert(t.skip(5) =~= rest);
    } else if c == '<' {
        assert(t.subrange(0, 4) =~= "&lt;"@);
        assert(t.skip(4) =~= rest);
    } else if c == '>' {
        assert(t.subrange(0, 4) =~= "&gt;"@);
        assert(t.skip(4) =~= rest);
    } else if c == '"' {
        assert(t.subrange(0, 6) =~= "&quot;"@);
        assert(t.skip(6) =~= rest);
    } else {
        assert(t[0] == c);
        assert(!has_prefix(t, "&amp;"@)) by {
            if has_prefix(t, "&amp;"@) {
                assert(t.subrange(0, 5)[0] == t[0]);
            }
        }
        assert(!has_prefix(t, "&lt;"@)) by {
            if has_prefix(t, "&lt;"@) {
                assert(t.subrange(0, 4)[0] == t[0]);
            }
        }
        assert(!has_prefix(t, "&gt;"@)) by {
            if has_prefix(t, "&gt;"@) {
                assert(t.subrange(0, 4)[0] == t[0]);
            }
        }
        assert(!has_prefix(t, "&quot;"@)) by {
            if has_prefix(t, "&quot;"@) {
                assert(t.subrange(0, 6)[0] == t[0]);
            }
        }
        assert(t.skip(1) =~= rest);
    }
}

/// Undoing the escape gives the text back: `unescaped(escaped(s)) == s`.
pub proof fn unescape_undoes_escape(s: Seq<char>)
    ensures
        unescaped(escaped(s)) == s,
    decreases s.len(),
{
    if s.len() > 0 {
        let c = s[0];
        let rest = s.drop_first();
        assert(s =~= seq![c] + rest);
        lemma_escaped_concat(seq![c], rest);
        assert(seq![c].drop_last() =~= Seq::<char>::empty());
        assert(escaped(Seq::<char>::empty()) =~= Seq::<char>::empty());
        assert(seq![c].last() == c);
        assert(escaped(seq![c]) =~= escape_char(c));
        lemma_unescape_step(c, escaped(rest));
        unescape_undoes_escape(rest);
    } else {
        assert(escaped(s) =~= Seq::<char>::empty());
    }
}

/// Different texts escape differently.
pub proof fn escape_is_injective(a: Seq<char>, b: Seq<char>)
    requires
        escaped(a) == escaped(b),
    ensures
        a == b,
{
    unescape_undoes_escape(a);
    unescape_undoes_escape(b);
}

// ---------------------------------------------------------------------------
// Form fields.

/// No key occurs twice.
pub open spec fn distinct_keys(fields: Seq<(Seq<char>, Seq<char>)>) -> bool {
    forall|i: int, j: int|
        0 <= i < j < fields.len() ==> #[trigger] fields[i].0 != #[trigger] fields[j].0
}

proof fn lemma_merge_distinct(fields: Seq<(Seq<char>, Seq<char>)>, kv: (Seq<char>, Seq<char>))
    requires
        distinct_keys(fields),
    ensures
        distinct_keys(merge_field(fields, kv)),
{
    let ks = keys(fields);
    lemma_find_first_none(ks, kv.0);
    match find_first(ks, kv.0) {
        Some(k) => {
            assert(ks[k] == fields[k].0);
            let m = merge_field(fields, kv);
            assert forall|i: int, j: int| 0 <= i < j < m.len() implies #[trigger] m[i].0
                != #[trigger] m[j].0 by {
                assert(m[i].0 == fields[i].0);
                assert(m[j].0 == fields[j].0);
            }
        },
        None => {
            let m = merge_field(fields, kv);
            assert forall|i: int, j: int| 0 <= i < j < m.len() implies #[trigger] m[i].0
                != #[trigger] m[j].0 by {
                if j == fields.len() {
                    assert(ks[i] == fields[i].0);
                }
            }
        },
    }
}

proof fn lemma_fields_distinct(pairs: Seq<Seq<u8>>)
    ensures
        distinct_keys(fields_of(pairs)),
    decreases pairs.len(),
{
    if pairs.len() > 0 {
        lemma_fields_distinct(pairs.drop_last());
        if pairs.last().len() > 0 {
            lemma_merge_distinct(fields_of(pairs.drop_last()), crate::fetch::form_pair(pairs.last()));
        }
    }
}

/// A form payload carries each field name once: repeated names (a checkbox
/// group) are merged into one entry.
pub proof fn form_fields_have_distinct_keys(query: Seq<u8>)
    ensures
        distinct_keys(form_fields(query)),
{
    lemma_fields_distinct(crate::text::split(query, 0x26u8));
}

} // verus!

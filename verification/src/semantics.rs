//! What the operations do, stated over their inputs and results: colour
//! codes keep their digits in order and a reset ends a colour run; toggles,
//! alignment, backslash escapes, anchors and links render as the markup
//! says; percent-decoding undoes percent-encoding and repeated form keys
//! join their values; lines of text, comments, headings, dividers and the
//! depth reset render as their markers say; a table's first row is a header
//! exactly when its second row is a rule; paths are classified by their last
//! extension in any case; and a whole-number refresh interval counts when it
//! is at least one.

use vstd::prelude::*;
use crate::blocks::{body_html, cells_html, table_html, table_rows};
use crate::fetch::percent_decoded;
use crate::inline::{color_code, inline_html, inline_step, plain_style, scan, scan_start, InlineScan, InlineStyle};
use crate::text::{dec_digit, escaped, find_first, lemma_find_first_none};
use crate::inline::{css_text, directive, flushed, link_html};
use crate::links::sanitized;
use crate::laws::{escape_keeps_plain_text, plain_text};
use crate::lines::{bare_line, lemma_split_single};
use crate::micron::{line_step, micron_text_html, render_finish, render_lines, render_start, strip_cr};
use crate::text::{digit_char, split, trim, trim_end, trim_start, white_space};
use crate::text::hex_digit;

verus! {

// ---------------------------------------------------------------------------
// Colour codes.

/// `T` and six hex digits set the colour `#` and those six digits, in the
/// order written; the code takes seven characters.
pub proof fn truecolour_keeps_digit_order(d: Seq<char>, rest: Seq<char>)
    requires
        d.len() == 6,
        forall|i: int| 0 <= i < 6 ==> hex_digit(#[trigger] d[i]),
    ensures
        color_code(seq!['T'] + d + rest) == (Some(seq!['#'] + d), 7nat),
{
    let s = seq!['T'] + d + rest;
    assert forall|i: int| 1 <= i < 7 implies hex_digit(#[trigger] s[i]) by {
        assert(s[i] == d[i - 1]);
    }
    assert(s.subrange(1, 7) =~= d);
}

/// Three hex digits `abc` set the colour `#aabbcc`; the code takes three
/// characters.
pub proof fn short_colour_doubles_each_digit(a: char, b: char, c: char, rest: Seq<char>)
    requires
        hex_digit(a),
        hex_digit(b),
        hex_digit(c),
    ensures
        color_code(seq![a, b, c] + rest) == (Some(seq!['#', a, a, b, b, c, c]), 3nat),
{
    let s = seq![a, b, c] + rest;
    assert(s[0] == a && s[1] == b && s[2] == c);
}

// ---------------------------------------------------------------------------
// Percent-decoding.

/// The upper-case hex digit (as a byte) of a value below 16.
pub open spec fn hex_char(n: nat) -> u8 {
    if n < 10 {
        (0x30 + n) as u8
    } else {
        (0x41 + n - 10) as u8
    }
}

/// Every byte written as `%` and its two hex digits.
pub open spec fn percent_encoded(b: Seq<u8>) -> Seq<u8>
    decreases b.len(),
{
    if b.len() == 0 {
        Seq::empty()
    } else {
        seq![0x25u8, hex_char(b[0] as nat / 16), hex_char(b[0] as nat % 16)] + percent_encoded(
            b.drop_first(),
        )
    }
}

/// Decoding a percent-encoded byte sequence gives every byte back, whatever
/// it is (a `%2B` decodes to `+`, a `%20` to a space).
pub proof fn percent_decoding_undoes_encoding(b: Seq<u8>)
    ensures
        percent_decoded(percent_encoded(b)) == b,
    decreases b.len(),
{
    if b.len() > 0 {
        let x = b[0];
        let hi = x as nat / 16;
        let lo = x as nat % 16;
        let e = percent_encoded(b);
        let tail = percent_encoded(b.drop_first());
        assert(e[0] == 0x25u8);
        assert(e[1] == hex_char(hi));
        assert(e[2] == hex_char(lo));
        assert(crate::fetch::hex_byte(hex_char(hi)) == Some(hi));
        assert(crate::fetch::hex_byte(hex_char(lo)) == Some(lo));
        assert(16 * hi + lo == x as nat);
        assert(crate::fetch::escape_byte(e[1], e[2]) == Some(x));
        assert(e.skip(3) =~= tail);
        percent_decoding_undoes_encoding(b.drop_first());
        assert(b =~= seq![x] + b.drop_first());
    }
}

/// Bytes other than `+` and `%` decode to themselves.
pub proof fn percent_decoding_keeps_plain_bytes(b: Seq<u8>)
    requires
        forall|i: int| 0 <= i < b.len() ==> #[trigger] b[i] != 0x2bu8 && b[i] != 0x25u8,
    ensures
        percent_decoded(b) == b,
    decreases b.len(),
{
    if b.len() > 0 {
        assert forall|i: int| 0 <= i < b.skip(1).len() implies #[trigger] b.skip(1)[i] != 0x2bu8
            && b.skip(1)[i] != 0x25u8 by {
            assert(b.skip(1)[i] == b[i + 1]);
        }
        percent_decoding_keeps_plain_bytes(b.skip(1));
        assert(b =~= seq![b[0]] + b.skip(1));
    }
}

// ---------------------------------------------------------------------------
// Tables.

/// A cell of a rule row: not empty, and made of `-` and `:` alone.
pub open spec fn rule_cell(c: Seq<char>) -> bool {
    c.len() > 0 && forall|j: int| 0 <= j < c.len() ==> #[trigger] c[j] == '-' || c[j] == ':'
}

/// A rule row: at least one cell, every cell a rule cell.
pub open spec fn rule_row(row: Seq<Seq<char>>) -> bool {
    row.len() > 0 && forall|k: int| 0 <= k < row.len() ==> rule_cell(#[trigger] row[k])
}

/// A table's first row is drawn as a header, and its second row left out,
/// exactly when the second row is a rule row; otherwise every row is drawn
/// as a body row, in order.
#[verifier::spinoff_prover]
#[verifier::rlimit(40)]
pub proof fn table_header_exactly_over_rule_row(lines: Seq<Seq<char>>)
    ensures
        ({
            let rows = table_rows(lines);
            rows.len() > 0 && !(rows.len() > 1 && rule_row(rows[1])) ==> table_html(lines)
                == "<table>\n"@ + "<tbody>\n"@ + body_html(rows) + "</tbody></table>\n"@
        }),
        ({
            let rows = table_rows(lines);
            rows.len() > 1 && rule_row(rows[1]) ==> table_html(lines) == "<table>\n"@
                + "<thead><tr>"@ + cells_html(rows[0], "<th>"@, "</th>"@) + "</tr></thead>\n"@
                + "<tbody>\n"@ + body_html(rows.skip(2)) + "</tbody></table>\n"@
        }),
{
    let rows = table_rows(lines);
    assert(rows.skip(0) =~= rows);
    if rows.len() > 1 {
        let r = rows[1];
        assert(rule_row(r) == crate::blocks::separator_row(r)) by {
            if rule_row(r) {
                assert forall|i: int| 0 <= i < r.len() implies (#[trigger] r[i]).len() > 0
                    && forall|j: int| 0 <= j < r[i].len() ==> (#[trigger] r[i][j] == '-' || r[i][j]
                    == ':') by {
                    assert(rule_cell(r[i]));
                }
            }
            if crate::blocks::separator_row(r) {
                assert forall|k: int| 0 <= k < r.len() implies rule_cell(#[trigger] r[k]) by {
                    assert(r[k].len() > 0);
                    assert forall|j: int| 0 <= j < r[k].len() implies #[trigger] r[k][j] == '-'
                        || r[k][j] == ':' by {
                        assert(r[k][j] == '-' || r[k][j] == ':');
                    }
                }
            }
        }
    }
    assert("<table>\n"@ + Seq::<char>::empty() =~= "<table>\n"@);
}

// ---------------------------------------------------------------------------
// Colour runs.

/// A colour code as written after `` `F `` or `` `B ``: `T` and six hex
/// digits, three hex digits, or `g` and two decimal digits.
pub open spec fn colour_code_text(c: Seq<char>) -> bool {
    ||| (c.len() == 7 && c[0] == 'T' && forall|i: int| 1 <= i < 7 ==> hex_digit(#[trigger] c[i]))
    ||| (c.len() == 3 && hex_digit(c[0]) && hex_digit(c[1]) && hex_digit(c[2]))
    ||| (c.len() == 3 && c[0] == 'g' && dec_digit(c[1]) && dec_digit(c[2]))
}

/// Text with no backtick and no backslash: nothing in it is markup.
pub open spec fn plain(x: Seq<char>) -> bool {
    forall|i: int| 0 <= i < x.len() ==> #[trigger] x[i] != '`' && x[i] != '\\'
}

proof fn lemma_colour_code_len(c: Seq<char>, rest: Seq<char>)
    requires
        colour_code_text(c),
    ensures
        color_code(c + rest).1 == c.len(),
{
    let s = c + rest;
    if c.len() == 7 && c[0] == 'T' {
        assert(s[0] == 'T');
        assert forall|i: int| 1 <= i < 7 implies hex_digit(#[trigger] s[i]) by {
            assert(s[i] == c[i]);
        }
    } else {
        assert(s[0] == c[0] && s[1] == c[1] && s[2] == c[2]);
        assert(s[0] != 'T');
    }
}

proof fn lemma_scan_plain(chars: Seq<char>, i: int, j: int, s: InlineScan)
    requires
        0 <= i <= j <= chars.len(),
        !s.in_fmt,
        !s.escape,
        forall|k: int| i <= k < j ==> #[trigger] chars[k] != '`' && chars[k] != '\\',
    ensures
        scan(chars, i, s) == scan(chars, j, InlineScan { part: s.part + chars.subrange(i, j), ..s }),
    decreases j - i,
{
    if i == j {
        assert(s.part + chars.subrange(i, j) =~= s.part);
    } else {
        let c = chars[i];
        assert(c != '`' && c != '\\');
        let s1 = InlineScan { part: s.part.push(c), ..s };
        assert(inline_step(chars, i, s) == (s1, i + 1));
        lemma_scan_plain(chars, i + 1, j, s1);
        assert(s1.part + chars.subrange(i + 1, j) =~= s.part + chars.subrange(i, j));
    }
}

proof fn lemma_plain_css()
    ensures
        crate::inline::css_text(plain_style()).len() == 0,
{
    assert(crate::inline::decls(plain_style()) =~= Seq::<Seq<char>>::empty());
}

/// The style of a run coloured by `` `F `` (or `` `B ``) with colour `css`.
pub open spec fn coloured(css: Option<Seq<char>>, foreground: bool) -> InlineStyle {
    if foreground {
        InlineStyle { fg: css, ..plain_style() }
    } else {
        InlineStyle { bg: css, ..plain_style() }
    }
}

/// The scan of `` `F `` (or `` `B ``), a colour code and plain text: the text
/// pending in the coloured style.
#[verifier::spinoff_prover]
#[verifier::rlimit(40)]
proof fn lemma_colour_prefix(c: Seq<char>, x: Seq<char>, rest: Seq<char>, foreground: bool)
    requires
        colour_code_text(c),
        plain(x),
    ensures
        ({
            let set = if foreground { 'F' } else { 'B' };
            let line = seq!['`', set] + c + x + rest;
            scan(line, 0, scan_start(false)) == scan(
                line,
                2 + c.len() + x.len() as int,
                InlineScan {
                    out: Seq::empty(),
                    part: x,
                    style: coloured(color_code(c + x + rest).0, foreground),
                    align: None,
                    in_fmt: false,
                    escape: false,
                },
            )
        }),
{
    let set = if foreground { 'F' } else { 'B' };
    let line = seq!['`', set] + c + x + rest;
    let s0 = scan_start(false);
    assert(line[0] == '`');
    assert(line[1] == set);
    let s1 = InlineScan {
        out: crate::inline::flushed(s0.out, s0.part, s0.style),
        part: Seq::empty(),
        in_fmt: true,
        ..s0
    };
    assert(inline_step(line, 0, s0) == (s1, 1int));
    assert(s1.out =~= Seq::<char>::empty());
    assert(line.skip(2) =~= c + (x + rest));
    lemma_colour_code_len(c, x + rest);
    assert(c + (x + rest) =~= c + x + rest);
    let code = color_code(c + x + rest);
    let s2 = InlineScan { style: coloured(code.0, foreground), in_fmt: false, ..s1 };
    assert(inline_step(line, 1, s1) == (s2, 2 + c.len() as int));
    assert(scan(line, 0, s0) == scan(line, 1, s1));
    assert(scan(line, 1, s1) == scan(line, 2 + c.len() as int, s2));
    let a: int = 2 + c.len() as int;
    let b: int = 2 + c.len() + x.len() as int;
    assert forall|k: int| a <= k < b implies #[trigger] line[k] != '`' && line[k] != '\\' by {
        assert(line[k] == x[k - a]);
    }
    lemma_scan_plain(line, a, b, s2);
    assert(line.subrange(a, b) =~= x);
    assert(s2.part + x =~= x);
}

/// `` `f `` ends a foreground run (and `` `b `` a background run): after it,
/// plain text is written as it would be with no colour at all. The inline
/// HTML of `` `F `` + code + x + `` `f `` + y is that of `` `F `` + code + x,
/// followed by y escaped and unstyled.
#[verifier::spinoff_prover]
#[verifier::rlimit(40)]
pub proof fn colour_reset_ends_run(c: Seq<char>, x: Seq<char>, y: Seq<char>, foreground: bool)
    requires
        colour_code_text(c),
        plain(x),
        plain(y),
    ensures
        ({
            let set = if foreground { 'F' } else { 'B' };
            let reset = if foreground { 'f' } else { 'b' };
            inline_html(seq!['`', set] + c + x + seq!['`', reset] + y, false).0 == inline_html(
                seq!['`', set] + c + x,
                false,
            ).0 + escaped(y)
        }),
{
    let set = if foreground { 'F' } else { 'B' };
    let reset = if foreground { 'f' } else { 'b' };
    let tail = seq!['`', reset] + y;
    let long = seq!['`', set] + c + x + tail;
    let short = seq!['`', set] + c + x;
    assert(long =~= seq!['`', set] + c + x + seq!['`', reset] + y);
    assert(short =~= seq!['`', set] + c + x + Seq::<char>::empty());
    lemma_colour_prefix(c, x, tail, foreground);
    lemma_colour_prefix(c, x, Seq::empty(), foreground);
    lemma_colour_code_len(c, x + tail);
    lemma_colour_code_len(c, x);
    let css_long = color_code(c + x + tail).0;
    let css_short = color_code(c + x + Seq::<char>::empty()).0;
    // Both lines read the same colour: the code is the same characters.
    assert((c + x + tail).subrange(0, c.len() as int) =~= c);
    assert((c + x + Seq::<char>::empty()) =~= c + x);
    assert(css_long == css_short) by {
        let p = c + x + tail;
        let q = c + x;
        assert forall|k: int| 0 <= k < c.len() implies p[k] == q[k] by {}
        if c.len() == 7 && c[0] == 'T' {
            assert(p.subrange(1, 7) =~= q.subrange(1, 7));
        }
    }
    let st = coloured(css_long, foreground);
    let n: int = short.len() as int;
    // The short line ends right after the plain text.
    let ss = InlineScan {
        out: Seq::empty(),
        part: x,
        style: st,
        align: None,
        in_fmt: false,
        escape: false,
    };
    assert(n == 2 + c.len() + x.len());
    assert(scan(short, n, ss) == ss);
    let out1 = crate::inline::flushed(Seq::empty(), x, st);
    assert(inline_html(short, false).0 == out1);
    // The long line: the backtick flushes the coloured text, the reset clears
    // the colour, and the rest is plain text.
    let i0: int = 2 + c.len() + x.len() as int;
    assert(long[i0] == '`');
    assert(long[i0 + 1] == reset);
    let t1 = InlineScan { out: out1, part: Seq::empty(), in_fmt: true, ..ss };
    assert(inline_step(long, i0, ss) == (t1, i0 + 1));
    let t2 = InlineScan { style: plain_style(), in_fmt: false, ..t1 };
    assert(inline_step(long, i0 + 1, t1) == (t2, i0 + 2));
    assert(scan(long, i0, ss) == scan(long, i0 + 1, t1));
    assert(scan(long, i0 + 1, t1) == scan(long, i0 + 2, t2));
    let e: int = long.len() as int;
    assert forall|k: int| i0 + 2 <= k < e implies #[trigger] long[k] != '`' && long[k] != '\\' by {
        assert(long[k] == y[k - (i0 + 2)]);
    }
    lemma_scan_plain(long, i0 + 2, e, t2);
    assert(long.subrange(i0 + 2, e) =~= y);
    let t3 = InlineScan { part: t2.part + y, ..t2 };
    assert(t2.part + y =~= y);
    assert(scan(long, e, t3) == t3);
    lemma_plain_css();
    assert(crate::inline::flushed(out1, y, plain_style()) =~= out1 + escaped(y)) by {
        if y.len() == 0 {
            assert(escaped(y) =~= Seq::<char>::empty());
        }
    }
}

// ---------------------------------------------------------------------------
// Style toggles.

/// The CSS declaration a toggle (`` `! ``, `` `* ``, `` `_ ``) turns on.
pub open spec fn toggle_decl(m: char) -> Seq<char> {
    if m == '!' {
        "font-weight:bold"@
    } else if m == '*' {
        "font-style:italic"@
    } else {
        "text-decoration:underline"@
    }
}

/// A style toggle: `!` bold, `*` italic, `_` underline.
pub open spec fn toggle(m: char) -> bool {
    m == '!' || m == '*' || m == '_'
}

#[verifier::spinoff_prover]
#[verifier::rlimit(40)]
proof fn lemma_directive_prefix(m: char, x: Seq<char>, rest: Seq<char>)
    requires
        toggle(m),
        plain(x),
    ensures
        ({
            let line = seq!['`', m] + x + rest;
            scan(line, 0, scan_start(false)) == scan(
                line,
                2 + x.len() as int,
                InlineScan {
                    out: Seq::empty(),
                    part: x,
                    style: directive(scan_start(false), m).style,
                    align: None,
                    in_fmt: false,
                    escape: false,
                },
            )
        }),
{
    let line = seq!['`', m] + x + rest;
    let s0 = scan_start(false);
    assert(line[0] == '`');
    assert(line[1] == m);
    let s1 = InlineScan { out: flushed(s0.out, s0.part, s0.style), part: Seq::empty(), in_fmt: true, ..s0 };
    assert(inline_step(line, 0, s0) == (s1, 1int));
    assert(s1.out =~= Seq::<char>::empty());
    let s2 = InlineScan { style: directive(s0, m).style, in_fmt: false, ..s1 };
    assert(inline_step(line, 1, s1) == (s2, 2int));
    assert(scan(line, 0, s0) == scan(line, 1, s1));
    assert(scan(line, 1, s1) == scan(line, 2, s2));
    let b: int = 2 + x.len() as int;
    assert forall|k: int| 2 <= k < b implies #[trigger] line[k] != '`' && line[k] != '\\' by {
        assert(line[k] == x[k - 2]);
    }
    lemma_scan_plain(line, 2, b, s2);
    assert(line.subrange(2, b) =~= x);
    assert(s2.part + x =~= x);
}

proof fn lemma_toggle_css(m: char)
    requires
        toggle(m),
    ensures
        css_text(directive(scan_start(false), m).style) == toggle_decl(m),
        escaped(toggle_decl(m)) == toggle_decl(m),
{
    let st = directive(scan_start(false), m).style;
    assert(crate::inline::decls(st) =~= seq![toggle_decl(m)]);
    reveal_strlit("font-weight:bold");
    reveal_strlit("font-style:italic");
    reveal_strlit("text-decoration:underline");
    assert(plain_text(toggle_decl(m)));
    escape_keeps_plain_text(toggle_decl(m));
}

/// A toggle styles the text after it: `` `! ``x renders x in a bold run
/// (`` `* `` italic, `` `_ `` underline), escaped.
#[verifier::spinoff_prover]
#[verifier::rlimit(40)]
pub proof fn toggle_styles_text(m: char, x: Seq<char>)
    requires
        toggle(m),
        plain(x),
        x.len() > 0,
    ensures
        inline_html(seq!['`', m] + x, false).0 == "<span style=\""@ + toggle_decl(m) + "\">"@
            + escaped(x) + "</span>"@,
{
    let line = seq!['`', m] + x;
    assert(line =~= seq!['`', m] + x + Seq::<char>::empty());
    lemma_directive_prefix(m, x, Seq::empty());
    let st = directive(scan_start(false), m).style;
    let ss = InlineScan { out: Seq::empty(), part: x, style: st, align: None, in_fmt: false, escape: false };
    assert(scan(line, 2 + x.len() as int, ss) == ss);
    lemma_toggle_css(m);
    reveal_strlit("font-weight:bold");
    reveal_strlit("font-style:italic");
    reveal_strlit("text-decoration:underline");
    assert(toggle_decl(m).len() > 0);
    assert(flushed(Seq::empty(), x, st) =~= "<span style=\""@ + toggle_decl(m) + "\">"@ + escaped(x)
        + "</span>"@);
}

/// The same toggle again ends the run (and so does `` `` `` ``, which
/// resets every style): the text after it is written unstyled.
#[verifier::spinoff_prover]
#[verifier::rlimit(40)]
pub proof fn toggle_again_ends_run(m: char, end: char, x: Seq<char>, y: Seq<char>)
    requires
        toggle(m),
        end == m || end == '`',
        plain(x),
        plain(y),
    ensures
        inline_html(seq!['`', m] + x + seq!['`', end] + y, false).0 == inline_html(
            seq!['`', m] + x,
            false,
        ).0 + escaped(y),
{
    let tail = seq!['`', end] + y;
    let long = seq!['`', m] + x + tail;
    let short = seq!['`', m] + x;
    assert(long =~= seq!['`', m] + x + seq!['`', end] + y);
    assert(short =~= seq!['`', m] + x + Seq::<char>::empty());
    lemma_directive_prefix(m, x, tail);
    lemma_directive_prefix(m, x, Seq::empty());
    let st = directive(scan_start(false), m).style;
    let n: int = short.len() as int;
    let ss = InlineScan { out: Seq::empty(), part: x, style: st, align: None, in_fmt: false, escape: false };
    assert(scan(short, n, ss) == ss);
    let out1 = flushed(Seq::empty(), x, st);
    assert(inline_html(short, false).0 == out1);
    let i0: int = 2 + x.len() as int;
    assert(long[i0] == '`');
    assert(long[i0 + 1] == end);
    let t1 = InlineScan { out: out1, part: Seq::empty(), in_fmt: true, ..ss };
    assert(inline_step(long, i0, ss) == (t1, i0 + 1));
    let t2 = InlineScan { style: plain_style(), in_fmt: false, ..t1 };
    assert(directive(InlineScan { in_fmt: false, ..t1 }, end).style == plain_style());
    assert(inline_step(long, i0 + 1, t1) == (t2, i0 + 2));
    assert(scan(long, i0, ss) == scan(long, i0 + 1, t1));
    assert(scan(long, i0 + 1, t1) == scan(long, i0 + 2, t2));
    let e: int = long.len() as int;
    assert forall|k: int| i0 + 2 <= k < e implies #[trigger] long[k] != '`' && long[k] != '\\' by {
        assert(long[k] == y[k - (i0 + 2)]);
    }
    lemma_scan_plain(long, i0 + 2, e, t2);
    assert(long.subrange(i0 + 2, e) =~= y);
    let t3 = InlineScan { part: t2.part + y, ..t2 };
    assert(t2.part + y =~= y);
    assert(scan(long, e, t3) == t3);
    lemma_plain_css();
    assert(flushed(out1, y, plain_style()) =~= out1 + escaped(y)) by {
        if y.len() == 0 {
            assert(escaped(y) =~= Seq::<char>::empty());
        }
    }
}

// ---------------------------------------------------------------------------
// Links.

proof fn lemma_find_first_at(s: Seq<char>, c: char, k: int)
    requires
        0 <= k < s.len(),
        s[k] == c,
        forall|j: int| 0 <= j < k ==> s[j] != c,
    ensures
        find_first(s, c) == Some(k),
{
    lemma_find_first_none(s, c);
    let f = find_first(s, c);
    assert(f is Some);
    let k2 = f->0;
    assert(!(k2 < k));
    assert(!(k < k2));
}

/// Text that can stand in a link: no backtick and no `]`.
pub open spec fn link_text(t: Seq<char>) -> bool {
    forall|i: int| 0 <= i < t.len() ==> #[trigger] t[i] != '`' && t[i] != ']'
}

/// `` `[label`url] `` renders as a link to the (sanitised) url whose text is
/// the label, both escaped; `` `[url] `` uses the url as its label too.
#[verifier::spinoff_prover]
#[verifier::rlimit(40)]
pub proof fn link_renders_label_and_target(label: Seq<char>, url: Seq<char>, labelled: bool)
    requires
        link_text(label),
        link_text(url),
    ensures
        ({
            let data = if labelled { label + seq!['`'] + url } else { url };
            let shown = if labelled { label } else { url };
            inline_html(seq!['`', '['] + data + seq![']'], false).0 == "<a href=\""@ + escaped(
                sanitized(url),
            ) + "\">"@ + escaped(shown) + "</a>"@
        }),
{
    let data = if labelled { label + seq!['`'] + url } else { url };
    let shown = if labelled { label } else { url };
    let line = seq!['`', '['] + data + seq![']'];
    let s0 = scan_start(false);
    let s1 = InlineScan { out: flushed(s0.out, s0.part, s0.style), part: Seq::empty(), in_fmt: true, ..s0 };
    assert(line[0] == '`');
    assert(line[1] == '[');
    assert(inline_step(line, 0, s0) == (s1, 1int));
    assert(s1.out =~= Seq::<char>::empty());
    let after = line.skip(2);
    assert(after =~= data + seq![']']);
    let e: int = data.len() as int;
    assert forall|j: int| 0 <= j < e implies after[j] != ']' by {
        assert(after[j] == data[j]);
        if labelled {
            if j < label.len() {
                assert(data[j] == label[j]);
            } else if j > label.len() {
                assert(data[j] == url[j - label.len() - 1]);
            }
        }
    }
    lemma_find_first_at(after, ']', e);
    assert(line.subrange(2, 2 + e) =~= data);
    // The parts of the link data.
    if labelled {
        let k: int = label.len() as int;
        assert forall|j: int| 0 <= j < k implies data[j] != '`' by {
            assert(data[j] == label[j]);
        }
        lemma_find_first_at(data, '`', k);
        assert(data.take(k) =~= label);
        assert(data.skip(k + 1) =~= url);
        lemma_find_first_none(url, '`');
    } else {
        lemma_find_first_none(data, '`');
    }
    assert(crate::inline::link_parts(data) == (shown, url));
    let s2 = InlineScan { out: s1.out + link_html(data), in_fmt: false, ..s1 };
    assert(inline_step(line, 1, s1) == (s2, 1 + e + 2));
    assert(scan(line, 0, s0) == scan(line, 1, s1));
    assert(scan(line, 1, s1) == scan(line, e + 3, s2));
    assert(line.len() == e + 3);
    assert(scan(line, e + 3, s2) == s2);
    assert(s2.part =~= Seq::<char>::empty());
    assert(Seq::<char>::empty() + link_html(data) =~= link_html(data));
}

// ---------------------------------------------------------------------------
// Lines.

proof fn lemma_single_line_page(l: Seq<char>)
    requires
        bare_line(l),
    ensures
        micron_text_html(l) == render_finish(line_step(render_start(), l)),
        strip_cr(l) == l,
{
    lemma_split_single(l);
    let ls = split(l, '\n');
    assert(ls.drop_last() =~= Seq::<Seq<char>>::empty());
    assert(ls.last() == l);
    assert(render_lines(ls) == line_step(render_lines(ls.drop_last()), l));
    if l.len() > 0 {
        assert(l[l.len() - 1] != '\r');
    }
}

#[verifier::spinoff_prover]
#[verifier::rlimit(40)]
proof fn lemma_inline_plain(t: Seq<char>)
    requires
        plain(t),
    ensures
        inline_html(t, false) == (escaped(t), Option::<crate::inline::Align>::None),
{
    let s0 = scan_start(false);
    let n: int = t.len() as int;
    lemma_scan_plain(t, 0, n, s0);
    let s1 = InlineScan { part: s0.part + t.subrange(0, n), ..s0 };
    assert(t.subrange(0, n) =~= t);
    assert(s0.part + t =~= t);
    assert(scan(t, n, s1) == s1);
    lemma_plain_css();
    assert(flushed(Seq::empty(), t, plain_style()) =~= escaped(t)) by {
        if t.len() == 0 {
            assert(escaped(t) =~= Seq::<char>::empty());
        }
    }
}

proof fn lemma_trim_nonempty(t: Seq<char>)
    requires
        t.len() > 0,
        !white_space(t[0]),
    ensures
        trim(t).len() > 0,
    decreases t.len(),
{
    assert(trim_start(t) == t);
    lemma_trim_end_nonempty(t);
}

proof fn lemma_trim_end_nonempty(t: Seq<char>)
    requires
        t.len() > 0,
        !white_space(t[0]),
    ensures
        trim_end(t).len() > 0,
    decreases t.len(),
{
    if white_space(t.last()) {
        assert(t.len() > 1) by {
            if t.len() == 1 {
                assert(t.last() == t[0]);
            }
        }
        assert(t.drop_last()[0] == t[0]);
        lemma_trim_end_nonempty(t.drop_last());
    }
}

/// A line of ordinary text: not empty, no line break, no markup, not
/// starting with white space or with a character that marks a line
/// (`#`, `<`, `>`, `-`).
pub open spec fn text_line(t: Seq<char>) -> bool {
    &&& t.len() > 0
    &&& bare_line(t)
    &&& plain(t)
    &&& !white_space(t[0])
    &&& t[0] != '#'
    &&& t[0] != '<'
    &&& t[0] != '>'
    &&& t[0] != '-'
}

#[verifier::spinoff_prover]
#[verifier::rlimit(40)]
proof fn lemma_text_block(t: Seq<char>)
    requires
        text_line(t),
    ensures
        crate::micron::block_html(t, false) == "<p>"@ + escaped(t) + "</p>\n"@,
        crate::blocks::leading_count(t, '>') == 0,
{
    lemma_inline_plain(t);
    lemma_trim_nonempty(t);
    reveal_strlit("<p");
    reveal_strlit(">");
    reveal_strlit("<p>");
    assert("<p"@ + crate::inline::align_attr_text(None) + ">"@ =~= "<p>"@);
}

/// A line of ordinary text renders as one paragraph holding the text,
/// escaped.
#[verifier::spinoff_prover]
#[verifier::rlimit(40)]
pub proof fn text_line_is_paragraph(t: Seq<char>)
    requires
        text_line(t),
    ensures
        micron_text_html(t) == "<p>"@ + escaped(t) + "</p>\n"@,
{
    lemma_single_line_page(t);
    lemma_text_block(t);
    assert(!crate::text::has_prefix(t, seq!['`', 't']));
    assert(!crate::text::has_prefix(t, seq!['`', '{']));
    assert(t != seq!['`', '=']);
    assert(Seq::<char>::empty() + ("<p>"@ + escaped(t) + "</p>\n"@) =~= "<p>"@ + escaped(t)
        + "</p>\n"@);
}

/// A line starting with `#` is a comment: it renders as nothing.
pub proof fn comment_line_renders_nothing(c: Seq<char>)
    requires
        bare_line(c),
    ensures
        micron_text_html(seq!['#'] + c).len() == 0,
{
    let l = seq!['#'] + c;
    assert(bare_line(l)) by {
        assert forall|i: int| 0 <= i < l.len() implies #[trigger] l[i] != '\n' && l[i] != '\r' by {
            if i > 0 {
                assert(l[i] == c[i - 1]);
            }
        }
    }
    lemma_single_line_page(l);
    assert(l[0] == '#');
    assert(l != seq!['`', '=']);
}

/// A leading `<` resets the section depth and is not shown: `<` and a line
/// of text render as the line alone.
#[verifier::spinoff_prover]
#[verifier::rlimit(40)]
pub proof fn depth_reset_is_not_shown(t: Seq<char>)
    requires
        text_line(t),
    ensures
        micron_text_html(seq!['<'] + t) == micron_text_html(t),
{
    let l = seq!['<'] + t;
    assert(bare_line(l)) by {
        assert forall|i: int| 0 <= i < l.len() implies #[trigger] l[i] != '\n' && l[i] != '\r' by {
            if i > 0 {
                assert(l[i] == t[i - 1]);
            }
        }
    }
    lemma_single_line_page(l);
    text_line_is_paragraph(t);
    lemma_text_block(t);
    assert(l[0] == '<');
    assert(l.drop_first() =~= t);
    assert(l != seq!['`', '=']);
    assert(!crate::text::has_prefix(l, seq!['`', 't']));
    assert(!crate::text::has_prefix(l, seq!['`', '{']));
    assert(crate::micron::block_html(l, false) == crate::micron::block_html(t, false));
    assert(Seq::<char>::empty() + ("<p>"@ + escaped(t) + "</p>\n"@) =~= "<p>"@ + escaped(t)
        + "</p>\n"@);
}

/// `d` marks `>` before a line of text make a heading of level `d`, capped
/// at 6, holding the text escaped.
#[verifier::spinoff_prover]
#[verifier::rlimit(40)]
pub proof fn heading_level_is_marker_count(d: nat, t: Seq<char>)
    requires
        d >= 1,
        text_line(t),
    ensures
        ({
            let h = seq![digit_char(if d < 6 { d } else { 6 })];
            micron_text_html(Seq::new(d, |i: int| '>') + t) == "<h"@ + h + ">"@ + escaped(t)
                + "</h"@ + h + ">\n"@
        }),
{
    let marks = Seq::new(d, |i: int| '>');
    let l = marks + t;
    assert(bare_line(l)) by {
        assert forall|i: int| 0 <= i < l.len() implies #[trigger] l[i] != '\n' && l[i] != '\r' by {
            if i >= d {
                assert(l[i] == t[i - d]);
            }
        }
    }
    lemma_single_line_page(l);
    lemma_text_block(t);
    assert(l[0] == '>');
    assert(forall|j: int| 0 <= j < d ==> l[j] == '>');
    crate::blocks::lemma_leading_count(l, '>', d as int);
    assert(l.skip(d as int) =~= t);
    assert(crate::blocks::heading_level(l) == Some(d));
    assert(l != seq!['`', '=']);
    assert(!crate::text::has_prefix(l, seq!['`', 't']));
    assert(!crate::text::has_prefix(l, seq!['`', '{']));
    lemma_inline_plain(t);
    let h = seq![digit_char(if d < 6 { d } else { 6 })];
    assert(crate::micron::block_html(l, false) == crate::micron::heading_html(l, d));
    assert("<h"@ + h + crate::inline::align_attr_text(None) + ">"@ =~= "<h"@ + h + ">"@);
    assert(Seq::<char>::empty() + crate::micron::heading_html(l, d) =~= crate::micron::heading_html(
        l,
        d,
    ));
}

/// A `-` and one glyph that is not a control character draw a divider of
/// 250 copies of that glyph, escaped; a bare `-` is a plain rule.
#[verifier::spinoff_prover]
#[verifier::rlimit(40)]
pub proof fn divider_repeats_its_glyph(g: char)
    requires
        !crate::text::control(g),
    ensures
        micron_text_html(seq!['-', g]) == "<div class=\"mu-divider\" style=\"white-space:nowrap;overflow:hidden\">"@
            + escaped(Seq::new(250, |i: int| g)) + "</div>\n"@,
        micron_text_html(seq!['-']) == "<hr>\n"@,
{
    let l = seq!['-', g];
    assert(g != '\n' && g != '\r');
    assert(bare_line(l));
    lemma_single_line_page(l);
    assert(crate::blocks::leading_count(l, '>') == 0);
    assert(l != seq!['`', '=']);
    assert(!crate::text::has_prefix(l, seq!['`', 't']));
    assert(!crate::text::has_prefix(l, seq!['`', '{']));
    assert(crate::micron::block_html(l, false) == crate::blocks::divider_html(l));
    assert(Seq::new(crate::blocks::DIVIDER_RUN as nat, |i: int| crate::blocks::divider_glyph(l))
        =~= Seq::new(250, |i: int| g));
    assert(Seq::<char>::empty() + crate::blocks::divider_html(l) =~= crate::blocks::divider_html(l));
    let m = seq!['-'];
    assert(bare_line(m));
    lemma_single_line_page(m);
    assert(crate::blocks::leading_count(m, '>') == 0);
    assert(m != seq!['`', '=']);
    assert(!crate::text::has_prefix(m, seq!['`', 't']));
    assert(!crate::text::has_prefix(m, seq!['`', '{']));
    assert(crate::micron::block_html(m, false) == crate::blocks::divider_html(m));
    assert(Seq::<char>::empty() + "<hr>\n"@ =~= "<hr>\n"@);
}

// ---------------------------------------------------------------------------
// Form components.

/// A literal `+` in a form component stands for a space.
pub proof fn plus_decodes_to_space(b: Seq<u8>)
    ensures
        percent_decoded(seq![0x2bu8] + b) == seq![0x20u8] + percent_decoded(b),
{
    assert((seq![0x2bu8] + b).skip(1) =~= b);
}

// ---------------------------------------------------------------------------
// Alignment and escapes.

/// The alignment a directive character sets: `c` centre, `l` left, `r`
/// right.
pub open spec fn align_of(a: char) -> crate::inline::Align {
    if a == 'c' {
        crate::inline::Align::Center
    } else if a == 'l' {
        crate::inline::Align::Left
    } else {
        crate::inline::Align::Right
    }
}

/// `` `c ``, `` `l `` and `` `r `` align the line (centre, left, right)
/// and write nothing themselves; `` `a `` after one of them takes the
/// alignment back.
#[verifier::spinoff_prover]
#[verifier::rlimit(40)]
pub proof fn alignment_directives(a: char, x: Seq<char>)
    requires
        a == 'c' || a == 'l' || a == 'r',
        plain(x),
    ensures
        inline_html(seq!['`', a] + x, false) == (escaped(x), Some(align_of(a))),
        inline_html(seq!['`', a, '`', 'a'] + x, false) == (escaped(x), Option::<
            crate::inline::Align,
        >::None),
{
    let line = seq!['`', a] + x;
    let n: int = line.len() as int;
    // The scan keeps the alignment set by the directive: redo it with the
    // alignment in the state.
    let s0 = scan_start(false);
    let s1 = InlineScan { out: flushed(s0.out, s0.part, s0.style), part: Seq::empty(), in_fmt: true, ..s0 };
    assert(inline_step(line, 0, s0) == (s1, 1int));
    let s2 = InlineScan { align: Some(align_of(a)), in_fmt: false, ..s1 };
    assert(inline_step(line, 1, s1) == (s2, 2int));
    assert(scan(line, 0, s0) == scan(line, 1, s1));
    assert(scan(line, 1, s1) == scan(line, 2, s2));
    let b: int = n;
    assert forall|k: int| 2 <= k < b implies #[trigger] line[k] != '`' && line[k] != '\\' by {
        assert(line[k] == x[k - 2]);
    }
    lemma_scan_plain(line, 2, b, s2);
    assert(line.subrange(2, b) =~= x);
    let s3 = InlineScan { part: s2.part + x, ..s2 };
    assert(s2.part + x =~= x);
    assert(scan(line, b, s3) == s3);
    lemma_plain_css();
    assert(s1.out =~= Seq::<char>::empty());
    assert(flushed(Seq::empty(), x, plain_style()) =~= escaped(x)) by {
        if x.len() == 0 {
            assert(escaped(x) =~= Seq::<char>::empty());
        }
    }
    // With `a after the alignment.
    let l2 = seq!['`', a, '`', 'a'] + x;
    assert(l2[0] == '`' && l2[1] == a && l2[2] == '`' && l2[3] == 'a');
    assert(inline_step(l2, 0, s0) == (s1, 1int));
    assert(inline_step(l2, 1, s1) == (s2, 2int));
    let s4 = InlineScan { in_fmt: true, ..s2 };
    assert(s2.part =~= Seq::<char>::empty());
    assert(flushed(s2.out, s2.part, s2.style) == s2.out);
    assert(inline_step(l2, 2, s2) == (s4, 3int));
    let s5 = InlineScan { align: None, in_fmt: false, ..s4 };
    assert(inline_step(l2, 3, s4) == (s5, 4int));
    assert(scan(l2, 0, s0) == scan(l2, 1, s1));
    assert(scan(l2, 1, s1) == scan(l2, 2, s2));
    assert(scan(l2, 2, s2) == scan(l2, 3, s4));
    assert(scan(l2, 3, s4) == scan(l2, 4, s5));
    let n2: int = l2.len() as int;
    assert forall|k: int| 4 <= k < n2 implies #[trigger] l2[k] != '`' && l2[k] != '\\' by {
        assert(l2[k] == x[k - 4]);
    }
    lemma_scan_plain(l2, 4, n2, s5);
    assert(l2.subrange(4, n2) =~= x);
    let s6 = InlineScan { part: s5.part + x, ..s5 };
    assert(s5.part + x =~= x);
    assert(scan(l2, n2, s6) == s6);
}

/// A backslash makes the next character plain text, whatever it is: the
/// backslash is not shown and the character is written as it stands.
#[verifier::spinoff_prover]
#[verifier::rlimit(40)]
pub proof fn backslash_makes_next_char_literal(c: char, x: Seq<char>)
    requires
        plain(x),
    ensures
        inline_html(seq!['\\', c] + x, false) == (escaped(seq![c] + x), Option::<
            crate::inline::Align,
        >::None),
{
    let line = seq!['\\', c] + x;
    let s0 = scan_start(false);
    assert(line[0] == '\\' && line[1] == c);
    let s1 = InlineScan { escape: true, ..s0 };
    assert(inline_step(line, 0, s0) == (s1, 1int));
    let s2 = InlineScan { part: seq![c], escape: false, ..s0 };
    assert(s0.part.push(c) =~= seq![c]);
    assert(inline_step(line, 1, s1) == (s2, 2int));
    assert(scan(line, 0, s0) == scan(line, 1, s1));
    assert(scan(line, 1, s1) == scan(line, 2, s2));
    let n: int = line.len() as int;
    assert forall|k: int| 2 <= k < n implies #[trigger] line[k] != '`' && line[k] != '\\' by {
        assert(line[k] == x[k - 2]);
    }
    lemma_scan_plain(line, 2, n, s2);
    assert(line.subrange(2, n) =~= x);
    let s3 = InlineScan { part: s2.part + x, ..s2 };
    assert(scan(line, n, s3) == s3);
    lemma_plain_css();
}

// ---------------------------------------------------------------------------
// Form fields.

proof fn lemma_split_no_sep<A>(p: Seq<A>, sep: A)
    requires
        forall|i: int| 0 <= i < p.len() ==> #[trigger] p[i] != sep,
    ensures
        split(p, sep) == seq![p],
    decreases p.len(),
{
    if p.len() > 0 {
        assert forall|i: int| 0 <= i < p.drop_last().len() implies #[trigger] p.drop_last()[i]
            != sep by {
            assert(p.drop_last()[i] == p[i]);
        }
        lemma_split_no_sep(p.drop_last(), sep);
        assert(p[p.len() - 1] == p.last());
        assert(p.drop_last().push(p.last()) =~= p);
    } else {
        assert(p =~= Seq::<A>::empty());
        assert(split(p, sep) =~= seq![p]);
    }
}

/// One more `&key=value` pair on a query: when the key is already a field,
/// that field's value gets `,` and the new value appended (a checkbox group)
/// and every other field stays as it was; a new key is added as the last
/// field.
#[verifier::spinoff_prover]
#[verifier::rlimit(40)]
pub proof fn repeated_key_joins_values(q: Seq<u8>, p: Seq<u8>)
    requires
        p.len() > 0,
        forall|i: int| 0 <= i < p.len() ==> #[trigger] p[i] != 0x26u8,
    ensures
        ({
            let before = crate::fetch::form_fields(q);
            let after = crate::fetch::form_fields(q + seq![0x26u8] + p);
            let kv = crate::fetch::form_pair(p);
            (exists|i: int| 0 <= i < before.len() && #[trigger] before[i].0 == kv.0) ==> (after.len()
                == before.len() && forall|j: int|
                0 <= j < before.len() ==> #[trigger] after[j] == (if before[j].0 == kv.0 {
                    (kv.0, before[j].1 + seq![','] + kv.1)
                } else {
                    before[j]
                }))
        }),
        ({
            let before = crate::fetch::form_fields(q);
            let after = crate::fetch::form_fields(q + seq![0x26u8] + p);
            let kv = crate::fetch::form_pair(p);
            (forall|i: int| 0 <= i < before.len() ==> #[trigger] before[i].0 != kv.0) ==> after
                == before.push(kv)
        }),
{
    let before = crate::fetch::form_fields(q);
    let kv = crate::fetch::form_pair(p);
    crate::lines::lemma_split_join(q, p, 0x26u8);
    lemma_split_no_sep(p, 0x26u8);
    let pairs = split(q, 0x26u8) + seq![p];
    assert(split(q + seq![0x26u8] + p, 0x26u8) == pairs);
    assert(pairs.drop_last() =~= split(q, 0x26u8));
    assert(pairs.last() == p);
    let after = crate::fetch::form_fields(q + seq![0x26u8] + p);
    assert(after == crate::fetch::merge_field(before, kv));
    crate::laws::form_fields_have_distinct_keys(q);
    let ks = crate::fetch::keys(before);
    crate::text::lemma_find_first_none(ks, kv.0);
    match find_first(ks, kv.0) {
        Some(i) => {
            assert(ks[i] == before[i].0);
            assert forall|j: int| 0 <= j < before.len() implies #[trigger] after[j] == (if before[j].0
                == kv.0 {
                (kv.0, before[j].1 + seq![','] + kv.1)
            } else {
                before[j]
            }) by {
                if j != i && before[j].0 == kv.0 {
                    if j < i {
                        assert(before[j].0 != before[i].0);
                    } else {
                        assert(before[i].0 != before[j].0);
                    }
                }
            }
        },
        None => {
            assert forall|i: int| 0 <= i < before.len() implies #[trigger] before[i].0 != kv.0 by {
                assert(ks[i] == before[i].0);
            }
        },
    }
}

// ---------------------------------------------------------------------------
// Link targets.

proof fn lemma_visible_kept(s: Seq<char>)
    requires
        forall|i: int| 0 <= i < s.len() ==> !crate::links::ignorable(#[trigger] s[i]),
    ensures
        crate::links::visible(s) == s,
    decreases s.len(),
{
    if s.len() > 0 {
        assert forall|i: int| 0 <= i < s.drop_last().len() implies !crate::links::ignorable(
            #[trigger] s.drop_last()[i],
        ) by {
            assert(s.drop_last()[i] == s[i]);
        }
        lemma_visible_kept(s.drop_last());
        assert(s[s.len() - 1] == s.last());
        assert(s.drop_last().push(s.last()) =~= s);
    }
}

proof fn lemma_hash_not_script(h: Seq<char>, rest: Seq<char>)
    requires
        crate::links::dest_hash(h),
    ensures
        !crate::links::script_scheme(h + rest),
{
    assert forall|i: int| 0 <= i < h.len() implies !crate::links::ignorable(#[trigger] h[i]) by {
        assert(hex_digit(h[i]));
    }
    lemma_visible_kept(h);
    crate::laws::lemma_visible_concat(h, rest);
    let n = crate::text::lower_seq(crate::links::visible(h + rest));
    assert(crate::links::visible(h + rest) == h + crate::links::visible(rest));
    assert(hex_digit(h[0]) && hex_digit(h[2]));
    assert(n[0] == crate::text::lower(h[0]));
    assert(n[2] == crate::text::lower(h[2]));
    reveal_strlit("javascript:");
    reveal_strlit("data:");
    reveal_strlit("vbscript:");
    if crate::text::has_prefix(n, "javascript:"@) {
        assert(n.subrange(0, 11)[0] == n[0]);
    }
    if crate::text::has_prefix(n, "data:"@) {
        assert(n.subrange(0, 5)[2] == n[2]);
    }
    if crate::text::has_prefix(n, "vbscript:"@) {
        assert(n.subrange(0, 9)[0] == n[0]);
    }
}

/// A link to a path of this node (`/...`, no `:`) is kept as written.
pub proof fn relative_link_is_kept(u: Seq<char>)
    requires
        u.len() > 0,
        u[0] == '/',
        forall|i: int| 0 <= i < u.len() ==> #[trigger] u[i] != ':',
    ensures
        sanitized(u) == u,
{
    crate::laws::lemma_not_script_without_colon(u);
    reveal_strlit("nomadnetwork://");
    if crate::text::has_prefix(u, "nomadnetwork://"@) {
        assert(u.subrange(0, 15)[0] == u[0]);
    }
    lemma_find_first_none(u, ':');
    assert(!hex_digit(u[0]));
}

/// `nomadnetwork://X` leads to `nomad://X`.
pub proof fn nomadnetwork_link_becomes_nomad(r: Seq<char>)
    ensures
        sanitized("nomadnetwork://"@ + r) == "nomad://"@ + r,
{
    reveal_strlit("nomadnetwork://");
    let u = "nomadnetwork://"@ + r;
    let rest = "nomadnetwork://"@.drop_first() + r;
    assert(u =~= seq!['n'] + rest);
    crate::laws::lemma_visible_single('n');
    crate::laws::lemma_not_script_by_first(rest, 'n');
    assert(u.subrange(0, 15) =~= "nomadnetwork://"@);
    assert(u.skip(15) =~= r);
}

/// `<hash>:<path>` (a 32-digit hex hash, a path starting with `/`) leads to
/// `nomad://<hash><path>`; `<hash>:` and a bare `<hash>` lead to that node's
/// `/page/index.mu`.
#[verifier::spinoff_prover]
#[verifier::rlimit(40)]
pub proof fn node_link_becomes_nomad(h: Seq<char>, p: Seq<char>)
    requires
        crate::links::dest_hash(h),
        p.len() > 0,
        p[0] == '/',
    ensures
        sanitized(h + seq![':'] + p) == "nomad://"@ + h + p,
        sanitized(h + seq![':']) == "nomad://"@ + h + "/page/index.mu"@,
        sanitized(h) == "nomad://"@ + h + "/page/index.mu"@,
{
    reveal_strlit("nomadnetwork://");
    reveal_strlit("/page/index.mu");
    assert(crate::links::NOMAD_DEFAULT_PAGE_PATH@ == "/page/index.mu"@);
    assert(hex_digit(h[0]));
    let u1 = h + seq![':'] + p;
    let u2 = h + seq![':'];
    lemma_hash_not_script(h, seq![':'] + p);
    assert(h + (seq![':'] + p) =~= u1);
    lemma_hash_not_script(h, seq![':']);
    lemma_hash_not_script(h, Seq::empty());
    assert(h + Seq::<char>::empty() =~= h);
    assert forall|i: int| 0 <= i < h.len() implies #[trigger] h[i] != ':' by {
        assert(hex_digit(h[i]));
    }
    let k: int = h.len() as int;
    assert(u1[0] == h[0]);
    if crate::text::has_prefix(u1, "nomadnetwork://"@) {
        assert(u1.subrange(0, 15)[0] == u1[0]);
    }
    assert(u2[0] == h[0]);
    if crate::text::has_prefix(u2, "nomadnetwork://"@) {
        assert(u2.subrange(0, 15)[0] == u2[0]);
    }
    if crate::text::has_prefix(h, "nomadnetwork://"@) {
        assert(h.subrange(0, 15)[0] == h[0]);
    }
    assert forall|j: int| 0 <= j < k implies u1[j] != ':' by {
        assert(u1[j] == h[j]);
    }
    lemma_find_first_at(u1, ':', k);
    assert forall|j: int| 0 <= j < k implies u2[j] != ':' by {
        assert(u2[j] == h[j]);
    }
    lemma_find_first_at(u2, ':', k);
    lemma_find_first_none(h, ':');
    assert(u1.take(k) =~= h);
    assert(u1.skip(k + 1) =~= p);
    assert(u2.take(k) =~= h);
    assert(u2.skip(k + 1) =~= Seq::<char>::empty());
}

// ---------------------------------------------------------------------------
// Anchors.

/// A character of an ASCII anchor name: a letter, a digit, `_` or `-`.
pub open spec fn name_char(c: char) -> bool {
    crate::text::ascii_alphanumeric(c) || c == '_' || c == '-'
}

proof fn lemma_anchor_end_at(chars: Seq<char>, k: int, j: int)
    requires
        0 <= k <= j <= chars.len(),
        forall|m: int| k <= m < j ==> name_char(#[trigger] chars[m]),
        j == chars.len() || ((chars[j] as u32) < 0x80 && !name_char(chars[j])),
    ensures
        crate::inline::anchor_end(chars, k) == j,
    decreases j - k,
{
    if k < j {
        assert(name_char(chars[k]));
        assert(crate::inline::anchor_char(chars[k]));
        lemma_anchor_end_at(chars, k + 1, j);
    } else if j < chars.len() {
        assert(!crate::inline::anchor_char(chars[j]));
    }
}

/// `` `:name `` is a zero-width anchor: it renders as an empty `<a>` whose
/// id is the name, and the name never shows as text; the text after it
/// follows unstyled.
#[verifier::spinoff_prover]
#[verifier::rlimit(40)]
pub proof fn anchor_is_markup_not_text(n: Seq<char>, x: Seq<char>)
    requires
        n.len() > 0,
        forall|i: int| 0 <= i < n.len() ==> name_char(#[trigger] n[i]),
        plain(x),
        x.len() == 0 || ((x[0] as u32) < 0x80 && !name_char(x[0])),
    ensures
        inline_html(seq!['`', ':'] + n + x, false) == ("<a class=\"mu-anchor\" id=\""@ + escaped(n)
            + "\" aria-hidden=\"true\"></a>"@ + escaped(x), Option::<crate::inline::Align>::None),
{
    let line = seq!['`', ':'] + n + x;
    let s0 = scan_start(false);
    assert(line[0] == '`' && line[1] == ':');
    let s1 = InlineScan { out: flushed(s0.out, s0.part, s0.style), part: Seq::empty(), in_fmt: true, ..s0 };
    assert(inline_step(line, 0, s0) == (s1, 1int));
    assert(s1.out =~= Seq::<char>::empty());
    let end: int = 2 + n.len() as int;
    assert forall|m: int| 2 <= m < end implies name_char(#[trigger] line[m]) by {
        assert(line[m] == n[m - 2]);
    }
    if x.len() > 0 {
        assert(line[end] == x[0]);
    }
    lemma_anchor_end_at(line, 2, end);
    assert(line.subrange(2, end) =~= n);
    let s2 = InlineScan {
        out: flushed(s1.out, s1.part, s1.style) + crate::inline::anchor_html(n),
        part: Seq::empty(),
        in_fmt: false,
        ..s1
    };
    assert(inline_step(line, 1, s1) == (s2, end));
    assert(scan(line, 0, s0) == scan(line, 1, s1));
    assert(scan(line, 1, s1) == scan(line, end, s2));
    let e: int = line.len() as int;
    assert forall|k: int| end <= k < e implies #[trigger] line[k] != '`' && line[k] != '\\' by {
        assert(line[k] == x[k - end]);
    }
    lemma_scan_plain(line, end, e, s2);
    assert(line.subrange(end, e) =~= x);
    let s3 = InlineScan { part: s2.part + x, ..s2 };
    assert(s2.part + x =~= x);
    assert(scan(line, e, s3) == s3);
    lemma_plain_css();
    assert(s2.out =~= crate::inline::anchor_html(n));
    assert(flushed(s2.out, x, plain_style()) =~= s2.out + escaped(x)) by {
        if x.len() == 0 {
            assert(escaped(x) =~= Seq::<char>::empty());
        }
    }
}

// ---------------------------------------------------------------------------
// Classifying fetched paths.

proof fn lemma_find_last_at(d: Seq<char>, c: char, e: Seq<char>)
    requires
        forall|i: int| 0 <= i < e.len() ==> #[trigger] e[i] != c,
    ensures
        crate::text::find_last(d + seq![c] + e, c) == Some(d.len() as int),
    decreases e.len(),
{
    let s = d + seq![c] + e;
    if e.len() == 0 {
        assert(s.last() == c);
    } else {
        assert(e[e.len() - 1] == e.last());
        assert(s.last() == e.last());
        assert(s.drop_last() =~= d + seq![c] + e.drop_last());
        assert forall|i: int| 0 <= i < e.drop_last().len() implies #[trigger] e.drop_last()[i] != c by {
            assert(e.drop_last()[i] == e[i]);
        }
        lemma_find_last_at(d, c, e.drop_last());
    }
}

proof fn lemma_find_last_none(s: Seq<char>, c: char)
    requires
        forall|i: int| 0 <= i < s.len() ==> #[trigger] s[i] != c,
    ensures
        crate::text::find_last(s, c) is None,
    decreases s.len(),
{
    if s.len() > 0 {
        assert(s[s.len() - 1] == s.last());
        assert forall|i: int| 0 <= i < s.drop_last().len() implies #[trigger] s.drop_last()[i] != c by {
            assert(s.drop_last()[i] == s[i]);
        }
        lemma_find_last_none(s.drop_last(), c);
    }
}

/// A path is classified by what follows its last `.`, in any letter case:
/// `html` or `htm` is HTML, `mu` is Micron.
pub proof fn classification_by_last_extension(d: Seq<char>, e: Seq<char>)
    requires
        forall|i: int| 0 <= i < e.len() ==> #[trigger] e[i] != '.',
    ensures
        crate::fetch::is_html_path(d + seq!['.'] + e) <==> (crate::text::lower_seq(e) == "html"@
            || crate::text::lower_seq(e) == "htm"@),
        crate::fetch::is_micron_path(d + seq!['.'] + e) <==> crate::text::lower_seq(e) == "mu"@,
{
    lemma_find_last_at(d, '.', e);
    assert((d + seq!['.'] + e).skip(d.len() as int + 1) =~= e);
}

/// A path without a `.` is neither HTML nor Micron: it is a file.
pub proof fn path_without_extension_is_a_file(p: Seq<char>)
    requires
        forall|i: int| 0 <= i < p.len() ==> #[trigger] p[i] != '.',
    ensures
        !crate::fetch::is_html_path(p),
        !crate::fetch::is_micron_path(p),
{
    lemma_find_last_none(p, '.');
}

/// A file is named by the last segment of its path (after the last `/`).
pub proof fn file_name_is_last_segment(d: Seq<char>, f: Seq<char>)
    requires
        forall|i: int| 0 <= i < f.len() ==> #[trigger] f[i] != '/',
    ensures
        crate::fetch::file_name(d + seq!['/'] + f) == f,
{
    lemma_find_last_at(d, '/', f);
    assert((d + seq!['/'] + f).skip(d.len() as int + 1) =~= f);
}

// ---------------------------------------------------------------------------
// Table rows.

/// A cell as written between pipes: not empty, no `|`.
pub open spec fn cell_text(c: Seq<char>) -> bool {
    c.len() > 0 && forall|i: int| 0 <= i < c.len() ==> #[trigger] c[i] != '|'
}

proof fn lemma_joined_cells(cs: Seq<Seq<char>>)
    requires
        cs.len() >= 1,
        forall|i: int| 0 <= i < cs.len() ==> cell_text(#[trigger] cs[i]),
    ensures
        crate::lines::joined(cs, seq!['|']).len() > 0,
        crate::lines::joined(cs, seq!['|'])[0] == cs[0][0],
        crate::lines::joined(cs, seq!['|']).last() == cs.last().last(),
        split(crate::lines::joined(cs, seq!['|']), '|') == cs,
    decreases cs.len(),
{
    let j = crate::lines::joined(cs, seq!['|']);
    assert(cell_text(cs[cs.len() - 1]));
    assert(cs[cs.len() - 1] == cs.last());
    lemma_split_no_sep(cs.last(), '|');
    if cs.len() == 1 {
        assert(cs.last() == cs[0]);
        assert(seq![cs[0]] =~= cs);
    } else {
        let init = cs.drop_last();
        assert(forall|i: int| 0 <= i < init.len() ==> init[i] == cs[i]);
        lemma_joined_cells(init);
        let ji = crate::lines::joined(init, seq!['|']);
        assert(j =~= ji + seq!['|'] + cs.last());
        assert(j[0] == ji[0]);
        assert(init[0] == cs[0]);
        assert(j.last() == cs.last().last());
        crate::lines::lemma_split_join(ji, cs.last(), '|');
        assert(init + seq![cs.last()] =~= cs);
    }
}

/// A table line `|c1|c2|...|cn|` (cells not empty and without `|`) has
/// exactly those cells, in order, each trimmed of white space.
#[verifier::spinoff_prover]
#[verifier::rlimit(40)]
pub proof fn table_line_cells(cs: Seq<Seq<char>>)
    requires
        cs.len() >= 1,
        forall|i: int| 0 <= i < cs.len() ==> cell_text(#[trigger] cs[i]),
    ensures
        crate::blocks::table_row(seq!['|'] + crate::lines::joined(cs, seq!['|']) + seq!['|'])
            == cs.map_values(|c: Seq<char>| trim(c)),
{
    lemma_joined_cells(cs);
    let j = crate::lines::joined(cs, seq!['|']);
    assert(cell_text(cs[0]));
    assert(j[0] != '|');
    assert(cell_text(cs[cs.len() - 1]));
    assert(cs[cs.len() - 1] == cs.last());
    assert(cs.last().last() == cs.last()[cs.last().len() - 1]);
    assert(j.last() != '|');
    let line = seq!['|'] + j + seq!['|'];
    assert(line.drop_first() =~= j + seq!['|']);
    assert(crate::text::strip_start(j + seq!['|'], '|') == j + seq!['|']) by {
        assert((j + seq!['|'])[0] == j[0]);
    }
    assert(crate::text::strip_start(line, '|') == j + seq!['|']);
    assert((j + seq!['|']).drop_last() =~= j);
    assert(crate::text::strip_end(j, '|') == j);
    assert(crate::text::strip_both(line, '|') == j);
}

// ---------------------------------------------------------------------------
// Partial refresh intervals.

proof fn lemma_pow2_at_least_two(n: nat)
    requires
        n >= 1,
    ensures
        crate::refresh::pow2(n) >= 2,
    decreases n,
{
    if n > 1 {
        lemma_pow2_at_least_two((n - 1) as nat);
    } else {
        assert(crate::refresh::pow2(0) == 1);
    }
}

/// A refresh interval written as a whole number of seconds (decimal digits
/// only) is at least one exactly when its value is at least 1.
#[verifier::spinoff_prover]
#[verifier::rlimit(40)]
pub proof fn whole_refresh_at_least_one(ds: Seq<char>)
    requires
        ds.len() > 0,
        crate::refresh::all_digits(ds),
    ensures
        crate::refresh::float_at_least_one(ds) <==> crate::refresh::dval(ds) >= 1,
        crate::refresh::float_at_least_one(seq!['-'] + ds) == false,
{
    let l = crate::text::lower_seq(ds);
    assert(l =~= ds) by {
        assert forall|i: int| 0 <= i < ds.len() implies l[i] == ds[i] by {
            assert(dec_digit(ds[i]));
        }
    }
    assert(dec_digit(ds[0]));
    assert(l != seq!['i', 'n', 'f']) by {
        if l == seq!['i', 'n', 'f'] {
            assert(l[0] == 'i');
        }
    }
    assert(l != seq!['i', 'n', 'f', 'i', 'n', 'i', 't', 'y']) by {
        if l == seq!['i', 'n', 'f', 'i', 'n', 'i', 't', 'y'] {
            assert(l[0] == 'i');
        }
    }
    assert(l != seq!['n', 'a', 'n']) by {
        if l == seq!['n', 'a', 'n'] {
            assert(l[0] == 'n');
        }
    }
    lemma_find_first_none(l, 'e');
    assert forall|i: int| 0 <= i < l.len() implies l[i] != 'e' by {
        assert(dec_digit(ds[i]));
    }
    lemma_find_first_none(ds, '.');
    assert forall|i: int| 0 <= i < ds.len() implies ds[i] != '.' by {
        assert(dec_digit(ds[i]));
    }
    assert(crate::refresh::numeral_parts(ds) == Some((ds, 0nat, 0int)));
    let m = crate::refresh::dval(ds);
    let p = crate::refresh::pow2(54);
    lemma_pow2_at_least_two(54);
    assert(crate::refresh::pow10(0) == 1);
    assert(m * 1 * p >= (p - 1) * 1 <==> m >= 1) by (nonlinear_arith)
        requires
            p >= 2,
    ;
    let neg = seq!['-'] + ds;
    assert(neg[0] == '-');
    assert(neg.skip(1) =~= ds);
}

} // verus!

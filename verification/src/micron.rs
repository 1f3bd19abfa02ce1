//! Micron to HTML, line by line. Grammar is NomadNet's Micron
//! markup: headings (`>`, `>>`, ...), dividers (lines starting with `-`),
//! comments (`#`), literal blocks (`` `= ``), tables (`` `t ``), partials
//! (`` `{ ``) and the inline syntax of `inline`.

use vstd::prelude::*;
use vstd::string::*;
use crate::blocks::{
    divider_html, heading_depth, heading_level, partial_html, render_divider, render_partial,
    render_table, table_html,
};
use crate::inline::{align_attr, align_attr_text, inline_html, parse_inline};
use crate::text::{
    chars_of, decode_utf8_lossy, digit_char, escaped, has_prefix, push_char, push_escaped,
    split, split_chars, starts_with, trim, trimmed, utf8_lossy, views,
};

verus! {

/// The renderer between two lines.
pub struct Render {
    /// HTML written so far.
    pub out: Seq<char>,
    /// Inside a `` `= `` literal block.
    pub literal: bool,
    /// The lines of an open `` `t `` table.
    pub table: Option<Seq<Seq<char>>>,
}

/// The state before the first line.
pub open spec fn render_start() -> Render {
    Render { out: Seq::empty(), literal: false, table: None }
}

/// A line without its trailing carriage return, if it has one.
pub open spec fn strip_cr(raw: Seq<char>) -> Seq<char> {
    if raw.len() > 0 && raw.last() == '\r' {
        raw.drop_last()
    } else {
        raw
    }
}

/// The heading level drawn for a depth: at most 6.
pub open spec fn heading_tag_level(depth: nat) -> nat {
    if depth < 6 {
        depth
    } else {
        6
    }
}

/// The HTML of an ordinary line (not a comment, table or partial line),
/// after its leading backslash if `pre_escape`.
pub open spec fn block_html(line: Seq<char>, pre_escape: bool) -> Seq<char> {
    let l = if !pre_escape && line.len() > 0 && line[0] == '<' {
        line.drop_first()
    } else {
        line
    };
    if !pre_escape && heading_level(l) is Some {
        heading_html(l, heading_level(l)->0)
    } else if !pre_escape && l.len() > 0 && l[0] == '-' {
        divider_html(l)
    } else if trim(l).len() == 0 {
        Seq::empty()
    } else {
        paragraph_html(l, pre_escape)
    }
}

/// A heading of depth `d`: its text is the line after the `>` marks.
pub open spec fn heading_html(l: Seq<char>, d: nat) -> Seq<char> {
    let h = seq![digit_char(heading_tag_level(d))];
    let ih = inline_html(l.skip(d as int), false);
    "<h"@ + h + align_attr_text(ih.1) + ">"@ + ih.0 + "</h"@ + h + ">\n"@
}

/// A paragraph.
pub open spec fn paragraph_html(l: Seq<char>, pre_escape: bool) -> Seq<char> {
    let ih = inline_html(l, pre_escape);
    "<p"@ + align_attr_text(ih.1) + ">"@ + ih.0 + "</p>\n"@
}

/// The effect of one source line.
pub open spec fn line_step(st: Render, raw: Seq<char>) -> Render {
    let line = strip_cr(raw);
    if line == seq!['`', '='] {
        Render {
            out: st.out + (if st.literal {
                "</pre>\n"@
            } else {
                "<pre>"@
            }),
            literal: !st.literal,
            ..st
        }
    } else if st.literal {
        Render { out: st.out + escaped(line) + seq!['\n'], ..st }
    } else {
        let pre = line.len() > 0 && line[0] == '\\';
        let l = if pre {
            line.drop_first()
        } else {
            line
        };
        if !pre && l.len() > 0 && l[0] == '#' {
            st
        } else if has_prefix(l, seq!['`', 't']) {
            match st.table {
                Some(rows) => Render { out: st.out + table_html(rows), table: None, ..st },
                None => Render { table: Some(Seq::empty()), ..st },
            }
        } else if st.table is Some {
            Render { table: Some(st.table->0.push(l)), ..st }
        } else if has_prefix(l, seq!['`', '{']) && partial_html(l.skip(2)) is Some {
            Render { out: st.out + partial_html(l.skip(2))->0, ..st }
        } else {
            Render { out: st.out + block_html(l, pre), ..st }
        }
    }
}

/// The state after a sequence of lines.
pub open spec fn render_lines(lines: Seq<Seq<char>>) -> Render
    decreases lines.len(),
{
    if lines.len() == 0 {
        render_start()
    } else {
        line_step(render_lines(lines.drop_last()), lines.last())
    }
}

/// The output once the input ends: a table still open is drawn.
pub open spec fn render_finish(st: Render) -> Seq<char> {
    match st.table {
        Some(rows) => st.out + table_html(rows),
        None => st.out,
    }
}

/// The HTML of a Micron page given as text.
pub open spec fn micron_text_html(text: Seq<char>) -> Seq<char> {
    render_finish(render_lines(split(text, '\n')))
}

/// The HTML of a Micron page given as bytes (decoded as lossy UTF-8).
pub open spec fn micron_html(bytes: Seq<u8>) -> Seq<char> {
    micron_text_html(utf8_lossy(bytes))
}

pub open spec fn table_view(t: Option<Vec<Vec<char>>>) -> Option<Seq<Seq<char>>> {
    match t {
        Some(rows) => Some(views(rows@)),
        None => None,
    }
}

fn render_heading(out: &mut String, l: &[char], depth: usize)
    requires
        depth <= l@.len(),
    ensures
        final(out)@ == old(out)@ + heading_html(l@, depth as nat),
{
    let level: u8 = if depth < 6 { depth as u8 } else { 6 };
    let digit = (level + 48) as char;
    assert(digit == digit_char(heading_tag_level(depth as nat)));
    let body = &l[depth..l.len()];
    assert(body@ == l@.skip(depth as int));
    let (html, align) = parse_inline(body, false);
    let attr = align_attr(align);
    let ghost start = out@;
    out.append("<h");
    push_char(out, digit);
    out.append(attr.as_str());
    out.append(">");
    out.append(html.as_str());
    out.append("</h");
    push_char(out, digit);
    out.append(">\n");
    assert(out@ =~= start + heading_html(l@, depth as nat));
}

fn render_paragraph(out: &mut String, l: &[char], pre_escape: bool)
    ensures
        final(out)@ == old(out)@ + paragraph_html(l@, pre_escape),
{
    let (html, align) = parse_inline(l, pre_escape);
    let attr = align_attr(align);
    let ghost start = out@;
    out.append("<p");
    out.append(attr.as_str());
    out.append(">");
    out.append(html.as_str());
    out.append("</p>\n");
    assert(out@ =~= start + paragraph_html(l@, pre_escape));
}

/// Renders an ordinary line.
fn render_block(out: &mut String, line: &[char], pre_escape: bool)
    ensures
        final(out)@ == old(out)@ + block_html(line@, pre_escape),
{
    let l = if !pre_escape && line.len() > 0 && line[0] == '<' {
        &line[1..line.len()]
    } else {
        line
    };
    assert(l@ =~= (if !pre_escape && line@.len() > 0 && line@[0] == '<' {
        line@.drop_first()
    } else {
        line@
    }));
    if !pre_escape {
        match heading_depth(l) {
            Some(depth) => {
                render_heading(out, l, depth);
                return;
            },
            None => {},
        }
        if l.len() > 0 && l[0] == '-' {
            let d = render_divider(l);
            out.append(d.as_str());
            return;
        }
    }
    let t = trimmed(l);
    if t.len() == 0 {
        assert(out@ =~= out@ + Seq::<char>::empty());
        return;
    }
    render_paragraph(out, l, pre_escape);
}

/// Renders one source line.
fn render_line(
    out: &mut String,
    literal: &mut bool,
    table: &mut Option<Vec<Vec<char>>>,
    raw: &[char],
)
    ensures
        (Render { out: final(out)@, literal: *final(literal), table: table_view(*final(table)) })
            == line_step(
            Render { out: old(out)@, literal: *old(literal), table: table_view(*old(table)) },
            raw@,
        ),
{
    let line = if raw.len() > 0 && raw[raw.len() - 1] == '\r' {
        &raw[0..raw.len() - 1]
    } else {
        raw
    };
    assert(line@ =~= strip_cr(raw@));
    if line.len() == 2 && line[0] == '`' && line[1] == '=' {
        assert(line@ =~= seq!['`', '=']);
        if *literal {
            out.append("</pre>\n");
        } else {
            out.append("<pre>");
        }
        *literal = !*literal;
        return;
    }
    assert(line@ != seq!['`', '=']);
    if *literal {
        push_escaped(out, line);
        push_char(out, '\n');
        assert(out@ =~= old(out)@ + escaped(line@) + seq!['\n']);
        return;
    }
    let pre_escape = line.len() > 0 && line[0] == '\\';
    let l = if pre_escape {
        &line[1..line.len()]
    } else {
        line
    };
    assert(l@ =~= (if pre_escape {
        line@.drop_first()
    } else {
        line@
    }));
    if !pre_escape && l.len() > 0 && l[0] == '#' {
        return;
    }
    let table_marker = chars_of("`t");
    proof {
        reveal_strlit("`t");
        assert(table_marker@ =~= seq!['`', 't']);
    }
    if starts_with(l, table_marker.as_slice()) {
        match table.take() {
            Some(rows) => {
                let html = render_table(rows.as_slice());
                out.append(html.as_str());
            },
            None => {
                let rows: Vec<Vec<char>> = Vec::new();
                assert(views(rows@) =~= Seq::<Seq<char>>::empty());
                *table = Some(rows);
            },
        }
        return;
    }
    match table.take() {
        Some(mut rows) => {
            let ghost before = views(rows@);
            rows.push(vstd::slice::slice_to_vec(l));
            assert(views(rows@) =~= before.push(l@));
            *table = Some(rows);
            return;
        },
        None => {},
    }
    let partial_marker = chars_of("`{");
    proof {
        reveal_strlit("`{");
        assert(partial_marker@ =~= seq!['`', '{']);
    }
    if starts_with(l, partial_marker.as_slice()) {
        let rest = &l[2..l.len()];
        assert(rest@ == l@.skip(2));
        match render_partial(rest) {
            Some(p) => {
                out.append(p.as_str());
                return;
            },
            None => {},
        }
    }
    render_block(out, l, pre_escape);
}

/// Renders Micron text to an HTML fragment.
pub fn micron_text_to_html(text: &str) -> (r: String)
    ensures
        r@ == micron_text_html(text@),
{
    let chars = chars_of(text);
    let lines = split_chars(chars.as_slice(), '\n');
    let mut out = String::new();
    let mut literal = false;
    let mut table: Option<Vec<Vec<char>>> = None;
    let ghost all = views(lines@);
    let mut k: usize = 0;
    assert(all.take(0) =~= Seq::<Seq<char>>::empty());
    while k < lines.len()
        invariant
            k <= lines@.len(),
            all == views(lines@),
            all == split(text@, '\n'),
            (Render { out: out@, literal, table: table_view(table) }) == render_lines(
                all.take(k as int),
            ),
        decreases lines@.len() - k,
    {
        assert(all.take(k + 1).drop_last() =~= all.take(k as int));
        assert(lines@[k as int]@ == all[k as int]);
        render_line(&mut out, &mut literal, &mut table, lines[k].as_slice());
        k += 1;
    }
    assert(all.take(k as int) =~= all);
    match table {
        Some(rows) => {
            let html = render_table(rows.as_slice());
            out.append(html.as_str());
        },
        None => {},
    }
    out
}

/// Renders Micron (given as bytes, decoded as lossy UTF-8) to an HTML
/// fragment.
pub fn micron_to_html(bytes: &[u8]) -> (r: String)
    ensures
        r@ == micron_html(bytes@),
        vstd::utf8::valid_utf8(bytes@) ==> r@ == micron_text_html(vstd::utf8::decode_utf8(bytes@)),
{
    let text = decode_utf8_lossy(bytes);
    micron_text_to_html(text.as_str())
}

} // verus!

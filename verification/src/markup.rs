//! The renderer's output carries no markup but its own: every `<` in it
//! starts one of the tags the renderer writes, and within a line's inline
//! markup every `"` belongs to one of the renderer's own attribute quotes.
//! Whatever a Micron page holds, it cannot put a `<script>`, an `<img>` or
//! any other element of its own into the HTML, nor leave an attribute value.

use vstd::prelude::*;
use crate::blocks::{
    body_html, cells_html, divider_glyph, divider_html, has_header, heading_level, partial_html,
    partial_part, table_html, table_rows, DIVIDER_RUN,
};
use crate::inline::{
    align_attr_text, align_name, anchor_end, anchor_html, directive, flushed, inline_html,
    inline_step, link_html, scan, scan_start, Align, InlineScan,
};
use crate::laws::{escaped_is_inert, no_markup};
use crate::micron::{
    block_html, heading_html, heading_tag_level, line_step, micron_html, micron_text_html,
    paragraph_html, render_finish, render_lines, render_start, strip_cr, Render,
};
use crate::text::{digit_char, escaped, find_first, split};

verus! {

/// The openings of the elements a line's inline markup writes: styled runs,
/// links and anchors.
pub open spec fn inline_tag(p: Seq<char>) -> bool {
    ||| p == "<span style=\""@
    ||| p == "</span>"@
    ||| p == "<a href=\""@
    ||| p == "<a class=\"mu-anchor\" id=\""@
    ||| p == "</a>"@
}

/// `<hN>`, `<hN ` (before an attribute) or `</hN>`, for `N` from 1 to 6.
pub open spec fn heading_tag(p: Seq<char>) -> bool {
    ||| (p.len() == 4 && p[0] == '<' && p[1] == 'h' && '1' <= p[2] && p[2] <= '6' && (p[3] == '>'
        || p[3] == ' '))
    ||| (p.len() == 5 && p[0] == '<' && p[1] == '/' && p[2] == 'h' && '1' <= p[3] && p[3] <= '6'
        && p[4] == '>')
}

/// The opening of a divider.
pub open spec fn divider_open() -> Seq<char> {
    "<div class=\"mu-divider\" style=\"white-space:nowrap;overflow:hidden\">"@
}

/// The openings of the block elements the renderer writes.
pub open spec fn block_tag(p: Seq<char>) -> bool {
    ||| p == "<p>"@
    ||| p == "<p "@
    ||| p == "</p>"@
    ||| p == "<hr>"@
    ||| p == divider_open()
    ||| p == "<div class=\"mu-partial\""@
    ||| p == "</div>"@
    ||| p == "<pre>"@
    ||| p == "</pre>"@
    ||| p == "<table>"@
    ||| p == "</table>"@
    ||| p == "<thead>"@
    ||| p == "</thead>"@
    ||| p == "<tbody>"@
    ||| p == "</tbody>"@
    ||| p == "<tr>"@
    ||| p == "</tr>"@
    ||| p == "<th>"@
    ||| p == "</th>"@
    ||| p == "<td>"@
    ||| p == "</td>"@
}

/// An opening the renderer writes.
pub open spec fn own_tag(p: Seq<char>) -> bool {
    inline_tag(p) || heading_tag(p) || block_tag(p)
}

/// One of the renderer's openings starts at `i`.
pub open spec fn tag_at(s: Seq<char>, i: int) -> bool {
    exists|n: int| 0 < n && 0 <= i && i + n <= s.len() && #[trigger] own_tag(s.subrange(i, i + n))
}

/// Every `<` starts one of the renderer's openings.
pub open spec fn only_own_tags(s: Seq<char>) -> bool {
    forall|i: int| 0 <= i < s.len() && s[i] == '<' ==> #[trigger] tag_at(s, i)
}

/// One of the inline openings starts at `i`.
pub open spec fn inline_tag_at(s: Seq<char>, i: int) -> bool {
    exists|n: int|
        0 < n && 0 <= i && i + n <= s.len() && #[trigger] inline_tag(s.subrange(i, i + n))
}

/// Every `<` starts one of the inline openings.
pub open spec fn only_inline_tags(s: Seq<char>) -> bool {
    forall|i: int| 0 <= i < s.len() && s[i] == '<' ==> #[trigger] inline_tag_at(s, i)
}

/// The pieces of markup a line's inline renderer writes around attribute
/// values: each of them holds all the `"` of an attribute it opens or closes.
pub open spec fn inline_markup(p: Seq<char>) -> bool {
    ||| p == "<span style=\""@
    ||| p == "\">"@
    ||| p == "<a href=\""@
    ||| p == "<a class=\"mu-anchor\" id=\""@
    ||| p == "\" aria-hidden=\"true\"></a>"@
}

/// The `"` at `j` lies within one of the renderer's own pieces of markup.
pub open spec fn own_quote_at(s: Seq<char>, j: int) -> bool {
    exists|k: int, n: int|
        0 <= k <= j < k + n && k + n <= s.len() && #[trigger] inline_markup(s.subrange(k, k + n))
}

/// Every `"` lies within one of the renderer's own pieces of markup: no
/// attribute value holds a `"` of its own.
pub open spec fn only_own_quotes(s: Seq<char>) -> bool {
    forall|j: int| 0 <= j < s.len() && s[j] == '"' ==> #[trigger] own_quote_at(s, j)
}

/// Only inline openings, and only the renderer's own quotes.
pub open spec fn inline_safe(s: Seq<char>) -> bool {
    only_inline_tags(s) && only_own_quotes(s)
}

proof fn lemma_quotes_concat(a: Seq<char>, b: Seq<char>)
    requires
        only_own_quotes(a),
        only_own_quotes(b),
    ensures
        only_own_quotes(a + b),
{
    let s = a + b;
    assert forall|j: int| 0 <= j < s.len() && s[j] == '"' implies #[trigger] own_quote_at(s, j) by {
        if j < a.len() {
            assert(s[j] == a[j]);
            assert(own_quote_at(a, j));
            let (k, n) = choose|k: int, n: int|
                0 <= k <= j < k + n && k + n <= a.len() && #[trigger] inline_markup(
                    a.subrange(k, k + n),
                );
            assert(s.subrange(k, k + n) =~= a.subrange(k, k + n));
            assert(inline_markup(s.subrange(k, k + n)));
        } else {
            let m = j - a.len();
            assert(s[j] == b[m]);
            assert(own_quote_at(b, m));
            let (k, n) = choose|k: int, n: int|
                0 <= k <= m < k + n && k + n <= b.len() && #[trigger] inline_markup(
                    b.subrange(k, k + n),
                );
            assert(s.subrange(a.len() + k, a.len() + k + n) =~= b.subrange(k, k + n));
            assert(inline_markup(s.subrange(a.len() + k, a.len() + k + n)));
        }
    }
}

proof fn lemma_safe_concat(a: Seq<char>, b: Seq<char>)
    requires
        inline_safe(a),
        inline_safe(b),
    ensures
        inline_safe(a + b),
{
    lemma_inline_concat(a, b);
    lemma_quotes_concat(a, b);
}

/// A piece of the renderer's markup holds only its own quotes.
proof fn lemma_markup_quotes(p: Seq<char>)
    requires
        inline_markup(p),
    ensures
        only_own_quotes(p),
{
    let n = p.len() as int;
    assert(p.subrange(0, 0 + n) =~= p);
    assert forall|j: int| 0 <= j < p.len() && p[j] == '"' implies #[trigger] own_quote_at(p, j) by {
        assert(inline_markup(p.subrange(0, 0 + n)));
        assert(0 <= 0 <= j < 0 + n && 0 + n <= p.len());
    }
}

/// Text without a `"` holds only the renderer's own quotes.
proof fn lemma_no_quote(s: Seq<char>)
    requires
        forall|j: int| 0 <= j < s.len() ==> #[trigger] s[j] != '"',
    ensures
        only_own_quotes(s),
{
    assert forall|j: int| 0 <= j < s.len() && s[j] == '"' implies #[trigger] own_quote_at(s, j) by {
        assert(s[j] != '"');
    }
}

pub proof fn lemma_no_markup_own(s: Seq<char>)
    requires
        no_markup(s),
    ensures
        only_own_tags(s),
        only_inline_tags(s),
{
    assert forall|i: int| 0 <= i < s.len() && s[i] == '<' implies #[trigger] tag_at(s, i) by {
        assert(s[i] != '<');
    }
    assert forall|i: int| 0 <= i < s.len() && s[i] == '<' implies #[trigger] inline_tag_at(s, i)
        by {
        assert(s[i] != '<');
    }
}

/// Inline openings are among the renderer's openings.
pub proof fn lemma_inline_own(s: Seq<char>)
    requires
        only_inline_tags(s),
    ensures
        only_own_tags(s),
{
    assert forall|i: int| 0 <= i < s.len() && s[i] == '<' implies #[trigger] tag_at(s, i) by {
        assert(inline_tag_at(s, i));
        let n = choose|n: int|
            0 < n && 0 <= i && i + n <= s.len() && #[trigger] inline_tag(s.subrange(i, i + n));
        assert(own_tag(s.subrange(i, i + n)));
    }
}

pub proof fn lemma_concat(a: Seq<char>, b: Seq<char>)
    requires
        only_own_tags(a),
        only_own_tags(b),
    ensures
        only_own_tags(a + b),
{
    let s = a + b;
    assert forall|i: int| 0 <= i < s.len() && s[i] == '<' implies #[trigger] tag_at(s, i) by {
        if i < a.len() {
            assert(s[i] == a[i]);
            assert(tag_at(a, i));
            let n = choose|n: int|
                0 < n && 0 <= i && i + n <= a.len() && #[trigger] own_tag(a.subrange(i, i + n));
            assert(s.subrange(i, i + n) =~= a.subrange(i, i + n));
            assert(own_tag(s.subrange(i, i + n)));
        } else {
            let j = i - a.len();
            assert(s[i] == b[j]);
            assert(tag_at(b, j));
            let n = choose|n: int|
                0 < n && 0 <= j && j + n <= b.len() && #[trigger] own_tag(b.subrange(j, j + n));
            assert(s.subrange(i, i + n) =~= b.subrange(j, j + n));
            assert(own_tag(s.subrange(i, i + n)));
        }
    }
}

pub proof fn lemma_inline_concat(a: Seq<char>, b: Seq<char>)
    requires
        only_inline_tags(a),
        only_inline_tags(b),
    ensures
        only_inline_tags(a + b),
{
    let s = a + b;
    assert forall|i: int| 0 <= i < s.len() && s[i] == '<' implies #[trigger] inline_tag_at(s, i)
        by {
        if i < a.len() {
            assert(s[i] == a[i]);
            assert(inline_tag_at(a, i));
            let n = choose|n: int|
                0 < n && 0 <= i && i + n <= a.len() && #[trigger] inline_tag(
                    a.subrange(i, i + n),
                );
            assert(s.subrange(i, i + n) =~= a.subrange(i, i + n));
            assert(inline_tag(s.subrange(i, i + n)));
        } else {
            let j = i - a.len();
            assert(s[i] == b[j]);
            assert(inline_tag_at(b, j));
            let n = choose|n: int|
                0 < n && 0 <= j && j + n <= b.len() && #[trigger] inline_tag(
                    b.subrange(j, j + n),
                );
            assert(s.subrange(i, i + n) =~= b.subrange(j, j + n));
            assert(inline_tag(s.subrange(i, i + n)));
        }
    }
}

/// An opening found by its characters.
proof fn lemma_tag(s: Seq<char>, i: int, p: Seq<char>)
    requires
        0 <= i,
        0 < p.len(),
        i + p.len() <= s.len(),
        forall|k: int| 0 <= k < p.len() ==> s[i + k] == p[k],
        own_tag(p),
    ensures
        tag_at(s, i),
{
    assert forall|k: int| 0 <= k < p.len() implies #[trigger] s.subrange(i, i + p.len())[k] == p[k]
        by {
        assert(s[i + k] == p[k]);
    }
    assert(s.subrange(i, i + p.len()) =~= p);
    assert(own_tag(s.subrange(i, i + p.len())));
}

/// An inline opening found by its characters.
proof fn lemma_inline_tag(s: Seq<char>, i: int, p: Seq<char>)
    requires
        0 <= i,
        0 < p.len(),
        i + p.len() <= s.len(),
        forall|k: int| 0 <= k < p.len() ==> s[i + k] == p[k],
        inline_tag(p),
    ensures
        inline_tag_at(s, i),
{
    assert forall|k: int| 0 <= k < p.len() implies #[trigger] s.subrange(i, i + p.len())[k] == p[k]
        by {
        assert(s[i + k] == p[k]);
    }
    assert(s.subrange(i, i + p.len()) =~= p);
    assert(inline_tag(s.subrange(i, i + p.len())));
}

pub proof fn lemma_escaped_own(s: Seq<char>)
    ensures
        only_own_tags(escaped(s)),
        only_inline_tags(escaped(s)),
        only_own_quotes(escaped(s)),
        inline_safe(escaped(s)),
{
    escaped_is_inert(s);
    lemma_no_markup_own(escaped(s));
    lemma_no_quote(escaped(s));
}

proof fn lemma_span_literals()
    ensures
        inline_safe("<span style=\""@),
        inline_safe("\">"@),
        inline_safe("</span>"@),
{
    lemma_markup_quotes("<span style=\""@);
    lemma_markup_quotes("\">"@);
    reveal_strlit("<span style=\"");
    reveal_strlit("\">");
    reveal_strlit("</span>");
    lemma_inline_tag("<span style=\""@, 0, "<span style=\""@);
    lemma_inline_tag("</span>"@, 0, "</span>"@);
    lemma_no_quote("</span>"@);
}


proof fn lemma_anchor_literals()
    ensures
        inline_safe("<a class=\"mu-anchor\" id=\""@),
        inline_safe("\" aria-hidden=\"true\"></a>"@),
{
    lemma_markup_quotes("<a class=\"mu-anchor\" id=\""@);
    lemma_markup_quotes("\" aria-hidden=\"true\"></a>"@);
    reveal_strlit("<a class=\"mu-anchor\" id=\"");
    reveal_strlit("\" aria-hidden=\"true\"></a>");
    lemma_inline_tag("<a class=\"mu-anchor\" id=\""@, 0, "<a class=\"mu-anchor\" id=\""@);
    reveal_strlit("</a>");
    lemma_inline_tag("\" aria-hidden=\"true\"></a>"@, 21, "</a>"@);
}

proof fn lemma_link_literals()
    ensures
        inline_safe("<a href=\""@),
        inline_safe("</a>"@),
{
    lemma_markup_quotes("<a href=\""@);
    reveal_strlit("<a href=\"");
    reveal_strlit("</a>");
    lemma_inline_tag("<a href=\""@, 0, "<a href=\""@);
    lemma_inline_tag("</a>"@, 0, "</a>"@);
    lemma_no_quote("</a>"@);
}

proof fn lemma_divider_literals()
    ensures
        only_own_tags("<hr>\n"@),
        only_own_tags("<div class=\"mu-divider\" style=\"white-space:nowrap;overflow:hidden\">"@),
        only_own_tags("</div>\n"@),
{
    reveal_strlit("<hr>\n");
    reveal_strlit("<div class=\"mu-divider\" style=\"white-space:nowrap;overflow:hidden\">");
    assert(divider_open() == "<div class=\"mu-divider\" style=\"white-space:nowrap;overflow:hidden\">"@);
    reveal_strlit("</div>\n");
    reveal_strlit("<hr>");
    lemma_tag("<hr>\n"@, 0, "<hr>"@);
    lemma_tag(divider_open(), 0, divider_open());
    reveal_strlit("</div>");
    lemma_tag("</div>\n"@, 0, "</div>"@);
}

proof fn lemma_partial_literals()
    ensures
        only_own_tags("<div class=\"mu-partial\""@),
        only_own_tags(">\u{29d6}</div>\n"@),
{
    reveal_strlit("<div class=\"mu-partial\"");
    reveal_strlit(">\u{29d6}</div>\n");
    lemma_tag("<div class=\"mu-partial\""@, 0, "<div class=\"mu-partial\""@);
    reveal_strlit("</div>");
    lemma_tag(">\u{29d6}</div>\n"@, 2, "</div>"@);
}

proof fn lemma_table1_literals()
    ensures
        only_own_tags("<table>\n"@),
        only_own_tags("<thead><tr>"@),
        only_own_tags("</tr></thead>\n"@),
        only_own_tags("<tbody>\n"@),
{
    reveal_strlit("<table>\n");
    reveal_strlit("<thead><tr>");
    reveal_strlit("</tr></thead>\n");
    reveal_strlit("<tbody>\n");
    reveal_strlit("<table>");
    lemma_tag("<table>\n"@, 0, "<table>"@);
    reveal_strlit("<thead>");
    lemma_tag("<thead><tr>"@, 0, "<thead>"@);
    reveal_strlit("<tr>");
    lemma_tag("<thead><tr>"@, 7, "<tr>"@);
    reveal_strlit("</tr>");
    lemma_tag("</tr></thead>\n"@, 0, "</tr>"@);
    reveal_strlit("</thead>");
    lemma_tag("</tr></thead>\n"@, 5, "</thead>"@);
    reveal_strlit("<tbody>");
    lemma_tag("<tbody>\n"@, 0, "<tbody>"@);
}

proof fn lemma_table2_literals()
    ensures
        only_own_tags("</tbody></table>\n"@),
        only_own_tags("<tr>"@),
        only_own_tags("</tr>\n"@),
        only_own_tags("<th>"@),
        only_own_tags("</th>"@),
        only_own_tags("<td>"@),
        only_own_tags("</td>"@),
{
    reveal_strlit("</tbody></table>\n");
    reveal_strlit("<tr>");
    reveal_strlit("</tr>\n");
    reveal_strlit("<th>");
    reveal_strlit("</th>");
    reveal_strlit("<td>");
    reveal_strlit("</td>");
    reveal_strlit("</tbody>");
    lemma_tag("</tbody></table>\n"@, 0, "</tbody>"@);
    reveal_strlit("</table>");
    lemma_tag("</tbody></table>\n"@, 8, "</table>"@);
    lemma_tag("<tr>"@, 0, "<tr>"@);
    reveal_strlit("</tr>");
    lemma_tag("</tr>\n"@, 0, "</tr>"@);
    lemma_tag("<th>"@, 0, "<th>"@);
    lemma_tag("</th>"@, 0, "</th>"@);
    lemma_tag("<td>"@, 0, "<td>"@);
    lemma_tag("</td>"@, 0, "</td>"@);
}

proof fn lemma_pre_literals()
    ensures
        only_own_tags("<pre>"@),
        only_own_tags("</pre>\n"@),
{
    reveal_strlit("<pre>");
    reveal_strlit("</pre>\n");
    lemma_tag("<pre>"@, 0, "<pre>"@);
    reveal_strlit("</pre>");
    lemma_tag("</pre>\n"@, 0, "</pre>"@);
}

/// No `<` at all.
pub open spec fn no_open(s: Seq<char>) -> bool {
    forall|i: int| 0 <= i < s.len() ==> #[trigger] s[i] != '<'
}

proof fn lemma_no_open_own(s: Seq<char>)
    requires
        no_open(s),
    ensures
        only_own_tags(s),
{
    assert forall|i: int| 0 <= i < s.len() && s[i] == '<' implies #[trigger] tag_at(s, i) by {
        assert(s[i] != '<');
    }
}

proof fn lemma_no_open_concat(a: Seq<char>, b: Seq<char>)
    requires
        no_open(a),
        no_open(b),
    ensures
        no_open(a + b),
{
    assert forall|i: int| 0 <= i < (a + b).len() implies #[trigger] (a + b)[i] != '<' by {
        if i < a.len() {
            assert((a + b)[i] == a[i]);
        } else {
            assert((a + b)[i] == b[i - a.len()]);
        }
    }
}

proof fn lemma_attr_literals()
    ensures
        no_open(" data-partial-url=\""@),
        no_open(" data-partial-refresh=\""@),
        no_open(" data-partial-fields=\""@),
        no_open("\""@),
        no_open(">"@),
        no_open(">\n"@),
        no_open(" style=\"text-align:"@),
        no_open("center"@),
        no_open("left"@),
        no_open("right"@),
        no_open(seq!['\n']),
        only_own_tags(Seq::<char>::empty()),
        only_inline_tags(Seq::<char>::empty()),
        inline_safe(Seq::<char>::empty()),
{
    reveal_strlit(" data-partial-url=\"");
    reveal_strlit(" data-partial-refresh=\"");
    reveal_strlit(" data-partial-fields=\"");
    reveal_strlit("\"");
    reveal_strlit(">");
    reveal_strlit(">\n");
    reveal_strlit(" style=\"text-align:");
    reveal_strlit("center");
    reveal_strlit("left");
    reveal_strlit("right");
}

/// An alignment attribute holds no `<` and starts with a space.
proof fn lemma_align_attr(a: Option<Align>)
    ensures
        no_open(align_attr_text(a)),
        align_attr_text(a).len() == 0 || align_attr_text(a)[0] == ' ',
{
    lemma_attr_literals();
    reveal_strlit(" style=\"text-align:");
    if let Some(x) = a {
        lemma_no_open_concat(" style=\"text-align:"@, align_name(x));
        lemma_no_open_concat(" style=\"text-align:"@ + align_name(x), "\""@);
        assert(align_attr_text(a)[0] == " style=\"text-align:"@[0]);
    }
}

proof fn lemma_own3(a: Seq<char>, b: Seq<char>, c: Seq<char>)
    requires
        only_own_tags(a),
        only_own_tags(b),
        only_own_tags(c),
    ensures
        only_own_tags(a + b + c),
{
    lemma_concat(a, b);
    lemma_concat(a + b, c);
}

proof fn lemma_own5(a: Seq<char>, b: Seq<char>, c: Seq<char>, d: Seq<char>, e: Seq<char>)
    requires
        only_own_tags(a),
        only_own_tags(b),
        only_own_tags(c),
        only_own_tags(d),
        only_own_tags(e),
    ensures
        only_own_tags(a + b + c + d + e),
{
    lemma_own3(a, b, c);
    lemma_own3(a + b + c, d, e);
}

proof fn inline_own3(a: Seq<char>, b: Seq<char>, c: Seq<char>)
    requires
        inline_safe(a),
        inline_safe(b),
        inline_safe(c),
    ensures
        inline_safe(a + b + c),
{
    lemma_safe_concat(a, b);
    lemma_safe_concat(a + b, c);
}

proof fn inline_own5(a: Seq<char>, b: Seq<char>, c: Seq<char>, d: Seq<char>, e: Seq<char>)
    requires
        inline_safe(a),
        inline_safe(b),
        inline_safe(c),
        inline_safe(d),
        inline_safe(e),
    ensures
        inline_safe(a + b + c + d + e),
{
    inline_own3(a, b, c);
    inline_own3(a + b + c, d, e);
}

proof fn lemma_flushed(out: Seq<char>, part: Seq<char>, st: crate::inline::InlineStyle)
    requires
        inline_safe(out),
    ensures
        inline_safe(flushed(out, part, st)),
{
    lemma_escaped_own(part);
    lemma_escaped_own(crate::inline::css_text(st));
    lemma_span_literals();
    if part.len() > 0 {
        if crate::inline::css_text(st).len() == 0 {
            lemma_safe_concat(out, escaped(part));
        } else {
            inline_own3(out, "<span style=\""@, escaped(crate::inline::css_text(st)));
            inline_own3(
                out + "<span style=\""@ + escaped(crate::inline::css_text(st)),
                "\">"@,
                escaped(part),
            );
            lemma_safe_concat(
                out + "<span style=\""@ + escaped(crate::inline::css_text(st)) + "\">"@ + escaped(
                    part,
                ),
                "</span>"@,
            );
        }
    }
}

proof fn lemma_anchor(name: Seq<char>)
    ensures
        inline_safe(anchor_html(name)),
{
    lemma_anchor_literals();
    lemma_escaped_own(name);
    inline_own3("<a class=\"mu-anchor\" id=\""@, escaped(name), "\" aria-hidden=\"true\"></a>"@);
}

proof fn lemma_link(data: Seq<char>)
    ensures
        inline_safe(link_html(data)),
{
    lemma_link_literals();
    lemma_span_literals();
    let parts = crate::inline::link_parts(data);
    lemma_escaped_own(crate::links::sanitized(parts.1));
    lemma_escaped_own(parts.0);
    inline_own5(
        "<a href=\""@,
        escaped(crate::links::sanitized(parts.1)),
        "\">"@,
        escaped(parts.0),
        "</a>"@,
    );
}

proof fn lemma_inline_step(chars: Seq<char>, i: int, s: InlineScan)
    requires
        0 <= i < chars.len(),
        inline_safe(s.out),
    ensures
        inline_safe(inline_step(chars, i, s).0.out),
{
    let c = chars[i];
    lemma_flushed(s.out, s.part, s.style);
    if s.in_fmt {
        if c == ':' && anchor_end(chars, i + 1) > i + 1 {
            lemma_anchor(chars.subrange(i + 1, anchor_end(chars, i + 1)));
            lemma_safe_concat(
                flushed(s.out, s.part, s.style),
                anchor_html(chars.subrange(i + 1, anchor_end(chars, i + 1))),
            );
        } else if c == '[' && find_first(chars.skip(i + 1), ']') is Some {
            let e = find_first(chars.skip(i + 1), ']')->0;
            lemma_link(chars.subrange(i + 1, i + 1 + e));
            lemma_safe_concat(s.out, link_html(chars.subrange(i + 1, i + 1 + e)));
        }
    }
}

proof fn lemma_scan(chars: Seq<char>, i: int, s: InlineScan)
    requires
        inline_safe(s.out),
    ensures
        inline_safe(scan(chars, i, s).out),
    decreases chars.len() - i,
{
    if 0 <= i < chars.len() {
        let next = inline_step(chars, i, s);
        lemma_inline_step(chars, i, s);
        if i < next.1 <= chars.len() {
            lemma_scan(chars, next.1, next.0);
        }
    }
}

/// In the inline HTML of any line, every `<` starts `<span style="`,
/// `</span>`, `<a href="`, `<a class="mu-anchor" id="` or `</a>`, and every
/// `"` lies within one of the renderer's own pieces of attribute markup, so no
/// attribute value holds a `"` of its own.
pub proof fn inline_output_has_only_own_markup(chars: Seq<char>, pre_escape: bool)
    ensures
        only_inline_tags(inline_html(chars, pre_escape).0),
        only_own_quotes(inline_html(chars, pre_escape).0),
        only_own_tags(inline_html(chars, pre_escape).0),
{
    lemma_attr_literals();
    let s = scan(chars, 0, scan_start(pre_escape));
    lemma_scan(chars, 0, scan_start(pre_escape));
    lemma_flushed(s.out, s.part, s.style);
    lemma_inline_own(inline_html(chars, pre_escape).0);
}

proof fn lemma_heading_open(lv: nat, attr: Seq<char>)
    requires
        1 <= lv <= 6,
        no_open(attr),
        attr.len() == 0 || attr[0] == ' ',
    ensures
        only_own_tags("<h"@ + seq![digit_char(lv)] + attr + ">"@),
{
    reveal_strlit("<h");
    reveal_strlit(">");
    let s = "<h"@ + seq![digit_char(lv)] + attr + ">"@;
    assert(s[0] == '<');
    assert(s[1] == 'h');
    assert(s[2] == digit_char(lv));
    assert(s[3] == '>' || s[3] == ' ') by {
        if attr.len() == 0 {
            assert(s[3] == ">"@[0]);
        } else {
            assert(s[3] == attr[0]);
        }
    }
    assert('1' <= digit_char(lv) && digit_char(lv) <= '6') by {
        if lv == 1 {
        } else if lv == 2 {
        } else if lv == 3 {
        } else if lv == 4 {
        } else if lv == 5 {
        } else {
        }
    }
    assert(heading_tag(s.subrange(0, 4)));
    lemma_tag(s, 0, s.subrange(0, 4));
    assert forall|i: int| 0 <= i < s.len() && s[i] == '<' implies #[trigger] tag_at(s, i) by {
        if i >= 3 && i < 3 + attr.len() {
            assert(s[i] == attr[i - 3]);
        } else if i > 0 && i < 3 {
        }
    }
}

proof fn lemma_heading_close(lv: nat)
    requires
        1 <= lv <= 6,
    ensures
        only_own_tags("</h"@ + seq![digit_char(lv)] + ">\n"@),
{
    reveal_strlit("</h");
    reveal_strlit(">\n");
    let s = "</h"@ + seq![digit_char(lv)] + ">\n"@;
    assert(s[3] == digit_char(lv));
    assert('1' <= digit_char(lv) && digit_char(lv) <= '6') by {
        if lv == 1 {
        } else if lv == 2 {
        } else if lv == 3 {
        } else if lv == 4 {
        } else if lv == 5 {
        } else {
        }
    }
    assert(s[0] == '<' && s[1] == '/' && s[2] == 'h' && s[4] == '>');
    assert(heading_tag(s.subrange(0, 5)));
    lemma_tag(s, 0, s.subrange(0, 5));
    assert forall|i: int| 0 <= i < s.len() && s[i] == '<' implies #[trigger] tag_at(s, i) by {
        if i > 0 {
            assert(s[i] != '<');
        }
    }
}

proof fn lemma_heading(l: Seq<char>, d: nat)
    requires
        d >= 1,
    ensures
        only_own_tags(heading_html(l, d)),
{
    let lv = heading_tag_level(d);
    let ih = inline_html(l.skip(d as int), false);
    lemma_align_attr(ih.1);
    lemma_heading_open(lv, align_attr_text(ih.1));
    lemma_heading_close(lv);
    inline_output_has_only_own_markup(l.skip(d as int), false);
    let h = seq![digit_char(lv)];
    assert(heading_html(l, d) == ("<h"@ + h + align_attr_text(ih.1) + ">"@) + ih.0 + ("</h"@ + h
        + ">\n"@));
    lemma_own3("<h"@ + h + align_attr_text(ih.1) + ">"@, ih.0, "</h"@ + h + ">\n"@);
}

proof fn lemma_paragraph(l: Seq<char>, pre_escape: bool)
    ensures
        only_own_tags(paragraph_html(l, pre_escape)),
{
    reveal_strlit("<p");
    reveal_strlit(">");
    reveal_strlit("</p>\n");
    let ih = inline_html(l, pre_escape);
    lemma_align_attr(ih.1);
    let attr = align_attr_text(ih.1);
    let open = "<p"@ + attr + ">"@;
    assert(open[2] == '>' || open[2] == ' ') by {
        if attr.len() == 0 {
            assert(open[2] == ">"@[0]);
        } else {
            assert(open[2] == attr[0]);
        }
    }
    reveal_strlit("<p>");
    reveal_strlit("<p ");
    assert(open.subrange(0, 3) =~= "<p>"@ || open.subrange(0, 3) =~= "<p "@);
    lemma_tag(open, 0, open.subrange(0, 3));
    assert forall|i: int| 0 <= i < open.len() && open[i] == '<' implies #[trigger] tag_at(open, i)
        by {
        if i >= 2 && i < 2 + attr.len() {
            assert(open[i] == attr[i - 2]);
        }
    }
    let close = "</p>\n"@;
    reveal_strlit("</p>");
    lemma_tag(close, 0, "</p>"@);
    assert forall|i: int| 0 <= i < close.len() && close[i] == '<' implies #[trigger] tag_at(
        close,
        i,
    ) by {}
    inline_output_has_only_own_markup(l, pre_escape);
    lemma_own3(open, ih.0, close);
}

proof fn lemma_divider(l: Seq<char>)
    ensures
        only_own_tags(divider_html(l)),
{
    lemma_divider_literals();
    let run = Seq::new(DIVIDER_RUN as nat, |i: int| divider_glyph(l));
    lemma_escaped_own(run);
    lemma_own3(
        "<div class=\"mu-divider\" style=\"white-space:nowrap;overflow:hidden\">"@,
        escaped(run),
        "</div>\n"@,
    );
}

proof fn lemma_partial(rest: Seq<char>)
    ensures
        partial_html(rest) matches Some(h) ==> only_own_tags(h),
{
    if let Some(end) = find_first(rest, '}') {
        let parts = split(rest.take(end), '`');
        let url = parts[0];
        let refresh = partial_part(parts, 1);
        let fields = partial_part(parts, 2);
        lemma_partial_literals();
        lemma_attr_literals();
        lemma_no_open_own(" data-partial-url=\""@);
        lemma_no_open_own("\""@);
        lemma_escaped_own(url);
        let head = "<div class=\"mu-partial\""@ + " data-partial-url=\""@ + escaped(url) + "\""@;
        lemma_concat("<div class=\"mu-partial\""@, " data-partial-url=\""@);
        lemma_own3("<div class=\"mu-partial\""@ + " data-partial-url=\""@, escaped(url), "\""@);
        let r = if crate::refresh::float_at_least_one(refresh) {
            " data-partial-refresh=\""@ + escaped(refresh) + "\""@
        } else {
            Seq::empty()
        };
        let f = if fields.len() > 0 {
            " data-partial-fields=\""@ + escaped(fields) + "\""@
        } else {
            Seq::empty()
        };
        lemma_no_open_own(" data-partial-refresh=\""@);
        lemma_no_open_own(" data-partial-fields=\""@);
        lemma_escaped_own(refresh);
        lemma_escaped_own(fields);
        lemma_own3(" data-partial-refresh=\""@, escaped(refresh), "\""@);
        lemma_own3(" data-partial-fields=\""@, escaped(fields), "\""@);
        lemma_own3(head, r, f);
        lemma_concat(head + r + f, ">\u{29d6}</div>\n"@);
    }
}

proof fn lemma_cells(row: Seq<Seq<char>>, open: Seq<char>, close: Seq<char>)
    requires
        only_own_tags(open),
        only_own_tags(close),
    ensures
        only_own_tags(cells_html(row, open, close)),
    decreases row.len(),
{
    lemma_attr_literals();
    if row.len() > 0 {
        lemma_cells(row.drop_last(), open, close);
        lemma_escaped_own(row.last());
        lemma_own3(cells_html(row.drop_last(), open, close), open, escaped(row.last()));
        lemma_concat(cells_html(row.drop_last(), open, close) + open + escaped(row.last()), close);
    }
}

proof fn lemma_body(rows: Seq<Seq<Seq<char>>>)
    ensures
        only_own_tags(body_html(rows)),
    decreases rows.len(),
{
    lemma_attr_literals();
    lemma_table2_literals();
    if rows.len() > 0 {
        lemma_body(rows.drop_last());
        lemma_cells(rows.last(), "<td>"@, "</td>"@);
        lemma_own3(body_html(rows.drop_last()), "<tr>"@, cells_html(rows.last(), "<td>"@, "</td>"@));
        lemma_concat(
            body_html(rows.drop_last()) + "<tr>"@ + cells_html(rows.last(), "<td>"@, "</td>"@),
            "</tr>\n"@,
        );
    }
}

proof fn lemma_table(lines: Seq<Seq<char>>)
    ensures
        only_own_tags(table_html(lines)),
{
    lemma_attr_literals();
    lemma_table1_literals();
    lemma_table2_literals();
    let rows = table_rows(lines);
    if rows.len() > 0 {
        let head = if has_header(rows) {
            "<thead><tr>"@ + cells_html(rows[0], "<th>"@, "</th>"@) + "</tr></thead>\n"@
        } else {
            Seq::empty()
        };
        lemma_cells(rows[0], "<th>"@, "</th>"@);
        lemma_own3("<thead><tr>"@, cells_html(rows[0], "<th>"@, "</th>"@), "</tr></thead>\n"@);
        let body = body_html(rows.skip(if has_header(rows) { 2 } else { 0 }));
        lemma_body(rows.skip(if has_header(rows) { 2 } else { 0 }));
        lemma_own5("<table>\n"@, head, "<tbody>\n"@, body, "</tbody></table>\n"@);
    }
}

proof fn lemma_block(line: Seq<char>, pre_escape: bool)
    ensures
        only_own_tags(block_html(line, pre_escape)),
{
    lemma_attr_literals();
    let l = if !pre_escape && line.len() > 0 && line[0] == '<' {
        line.drop_first()
    } else {
        line
    };
    if !pre_escape && heading_level(l) is Some {
        lemma_heading(l, heading_level(l)->0);
    } else if !pre_escape && l.len() > 0 && l[0] == '-' {
        lemma_divider(l);
    } else if crate::text::trim(l).len() == 0 {
    } else {
        lemma_paragraph(l, pre_escape);
    }
}

proof fn lemma_line_step(st: Render, raw: Seq<char>)
    requires
        only_own_tags(st.out),
    ensures
        only_own_tags(line_step(st, raw).out),
{
    lemma_attr_literals();
    lemma_pre_literals();
    let line = strip_cr(raw);
    if line == seq!['`', '='] {
        lemma_concat(st.out, "</pre>\n"@);
        lemma_concat(st.out, "<pre>"@);
    } else if st.literal {
        lemma_escaped_own(line);
        lemma_no_open_own(seq!['\n']);
        lemma_own3(st.out, escaped(line), seq!['\n']);
    } else {
        let pre = line.len() > 0 && line[0] == '\\';
        let l = if pre {
            line.drop_first()
        } else {
            line
        };
        if let Some(rows) = st.table {
            lemma_table(rows);
            lemma_concat(st.out, table_html(rows));
        }
        if let Some(h) = partial_html(l.skip(2)) {
            lemma_partial(l.skip(2));
            lemma_concat(st.out, h);
        }
        lemma_block(l, pre);
        lemma_concat(st.out, block_html(l, pre));
    }
}

proof fn lemma_lines(lines: Seq<Seq<char>>)
    ensures
        only_own_tags(render_lines(lines).out),
    decreases lines.len(),
{
    lemma_attr_literals();
    if lines.len() > 0 {
        lemma_lines(lines.drop_last());
        lemma_line_step(render_lines(lines.drop_last()), lines.last());
    }
}

/// Every `<` in the HTML of any Micron page starts one of the renderer's own
/// openings (`<p>`, `<p `, `</p>`, `<hN>`, `<hN `, `</hN>`, `<span style="`,
/// `</span>`, `<a href="`, `<a class="mu-anchor" id="`, `</a>`, `<hr>`, the
/// divider's and the partial's `<div class="mu-...`, `</div>`, `<pre>`,
/// `</pre>`, and the opening and closing `table`, `thead`, `tbody`, `tr`,
/// `th`, `td` tags): text, link targets, anchor names, colours and partial
/// descriptors from the page never become markup, so neither `<script` nor
/// `<img` can occur.
pub proof fn micron_output_has_only_own_tags(bytes: Seq<u8>)
    ensures
        only_own_tags(micron_html(bytes)),
{
    let st = render_lines(split(crate::text::utf8_lossy(bytes), '\n'));
    lemma_lines(split(crate::text::utf8_lossy(bytes), '\n'));
    if let Some(rows) = st.table {
        lemma_table(rows);
        lemma_concat(st.out, table_html(rows));
    }
}

/// What every opening of the renderer looks like at its start: a `<`, then
/// no `i`, and after `<s` a `p`.
proof fn lemma_own_tag_start(p: Seq<char>)
    requires
        own_tag(p),
    ensures
        p.len() >= 3,
        p[0] == '<',
        p[1] != 'i',
        p[1] == 's' ==> p[2] == 'p',
{
    reveal_strlit("<span style=\"");
    reveal_strlit("</span>");
    reveal_strlit("<a href=\"");
    reveal_strlit("<a class=\"mu-anchor\" id=\"");
    reveal_strlit("</a>");
    reveal_strlit("<p>");
    reveal_strlit("<p ");
    reveal_strlit("</p>");
    reveal_strlit("<hr>");
    reveal_strlit("<div class=\"mu-divider\" style=\"white-space:nowrap;overflow:hidden\">");
    reveal_strlit("<div class=\"mu-partial\"");
    reveal_strlit("</div>");
    reveal_strlit("<pre>");
    reveal_strlit("</pre>");
    reveal_strlit("<table>");
    reveal_strlit("</table>");
    reveal_strlit("<thead>");
    reveal_strlit("</thead>");
    reveal_strlit("<tbody>");
    reveal_strlit("</tbody>");
    reveal_strlit("<tr>");
    reveal_strlit("</tr>");
    reveal_strlit("<th>");
    reveal_strlit("</th>");
    reveal_strlit("<td>");
    reveal_strlit("</td>");
}

/// The HTML of any Micron page holds neither `<script` nor `<img`.
pub proof fn micron_output_has_no_script_or_img(bytes: Seq<u8>)
    ensures
        forall|i: int| !#[trigger] crate::laws::occurs_at(micron_html(bytes), i, "<script"@),
        forall|i: int| !#[trigger] crate::laws::occurs_at(micron_html(bytes), i, "<img"@),
{
    let h = micron_html(bytes);
    micron_output_has_only_own_tags(bytes);
    reveal_strlit("<script");
    reveal_strlit("<img");
    assert forall|i: int| !#[trigger] crate::laws::occurs_at(h, i, "<script"@) by {
        if crate::laws::occurs_at(h, i, "<script"@) {
            assert(h[i] == h.subrange(i, i + 7)[0]);
            assert(h[i + 1] == h.subrange(i, i + 7)[1]);
            assert(h[i + 2] == h.subrange(i, i + 7)[2]);
            assert(tag_at(h, i));
            let n = choose|n: int|
                0 < n && 0 <= i && i + n <= h.len() && #[trigger] own_tag(h.subrange(i, i + n));
            lemma_own_tag_start(h.subrange(i, i + n));
        }
    }
    assert forall|i: int| !#[trigger] crate::laws::occurs_at(h, i, "<img"@) by {
        if crate::laws::occurs_at(h, i, "<img"@) {
            assert(h[i] == h.subrange(i, i + 4)[0]);
            assert(h[i + 1] == h.subrange(i, i + 4)[1]);
            assert(tag_at(h, i));
            let n = choose|n: int|
                0 < n && 0 <= i && i + n <= h.len() && #[trigger] own_tag(h.subrange(i, i + n));
            lemma_own_tag_start(h.subrange(i, i + n));
        }
    }
}

} // verus!

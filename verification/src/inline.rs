//! Inline Micron: backtick-toggled styles, colours, alignment, anchors and
//! links within one line.

use vstd::prelude::*;
use vstd::string::*;
use crate::links::{sanitize_url, sanitized};
use crate::text::{
    chars_of, dec_digit, lemma_find_first_none, dec_value, decimal, escaped, find_first, first_index, hex_digit,
    is_alphanumeric, is_hex_digit, push_char, push_chars, push_decimal, push_escaped,
    alphanumeric,
};

verus! {

/// An alignment directive (`` `c ``, `` `l ``, `` `r ``).
#[derive(Clone, Copy, Debug, PartialEq, Eq, Structural)]
pub enum Align {
    Center,
    Left,
    Right,
}

/// The CSS name of an alignment.
pub open spec fn align_name(a: Align) -> Seq<char> {
    match a {
        Align::Center => "center"@,
        Align::Left => "left"@,
        Align::Right => "right"@,
    }
}

/// The attribute text that an alignment adds to a block element.
pub open spec fn align_attr_text(align: Option<Align>) -> Seq<char> {
    match align {
        Some(a) => " style=\"text-align:"@ + align_name(a) + "\""@,
        None => Seq::empty(),
    }
}

/// The `style` attribute for a block element's alignment, if any.
pub fn align_attr(align: Option<Align>) -> (r: String)
    ensures
        r@ == align_attr_text(align),
{
    match align {
        Some(a) => {
            let mut out = String::from_str(" style=\"text-align:");
            match a {
                Align::Center => out.append("center"),
                Align::Left => out.append("left"),
                Align::Right => out.append("right"),
            }
            out.append("\"");
            out
        },
        None => String::new(),
    }
}

/// The style in force at a point of a line.
pub struct InlineStyle {
    pub bold: bool,
    pub underline: bool,
    pub italic: bool,
    pub fg: Option<Seq<char>>,
    pub bg: Option<Seq<char>>,
}

/// The plain style: nothing set.
pub open spec fn plain_style() -> InlineStyle {
    InlineStyle { bold: false, underline: false, italic: false, fg: None, bg: None }
}

/// The running inline style of a line.
pub struct InlineState {
    pub bold: bool,
    pub underline: bool,
    pub italic: bool,
    pub fg: Option<String>,
    pub bg: Option<String>,
}

pub open spec fn opt_view(o: Option<String>) -> Option<Seq<char>> {
    match o {
        Some(s) => Some(s@),
        None => None,
    }
}

impl View for InlineState {
    type V = InlineStyle;

    open spec fn view(&self) -> InlineStyle {
        InlineStyle {
            bold: self.bold,
            underline: self.underline,
            italic: self.italic,
            fg: opt_view(self.fg),
            bg: opt_view(self.bg),
        }
    }
}

/// The CSS declarations of a style, in the order they are written.
pub open spec fn decls(st: InlineStyle) -> Seq<Seq<char>> {
    (if st.bold {
        seq!["font-weight:bold"@]
    } else {
        Seq::empty()
    }) + (if st.italic {
        seq!["font-style:italic"@]
    } else {
        Seq::empty()
    }) + (if st.underline {
        seq!["text-decoration:underline"@]
    } else {
        Seq::empty()
    }) + (match st.fg {
        Some(f) => seq!["color:"@ + f],
        None => Seq::empty(),
    }) + (match st.bg {
        Some(b) => seq!["background-color:"@ + b],
        None => Seq::empty(),
    })
}

/// The parts joined with `sep` between each two.
pub open spec fn join(xs: Seq<Seq<char>>, sep: char) -> Seq<char>
    decreases xs.len(),
{
    if xs.len() == 0 {
        Seq::empty()
    } else if xs.len() == 1 {
        xs[0]
    } else {
        join(xs.drop_last(), sep).push(sep) + xs.last()
    }
}

/// The `style` attribute value of a style.
pub open spec fn css_text(st: InlineStyle) -> Seq<char> {
    join(decls(st), ';')
}

proof fn lemma_join_push(xs: Seq<Seq<char>>, x: Seq<char>, sep: char)
    ensures
        join(xs.push(x), sep) == if xs.len() == 0 {
            x
        } else {
            join(xs, sep).push(sep) + x
        },
{
    assert(xs.push(x).drop_last() =~= xs);
    if xs.len() == 0 {
        assert(xs.push(x)[0] == x);
    }
}


/// Appends the declaration `a` `b` to a list of `n` declarations.
fn add_decl(out: &mut String, n: usize, a: &str, b: &str, Ghost(ds): Ghost<Seq<Seq<char>>>)
    requires
        old(out)@ == join(ds, ';'),
        n == ds.len(),
    ensures
        final(out)@ == join(ds.push(a@ + b@), ';'),
{
    proof {
        lemma_join_push(ds, a@ + b@, ';');
    }
    if n > 0 {
        push_char(out, ';');
    }
    out.append(a);
    out.append(b);
    assert(final(out)@ =~= join(ds.push(a@ + b@), ';'));
}

impl InlineState {
    /// The plain style.
    pub fn new() -> (r: InlineState)
        ensures
            r@ == plain_style(),
    {
        InlineState { bold: false, underline: false, italic: false, fg: None, bg: None }
    }

    /// The `style` attribute value for the current state.
    pub fn css(&self) -> (r: String)
        ensures
            r@ == css_text(self@),
    {
        proof {
            reveal_strlit("");
        }
        let mut out = String::new();
        let mut n: usize = 0;
        let ghost mut ds: Seq<Seq<char>> = Seq::empty();
        if self.bold {
            add_decl(&mut out, n, "font-weight:bold", "", Ghost(ds));
            proof { ds = ds.push("font-weight:bold"@ + ""@); }
            n += 1;
        }
        if self.italic {
            add_decl(&mut out, n, "font-style:italic", "", Ghost(ds));
            proof { ds = ds.push("font-style:italic"@ + ""@); }
            n += 1;
        }
        if self.underline {
            add_decl(&mut out, n, "text-decoration:underline", "", Ghost(ds));
            proof { ds = ds.push("text-decoration:underline"@ + ""@); }
            n += 1;
        }
        match &self.fg {
            Some(fg) => {
                add_decl(&mut out, n, "color:", fg.as_str(), Ghost(ds));
                proof { ds = ds.push("color:"@ + fg@); }
                n += 1;
            },
            None => {},
        }
        match &self.bg {
            Some(bg) => {
                add_decl(&mut out, n, "background-color:", bg.as_str(), Ghost(ds));
                proof { ds = ds.push("background-color:"@ + bg@); }
            },
            None => {},
        }
        assert(ds =~= decls(self@));
        out
    }

    /// Back to the plain style.
    pub fn reset(&mut self)
        ensures
            final(self)@ == plain_style(),
    {
        *self = InlineState::new();
    }
}


/// The value that `str::parse::<u32>` gives a two-character code, when it
/// parses: two decimal digits, or `+` and one digit.
pub open spec fn two_digit_value(a: char, b: char) -> Option<nat> {
    if dec_digit(a) && dec_digit(b) {
        Some(10 * dec_value(a) + dec_value(b))
    } else if a == '+' && dec_digit(b) {
        Some(dec_value(b))
    } else {
        None
    }
}

/// The grey level of `gNN`: `NN` percent of 255, the percentage capped at 99.
pub open spec fn grey_level(pct: nat) -> nat {
    ((if pct < 99 { pct } else { 99 }) * 255) / 99
}

/// The CSS colour `rgb(v,v,v)`.
pub open spec fn grey_css(v: nat) -> Seq<char> {
    "rgb("@ + decimal(v) + seq![','] + decimal(v) + seq![','] + decimal(v) + ")"@
}

/// A Micron colour code read right after a `` `F ``/`` `B `` marker: the CSS
/// colour (if the code is valid) and how many characters the code takes.
/// `T` and six hex digits is a truecolour; `gNN` a grey level; three hex
/// digits a short RGB colour, each digit doubled.
pub open spec fn color_code(rest: Seq<char>) -> (Option<Seq<char>>, nat) {
    if rest.len() >= 7 && rest[0] == 'T' {
        if forall|i: int| 1 <= i < 7 ==> hex_digit(#[trigger] rest[i]) {
            (Some(seq!['#'] + rest.subrange(1, 7)), 7)
        } else {
            (None, 7)
        }
    } else if rest.len() >= 3 {
        if rest[0] == 'g' && two_digit_value(rest[1], rest[2]) is Some {
            (Some(grey_css(grey_level(two_digit_value(rest[1], rest[2])->0))), 3)
        } else if hex_digit(rest[0]) && hex_digit(rest[1]) && hex_digit(rest[2]) {
            (Some(seq!['#', rest[0], rest[0], rest[1], rest[1], rest[2], rest[2]]), 3)
        } else {
            (None, 0)
        }
    } else {
        (None, 0)
    }
}

/// `str::parse::<u32>` on a two-character code.
fn parse_two_digits(a: char, b: char) -> (r: Option<u32>)
    ensures
        match two_digit_value(a, b) {
            Some(v) => r == Some(v as u32),
            None => r is None,
        },
{
    if '0' <= a && a <= '9' && '0' <= b && b <= '9' {
        Some(10 * (a as u32 - '0' as u32) + (b as u32 - '0' as u32))
    } else if a == '+' && '0' <= b && b <= '9' {
        Some(b as u32 - '0' as u32)
    } else {
        None
    }
}

/// Reads a Micron colour code starting right after the `` `F ``/`` `B ``
/// marker. Returns the CSS colour and how many characters were consumed.
pub fn read_color(rest: &[char]) -> (r: (Option<String>, usize))
    ensures
        opt_view(r.0) == color_code(rest@).0,
        r.1 as nat == color_code(rest@).1,
{
    if rest.len() >= 7 && rest[0] == 'T' {
        let mut i: usize = 1;
        while i < 7
            invariant
                1 <= i <= 7,
                rest@.len() >= 7,
                rest@[0] == 'T',
                forall|j: int| 1 <= j < i ==> hex_digit(#[trigger] rest@[j]),
            decreases 7 - i,
        {
            if !is_hex_digit(rest[i]) {
                assert(!hex_digit(rest@[i as int]));
                return (None, 7);
            }
            i += 1;
        }
        let mut out = String::new();
        push_char(&mut out, '#');
        push_chars(&mut out, &rest[1..7]);
        assert(out@ =~= seq!['#'] + rest@.subrange(1, 7));
        return (Some(out), 7);
    }
    if rest.len() >= 3 {
        if rest[0] == 'g' {
            match parse_two_digits(rest[1], rest[2]) {
                Some(pct) => {
                    let capped: u32 = if pct < 99 { pct } else { 99 };
                    let v: u32 = capped * 255 / 99;
                    let mut out = String::from_str("rgb(");
                    push_decimal(&mut out, v);
                    push_char(&mut out, ',');
                    push_decimal(&mut out, v);
                    push_char(&mut out, ',');
                    push_decimal(&mut out, v);
                    out.append(")");
                    assert(out@ =~= grey_css(v as nat));
                    return (Some(out), 3);
                },
                None => {},
            }
        }
        if is_hex_digit(rest[0]) && is_hex_digit(rest[1]) && is_hex_digit(rest[2]) {
            let mut out = String::new();
            push_char(&mut out, '#');
            push_char(&mut out, rest[0]);
            push_char(&mut out, rest[0]);
            push_char(&mut out, rest[1]);
            push_char(&mut out, rest[1]);
            push_char(&mut out, rest[2]);
            push_char(&mut out, rest[2]);
            assert(out@ =~= seq!['#', rest@[0], rest@[0], rest@[1], rest@[1], rest@[2], rest@[2]]);
            return (Some(out), 3);
        }
    }
    (None, 0)
}

/// `out` with the pending text `part` written in style `st`.
pub open spec fn flushed(out: Seq<char>, part: Seq<char>, st: InlineStyle) -> Seq<char> {
    if part.len() == 0 {
        out
    } else if css_text(st).len() == 0 {
        out + escaped(part)
    } else {
        out + "<span style=\""@ + escaped(css_text(st)) + "\">"@ + escaped(part) + "</span>"@
    }
}

/// Writes the pending text in the current style and empties it.
pub fn flush(out: &mut String, part: &mut String, state: &InlineState)
    ensures
        final(out)@ == flushed(old(out)@, old(part)@, state@),
        final(part)@ == Seq::<char>::empty(),
{
    if part.as_str().unicode_len() == 0 {
        return;
    }
    let css = state.css();
    let text = chars_of(part.as_str());
    if css.as_str().unicode_len() == 0 {
        push_escaped(out, text.as_slice());
    } else {
        out.append("<span style=\"");
        let css_chars = chars_of(css.as_str());
        push_escaped(out, css_chars.as_slice());
        out.append("\">");
        push_escaped(out, text.as_slice());
        out.append("</span>");
    }
    *part = String::new();
}


/// The state of a line's inline parse between two characters.
pub struct InlineScan {
    /// HTML written so far.
    pub out: Seq<char>,
    /// Text read but not yet written.
    pub part: Seq<char>,
    pub style: InlineStyle,
    /// The last alignment directive seen.
    pub align: Option<Align>,
    /// The previous character was a backtick: this one is a directive.
    pub in_fmt: bool,
    /// The previous character was a backslash: this one is literal.
    pub escape: bool,
}

/// A character that may stand in an anchor name.
pub open spec fn anchor_char(c: char) -> bool {
    alphanumeric(c) || c == '_' || c == '-'
}

/// Where an anchor name that starts at `k` ends.
pub open spec fn anchor_end(chars: Seq<char>, k: int) -> int
    decreases chars.len() - k,
{
    if 0 <= k < chars.len() && anchor_char(chars[k]) {
        anchor_end(chars, k + 1)
    } else {
        k
    }
}

/// The zero-width element that an anchor renders as.
pub open spec fn anchor_html(name: Seq<char>) -> Seq<char> {
    "<a class=\"mu-anchor\" id=\""@ + escaped(name) + "\" aria-hidden=\"true\"></a>"@
}

/// The label and the target of a link `` `[label`url] `` (or `` `[url] ``),
/// given the text between the brackets.
pub open spec fn link_parts(data: Seq<char>) -> (Seq<char>, Seq<char>) {
    match find_first(data, '`') {
        None => (data, data),
        Some(k) => {
            let after = data.skip(k + 1);
            (
                data.take(k),
                match find_first(after, '`') {
                    Some(k2) => after.take(k2),
                    None => after,
                },
            )
        },
    }
}

/// The element that a link renders as.
pub open spec fn link_html(data: Seq<char>) -> Seq<char> {
    "<a href=\""@ + escaped(sanitized(link_parts(data).1)) + "\">"@ + escaped(link_parts(data).0)
        + "</a>"@
}

/// The effect of a one-character directive (`` `_ ``, `` `! ``, `` `* ``,
/// `` `` `` ``, `` `c ``, `` `l ``, `` `r ``, `` `a ``, `` `f ``, `` `b ``);
/// any other character does nothing.
pub open spec fn directive(s: InlineScan, c: char) -> InlineScan {
    if c == '_' {
        InlineScan { style: InlineStyle { underline: !s.style.underline, ..s.style }, ..s }
    } else if c == '!' {
        InlineScan { style: InlineStyle { bold: !s.style.bold, ..s.style }, ..s }
    } else if c == '*' {
        InlineScan { style: InlineStyle { italic: !s.style.italic, ..s.style }, ..s }
    } else if c == '`' {
        InlineScan { style: plain_style(), ..s }
    } else if c == 'c' {
        InlineScan { align: Some(Align::Center), ..s }
    } else if c == 'l' {
        InlineScan { align: Some(Align::Left), ..s }
    } else if c == 'r' {
        InlineScan { align: Some(Align::Right), ..s }
    } else if c == 'a' {
        InlineScan { align: None, ..s }
    } else if c == 'f' {
        InlineScan { style: InlineStyle { fg: None, ..s.style }, ..s }
    } else if c == 'b' {
        InlineScan { style: InlineStyle { bg: None, ..s.style }, ..s }
    } else {
        s
    }
}

/// One step of the inline parse at `chars[i]`: the next state and where the
/// parse goes on.
pub open spec fn inline_step(chars: Seq<char>, i: int, s: InlineScan) -> (InlineScan, int) {
    let c = chars[i];
    if !s.in_fmt {
        if s.escape {
            (InlineScan { part: s.part.push(c), escape: false, ..s }, i + 1)
        } else if c == '\\' {
            (InlineScan { escape: true, ..s }, i + 1)
        } else if c == '`' {
            (
                InlineScan {
                    out: flushed(s.out, s.part, s.style),
                    part: Seq::empty(),
                    in_fmt: true,
                    ..s
                },
                i + 1,
            )
        } else {
            (InlineScan { part: s.part.push(c), ..s }, i + 1)
        }
    } else {
        let s = InlineScan { in_fmt: false, ..s };
        if c == 'F' || c == 'B' {
            let code = color_code(chars.skip(i + 1));
            (
                if c == 'F' {
                    InlineScan { style: InlineStyle { fg: code.0, ..s.style }, ..s }
                } else {
                    InlineScan { style: InlineStyle { bg: code.0, ..s.style }, ..s }
                },
                i + 1 + code.1,
            )
        } else if c == ':' && anchor_end(chars, i + 1) > i + 1 {
            let end = anchor_end(chars, i + 1);
            (
                InlineScan {
                    out: flushed(s.out, s.part, s.style) + anchor_html(chars.subrange(i + 1, end)),
                    part: Seq::empty(),
                    ..s
                },
                end,
            )
        } else if c == '[' && find_first(chars.skip(i + 1), ']') is Some {
            let e = find_first(chars.skip(i + 1), ']')->0;
            (InlineScan { out: s.out + link_html(chars.subrange(i + 1, i + 1 + e)), ..s }, i + e + 2)
        } else {
            (directive(s, c), i + 1)
        }
    }
}

/// The inline parse from position `i` on.
pub open spec fn scan(chars: Seq<char>, i: int, s: InlineScan) -> InlineScan
    decreases chars.len() - i,
{
    if i < 0 || i >= chars.len() {
        s
    } else {
        let next = inline_step(chars, i, s);
        if next.1 <= i || next.1 > chars.len() {
            next.0
        } else {
            scan(chars, next.1, next.0)
        }
    }
}

/// The state at the start of a line; `pre_escape` makes its first character
/// literal.
pub open spec fn scan_start(pre_escape: bool) -> InlineScan {
    InlineScan {
        out: Seq::empty(),
        part: Seq::empty(),
        style: plain_style(),
        align: None,
        in_fmt: false,
        escape: pre_escape,
    }
}

/// The HTML of one line's inline markup, and its last alignment directive.
pub open spec fn inline_html(chars: Seq<char>, pre_escape: bool) -> (Seq<char>, Option<Align>) {
    let s = scan(chars, 0, scan_start(pre_escape));
    (flushed(s.out, s.part, s.style), s.align)
}

proof fn lemma_color_code_len(rest: Seq<char>)
    ensures
        color_code(rest).1 <= rest.len(),
{
}

proof fn lemma_anchor_end(chars: Seq<char>, k: int)
    requires
        0 <= k <= chars.len(),
    ensures
        k <= anchor_end(chars, k) <= chars.len(),
    decreases chars.len() - k,
{
    if k < chars.len() && anchor_char(chars[k]) {
        lemma_anchor_end(chars, k + 1);
    }
}

proof fn lemma_scan_unfold(chars: Seq<char>, i: int, s: InlineScan)
    requires
        0 <= i < chars.len(),
    ensures
        i < inline_step(chars, i, s).1 <= chars.len(),
        scan(chars, i, s) == scan(chars, inline_step(chars, i, s).1, inline_step(chars, i, s).0),
{
    lemma_anchor_end(chars, i + 1);
    lemma_color_code_len(chars.skip(i + 1));
    lemma_find_first_none(chars.skip(i + 1), ']');
}

/// The scan state that the parse's variables stand for.
pub open spec fn scan_of(
    out: String,
    part: String,
    state: InlineState,
    align: Option<Align>,
    in_fmt: bool,
    escape: bool,
) -> InlineScan {
    InlineScan { out: out@, part: part@, style: state@, align, in_fmt, escape }
}

/// Parses one line's inline formatting and link syntax. Returns the HTML and
/// the last explicit alignment directive seen, if any.
pub fn parse_inline(line: &[char], pre_escape: bool) -> (r: (String, Option<Align>))
    ensures
        (r.0@, r.1) == inline_html(line@, pre_escape),
{
    let mut out = String::new();
    let mut part = String::new();
    let mut state = InlineState::new();
    let mut align: Option<Align> = None;
    let n = line.len();
    let mut i: usize = 0;
    let mut in_formatting = false;
    let mut escape = pre_escape;
    let ghost target = scan(line@, 0, scan_start(pre_escape));
    while i < n
        invariant
            n == line@.len(),
            i <= n,
            target == scan(line@, 0, scan_start(pre_escape)),
            target == scan(line@, i as int, scan_of(out, part, state, align, in_formatting, escape)),
        decreases n - i,
    {
        let ghost before = scan_of(out, part, state, align, in_formatting, escape);
        let ghost at = i as int;
        proof {
            lemma_scan_unfold(line@, at, before);
        }
        let c = line[i];
        if !in_formatting {
            if escape {
                push_char(&mut part, c);
                escape = false;
            } else if c == '\\' {
                escape = true;
            } else if c == '`' {
                flush(&mut out, &mut part, &state);
                in_formatting = true;
            } else {
                push_char(&mut part, c);
            }
            i += 1;
            assert(scan_of(out, part, state, align, in_formatting, escape) == inline_step(
                line@,
                at,
                before,
            ).0);
        } else {
            in_formatting = false;
            if c == 'F' || c == 'B' {
                proof {
                    lemma_color_code_len(line@.skip(i + 1));
                }
                let rest = &line[i + 1..n];
                assert(rest@ == line@.skip(i + 1));
                let (color, consumed) = read_color(rest);
                if c == 'F' {
                    state.fg = color;
                } else {
                    state.bg = color;
                }
                i = i + 1 + consumed;
                assert(scan_of(out, part, state, align, in_formatting, escape) == inline_step(
                    line@,
                    at,
                    before,
                ).0);
            } else if c == ':' {
                let start = i + 1;
                let mut end = start;
                proof {
                    lemma_anchor_end(line@, start as int);
                }
                while end < n && (is_alphanumeric(line[end]) || line[end] == '_' || line[end]
                    == '-')
                    invariant
                        n == line@.len(),
                        start <= end <= n,
                        anchor_end(line@, start as int) == anchor_end(line@, end as int),
                    decreases n - end,
                {
                    end += 1;
                }
                assert(anchor_end(line@, end as int) == end);
                if end > start {
                    let ghost flushed_out = flushed(out@, part@, state@);
                    flush(&mut out, &mut part, &state);
                    out.append("<a class=\"mu-anchor\" id=\"");
                    push_escaped(&mut out, &line[start..end]);
                    out.append("\" aria-hidden=\"true\"></a>");
                    i = end;
                    assert(out@ =~= flushed_out + anchor_html(line@.subrange(start as int, end as int)));
                    assert(scan_of(out, part, state, align, in_formatting, escape) == inline_step(
                        line@,
                        at,
                        before,
                    ).0);
                } else {
                    i += 1;
                }
            } else if c == '[' {
                let rest = &line[i + 1..n];
                assert(rest@ == line@.skip(i + 1));
                match first_index(rest, ']') {
                    Some(e) => {
                        let data = &line[i + 1..i + 1 + e];
                        assert(data@ =~= line@.subrange(i + 1, i + 1 + e));
                        let (label, url) = split_link(data);
                        let ghost out0 = out@;
                        out.append("<a href=\"");
                        let href = sanitize_url(url);
                        let href_chars = chars_of(href.as_str());
                        push_escaped(&mut out, href_chars.as_slice());
                        out.append("\">");
                        push_escaped(&mut out, label);
                        out.append("</a>");
                        i = i + e + 2;
                        assert(out@ =~= out0 + link_html(data@));
                        assert(scan_of(out, part, state, align, in_formatting, escape)
                            == inline_step(line@, at, before).0);
                    },
                    None => {
                        i += 1;
                    },
                }
            } else {
                if c == '_' {
                    state.underline = !state.underline;
                } else if c == '!' {
                    state.bold = !state.bold;
                } else if c == '*' {
                    state.italic = !state.italic;
                } else if c == '`' {
                    state.reset();
                } else if c == 'c' {
                    align = Some(Align::Center);
                } else if c == 'l' {
                    align = Some(Align::Left);
                } else if c == 'r' {
                    align = Some(Align::Right);
                } else if c == 'a' {
                    align = None;
                } else if c == 'f' {
                    state.fg = None;
                } else if c == 'b' {
                    state.bg = None;
                }
                i += 1;
            }
        }
        assert(scan_of(out, part, state, align, in_formatting, escape) == inline_step(
            line@,
            at,
            before,
        ).0);
        assert(i == inline_step(line@, at, before).1);
    }
    flush(&mut out, &mut part, &state);
    (out, align)
}

/// The label and target of a link, given the text between its brackets.
fn split_link(data: &[char]) -> (r: (&[char], &[char]))
    ensures
        (r.0@, r.1@) == link_parts(data@),
{
    match first_index(data, '`') {
        None => (data, data),
        Some(k) => {
            assert(k < data.len());
            let label = &data[0..k];
            let after = &data[k + 1..data.len()];
            assert(after@ == data@.skip(k + 1));
            match first_index(after, '`') {
                Some(k2) => (label, &after[0..k2]),
                None => (label, after),
            }
        },
    }
}

} // verus!

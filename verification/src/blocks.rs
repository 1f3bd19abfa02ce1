//! Line-level Micron blocks: headings, dividers, partial placeholders and
//! tables.

use vstd::prelude::*;
use vstd::string::*;
use crate::refresh::{float_at_least_one, parses_at_least_one};
use crate::text::{
    control, escaped, find_first, first_index, is_control, lemma_split_len, push_char,
    push_escaped, split, split_chars, strip_both, stripped, trim, trimmed, views,
};

verus! {

/// Number of divider characters drawn for a `-X` rule (the container clips
/// the overflow).
pub const DIVIDER_RUN: usize = 250;

/// The default divider glyph, a box-drawing dash.
pub const DEFAULT_DIVIDER_GLYPH: char = '\u{2500}';

/// The character a divider line repeats: the one after `-` when the line is
/// exactly `-X` and `X` is not a control character, else the default dash.
pub open spec fn divider_glyph(line: Seq<char>) -> char {
    if line.len() == 2 && !control(line[1]) {
        line[1]
    } else {
        DEFAULT_DIVIDER_GLYPH
    }
}

/// The HTML of a divider line: a bare `-` is a plain rule, anything longer a
/// run of `DIVIDER_RUN` glyphs.
pub open spec fn divider_html(line: Seq<char>) -> Seq<char> {
    if line.len() == 1 {
        "<hr>\n"@
    } else {
        "<div class=\"mu-divider\" style=\"white-space:nowrap;overflow:hidden\">"@ + escaped(
            Seq::new(DIVIDER_RUN as nat, |i: int| divider_glyph(line)),
        ) + "</div>\n"@
    }
}

/// Renders a divider line (one that starts with `-`).
pub fn render_divider(line: &[char]) -> (r: String)
    ensures
        r@ == divider_html(line@),
{
    if line.len() == 1 {
        return String::from_str("<hr>\n");
    }
    let glyph = if line.len() == 2 && !is_control(line[1]) {
        line[1]
    } else {
        DEFAULT_DIVIDER_GLYPH
    };
    let mut run: Vec<char> = Vec::new();
    let mut k: usize = 0;
    while k < DIVIDER_RUN
        invariant
            k <= DIVIDER_RUN,
            glyph == divider_glyph(line@),
            run@ =~= Seq::new(k as nat, |i: int| divider_glyph(line@)),
        decreases DIVIDER_RUN - k,
    {
        run.push(glyph);
        k += 1;
    }
    let mut out = String::from_str(
        "<div class=\"mu-divider\" style=\"white-space:nowrap;overflow:hidden\">",
    );
    push_escaped(&mut out, run.as_slice());
    out.append("</div>\n");
    out
}

/// The part of a `` `{url`refresh`fields} `` partial numbered `i`, or empty.
pub open spec fn partial_part(parts: Seq<Seq<char>>, i: int) -> Seq<char> {
    if i < parts.len() {
        parts[i]
    } else {
        Seq::empty()
    }
}

/// The placeholder a partial renders as, given the line after its `` `{ ``:
/// none when there is no closing `}` or no URL. The element carries the URL,
/// the refresh interval when it reads as at least one second, and the
/// fields when there are any.
pub open spec fn partial_html(rest: Seq<char>) -> Option<Seq<char>> {
    match find_first(rest, '}') {
        None => None,
        Some(end) => {
            let parts = split(rest.take(end), '`');
            let url = parts[0];
            let refresh = partial_part(parts, 1);
            let fields = partial_part(parts, 2);
            if url.len() == 0 {
                None
            } else {
                Some(
                    "<div class=\"mu-partial\""@ + " data-partial-url=\""@ + escaped(url) + "\""@
                        + (if float_at_least_one(refresh) {
                        " data-partial-refresh=\""@ + escaped(refresh) + "\""@
                    } else {
                        Seq::empty()
                    }) + (if fields.len() > 0 {
                        " data-partial-fields=\""@ + escaped(fields) + "\""@
                    } else {
                        Seq::empty()
                    }) + ">\u{29d6}</div>\n"@,
                )
            }
        },
    }
}

/// Renders the `` `{url`refresh`fields} `` partial placeholder. The content
/// is not fetched: the element carries the descriptor so that a caller could.
pub fn render_partial(rest: &[char]) -> (r: Option<String>)
    ensures
        match partial_html(rest@) {
            Some(h) => r matches Some(s) && s@ == h,
            None => r is None,
        },
{
    let end = match first_index(rest, '}') {
        Some(e) => e,
        None => {
            return None;
        },
    };
    let data = &rest[0..end];
    assert(data@ == rest@.take(end as int));
    let parts = split_chars(data, '`');
    proof {
        lemma_split_len(data@, '`');
    }
    assert(parts@[0]@ == views(parts@)[0]);
    let url = parts[0].as_slice();
    if url.len() == 0 {
        return None;
    }
    let empty: Vec<char> = Vec::new();
    let refresh = if parts.len() > 1 {
        assert(parts@[1]@ == views(parts@)[1]);
        parts[1].as_slice()
    } else {
        empty.as_slice()
    };
    let fields = if parts.len() > 2 {
        assert(parts@[2]@ == views(parts@)[2]);
        parts[2].as_slice()
    } else {
        empty.as_slice()
    };
    let mut out = String::from_str("<div class=\"mu-partial\"");
    out.append(" data-partial-url=\"");
    push_escaped(&mut out, url);
    out.append("\"");
    if parses_at_least_one(refresh) {
        out.append(" data-partial-refresh=\"");
        push_escaped(&mut out, refresh);
        out.append("\"");
    }
    if fields.len() > 0 {
        out.append(" data-partial-fields=\"");
        push_escaped(&mut out, fields);
        out.append("\"");
    }
    out.append(">\u{29d6}</div>\n");
    assert(out@ =~= partial_html(rest@)->0);
    Some(out)
}

/// How many copies of `c` the sequence starts with.
pub open spec fn leading_count(s: Seq<char>, c: char) -> nat
    decreases s.len(),
{
    if s.len() > 0 && s[0] == c {
        1 + leading_count(s.drop_first(), c)
    } else {
        0
    }
}

/// The depth of a heading line: its count of leading `>`, when it has any and
/// something follows them.
pub open spec fn heading_level(line: Seq<char>) -> Option<nat> {
    let d = leading_count(line, '>');
    if d > 0 && line.len() > d {
        Some(d)
    } else {
        None
    }
}

pub proof fn lemma_leading_count(s: Seq<char>, c: char, k: int)
    requires
        0 <= k <= s.len(),
        forall|j: int| 0 <= j < k ==> s[j] == c,
    ensures
        leading_count(s, c) == k + leading_count(s.skip(k), c),
    decreases k,
{
    if k > 0 {
        lemma_leading_count(s.drop_first(), c, k - 1);
        assert(s.drop_first().skip(k - 1) =~= s.skip(k));
    } else {
        assert(s.skip(0) =~= s);
    }
}

/// The heading depth of a line, if it is a heading.
pub fn heading_depth(line: &[char]) -> (r: Option<usize>)
    ensures
        match heading_level(line@) {
            Some(d) => r == Some(d as usize),
            None => r is None,
        },
{
    let mut depth: usize = 0;
    while depth < line.len() && line[depth] == '>'
        invariant
            depth <= line@.len(),
            forall|j: int| 0 <= j < depth ==> line@[j] == '>',
        decreases line@.len() - depth,
    {
        depth += 1;
    }
    proof {
        lemma_leading_count(line@, '>', depth as int);
        assert(leading_count(line@.skip(depth as int), '>') == 0);
    }
    if depth > 0 && line.len() > depth {
        Some(depth)
    } else {
        None
    }
}

// ---------------------------------------------------------------------------
// Tables.

/// The cells of one table line: outer `|` removed, split on `|`, each cell
/// trimmed.
pub open spec fn table_row(line: Seq<char>) -> Seq<Seq<char>> {
    split(strip_both(line, '|'), '|').map_values(|c: Seq<char>| trim(c))
}

/// A row made of one empty cell (a blank line).
pub open spec fn empty_row(row: Seq<Seq<char>>) -> bool {
    row.len() == 1 && row[0].len() == 0
}

/// The rows of a table: its lines' cells, blank rows dropped.
pub open spec fn table_rows(lines: Seq<Seq<char>>) -> Seq<Seq<Seq<char>>>
    decreases lines.len(),
{
    if lines.len() == 0 {
        Seq::empty()
    } else {
        let prev = table_rows(lines.drop_last());
        let row = table_row(lines.last());
        if empty_row(row) {
            prev
        } else {
            prev.push(row)
        }
    }
}

/// A separator row (GFM style): every cell non-empty and made only of `-`
/// and `:`.
pub open spec fn separator_row(row: Seq<Seq<char>>) -> bool {
    row.len() > 0 && forall|i: int|
        0 <= i < row.len() ==> (#[trigger] row[i]).len() > 0 && forall|j: int|
            0 <= j < row[i].len() ==> (#[trigger] row[i][j] == '-' || row[i][j] == ':')
}

/// The cells of a row, each escaped and wrapped in `open` and `close`.
pub open spec fn cells_html(row: Seq<Seq<char>>, open: Seq<char>, close: Seq<char>) -> Seq<char>
    decreases row.len(),
{
    if row.len() == 0 {
        Seq::empty()
    } else {
        cells_html(row.drop_last(), open, close) + open + escaped(row.last()) + close
    }
}

/// The body rows of a table.
pub open spec fn body_html(rows: Seq<Seq<Seq<char>>>) -> Seq<char>
    decreases rows.len(),
{
    if rows.len() == 0 {
        Seq::empty()
    } else {
        body_html(rows.drop_last()) + "<tr>"@ + cells_html(rows.last(), "<td>"@, "</td>"@)
            + "</tr>\n"@
    }
}

/// A table has a header when its second row is a separator.
pub open spec fn has_header(rows: Seq<Seq<Seq<char>>>) -> bool {
    rows.len() > 1 && separator_row(rows[1])
}

/// The HTML of a table, given its buffered lines: nothing when it has no
/// rows; else a `<table>` whose first row is a header when the second is a
/// separator (the separator itself is not drawn).
pub open spec fn table_html(lines: Seq<Seq<char>>) -> Seq<char> {
    let rows = table_rows(lines);
    if rows.len() == 0 {
        Seq::empty()
    } else {
        "<table>\n"@ + (if has_header(rows) {
            "<thead><tr>"@ + cells_html(rows[0], "<th>"@, "</th>"@) + "</tr></thead>\n"@
        } else {
            Seq::empty()
        }) + "<tbody>\n"@ + body_html(rows.skip(if has_header(rows) { 2 } else { 0 }))
            + "</tbody></table>\n"@
    }
}

/// The views of a table's rows.
pub open spec fn row_views(rows: Seq<Vec<Vec<char>>>) -> Seq<Seq<Seq<char>>> {
    rows.map_values(|r: Vec<Vec<char>>| views(r@))
}

/// The cells of one table line.
fn row_cells(line: &[char]) -> (r: Vec<Vec<char>>)
    ensures
        views(r@) == table_row(line@),
{
    let inner = stripped(line, '|');
    let parts = split_chars(inner.as_slice(), '|');
    let mut cells: Vec<Vec<char>> = Vec::new();
    let mut i: usize = 0;
    while i < parts.len()
        invariant
            i <= parts@.len(),
            views(parts@) == split(strip_both(line@, '|'), '|'),
            views(cells@) =~= split(strip_both(line@, '|'), '|').take(i as int).map_values(
                |c: Seq<char>| trim(c),
            ),
        decreases parts@.len() - i,
    {
        let ghost sp = split(strip_both(line@, '|'), '|');
        let cell = trimmed(parts[i].as_slice());
        assert(parts@[i as int]@ == views(parts@)[i as int]);
        cells.push(cell);
        assert(sp.take(i + 1).map_values(|c: Seq<char>| trim(c)) =~= sp.take(i as int).map_values(
            |c: Seq<char>| trim(c),
        ).push(trim(sp[i as int])));
        i += 1;
    }
    assert(split(strip_both(line@, '|'), '|').take(i as int) =~= split(strip_both(line@, '|'), '|'));
    cells
}

fn is_empty_row(row: &Vec<Vec<char>>) -> (b: bool)
    ensures
        b == empty_row(views(row@)),
{
    row.len() == 1 && row[0].len() == 0
}

fn is_separator(row: &Vec<Vec<char>>) -> (b: bool)
    ensures
        b == separator_row(views(row@)),
{
    if row.len() == 0 {
        return false;
    }
    let mut i: usize = 0;
    while i < row.len()
        invariant
            i <= row@.len(),
            forall|k: int|
                0 <= k < i ==> (#[trigger] views(row@)[k]).len() > 0 && forall|j: int|
                    0 <= j < views(row@)[k].len() ==> (#[trigger] views(row@)[k][j] == '-'
                        || views(row@)[k][j] == ':'),
        decreases row@.len() - i,
    {
        let cell = &row[i];
        assert(cell@ == views(row@)[i as int]);
        if cell.len() == 0 {
            return false;
        }
        let mut j: usize = 0;
        while j < cell.len()
            invariant
                i < row@.len(),
                cell@ == views(row@)[i as int],
                j <= cell@.len(),
                forall|m: int| 0 <= m < j ==> (#[trigger] cell@[m] == '-' || cell@[m] == ':'),
            decreases cell@.len() - j,
        {
            if cell[j] != '-' && cell[j] != ':' {
                assert(!(views(row@)[i as int][j as int] == '-' || views(row@)[i as int][j as int]
                    == ':'));
                return false;
            }
            j += 1;
        }
        i += 1;
    }
    true
}

/// Appends a row's cells, each escaped and wrapped in `open` and `close`.
fn push_cells(out: &mut String, row: &Vec<Vec<char>>, open: &str, close: &str)
    ensures
        final(out)@ == old(out)@ + cells_html(views(row@), open@, close@),
{
    let ghost start = out@;
    let mut i: usize = 0;
    while i < row.len()
        invariant
            i <= row@.len(),
            out@ == start + cells_html(views(row@).take(i as int), open@, close@),
        decreases row@.len() - i,
    {
        assert(views(row@).take(i + 1).drop_last() =~= views(row@).take(i as int));
        assert(row@[i as int]@ == views(row@)[i as int]);
        out.append(open);
        push_escaped(out, row[i].as_slice());
        out.append(close);
        i += 1;
        assert(out@ =~= start + cells_html(views(row@).take(i as int), open@, close@));
    }
    assert(views(row@).take(i as int) =~= views(row@));
}

/// Renders a buffered table: lines split on `|`; a second row made only of
/// `-`/`:` cells marks the first row as a header.
pub fn render_table(lines: &[Vec<char>]) -> (r: String)
    ensures
        r@ == table_html(views(lines@)),
{
    let mut rows: Vec<Vec<Vec<char>>> = Vec::new();
    let mut i: usize = 0;
    assert(views(lines@).take(0) =~= Seq::<Seq<char>>::empty());
    while i < lines.len()
        invariant
            i <= lines@.len(),
            row_views(rows@) =~= table_rows(views(lines@).take(i as int)),
        decreases lines@.len() - i,
    {
        let row = row_cells(lines[i].as_slice());
        assert(views(lines@).take(i + 1).drop_last() =~= views(lines@).take(i as int));
        assert(lines@[i as int]@ == views(lines@).take(i + 1).last());
        if !is_empty_row(&row) {
            rows.push(row);
        }
        i += 1;
    }
    assert(views(lines@).take(i as int) =~= views(lines@));
    let ghost rs = table_rows(views(lines@));
    if rows.len() == 0 {
        return String::new();
    }
    let mut out = String::from_str("<table>\n");
    let header = rows.len() > 1 && is_separator(&rows[1]);
    assert(header == has_header(rs));
    let body_start: usize = if header {
        out.append("<thead><tr>");
        push_cells(&mut out, &rows[0], "<th>", "</th>");
        out.append("</tr></thead>\n");
        2
    } else {
        0
    };
    out.append("<tbody>\n");
    let ghost head = out@;
    let mut k: usize = body_start;
    while k < rows.len()
        invariant
            body_start <= k <= rows@.len(),
            row_views(rows@) == rs,
            out@ == head + body_html(rs.subrange(body_start as int, k as int)),
        decreases rows@.len() - k,
    {
        assert(rs.subrange(body_start as int, k + 1).drop_last() =~= rs.subrange(
            body_start as int,
            k as int,
        ));
        out.append("<tr>");
        push_cells(&mut out, &rows[k], "<td>", "</td>");
        out.append("</tr>\n");
        k += 1;
        assert(out@ =~= head + body_html(rs.subrange(body_start as int, k as int)));
    }
    assert(rs.subrange(body_start as int, k as int) =~= rs.skip(body_start as int));
    out.append("</tbody></table>\n");
    assert(out@ =~= table_html(views(lines@)));
    out
}

} // verus!

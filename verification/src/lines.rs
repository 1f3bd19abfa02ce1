//! How a page's lines compose: a page renders line by line, so two pages
//! joined by a newline render as the two renderings one after the other
//! (while no literal block or table spans the join), and `\r\n` line ends
//! render as `\n` ones.

use vstd::prelude::*;
use crate::micron::{line_step, micron_text_html, render_lines, render_start, strip_cr, Render};
use crate::text::{escaped, has_prefix, split};

verus! {

/// Splitting at `sep` after joining two texts with `sep` gives the parts of
/// each, one after the other.
pub proof fn lemma_split_join<A>(a: Seq<A>, b: Seq<A>, sep: A)
    ensures
        split(a + seq![sep] + b, sep) == split(a, sep) + split(b, sep),
    decreases b.len(),
{
    let t = a + seq![sep] + b;
    crate::text::lemma_split_len(a, sep);
    if b.len() == 0 {
        assert(t.drop_last() =~= a);
        assert(split(b, sep) =~= seq![Seq::<A>::empty()]);
        assert(split(t, sep) =~= split(a, sep) + split(b, sep));
    } else {
        lemma_split_join(a, b.drop_last(), sep);
        crate::text::lemma_split_len(b.drop_last(), sep);
        assert(t.drop_last() =~= a + seq![sep] + b.drop_last());
        assert(t.last() == b.last());
        let pa = split(a, sep);
        let pb = split(b.drop_last(), sep);
        if b.last() == sep {
            assert(split(t, sep) =~= pa + pb.push(Seq::empty()));
        } else {
            assert(split(t, sep) =~= pa + pb.update(pb.len() - 1, pb.last().push(b.last())));
        }
    }
}

/// A line that neither toggles a literal block nor opens or closes a table,
/// even after a leading backslash.
pub open spec fn quiet_line(raw: Seq<char>) -> bool {
    let line = strip_cr(raw);
    &&& line != seq!['`', '=']
    &&& !has_prefix(line, seq!['`', 't'])
    &&& !(line.len() > 0 && line[0] == '\\' && has_prefix(line.drop_first(), seq!['`', 't']))
}

/// Every line of a text is quiet.
pub open spec fn quiet_text(t: Seq<char>) -> bool {
    forall|i: int| 0 <= i < split(t, '\n').len() ==> quiet_line(#[trigger] split(t, '\n')[i])
}

/// No literal block and no table open.
pub open spec fn closed(st: Render) -> bool {
    !st.literal && st.table is None
}

proof fn lemma_quiet_step(st: Render, l: Seq<char>)
    requires
        closed(st),
        quiet_line(l),
    ensures
        line_step(st, l) == (Render {
            out: st.out + line_step(render_start(), l).out,
            literal: false,
            table: None,
        }),
{
    let line = strip_cr(l);
    assert(st.out + Seq::<char>::empty() =~= st.out);
    let pre = line.len() > 0 && line[0] == '\\';
    if pre {
        assert(!has_prefix(line.drop_first(), seq!['`', 't']));
    }
}

proof fn lemma_quiet_closed(ys: Seq<Seq<char>>)
    requires
        forall|i: int| 0 <= i < ys.len() ==> quiet_line(#[trigger] ys[i]),
    ensures
        closed(render_lines(ys)),
        render_lines(ys) == (Render { out: render_lines(ys).out, literal: false, table: None }),
    decreases ys.len(),
{
    if ys.len() > 0 {
        lemma_quiet_closed(ys.drop_last());
        assert(quiet_line(ys.last()));
        lemma_quiet_step(render_lines(ys.drop_last()), ys.last());
    }
}

#[verifier::spinoff_prover]
proof fn lemma_quiet_lines(xs: Seq<Seq<char>>, ys: Seq<Seq<char>>)
    requires
        closed(render_lines(xs)),
        forall|i: int| 0 <= i < ys.len() ==> quiet_line(#[trigger] ys[i]),
    ensures
        render_lines(xs + ys) == (Render {
            out: render_lines(xs).out + render_lines(ys).out,
            literal: false,
            table: None,
        }),
    decreases ys.len(),
{
    if ys.len() == 0 {
        assert(xs + ys =~= xs);
        assert(render_lines(ys) == render_start());
        assert(render_lines(xs).out + render_lines(ys).out =~= render_lines(xs).out);
    } else {
        let init = ys.drop_last();
        let last = ys.last();
        lemma_quiet_lines(xs, init);
        lemma_quiet_closed(init);
        assert((xs + ys).drop_last() =~= xs + init);
        assert((xs + ys).last() == last);
        assert(quiet_line(last));
        let f = line_step(render_start(), last).out;
        lemma_quiet_step(render_lines(xs + init), last);
        lemma_quiet_step(render_lines(init), last);
        assert(render_lines(xs + ys) == line_step(render_lines(xs + init), last));
        assert(render_lines(ys) == line_step(render_lines(init), last));
        assert(render_lines(xs).out + render_lines(init).out + f =~= render_lines(xs).out + (
        render_lines(init).out + f));
    }
}

/// Two pages joined by a newline render as the first page's HTML followed by
/// the second's, when no line of either toggles a literal block or opens or
/// closes a table.
pub proof fn rendering_composes_by_lines(a: Seq<char>, b: Seq<char>)
    requires
        quiet_text(a),
        quiet_text(b),
    ensures
        micron_text_html(a + seq!['\n'] + b) == micron_text_html(a) + micron_text_html(b),
{
    lemma_split_join(a, b, '\n');
    let xs = split(a, '\n');
    let ys = split(b, '\n');
    assert(forall|i: int| 0 <= i < xs.len() ==> quiet_line(#[trigger] xs[i]));
    assert(forall|i: int| 0 <= i < ys.len() ==> quiet_line(#[trigger] ys[i]));
    lemma_quiet_closed(xs);
    lemma_quiet_closed(ys);
    lemma_quiet_lines(xs, ys);
    assert(micron_text_html(a) == render_lines(xs).out);
    assert(micron_text_html(b) == render_lines(ys).out);
    assert(micron_text_html(a + seq!['\n'] + b) == render_lines(xs + ys).out);
}

/// A `\r\n` line end.
pub open spec fn crlf() -> Seq<char> {
    seq!['\r', '\n']
}

/// A `\n` line end.
pub open spec fn lf() -> Seq<char> {
    seq!['\n']
}

/// Lines joined by `sep`.
pub open spec fn joined(lines: Seq<Seq<char>>, sep: Seq<char>) -> Seq<char>
    decreases lines.len(),
{
    if lines.len() <= 1 {
        if lines.len() == 1 {
            lines[0]
        } else {
            Seq::empty()
        }
    } else {
        joined(lines.drop_last(), sep) + sep + lines.last()
    }
}

/// Neither `\n` nor `\r` occurs in a line.
pub open spec fn bare_line(l: Seq<char>) -> bool {
    forall|i: int| 0 <= i < l.len() ==> #[trigger] l[i] != '\n' && l[i] != '\r'
}

pub proof fn lemma_split_single(l: Seq<char>)
    requires
        bare_line(l),
    ensures
        split(l, '\n') == seq![l],
    decreases l.len(),
{
    if l.len() > 0 {
        assert(bare_line(l.drop_last())) by {
            assert forall|i: int| 0 <= i < l.drop_last().len() implies #[trigger] l.drop_last()[i]
                != '\n' && l.drop_last()[i] != '\r' by {
                assert(l.drop_last()[i] == l[i]);
            }
        }
        lemma_split_single(l.drop_last());
        assert(l[l.len() - 1] == l.last());
        assert(l.drop_last().push(l.last()) =~= l);
    } else {
        assert(l =~= Seq::<char>::empty());
        assert(split(l, '\n') =~= seq![l]);
    }
}

/// The lines of `\r\n`-joined lines, split at `\n`: each but the last keeps
/// its `\r`.
proof fn lemma_split_crlf(lines: Seq<Seq<char>>)
    requires
        lines.len() >= 1,
        forall|i: int| 0 <= i < lines.len() ==> bare_line(#[trigger] lines[i]),
    ensures
        split(joined(lines, crlf()), '\n').len() == lines.len(),
        split(joined(lines, crlf()), '\n').last() == lines.last(),
        forall|i: int|
            0 <= i < lines.len() - 1 ==> #[trigger] split(joined(lines, crlf()), '\n')[i]
                == lines[i].push('\r'),
    decreases lines.len(),
{
    if lines.len() == 1 {
        lemma_split_single(lines[0]);
        assert(lines.last() == lines[0]);
    } else {
        let init = lines.drop_last();
        assert(forall|i: int| 0 <= i < init.len() ==> init[i] == lines[i]);
        lemma_split_crlf(init);
        let x = joined(init, crlf());
        let s = split(x, '\n');
        assert(joined(lines, crlf()) =~= x.push('\r') + seq!['\n'] + lines.last());
        lemma_split_join(x.push('\r'), lines.last(), '\n');
        assert(lines[lines.len() - 1] == lines.last());
        lemma_split_single(lines.last());
        assert(x.push('\r').drop_last() =~= x);
        assert(x.push('\r').last() == '\r');
        crate::text::lemma_split_len(x, '\n');
        let s2 = s.update(s.len() - 1, s.last().push('\r'));
        assert(split(x.push('\r'), '\n') == s2);
        let r = split(joined(lines, crlf()), '\n');
        assert(r == s2 + seq![lines.last()]);
        assert forall|i: int| 0 <= i < lines.len() - 1 implies #[trigger] r[i] == lines[i].push('\r') by {
            if i < init.len() - 1 {
                assert(r[i] == s[i]);
                assert(s[i] == init[i].push('\r'));
            } else {
                assert(r[i] == s.last().push('\r'));
                assert(s.last() == init.last());
            }
        }
    }
}

proof fn lemma_split_lf(lines: Seq<Seq<char>>)
    requires
        lines.len() >= 1,
        forall|i: int| 0 <= i < lines.len() ==> bare_line(#[trigger] lines[i]),
    ensures
        split(joined(lines, lf()), '\n') == lines,
    decreases lines.len(),
{
    if lines.len() == 1 {
        lemma_split_single(lines[0]);
        assert(seq![lines[0]] =~= lines);
    } else {
        let init = lines.drop_last();
        assert(forall|i: int| 0 <= i < init.len() ==> init[i] == lines[i]);
        lemma_split_lf(init);
        assert(lines[lines.len() - 1] == lines.last());
        lemma_split_single(lines.last());
        lemma_split_join(joined(init, lf()), lines.last(), '\n');
        assert(joined(lines, lf()) =~= joined(init, lf()) + seq!['\n'] + lines.last());
        assert(init + seq![lines.last()] =~= lines);
    }
}

proof fn lemma_render_same_lines(xs: Seq<Seq<char>>, ys: Seq<Seq<char>>)
    requires
        xs.len() == ys.len(),
        forall|i: int| 0 <= i < xs.len() ==> strip_cr(#[trigger] xs[i]) == strip_cr(ys[i]),
    ensures
        render_lines(xs) == render_lines(ys),
    decreases xs.len(),
{
    if xs.len() > 0 {
        lemma_render_same_lines(xs.drop_last(), ys.drop_last());
        assert(strip_cr(xs[xs.len() - 1]) == strip_cr(ys[ys.len() - 1]));
    }
}

/// Lines ended by `\r\n` render exactly as the same lines ended by `\n`.
pub proof fn crlf_renders_as_lf(lines: Seq<Seq<char>>)
    requires
        forall|i: int| 0 <= i < lines.len() ==> bare_line(#[trigger] lines[i]),
    ensures
        micron_text_html(joined(lines, crlf())) == micron_text_html(
            joined(lines, lf()),
        ),
{
    if lines.len() >= 1 {
        lemma_split_crlf(lines);
        lemma_split_lf(lines);
        let xs = split(joined(lines, crlf()), '\n');
        assert forall|i: int| 0 <= i < xs.len() implies strip_cr(#[trigger] xs[i]) == strip_cr(
            lines[i],
        ) by {
            assert(bare_line(lines[i]));
            if lines[i].len() > 0 {
                assert(lines[i][lines[i].len() - 1] != '\r');
            }
            if i < lines.len() - 1 {
                assert(xs[i] == lines[i].push('\r'));
                assert(xs[i].drop_last() =~= lines[i]);
            } else {
                assert(xs[i] == xs.last());
            }
        }
        lemma_render_same_lines(xs, lines);
    }
}

/// The line that opens or closes a literal block.
pub open spec fn fence() -> Seq<char> {
    seq!['`', '=']
}

/// Lines as a literal block shows them: each escaped, character for
/// character, and ended by a newline.
pub open spec fn literal_lines(ls: Seq<Seq<char>>) -> Seq<char>
    decreases ls.len(),
{
    if ls.len() == 0 {
        Seq::empty()
    } else {
        literal_lines(ls.drop_last()) + escaped(ls.last()) + seq!['\n']
    }
}

proof fn lemma_literal_step(out: Seq<char>, table: Option<Seq<Seq<char>>>, l: Seq<char>)
    requires
        bare_line(l),
        l != fence(),
    ensures
        line_step(Render { out, literal: true, table }, l) == (Render {
            out: out + escaped(l) + seq!['\n'],
            literal: true,
            table,
        }),
{
    if l.len() > 0 {
        assert(l[l.len() - 1] != '\r');
    }
    assert(strip_cr(l) == l);
}

proof fn lemma_fence_step(st: Render)
    ensures
        line_step(st, fence()) == (Render {
            out: st.out + (if st.literal { "</pre>\n"@ } else { "<pre>"@ }),
            literal: !st.literal,
            table: st.table,
        }),
{
    assert(strip_cr(fence()) == fence());
}

proof fn lemma_literal_start()
    ensures
        render_lines(seq![fence()]) == (Render { out: "<pre>"@, literal: true, table: None }),
{
    let all = seq![fence()];
    assert(all.drop_last() =~= Seq::<Seq<char>>::empty());
    assert(all.last() == fence());
    assert(render_lines(all.drop_last()) == render_start());
    assert(render_lines(all) == line_step(render_start(), fence()));
    lemma_fence_step(render_start());
    assert(render_start().out + "<pre>"@ =~= "<pre>"@);
}

proof fn lemma_literal_more(ls: Seq<Seq<char>>)
    requires
        ls.len() > 0,
        bare_line(ls.last()),
        ls.last() != fence(),
        render_lines(seq![fence()] + ls.drop_last()) == (Render {
            out: "<pre>"@ + literal_lines(ls.drop_last()),
            literal: true,
            table: None,
        }),
    ensures
        render_lines(seq![fence()] + ls) == (Render {
            out: "<pre>"@ + literal_lines(ls),
            literal: true,
            table: None,
        }),
{
    let all = seq![fence()] + ls;
    let init = ls.drop_last();
    let l = ls.last();
    assert(all.drop_last() =~= seq![fence()] + init);
    assert(all.last() == l);
    lemma_literal_step("<pre>"@ + literal_lines(init), None, l);
    assert("<pre>"@ + literal_lines(ls) =~= "<pre>"@ + literal_lines(init) + escaped(l) + seq![
        '\n',
    ]);
}

proof fn lemma_literal_prefix(ls: Seq<Seq<char>>)
    requires
        forall|i: int| 0 <= i < ls.len() ==> bare_line(#[trigger] ls[i]) && ls[i] != fence(),
    ensures
        render_lines(seq![fence()] + ls) == (Render {
            out: "<pre>"@ + literal_lines(ls),
            literal: true,
            table: None,
        }),
    decreases ls.len(),
{
    if ls.len() == 0 {
        lemma_literal_start();
        assert(seq![fence()] + ls =~= seq![fence()]);
        assert("<pre>"@ + literal_lines(ls) =~= "<pre>"@);
    } else {
        let init = ls.drop_last();
        assert(forall|i: int| 0 <= i < init.len() ==> init[i] == ls[i]);
        lemma_literal_prefix(init);
        assert(ls[ls.len() - 1] == ls.last());
        lemma_literal_more(ls);
    }
}

/// A literal block keeps its lines character for character: the page
/// "`=", the lines, "`=" renders as `<pre>`, each line escaped and ended by a
/// newline (leading and trailing spaces included), and `</pre>`.
pub proof fn literal_block_keeps_lines(ls: Seq<Seq<char>>)
    requires
        forall|i: int| 0 <= i < ls.len() ==> bare_line(#[trigger] ls[i]) && ls[i] != fence(),
    ensures
        micron_text_html(joined(seq![fence()] + ls + seq![fence()], lf())) == "<pre>"@
            + literal_lines(ls) + "</pre>\n"@,
{
    let all = seq![fence()] + ls + seq![fence()];
    assert forall|i: int| 0 <= i < all.len() implies bare_line(#[trigger] all[i]) by {
        if i == 0 || i == all.len() - 1 {
            assert(all[i] == fence());
        } else {
            assert(all[i] == ls[i - 1]);
        }
    }
    lemma_split_lf(all);
    lemma_literal_prefix(ls);
    assert(all.drop_last() =~= seq![fence()] + ls);
    assert(all.last() == fence());
    lemma_fence_step(render_lines(seq![fence()] + ls));
}

} // verus!

//! Editing seen on the text as a whole: what an edit keeps before and behind the caret,
//! what it takes away and what it puts in.

use vstd::prelude::*;

use crate::editops::{
    back, classes, fore, kin, law_word_motion_progress, leading, left_of, opens_block, right_of, spaces, token_at,
};
use crate::input::doc::{
    behind, bounds, cut, doc_wf, dropped, inserted, law_cut_undoes_put, law_put_undoes_cut, lemma_behind, lemma_bounds,
    lemma_dropped, lemma_pieces_flat, lemma_put, not_break, pieces, put, removed, selected_text, typed, up_to, valid,
    DocV, Pos, SelV,
};
use crate::input::edit::{box_wf, close_of, composed, entered, retexted, BoxV};
use crate::input::keys::{
    at_offset, back_times, backspaced, chars_before, cluster_deleted, completed, cut_box, doc_offset, gone_to, keyed,
    lemma_back_times, lemma_before_mono, lemma_text_len, match_selected, pointed, reselected, search_from, word_goal,
    KeyStep, Motion,
};
use crate::text::{join, lemma_join_push, lemma_run_is, run};

verus! {

/// The whole text of a document.
pub open spec fn whole(d: DocV) -> Seq<char> {
    join(d.lines, '\n')
}

/// How many characters stand before a position of the text.
pub open spec fn offset(d: DocV, p: Pos) -> int {
    doc_offset(d.lines, p)
}

/// A text as it is put in: every line ending is a line feed.
pub open spec fn as_put(text: Seq<char>) -> Seq<char> {
    join(pieces(text), '\n')
}

// ---------------------------------------------------------------------------
// Lines and the whole text
// ---------------------------------------------------------------------------

proof fn lemma_glue(xs: Seq<Seq<char>>, x: Seq<char>, y: Seq<char>, ys: Seq<Seq<char>>)
    ensures
        join(xs + seq![x + y] + ys, '\n') == join(xs.push(x), '\n') + join(seq![y] + ys, '\n'),
    decreases xs.len(),
{
    let all = xs + seq![x + y] + ys;
    if xs.len() == 0 {
        assert(xs.push(x) =~= seq![x]);
        assert(all[0] == x + y);
        assert((seq![y] + ys).skip(1) =~= ys);
        assert(all.skip(1) =~= ys);
        if ys.len() == 0 {
            assert(join(all, '\n') =~= join(xs.push(x), '\n') + join(seq![y] + ys, '\n'));
        } else {
            assert(join(all, '\n') == (x + y).push('\n') + join(ys, '\n'));
            assert(join(seq![y] + ys, '\n') == y.push('\n') + join(ys, '\n'));
            assert(join(all, '\n') =~= join(xs.push(x), '\n') + join(seq![y] + ys, '\n'));
        }
    } else {
        let rest = xs.skip(1);
        lemma_glue(rest, x, y, ys);
        assert(all.skip(1) =~= rest + seq![x + y] + ys);
        assert(xs.push(x).skip(1) =~= rest.push(x));
        assert(all[0] == xs[0]);
        assert(join(all, '\n') =~= join(xs.push(x), '\n') + join(seq![y] + ys, '\n'));
    }
}

proof fn lemma_parted(ls: Seq<Seq<char>>, p: Pos)
    requires
        valid(ls, p),
    ensures
        0 <= doc_offset(ls, p) <= join(ls, '\n').len(),
        join(ls.take(p.line).push(ls[p.line].take(p.col)), '\n') == join(ls, '\n').take(doc_offset(ls, p)),
        join(seq![ls[p.line].skip(p.col)] + ls.skip(p.line + 1), '\n') == join(ls, '\n').skip(doc_offset(ls, p)),
{
    let xs = ls.take(p.line);
    let x = ls[p.line].take(p.col);
    let y = ls[p.line].skip(p.col);
    let ys = ls.skip(p.line + 1);
    lemma_glue(xs, x, y, ys);
    assert(x + y =~= ls[p.line]);
    assert(xs + seq![x + y] + ys =~= ls);
    lemma_join_push(xs, '\n', x);
    if p.line > 0 {
        lemma_text_len(ls, p.line);
    } else {
        assert(chars_before(ls, 0) == 0);
    }
    let h = join(xs.push(x), '\n');
    let t = join(seq![y] + ys, '\n');
    assert(h.len() == doc_offset(ls, p));
    assert(join(ls, '\n').take(h.len() as int) =~= h);
    assert(join(ls, '\n').skip(h.len() as int) =~= t);
}

proof fn lemma_removed_text(ls: Seq<Seq<char>>, a: Pos, b: Pos)
    requires
        valid(ls, a),
        valid(ls, b),
        up_to(a, b),
    ensures
        doc_offset(ls, a) <= doc_offset(ls, b),
        join(removed(ls, a, b), '\n') == join(ls, '\n').take(doc_offset(ls, a)) + join(ls, '\n').skip(
            doc_offset(ls, b),
        ),
        doc_offset(removed(ls, a, b), a) == doc_offset(ls, a),
{
    lemma_parted(ls, a);
    lemma_parted(ls, b);
    lemma_glue(ls.take(a.line), ls[a.line].take(a.col), ls[b.line].skip(b.col), ls.skip(b.line + 1));
    lemma_order(ls, a, b);
    lemma_same_before(ls, removed(ls, a, b), a.line);
}

proof fn lemma_order(ls: Seq<Seq<char>>, a: Pos, b: Pos)
    requires
        valid(ls, a),
        valid(ls, b),
        up_to(a, b),
    ensures
        doc_offset(ls, a) <= doc_offset(ls, b),
        a != b ==> doc_offset(ls, a) < doc_offset(ls, b),
{
    if a.line < b.line {
        lemma_before_mono(ls, a.line + 1, b.line);
        assert(chars_before(ls, a.line + 1) == chars_before(ls, a.line) + ls[a.line].len() + 1);
    }
}

proof fn lemma_same_before(ls: Seq<Seq<char>>, ms: Seq<Seq<char>>, n: int)
    requires
        0 <= n <= ls.len(),
        n <= ms.len(),
        forall|i: int| 0 <= i < n ==> ls[i] == ms[i],
    ensures
        chars_before(ls, n) == chars_before(ms, n),
    decreases n,
{
    if n > 0 {
        lemma_same_before(ls, ms, n - 1);
    }
}

proof fn lemma_inserted_text(ls: Seq<Seq<char>>, p: Pos, ps: Seq<Seq<char>>)
    requires
        valid(ls, p),
        ps.len() > 0,
    ensures
        join(inserted(ls, p, ps), '\n') == join(ls, '\n').take(doc_offset(ls, p)) + join(ps, '\n') + join(
            ls,
            '\n',
        ).skip(doc_offset(ls, p)),
        doc_offset(inserted(ls, p, ps), behind(p, ps)) == doc_offset(ls, p) + join(ps, '\n').len(),
{
    let xs = ls.take(p.line);
    let x = ls[p.line].take(p.col);
    let y = ls[p.line].skip(p.col);
    let ys = ls.skip(p.line + 1);
    let t = join(ls, '\n');
    let off = doc_offset(ls, p);
    lemma_parted(ls, p);
    if ps.len() == 1 {
        lemma_glue(xs, x, ps[0] + y, ys);
        lemma_glue(Seq::empty(), ps[0], y, ys);
        assert(x + (ps[0] + y) =~= x + ps[0] + y);
        assert(Seq::<Seq<char>>::empty().push(ps[0]) =~= seq![ps[0]]);
        assert(Seq::<Seq<char>>::empty() + seq![ps[0] + y] + ys =~= seq![ps[0] + y] + ys);
        assert(join(inserted(ls, p, ps), '\n') =~= t.take(off) + join(ps, '\n') + t.skip(off));
    } else {
        let mid = ps.subrange(1, ps.len() - 1);
        let tail = mid + seq![ps.last() + y] + ys;
        lemma_glue(xs, x, ps[0], tail);
        assert(inserted(ls, p, ps) =~= xs + seq![x + ps[0]] + tail);
        lemma_glue(seq![ps[0]] + mid, ps.last(), y, ys);
        assert((seq![ps[0]] + mid).push(ps.last()) =~= ps);
        assert(seq![ps[0]] + mid + seq![ps.last() + y] + ys =~= seq![ps[0]] + tail);
        assert(join(inserted(ls, p, ps), '\n') =~= t.take(off) + join(ps, '\n') + t.skip(off));
    }
    let ms = inserted(ls, p, ps);
    lemma_behind(ls, p, ps);
    law_cut_undoes_put(ls, p, ps);
    lemma_removed_text(ms, p, behind(p, ps));
    lemma_parted(ms, behind(p, ps));
    assert forall|i: int| 0 <= i < p.line implies ls[i] == ms[i] by {}
    lemma_same_before(ls, ms, p.line);
}

proof fn lemma_cut_text(ls: Seq<Seq<char>>, a: Pos, b: Pos)
    requires
        valid(ls, a),
        valid(ls, b),
        up_to(a, b),
    ensures
        join(cut(ls, a, b), '\n') == join(ls, '\n').subrange(doc_offset(ls, a), doc_offset(ls, b)),
{
    lemma_parted(ls, a);
    lemma_parted(ls, b);
    lemma_removed_text(ls, a, b);
    law_put_undoes_cut(ls, a, b);
    let ms = removed(ls, a, b);
    let c = join(cut(ls, a, b), '\n');
    let t = join(ls, '\n');
    let i = doc_offset(ls, a);
    let j = doc_offset(ls, b);
    lemma_inserted_text(ms, a, cut(ls, a, b));
    let m = join(ms, '\n');
    assert(m.take(i) =~= t.take(i));
    assert(m.skip(i) =~= t.skip(j));
    assert(t == t.take(i) + c + t.skip(j));
    assert(t.subrange(i, j) =~= c);
}

/// A text without carriage returns is put in as it is.
pub proof fn law_text_is_put_as_it_is(text: Seq<char>)
    requires
        !text.contains('\r'),
    ensures
        as_put(text) == text,
    decreases text.len(),
{
    let n = run(text, not_break()) as int;
    lemma_run_is(text, not_break());
    if n < text.len() {
        assert(!not_break()(text[n]));
        assert(text[n] == '\n') by {
            assert(text.contains(text[n]));
        }
        let s = text.skip(n);
        assert(ending_of(s) == 1) by {
            if s.len() >= 2 {
                assert(text.contains(text[n + 1]));
            }
        }
        let rest = text.skip(n + 1);
        assert(!rest.contains('\r')) by {
            if rest.contains('\r') {
                let k = choose|k: int| 0 <= k < rest.len() && rest[k] == '\r';
                assert(text[k + n + 1] == '\r');
            }
        }
        law_text_is_put_as_it_is(rest);
        lemma_pieces_flat(rest);
        let ps = pieces(text);
        assert(ps == seq![text.take(n)] + pieces(rest));
        assert(ps.skip(1) =~= pieces(rest));
        assert(join(ps, '\n') == text.take(n).push('\n') + rest);
        assert(join(ps, '\n') =~= text);
    } else {
        assert(pieces(text) == seq![text]);
    }
}

spec fn ending_of(s: Seq<char>) -> int {
    crate::input::doc::ending(s)
}

// ---------------------------------------------------------------------------
// Selections
// ---------------------------------------------------------------------------

/// The selected text is what stands between the ends of the selection, and the ends lie
/// in order.
pub proof fn law_selection_is_what_lies_between(d: DocV)
    requires
        doc_wf(d),
        bounds(d) is Some,
    ensures
        ({
            let (a, b) = bounds(d)->0;
            &&& 0 <= offset(d, a) <= offset(d, b) <= whole(d).len()
            &&& selected_text(d) == Some(whole(d).subrange(offset(d, a), offset(d, b)))
        }),
{
    lemma_bounds(d);
    let (a, b) = bounds(d)->0;
    lemma_parted(d.lines, a);
    lemma_parted(d.lines, b);
    lemma_order(d.lines, a, b);
    lemma_cut_text(d.lines, a, b);
}

/// A selection reaches from its anchor to the caret, whichever comes first; one by lines
/// takes in the whole lines of both.
pub proof fn law_selection_reaches_from_anchor_to_caret(d: DocV, p: Pos)
    requires
        doc_wf(d),
        valid(d.lines, p),
    ensures
        bounds(DocV { sel: SelV::Nothing, ..d }) is None,
        up_to(p, d.cursor) ==> bounds(DocV { sel: SelV::Normal(p), ..d }) == Some((p, d.cursor)),
        up_to(d.cursor, p) ==> bounds(DocV { sel: SelV::Normal(p), ..d }) == Some((d.cursor, p)),
        bounds(DocV { sel: SelV::Line(p), ..d }) matches Some((a, b)) && {
            &&& a.col == 0 && b.col == d.lines[b.line].len()
            &&& p.line <= d.cursor.line ==> a.line == p.line && b.line == d.cursor.line
            &&& p.line > d.cursor.line ==> a.line == d.cursor.line && b.line == p.line
        },
{
}

/// Deleting the selection takes its text away and nothing else, and leaves the caret
/// where it was and nothing selected. Cutting does the same.
pub proof fn law_deleting_takes_the_selection_away(b: BoxV)
    requires
        box_wf(b),
        !b.read_only,
        bounds(b.doc) is Some,
    ensures
        ({
            let (p, q) = bounds(b.doc)->0;
            let t = whole(b.doc);
            let e = dropped(b.doc).0;
            &&& whole(e) == t.take(offset(b.doc, p)) + t.skip(offset(b.doc, q))
            &&& e.cursor == p && e.sel == SelV::Nothing
            &&& offset(e, e.cursor) == offset(b.doc, p)
            &&& cut_box(b).doc == e
        }),
{
    lemma_bounds(b.doc);
    let (p, q) = bounds(b.doc)->0;
    lemma_removed_text(b.doc.lines, p, q);
}

// ---------------------------------------------------------------------------
// Typing
// ---------------------------------------------------------------------------

proof fn lemma_put_text(d: DocV, text: Seq<char>)
    requires
        doc_wf(d),
        d.sel == SelV::Nothing,
    ensures
        ({
            let t = whole(d);
            let o = offset(d, d.cursor);
            let e = put(d, text).0;
            &&& 0 <= o <= t.len()
            &&& whole(e) == t.take(o) + as_put(text) + t.skip(o)
            &&& offset(e, e.cursor) == o + as_put(text).len()
            &&& e.sel == SelV::Nothing
        }),
{
    lemma_parted(d.lines, d.cursor);
    lemma_pieces_flat(text);
    if text.len() == 0 {
        assert(pieces(text) =~= seq![text]) by {
            lemma_run_is(text, not_break());
        }
        assert(whole(d) =~= whole(d).take(offset(d, d.cursor)) + as_put(text) + whole(d).skip(offset(d, d.cursor)));
    } else {
        lemma_inserted_text(d.lines, d.cursor, pieces(text));
    }
}

/// What text is typed in place of: the selection, or the caret.
pub open spec fn span(d: DocV) -> (Pos, Pos) {
    match bounds(d) {
        Some(s) => s,
        None => (d.cursor, d.cursor),
    }
}

/// Typing puts the text in place of the selection, or at the caret, and leaves what
/// stands before and behind as it is; the caret follows the text, and nothing is
/// selected.
pub proof fn law_typing_puts_the_text_in(d: DocV, text: Seq<char>)
    requires
        doc_wf(d),
    ensures
        ({
            let (a, b) = span(d);
            let t = whole(d);
            let e = typed(d, text).0;
            &&& whole(e) == t.take(offset(d, a)) + as_put(text) + t.skip(offset(d, b))
            &&& offset(e, e.cursor) == offset(d, a) + as_put(text).len()
            &&& e.sel == SelV::Nothing
            &&& doc_wf(e)
        }),
{
    lemma_dropped(d);
    lemma_bounds(d);
    let (a, b) = span(d);
    let m = dropped(d).0;
    let t = whole(d);
    lemma_put_text(m, text);
    lemma_put(m, text);
    lemma_parted(d.lines, a);
    lemma_parted(d.lines, b);
    if bounds(d) is Some {
        lemma_removed_text(d.lines, a, b);
        assert(whole(m).take(offset(d, a)) =~= t.take(offset(d, a)));
        assert(whole(m).skip(offset(d, a)) =~= t.skip(offset(d, b)));
    }
}

/// Text that is entered stands in place of the selection, or at the caret. In code an
/// opening bracket or quote brings its closer, which stands behind the caret; any other
/// text is entered alone. Without text nothing happens.
pub proof fn law_entering(b: BoxV, text: Seq<char>)
    requires
        box_wf(b),
        !b.read_only,
        b.preedit.len() == 0,
    ensures
        ({
            let (p, q) = span(b.doc);
            let t = whole(b.doc);
            let e = entered(b, text);
            let opens = text == "("@ || text == "["@ || text == "{"@ || text == "\""@ || text == "'"@;
            let close = if text == "("@ {
                ")"@
            } else if text == "["@ {
                "]"@
            } else if text == "{"@ {
                "}"@
            } else {
                text
            };
            &&& text.len() == 0 ==> e == b
            &&& text.len() > 0 && !(b.code_mode && opens) ==> whole(e.doc) == t.take(offset(b.doc, p)) + as_put(text)
                + t.skip(offset(b.doc, q))
            &&& text.len() > 0 && b.code_mode && opens ==> whole(e.doc) == t.take(offset(b.doc, p)) + as_put(text)
                + as_put(close) + t.skip(offset(b.doc, q))
            &&& text.len() > 0 ==> {
                &&& offset(e.doc, e.doc.cursor) == offset(b.doc, p) + as_put(text).len()
                &&& e.doc.sel == SelV::Nothing
            }
        }),
{
    let d = b.doc;
    let (p, q) = span(d);
    let t = whole(d);
    law_typing_puts_the_text_in(d, text);
    if text.len() > 0 && b.code_mode && close_of(text) is Some {
        let close = close_of(text)->0;
        let one = typed(d, text).0;
        let two = typed(one, close).0;
        law_typing_puts_the_text_in(one, close);
        lemma_bounds(d);
        lemma_parted(d.lines, p);
        lemma_parted(d.lines, q);
        let o = offset(one, one.cursor);
        assert(whole(one).take(o) =~= t.take(offset(d, p)) + as_put(text));
        assert(whole(one).skip(o) =~= t.skip(offset(d, q)));
        // The caret stays before the closer.
        lemma_parted(one.lines, one.cursor);
        lemma_dropped(one);
        assert(dropped(one).0 == one);
        lemma_pieces_flat(close);
        if close.len() > 0 {
            lemma_behind(one.lines, one.cursor, pieces(close));
            let ms = inserted(one.lines, one.cursor, pieces(close));
            assert forall|i: int| 0 <= i < one.cursor.line implies one.lines[i] == ms[i] by {}
            lemma_same_before(one.lines, ms, one.cursor.line);
        }
        assert(entered(b, text).doc == DocV { cursor: one.cursor, ..two });
    }
}

/// The whole text is replaced by another, the caret at its end.
pub proof fn law_setting_replaces_the_text(b: BoxV, text: Seq<char>)
    ensures
        whole(retexted(b, text).doc) == as_put(text),
        retexted(b, text).doc.cursor.line == retexted(b, text).doc.lines.len() - 1,
        retexted(b, text).doc.cursor.col == retexted(b, text).doc.lines.last().len(),
        retexted(b, text).preedit.len() == 0,
{
}

/// Composed text stands at the caret in place of the selection and can be told from the
/// rest: it is what is marked as being composed, from where it starts.
pub proof fn law_composing_shows_the_text(b: BoxV, text: Seq<char>)
    requires
        box_wf(b),
        !b.read_only,
        b.preedit.len() == 0,
        text.len() > 0,
    ensures
        ({
            let (p, q) = span(b.doc);
            let t = whole(b.doc);
            let e = composed(b, text);
            &&& whole(e.doc) == t.take(offset(b.doc, p)) + as_put(text) + t.skip(offset(b.doc, q))
            &&& e.preedit == text
            &&& e.preedit_anchor == Some(p)
            &&& e.hist == b.hist
        }),
{
    law_typing_puts_the_text_in(b.doc, text);
}

/// A completion replaces what was typed of it by its text; what stands before and behind
/// stays.
pub proof fn law_completing_replaces_the_prefix(b: BoxV, n: int, text: Seq<char>)
    requires
        box_wf(b),
        !b.read_only,
        b.doc.sel == SelV::Nothing,
        0 <= n <= offset(b.doc, b.doc.cursor),
    ensures
        ({
            let t = whole(b.doc);
            let o = offset(b.doc, b.doc.cursor);
            let e = completed(b, n, text).doc;
            &&& whole(e) == t.take(o - n) + as_put(text) + t.skip(o)
            &&& offset(e, e.cursor) == o - n + as_put(text).len()
        }),
{
    let d = b.doc;
    let t = whole(d);
    let o = offset(d, d.cursor);
    lemma_back_text(d, n);
    lemma_back_times(d, n);
    let m = back_times(d, n).0;
    law_typing_puts_the_text_in(m, text);
    lemma_parted(d.lines, d.cursor);
    assert(whole(m).take(o - n) =~= t.take(o - n));
    assert(whole(m).skip(o - n) =~= t.skip(o));
}

/// A selection is replaced by a text; without one nothing is.
pub proof fn law_replacing_the_selection(b: BoxV, text: Seq<char>)
    requires
        box_wf(b),
        !b.read_only,
        b.preedit.len() == 0,
    ensures
        bounds(b.doc) is None ==> reselected(b, text) == b,
        bounds(b.doc) is Some ==> {
            let (p, q) = bounds(b.doc)->0;
            let t = whole(b.doc);
            whole(reselected(b, text).doc) == t.take(offset(b.doc, p)) + as_put(text) + t.skip(offset(b.doc, q))
        },
{
    law_typing_puts_the_text_in(b.doc, text);
}

// ---------------------------------------------------------------------------
// Deleting
// ---------------------------------------------------------------------------

proof fn lemma_deleted_between(d: DocV, from: Pos, to: Pos)
    requires
        doc_wf(d),
        valid(d.lines, from),
        valid(d.lines, to),
        up_to(from, to),
    ensures
        ({
            let one = dropped(DocV { cursor: from, sel: SelV::Normal(to), ..d }).0;
            let two = dropped(DocV { cursor: to, sel: SelV::Normal(from), ..d }).0;
            &&& one == two
            &&& whole(one) == whole(d).take(offset(d, from)) + whole(d).skip(offset(d, to))
            &&& one.cursor == from && one.sel == SelV::Nothing
            &&& offset(one, from) == offset(d, from)
        }),
{
    lemma_removed_text(d.lines, from, to);
}

proof fn lemma_one_back(d: DocV)
    requires
        doc_wf(d),
        d.sel == SelV::Nothing,
    ensures
        ({
            let t = whole(d);
            let o = offset(d, d.cursor);
            let e = backspaced(d).0;
            &&& e.sel == SelV::Nothing
            &&& o == 0 ==> e == d
            &&& o > 0 ==> whole(e) == t.take(o - 1) + t.skip(o) && offset(e, e.cursor) == o - 1
        }),
{
    let c = d.cursor;
    lemma_parted(d.lines, c);
    if c.col > 0 {
        lemma_before_mono(d.lines, 0, c.line);
        lemma_deleted_between(d, Pos { line: c.line, col: c.col - 1 }, c);
    } else if c.line > 0 {
        let p = Pos { line: c.line - 1, col: d.lines[c.line - 1].len() as int };
        assert(chars_before(d.lines, c.line) == chars_before(d.lines, c.line - 1) + d.lines[c.line - 1].len() + 1);
        lemma_before_mono(d.lines, 0, c.line - 1);
        lemma_deleted_between(d, p, c);
    } else {
        assert(chars_before(d.lines, 0) == 0);
    }
}

proof fn lemma_back_text(d: DocV, n: int)
    requires
        doc_wf(d),
        d.sel == SelV::Nothing,
        0 <= n <= offset(d, d.cursor),
    ensures
        ({
            let t = whole(d);
            let o = offset(d, d.cursor);
            let e = back_times(d, n).0;
            &&& whole(e) == t.take(o - n) + t.skip(o)
            &&& offset(e, e.cursor) == o - n
            &&& e.sel == SelV::Nothing
        }),
    decreases n,
{
    let t = whole(d);
    let o = offset(d, d.cursor);
    lemma_parted(d.lines, d.cursor);
    if n > 0 {
        lemma_back_text(d, n - 1);
        lemma_back_times(d, n - 1);
        let m = back_times(d, n - 1).0;
        lemma_one_back(m);
        assert(whole(m).take(o - n) =~= t.take(o - n));
        assert(whole(m).skip(o - n + 1) =~= t.skip(o));
    } else {
        assert(t.take(o) + t.skip(o) =~= t);
    }
}

/// The names of the keys, told apart by their lengths and first letters.
proof fn lemma_key_names()
    ensures
        "Backspace"@.len() == 9 && "Backspace"@[0] == 'B' && "Backspace"@[1] == 'a',
        "Delete"@.len() == 6 && "Delete"@[0] == 'D' && "Delete"@[1] == 'e',
        "DeleteWordBack"@.len() == 14 && "DeleteWordBack"@[0] == 'D' && "DeleteWordBack"@[1] == 'e',
        "DeleteWordForward"@.len() == 17 && "DeleteWordForward"@[0] == 'D' && "DeleteWordForward"@[1] == 'e',
        "WordLeft"@.len() == 8 && "WordLeft"@[0] == 'W' && "WordLeft"@[1] == 'o',
        "WordRight"@.len() == 9 && "WordRight"@[0] == 'W' && "WordRight"@[1] == 'o',
        "Return"@.len() == 6 && "Return"@[0] == 'R' && "Return"@[1] == 'e',
        "KeypadEnter"@.len() == 11 && "KeypadEnter"@[0] == 'K' && "KeypadEnter"@[1] == 'e',
        "LineStart"@.len() == 9 && "LineStart"@[0] == 'L' && "LineStart"@[1] == 'i',
        "Home"@.len() == 4 && "Home"@[0] == 'H' && "Home"@[1] == 'o',
        "End"@.len() == 3 && "End"@[0] == 'E' && "End"@[1] == 'n',
        "LineEnd"@.len() == 7 && "LineEnd"@[0] == 'L' && "LineEnd"@[1] == 'i',
        "DocStart"@.len() == 8 && "DocStart"@[0] == 'D' && "DocStart"@[1] == 'o',
        "DocEnd"@.len() == 6 && "DocEnd"@[0] == 'D' && "DocEnd"@[1] == 'o',
        "LeftArrow"@.len() == 9 && "LeftArrow"@[0] == 'L' && "LeftArrow"@[1] == 'e',
        "RightArrow"@.len() == 10 && "RightArrow"@[0] == 'R' && "RightArrow"@[1] == 'i',
        "UpArrow"@.len() == 7 && "UpArrow"@[0] == 'U' && "UpArrow"@[1] == 'p',
        "DownArrow"@.len() == 9 && "DownArrow"@[0] == 'D' && "DownArrow"@[1] == 'o',
        "PageUp"@.len() == 6 && "PageUp"@[0] == 'P' && "PageUp"@[1] == 'a',
        "PageDown"@.len() == 8 && "PageDown"@[0] == 'P' && "PageDown"@[1] == 'a',
        "DeleteToLineStart"@.len() == 17 && "DeleteToLineStart"@[0] == 'D' && "DeleteToLineStart"@[1] == 'e',
        "DeleteWordForward"@[6] == 'W' && "DeleteToLineStart"@[6] == 'T',
{
    reveal_strlit("Backspace");
    reveal_strlit("Delete");
    reveal_strlit("DeleteWordBack");
    reveal_strlit("DeleteWordForward");
    reveal_strlit("WordLeft");
    reveal_strlit("WordRight");
    reveal_strlit("Return");
    reveal_strlit("KeypadEnter");
    reveal_strlit("LineStart");
    reveal_strlit("Home");
    reveal_strlit("End");
    reveal_strlit("LineEnd");
    reveal_strlit("DocStart");
    reveal_strlit("DocEnd");
    reveal_strlit("LeftArrow");
    reveal_strlit("RightArrow");
    reveal_strlit("UpArrow");
    reveal_strlit("DownArrow");
    reveal_strlit("PageUp");
    reveal_strlit("PageDown");
    reveal_strlit("DeleteToLineStart");
}

/// In a writable box without a selection, deleting the word in front of the caret keeps
/// all text before the caret, and the caret, and takes away exactly what stands up to
/// where the motion to the next word leads; deleting the word behind it keeps all text
/// behind the caret and takes away exactly what stands from where the motion to the
/// previous word leads, which is where the caret then is.
pub proof fn law_word_deletion_goes_where_the_motion_goes(b: BoxV, shift: bool)
    requires
        box_wf(b),
        !b.read_only,
        b.doc.sel == SelV::Nothing,
    ensures
        ({
            let d = b.doc;
            let t = whole(d);
            let o = offset(d, d.cursor);
            let right = keyed(b, "WordRight"@, false).0.doc.cursor;
            let left = keyed(b, "WordLeft"@, false).0.doc.cursor;
            let ahead = keyed(b, "DeleteWordForward"@, shift).0.doc;
            let back = keyed(b, "DeleteWordBack"@, shift).0.doc;
            &&& offset(d, left) <= o <= offset(d, right)
            &&& o < t.len() ==> o < offset(d, right)
            &&& o > 0 ==> offset(d, left) < o
            &&& whole(ahead) == t.take(o) + t.skip(offset(d, right))
            &&& ahead.cursor == d.cursor && offset(ahead, ahead.cursor) == o
            &&& whole(back) == t.take(offset(d, left)) + t.skip(o)
            &&& back.cursor == left && offset(back, back.cursor) == offset(d, left)
            &&& ahead.sel == SelV::Nothing && back.sel == SelV::Nothing
        }),
{
    lemma_key_names();
    let d = b.doc;
    let cs = classes(d.lines[d.cursor.line]);
    let right = word_goal(d, true, cs);
    let left = word_goal(d, false, cs);
    lemma_goals(d);
    lemma_deleted_between(d, d.cursor, right);
    lemma_deleted_between(d, left, d.cursor);
    lemma_order(d.lines, d.cursor, right);
    lemma_order(d.lines, left, d.cursor);
}

proof fn lemma_goals(d: DocV)
    requires
        doc_wf(d),
    ensures
        ({
            let cs = classes(d.lines[d.cursor.line]);
            let right = word_goal(d, true, cs);
            let left = word_goal(d, false, cs);
            &&& valid(d.lines, right) && valid(d.lines, left)
            &&& up_to(d.cursor, right) && up_to(left, d.cursor)
            &&& offset(d, d.cursor) < whole(d).len() ==> right != d.cursor
            &&& offset(d, d.cursor) > 0 ==> left != d.cursor
        }),
{
    let c = d.cursor;
    let cs = classes(d.lines[c.line]);
    law_word_motion_progress(cs, c.col);
    let n = d.lines.len() as int;
    lemma_text_len(d.lines, n);
    assert(d.lines.take(n) =~= d.lines);
    if c.line + 1 == n && c.col == d.lines[c.line].len() {
        assert(chars_before(d.lines, n) == chars_before(d.lines, n - 1) + d.lines[n - 1].len() + 1);
    }
    if c.line == 0 && c.col == 0 {
        assert(chars_before(d.lines, 0) == 0);
    }
}

/// Where a word motion stops in its line: behind white space and then one stretch of
/// word characters or one of punctuation, which does not go on.
pub proof fn law_word_motion_stops_at_words(d: DocV)
    requires
        doc_wf(d),
    ensures
        ({
            let c = d.cursor;
            let line = d.lines[c.line];
            let cs = classes(line);
            let r = word_goal(d, true, cs);
            let l = word_goal(d, false, cs);
            &&& c.col < line.len() ==> r.line == c.line && exists|i: int| #[trigger] leads_over(cs, c.col, i, r.col)
            &&& c.col > 0 ==> l.line == c.line && exists|i: int| #[trigger] leads_back_over(cs, l.col, i, c.col)
            &&& c.col == line.len() && c.line + 1 < d.lines.len() ==> r == (Pos { line: c.line + 1, col: 0 })
            &&& c.col == 0 && c.line > 0 ==> l == (Pos {
                line: c.line - 1,
                col: d.lines[c.line - 1].len() as int,
            })
        }),
{
    let c = d.cursor;
    let cs = classes(d.lines[c.line]);
    law_word_motion_progress(cs, c.col);
    if c.col < cs.len() {
        let i = fore(cs, spaces(), c.col);
        let r = right_of(cs, c.col);
        crate::editops::lemma_fore_facts(cs, spaces(), c.col);
        if i < cs.len() {
            crate::editops::lemma_fore_facts(cs, kin(cs[i]), i);
            assert(!spaces()(cs[i]));
            assert(kin(cs[i])(cs[i]));
            assert(fore(cs, kin(cs[i]), i) == fore(cs, kin(cs[i]), i + 1));
            crate::editops::lemma_fore_facts(cs, kin(cs[i]), i + 1);
            assert(kin(cs[i])(cs[r - 1]));
            assert forall|k: int| i <= k < r implies kin(cs[i])(#[trigger] cs[k]) by {}
        }
        assert forall|k: int| c.col <= k < i implies (#[trigger] cs[k]).space by {
            assert(spaces()(cs[k]));
        }
        assert(word_goal(d, true, cs) == Pos { line: c.line, col: r });
        assert(leads_over(cs, c.col, i, word_goal(d, true, cs).col));
    }
    if c.col > 0 {
        let i = back(cs, spaces(), c.col);
        let l = left_of(cs, c.col);
        crate::editops::lemma_back_facts(cs, spaces(), c.col);
        if i > 0 {
            crate::editops::lemma_back_facts(cs, kin(cs[i - 1]), i);
            assert(!spaces()(cs[i - 1]));
            assert(kin(cs[i - 1])(cs[i - 1]));
            assert(back(cs, kin(cs[i - 1]), i) == back(cs, kin(cs[i - 1]), i - 1));
            crate::editops::lemma_back_facts(cs, kin(cs[i - 1]), i - 1);
            assert(kin(cs[i - 1])(cs[l]));
            assert forall|k: int| l <= k < i implies kin(cs[i - 1])(#[trigger] cs[k]) by {}
        }
        assert forall|k: int| i <= k < c.col implies (#[trigger] cs[k]).space by {
            assert(spaces()(cs[k]));
        }
        assert(word_goal(d, false, cs) == Pos { line: c.line, col: l });
        assert(leads_back_over(cs, word_goal(d, false, cs).col, i, c.col));
    }
    assert(cs.len() == d.lines[c.line].len());
    assert(c.col < cs.len() ==> exists|i: int| #[trigger] leads_over(cs, c.col, i, word_goal(d, true, cs).col));
    assert(c.col > 0 ==> exists|i: int| #[trigger] leads_back_over(cs, word_goal(d, false, cs).col, i, c.col));
}

/// Whether the characters from `a` up to `b` are all of a word, or all punctuation.
pub open spec fn stretch(cs: Seq<crate::editops::CharClass>, a: int, b: int) -> bool {
    ||| forall|k: int| a <= k < b ==> (#[trigger] cs[k]).word
    ||| forall|k: int| a <= k < b ==> !(#[trigger] cs[k]).word && !cs[k].space
}

/// Whether two characters belong to no stretch in common.
pub open spec fn parted(x: crate::editops::CharClass, y: crate::editops::CharClass) -> bool {
    x.word != y.word || x.space || y.space
}

/// Whether there is white space from `a` up to `i`, and then up to `b` one stretch that
/// does not go on.
pub open spec fn leads_over(cs: Seq<crate::editops::CharClass>, a: int, i: int, b: int) -> bool {
    &&& a <= i <= b <= cs.len()
    &&& forall|k: int| a <= k < i ==> (#[trigger] cs[k]).space
    &&& stretch(cs, i, b)
    &&& i < cs.len() ==> i < b
    &&& b < cs.len() ==> parted(cs[b - 1], cs[b])
}

/// Whether there is white space from `i` up to `b`, and before it from `a` on one
/// stretch that did not begin before.
pub open spec fn leads_back_over(cs: Seq<crate::editops::CharClass>, a: int, i: int, b: int) -> bool {
    &&& 0 <= a <= i <= b
    &&& forall|k: int| i <= k < b ==> (#[trigger] cs[k]).space
    &&& stretch(cs, a, i)
    &&& i > 0 ==> a < i
    &&& a > 0 ==> parted(cs[a - 1], cs[a])
}

/// Backspace takes away the character before the caret, a line ending being one, and
/// moves the caret there; at the start of the text it takes nothing away. With a
/// selection that goes.
pub proof fn law_backspace(b: BoxV, shift: bool)
    requires
        box_wf(b),
        !b.read_only,
        !b.code_mode,
    ensures
        ({
            let d = b.doc;
            let t = whole(d);
            let o = offset(d, d.cursor);
            let e = keyed(b, "Backspace"@, shift).0.doc;
            &&& bounds(d) is Some ==> e == dropped(d).0
            &&& bounds(d) is None && o == 0 ==> e == d
            &&& bounds(d) is None && o > 0 ==> whole(e) == t.take(o - 1) + t.skip(o) && offset(e, e.cursor) == o - 1
        }),
{
    lemma_key_names();
    if bounds(b.doc) is None {
        lemma_one_back(b.doc);
    }
}

/// In code, Backspace behind nothing but white space takes away as much of it as leads
/// back to a tab stop, and one character elsewhere.
pub proof fn law_smart_backspace(b: BoxV, shift: bool, n: int)
    requires
        box_wf(b),
        !b.read_only,
        b.code_mode,
        b.doc.sel == SelV::Nothing,
        n == crate::input::keys::back_count(crate::input::keys::before_caret(b.doc)),
        offset(b.doc, b.doc.cursor) > 0,
    ensures
        ({
            let d = b.doc;
            let t = whole(d);
            let o = offset(d, d.cursor);
            let e = keyed(b, "Backspace"@, shift).0.doc;
            &&& 1 <= n <= o
            &&& whole(e) == t.take(o - n) + t.skip(o)
            &&& offset(e, e.cursor) == o - n
        }),
{
    lemma_key_names();
    let before = crate::input::keys::before_caret(b.doc);
    if before.len() > 0 && forall|i: int| 0 <= i < before.len() ==> crate::text::ws()(#[trigger] before[i]) {
        crate::input::keys::law_smart_backspace_stops_at_tab_stops(before);
        lemma_before_mono(b.doc.lines, 0, b.doc.cursor.line);
    }
    lemma_back_text(b.doc, n);
}

/// Delete at the end of a line joins the next one to it; inside a line it asks for the
/// cluster in front of the caret, and deleting that takes away exactly its columns. With
/// a selection that goes.
pub proof fn law_delete(b: BoxV, shift: bool, from: int, to: int)
    requires
        box_wf(b),
        !b.read_only,
        0 <= from <= to <= b.doc.lines[b.doc.cursor.line].len(),
    ensures
        ({
            let d = b.doc;
            let c = d.cursor;
            let t = whole(d);
            let o = offset(d, c);
            let (e, step) = keyed(b, "Delete"@, shift);
            let start = o - c.col;
            &&& bounds(d) is Some ==> e.doc == dropped(d).0 && step == KeyStep::Done
            &&& bounds(d) is None && c.col < d.lines[c.line].len() ==> e.doc == d && step == KeyStep::Cluster
            &&& bounds(d) is None && c.col == d.lines[c.line].len() ==> {
                &&& step == KeyStep::Done
                &&& o < t.len() ==> whole(e.doc) == t.take(o) + t.skip(o + 1) && e.doc.cursor == c
                &&& o == t.len() ==> e.doc == d
            }
            &&& whole(cluster_deleted(b, from, to).doc) == t.take(start + from) + t.skip(start + to)
            &&& cluster_deleted(b, from, to).doc.cursor == (Pos { line: c.line, col: from })
        }),
{
    lemma_key_names();
    let d = b.doc;
    let c = d.cursor;
    let n = d.lines.len() as int;
    lemma_text_len(d.lines, n);
    assert(d.lines.take(n) =~= d.lines);
    assert(chars_before(d.lines, c.line + 1) == chars_before(d.lines, c.line) + d.lines[c.line].len() + 1);
    if c.line + 1 < n {
        lemma_deleted_between(d, c, Pos { line: c.line + 1, col: 0 });
        lemma_before_mono(d.lines, c.line + 2, n);
        assert(chars_before(d.lines, c.line + 2) == chars_before(d.lines, c.line + 1) + d.lines[c.line + 1].len() + 1);
    }
    lemma_deleted_between(d, Pos { line: c.line, col: from }, Pos { line: c.line, col: to });
}

/// Deleting to the start of the line takes away what stands between it and the caret.
pub proof fn law_delete_to_line_start(b: BoxV, shift: bool)
    requires
        box_wf(b),
        !b.read_only,
        b.doc.sel == SelV::Nothing,
    ensures
        ({
            let d = b.doc;
            let t = whole(d);
            let o = offset(d, d.cursor);
            let e = keyed(b, "DeleteToLineStart"@, shift).0.doc;
            &&& whole(e) == t.take(o - d.cursor.col) + t.skip(o)
            &&& e.cursor == (Pos { line: d.cursor.line, col: 0 })
        }),
{
    lemma_key_names();
    lemma_deleted_between(b.doc, Pos { line: b.doc.cursor.line, col: 0 }, b.doc.cursor);
}

/// Enter breaks the line at the caret. In code the new line starts with the indentation
/// of the old one, and with one level more where a block was opened before the caret.
pub proof fn law_enter_breaks_the_line(b: BoxV, name: Seq<char>, shift: bool)
    requires
        box_wf(b),
        !b.read_only,
        name == "Return"@ || name == "KeypadEnter"@,
    ensures
        ({
            let d = b.doc;
            let (p, q) = span(d);
            let t = whole(d);
            let line = d.lines[d.cursor.line];
            let e = keyed(b, name, shift).0.doc;
            let dent = if !b.code_mode {
                Seq::<char>::empty()
            } else if opens_block(line, d.cursor.col) {
                leading(line) + seq![' ', ' ', ' ', ' ']
            } else {
                leading(line)
            };
            &&& whole(e) == t.take(offset(d, p)) + as_put(seq!['\n'] + dent) + t.skip(offset(d, q))
            &&& offset(e, e.cursor) == offset(d, p) + as_put(seq!['\n'] + dent).len()
        }),
{
    lemma_key_names();
    let d = b.doc;
    let line = d.lines[d.cursor.line];
    let dent = if !b.code_mode {
        Seq::<char>::empty()
    } else if opens_block(line, d.cursor.col) {
        leading(line) + seq![' ', ' ', ' ', ' ']
    } else {
        leading(line)
    };
    law_typing_puts_the_text_in(d, seq!['\n'] + dent);
    assert(seq!['\n'] + leading(line) + seq![' ', ' ', ' ', ' '] =~= seq!['\n'] + (leading(line) + seq![
        ' ',
        ' ',
        ' ',
        ' ',
    ]));
    assert(seq!['\n'] + leading(line) + Seq::<char>::empty() =~= seq!['\n'] + leading(line));
    assert(seq!['\n'] + Seq::<char>::empty() =~= seq!['\n']);
}

// ---------------------------------------------------------------------------
// Moving
// ---------------------------------------------------------------------------

/// Whether a box is another with the caret moved: the text and its history stay; with
/// shift the selection goes on from its anchor, or starts where the caret was, and
/// without it nothing is selected.
pub open spec fn only_moved(b: BoxV, e: BoxV, shift: bool) -> bool {
    &&& e.doc.lines == b.doc.lines && e.hist == b.hist && e.preedit == b.preedit
    &&& !shift ==> e.doc.sel == SelV::Nothing
    &&& shift && b.doc.sel == SelV::Nothing ==> e.doc.sel == SelV::Normal(b.doc.cursor)
    &&& shift && b.doc.sel != SelV::Nothing ==> e.doc.sel == b.doc.sel
}

/// The keys for the ends of the line and of the text lead there and change no text.
pub proof fn law_keys_to_the_ends(b: BoxV, shift: bool)
    requires
        box_wf(b),
    ensures
        ({
            let d = b.doc;
            let l = d.cursor.line;
            let n = d.lines.len();
            let end = Pos { line: l, col: d.lines[l].len() as int };
            &&& keyed(b, "Home"@, shift).0.doc.cursor == (Pos { line: l, col: 0 })
            &&& !b.code_mode ==> keyed(b, "LineStart"@, shift).0.doc.cursor == (Pos { line: l, col: 0 })
            &&& keyed(b, "End"@, shift).0.doc.cursor == end
            &&& keyed(b, "LineEnd"@, shift).0.doc.cursor == end
            &&& offset(d, keyed(b, "DocStart"@, shift).0.doc.cursor) == 0
            &&& offset(d, keyed(b, "DocEnd"@, shift).0.doc.cursor) == whole(d).len()
            &&& valid(d.lines, keyed(b, "DocEnd"@, shift).0.doc.cursor)
            &&& only_moved(b, keyed(b, "Home"@, shift).0, shift)
            &&& only_moved(b, keyed(b, "LineStart"@, shift).0, shift)
            &&& only_moved(b, keyed(b, "End"@, shift).0, shift)
            &&& only_moved(b, keyed(b, "LineEnd"@, shift).0, shift)
            &&& only_moved(b, keyed(b, "DocStart"@, shift).0, shift)
            &&& only_moved(b, keyed(b, "DocEnd"@, shift).0, shift)
            &&& only_moved(b, keyed(b, "WordLeft"@, shift).0, shift)
            &&& only_moved(b, keyed(b, "WordRight"@, shift).0, shift)
        }),
{
    lemma_key_names();
    let n = b.doc.lines.len() as int;
    lemma_text_len(b.doc.lines, n);
    assert(b.doc.lines.take(n) =~= b.doc.lines);
    assert(chars_before(b.doc.lines, n) == chars_before(b.doc.lines, n - 1) + b.doc.lines[n - 1].len() + 1);
    assert(chars_before(b.doc.lines, 0) == 0);
}

/// The arrow and page keys ask for the motion they are named after, and change no text.
pub proof fn law_arrows_ask_for_their_motion(b: BoxV, shift: bool)
    requires
        box_wf(b),
    ensures
        keyed(b, "LeftArrow"@, shift).1 == KeyStep::Move(Motion::Left),
        keyed(b, "RightArrow"@, shift).1 == KeyStep::Move(Motion::Right),
        keyed(b, "UpArrow"@, shift).1 == KeyStep::Move(Motion::Up),
        keyed(b, "DownArrow"@, shift).1 == KeyStep::Move(Motion::Down),
        keyed(b, "PageUp"@, shift).1 == KeyStep::Move(Motion::PageUp),
        keyed(b, "PageDown"@, shift).1 == KeyStep::Move(Motion::PageDown),
        only_moved(b, keyed(b, "LeftArrow"@, shift).0, shift),
        only_moved(b, keyed(b, "RightArrow"@, shift).0, shift),
        only_moved(b, keyed(b, "UpArrow"@, shift).0, shift),
        only_moved(b, keyed(b, "DownArrow"@, shift).0, shift),
        only_moved(b, keyed(b, "PageUp"@, shift).0, shift),
        only_moved(b, keyed(b, "PageDown"@, shift).0, shift),
{
    lemma_key_names();
}

/// In code, the key for the start of a line leads to its first character that is no
/// white space, and to the start of the line from there.
pub proof fn law_smart_home(b: BoxV, shift: bool, k: int)
    requires
        box_wf(b),
        b.code_mode,
        0 <= k < b.doc.lines[b.doc.cursor.line].len(),
        forall|i: int| 0 <= i < k ==> ((#[trigger] b.doc.lines[b.doc.cursor.line][i]) == ' '
            || b.doc.lines[b.doc.cursor.line][i] == '\t'),
        !crate::text::white_space(b.doc.lines[b.doc.cursor.line][k]),
    ensures
        ({
            let c = b.doc.cursor;
            let to = keyed(b, "LineStart"@, shift).0.doc.cursor;
            &&& to.line == c.line
            &&& c.col != k ==> to.col == k
            &&& c.col == k ==> to.col == 0
        }),
{
    lemma_key_names();
    let line = b.doc.lines[b.doc.cursor.line];
    assert forall|i: int| 0 <= i < k implies crate::editops::blank()(#[trigger] line[i]) by {}
    assert forall|i: int| 0 <= i < k implies crate::text::ws()(#[trigger] line[i]) by {
        assert(line[i] == ' ' || line[i] == '\t');
    }
    assert(!crate::editops::blank()(line[k]));
    crate::text::lemma_run(line, crate::editops::blank(), k as nat);
    crate::text::lemma_run(line, crate::text::ws(), k as nat);
}

/// A click places the caret and selects nothing; a drag moves it and selects from where
/// the selection began; a double click selects the token it hits and a triple click the
/// line. The text stays.
pub proof fn law_pointer(d: DocV, p: Pos)
    requires
        doc_wf(d),
        valid(d.lines, p),
    ensures
        pointed(d, 0, Some(p)) == (DocV { cursor: p, sel: SelV::Nothing, ..d }),
        ({
            let e = pointed(d, 1, Some(p));
            &&& e.lines == d.lines && e.cursor == p
            &&& d.sel == SelV::Nothing ==> e.sel == SelV::Normal(d.cursor)
            &&& d.sel != SelV::Nothing ==> e.sel == d.sel
        }),
        ({
            let e = pointed(d, 2, Some(p));
            let (s, t) = token_at(classes(d.lines[p.line]), p.col);
            &&& e.lines == d.lines
            &&& e.sel == SelV::Normal(Pos { line: p.line, col: s }) && e.cursor == (Pos { line: p.line, col: t })
            &&& p.col < d.lines[p.line].len() ==> s <= p.col < t
        }),
        ({
            let e = pointed(d, 3, Some(p));
            &&& e.lines == d.lines && e.cursor == p
            &&& bounds(e) == Some(
                (Pos { line: p.line, col: 0 }, Pos { line: p.line, col: d.lines[p.line].len() as int }),
            )
        }),
{
    law_word_motion_progress(classes(d.lines[p.line]), p.col);
}

/// Going to a line places the caret at its start, or at that of the last line, and
/// selects nothing.
pub proof fn law_going_to_a_line(b: BoxV, line: int)
    requires
        box_wf(b),
        line >= 0,
    ensures
        ({
            let e = gone_to(b, line).doc;
            &&& e.lines == b.doc.lines && e.sel == SelV::Nothing && e.cursor.col == 0
            &&& line < b.doc.lines.len() ==> e.cursor.line == line
            &&& line >= b.doc.lines.len() ==> e.cursor.line == b.doc.lines.len() - 1
        }),
{
}

/// A match that was found is what is selected, the caret at its end.
pub proof fn law_found_match_is_selected(d: DocV, from: int, to: int)
    requires
        doc_wf(d),
        0 <= from <= to <= whole(d).len(),
    ensures
        ({
            let e = match_selected(d, from, to);
            &&& e.lines == d.lines
            &&& doc_wf(e)
            &&& offset(e, e.cursor) == to
            &&& selected_text(e) == Some(whole(d).subrange(from, to))
        }),
{
    let e = match_selected(d, from, to);
    lemma_at(d.lines, from, 0);
    lemma_at(d.lines, to, 0);
    assert(chars_before(d.lines, 0) == 0);
    let a = at_offset(d.lines, from, 0);
    let b = at_offset(d.lines, to, 0);
    if up_to(b, a) {
        lemma_order(d.lines, b, a);
    } else {
        lemma_order(d.lines, a, b);
    }
    law_selection_is_what_lies_between(e);
}

proof fn lemma_at(ls: Seq<Seq<char>>, off: int, l: int)
    requires
        0 <= l < ls.len(),
        0 <= off <= join(ls, '\n').len() - chars_before(ls, l),
    ensures
        valid(ls, at_offset(ls, off, l)),
        doc_offset(ls, at_offset(ls, off, l)) == chars_before(ls, l) + off,
    decreases ls.len() - l,
{
    let n = ls.len() as int;
    lemma_text_len(ls, n);
    assert(ls.take(n) =~= ls);
    assert(chars_before(ls, l + 1) == chars_before(ls, l) + ls[l].len() + 1);
    if off > ls[l].len() && l + 1 < n {
        lemma_at(ls, off - ls[l].len() - 1, l + 1);
    }
}

/// A search starts behind the selection when it goes on, and before it when it goes
/// back.
pub proof fn law_search_starts_at_the_selection(d: DocV)
    requires
        doc_wf(d),
    ensures
        bounds(d) is None ==> search_from(d, true) == offset(d, d.cursor) && search_from(d, false) == offset(
            d,
            d.cursor,
        ),
        bounds(d) matches Some((a, b)) ==> {
            &&& search_from(d, true) == offset(d, b)
            &&& search_from(d, false) == offset(d, a)
            &&& search_from(d, false) <= search_from(d, true)
        },
{
    lemma_bounds(d);
    if let Some((a, b)) = bounds(d) {
        lemma_order(d.lines, a, b);
    }
}

} // verus!

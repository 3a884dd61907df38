//! A text document as lines, with a caret and a selection: cutting a range out,
//! putting text in, and what undoes which.
//!
//! Positions count characters within a line.

use vstd::prelude::*;
use vstd::string::StringExecFns;

use crate::text::{chars, from_range, join, join_strs, lemma_run, lemma_run_is, run, texts};

verus! {

// ---------------------------------------------------------------------------
// Positions
// ---------------------------------------------------------------------------

/// A position in a document: a line, and a character column in it.
#[derive(Clone, Copy, PartialEq, Eq, Structural, Debug)]
pub struct Cursor {
    pub line: usize,
    pub col: usize,
}

/// A position in a document.
pub ghost struct Pos {
    pub line: int,
    pub col: int,
}

impl View for Cursor {
    type V = Pos;

    open spec fn view(&self) -> Pos {
        Pos { line: self.line as int, col: self.col as int }
    }
}

/// Whether a position lies in a document.
pub open spec fn valid(ls: Seq<Seq<char>>, p: Pos) -> bool {
    0 <= p.line < ls.len() && 0 <= p.col <= ls[p.line].len()
}

/// Whether a position is not behind another.
pub open spec fn up_to(a: Pos, b: Pos) -> bool {
    a.line < b.line || (a.line == b.line && a.col <= b.col)
}

/// A selection: none, from an anchor to the caret, or the whole lines between them.
#[derive(Clone, Copy, PartialEq, Eq, Structural, Debug)]
pub enum Selection {
    Nothing,
    Normal(Cursor),
    Line(Cursor),
}

/// A selection.
pub ghost enum SelV {
    Nothing,
    Normal(Pos),
    Line(Pos),
}

impl View for Selection {
    type V = SelV;

    open spec fn view(&self) -> SelV {
        match *self {
            Selection::Nothing => SelV::Nothing,
            Selection::Normal(c) => SelV::Normal(c@),
            Selection::Line(c) => SelV::Line(c@),
        }
    }
}

// ---------------------------------------------------------------------------
// Lines
// ---------------------------------------------------------------------------

/// Whether a character ends a line.
pub open spec fn is_break(c: char) -> bool {
    c == '\n' || c == '\r'
}

/// Not the end of a line.
pub open spec fn not_break() -> spec_fn(char) -> bool {
    |c: char| !is_break(c)
}

/// How long the line ending is that a text starts with.
pub open spec fn ending(s: Seq<char>) -> int {
    if s.len() >= 2 && is_break(s[1]) && s[0] != s[1] {
        2
    } else {
        1
    }
}

/// The lines of a text: the pieces between its line endings. Every pair of a
/// carriage return and a line feed is one ending.
pub open spec fn pieces(s: Seq<char>) -> Seq<Seq<char>>
    decreases s.len(),
{
    let n = run(s, not_break()) as int;
    if n >= s.len() {
        seq![s]
    } else {
        seq![s.take(n)] + pieces(s.skip(n + ending(s.skip(n))))
    }
}

/// Whether a line holds no line ending.
pub open spec fn flat(s: Seq<char>) -> bool {
    forall|i: int| 0 <= i < s.len() ==> !is_break(#[trigger] s[i])
}

/// Whether no line holds a line ending.
pub open spec fn all_flat(ls: Seq<Seq<char>>) -> bool {
    forall|i: int| 0 <= i < ls.len() ==> flat(#[trigger] ls[i])
}

/// The pieces of a text hold no line endings, and there is at least one.
pub proof fn lemma_pieces_flat(s: Seq<char>)
    ensures
        pieces(s).len() > 0,
        all_flat(pieces(s)),
    decreases s.len(),
{
    let n = run(s, not_break()) as int;
    lemma_run_is(s, not_break());
    let ps = pieces(s);
    if n < s.len() {
        let rest = s.skip(n + ending(s.skip(n)));
        lemma_pieces_flat(rest);
        let h = s.take(n);
        assert(flat(h)) by {
            assert forall|i: int| 0 <= i < h.len() implies !is_break(#[trigger] h[i]) by {
                assert(not_break()(s[i]));
            }
        }
        assert forall|i: int| 0 <= i < ps.len() implies flat(#[trigger] ps[i]) by {
            if i == 0 {
                assert(ps[0] == h);
            } else {
                assert(ps[i] == pieces(rest)[i - 1]);
            }
        }
    } else {
        assert(flat(s)) by {
            assert forall|i: int| 0 <= i < s.len() implies !is_break(#[trigger] s[i]) by {
                assert(not_break()(s[i]));
            }
        }
    }
}

/// A text without line endings is one piece.
pub proof fn lemma_pieces_of_flat(s: Seq<char>)
    requires
        flat(s),
    ensures
        pieces(s) == seq![s],
{
    assert forall|k: int| 0 <= k < s.len() implies not_break()(#[trigger] s[k]) by {}
    lemma_run(s, not_break(), s.len());
}

/// Lines joined by line feeds are the pieces of what was joined.
pub proof fn law_pieces_of_joined(ls: Seq<Seq<char>>)
    requires
        ls.len() > 0,
        all_flat(ls),
    ensures
        pieces(join(ls, '\n')) == ls,
    decreases ls.len(),
{
    let t = join(ls, '\n');
    if ls.len() == 1 {
        lemma_pieces_of_flat(ls[0]);
        assert(ls =~= seq![ls[0]]);
    } else {
        let h = ls[0];
        let rest = ls.skip(1);
        let r = join(rest, '\n');
        assert(all_flat(rest)) by {
            assert forall|i: int| 0 <= i < rest.len() implies flat(#[trigger] rest[i]) by {
                assert(rest[i] == ls[i + 1]);
            }
        }
        law_pieces_of_joined(rest);
        assert(t == h.push('\n') + r);
        let n = h.len() as int;
        assert forall|k: int| 0 <= k < n implies not_break()(#[trigger] t[k]) by {
            assert(t[k] == h[k]);
        }
        assert(t[n] == '\n');
        lemma_run(t, not_break(), n as nat);
        let u = t.skip(n);
        assert(ending(u) == 1) by {
            if u.len() >= 2 {
                assert(u[1] == r[0]);
                assert(r[0] != '\r') by {
                    lemma_joined_no_return(rest);
                }
            }
        }
        assert(t.skip(n + 1) =~= r);
        assert(t.take(n) =~= h);
        assert(seq![h] + rest =~= ls);
    }
}

/// Lines joined by line feeds hold no carriage return.
proof fn lemma_joined_no_return(ls: Seq<Seq<char>>)
    requires
        all_flat(ls),
    ensures
        forall|i: int| 0 <= i < join(ls, '\n').len() ==> #[trigger] join(ls, '\n')[i] != '\r',
    decreases ls.len(),
{
    let t = join(ls, '\n');
    if ls.len() == 1 {
        assert forall|i: int| 0 <= i < t.len() implies #[trigger] t[i] != '\r' by {
            assert(flat(ls[0]));
            assert(!is_break(ls[0][i]));
        }
    } else if ls.len() > 1 {
        let rest = ls.skip(1);
        assert(all_flat(rest)) by {
            assert forall|i: int| 0 <= i < rest.len() implies flat(#[trigger] rest[i]) by {
                assert(rest[i] == ls[i + 1]);
            }
        }
        lemma_joined_no_return(rest);
        let r = join(rest, '\n');
        assert forall|i: int| 0 <= i < t.len() implies #[trigger] t[i] != '\r' by {
            assert(flat(ls[0]));
            if i < ls[0].len() {
                assert(t[i] == ls[0][i]);
                assert(!is_break(ls[0][i]));
            } else if i > ls[0].len() {
                assert(t[i] == r[i - ls[0].len() - 1]);
            }
        }
    }
}

/// Split a text into its lines.
pub fn split_lines(s: &str) -> (r: Vec<String>)
    ensures
        texts(r@) == pieces(s@),
        r@.len() > 0,
{
    let v = chars(s);
    let n: usize = v.len();
    let mut out: Vec<String> = Vec::new();
    let mut start: usize = 0;
    let mut i: usize = 0;
    assert(v@.skip(0) =~= v@);
    assert(texts(out@) =~= Seq::empty());
    assert(Seq::<Seq<char>>::empty() + pieces(s@) =~= pieces(s@));
    while i < n
        invariant
            v@ == s@,
            start <= i <= n == v@.len(),
            texts(out@) + pieces(v@.skip(start as int)) == pieces(s@),
            forall|k: int| 0 <= k < i - start ==> not_break()(#[trigger] v@.skip(start as int)[k]),
        decreases n - i,
    {
        let ghost t = v@.skip(start as int);
        assert(t[i - start] == v@[i as int]);
        if v[i] == '\n' || v[i] == '\r' {
            proof {
                lemma_run(t, not_break(), (i - start) as nat);
            }
            let ghost u = t.skip(i - start);
            assert(u[0] == v@[i as int]);
            if i + 1 < n {
                assert(u[1] == v@[i + 1]);
            }
            let step: usize = if i + 1 < n && (v[i + 1] == '\n' || v[i + 1] == '\r') && v[i + 1] != v[i] {
                2
            } else {
                1
            };
            assert(step == ending(u));
            let p = from_range(&v, start, i);
            assert(p@ =~= t.take(i - start));
            let ghost before = texts(out@);
            let ghost rest = pieces(t.skip(i - start + ending(u)));
            out.push(p);
            assert(texts(out@) =~= before.push(p@));
            assert(before.push(p@) + rest =~= before + (seq![p@] + rest));
            assert(v@.skip(i + step) =~= t.skip(i - start + ending(u)));
            i = i + step;
            start = i;
        } else {
            i = i + 1;
        }
    }
    let ghost t = v@.skip(start as int);
    proof {
        lemma_run(t, not_break(), (n - start) as nat);
    }
    let p = from_range(&v, start, n);
    assert(p@ =~= t);
    let ghost before = texts(out@);
    out.push(p);
    assert(texts(out@) =~= before.push(p@));
    assert(before.push(p@) =~= before + seq![p@]);
    out
}

// ---------------------------------------------------------------------------
// Cutting and putting
// ---------------------------------------------------------------------------

/// The lines without what lies between two positions.
pub open spec fn removed(ls: Seq<Seq<char>>, a: Pos, b: Pos) -> Seq<Seq<char>> {
    ls.take(a.line) + seq![ls[a.line].take(a.col) + ls[b.line].skip(b.col)] + ls.skip(b.line + 1)
}

/// What lies between two positions, line by line.
pub open spec fn cut(ls: Seq<Seq<char>>, a: Pos, b: Pos) -> Seq<Seq<char>> {
    if a.line == b.line {
        seq![ls[a.line].subrange(a.col, b.col)]
    } else {
        seq![ls[a.line].skip(a.col)] + ls.subrange(a.line + 1, b.line) + seq![ls[b.line].take(b.col)]
    }
}

/// The lines with pieces put in at a position, the first and the last joined to
/// what stands before and behind it.
pub open spec fn inserted(ls: Seq<Seq<char>>, p: Pos, ps: Seq<Seq<char>>) -> Seq<Seq<char>> {
    let before = ls[p.line].take(p.col);
    let behind = ls[p.line].skip(p.col);
    if ps.len() == 1 {
        ls.take(p.line) + seq![before + ps[0] + behind] + ls.skip(p.line + 1)
    } else {
        ls.take(p.line) + seq![before + ps[0]] + ps.subrange(1, ps.len() - 1) + seq![ps.last() + behind] + ls.skip(
            p.line + 1,
        )
    }
}

/// Where the pieces end that were put in at a position.
pub open spec fn behind(p: Pos, ps: Seq<Seq<char>>) -> Pos {
    if ps.len() == 1 {
        Pos { line: p.line, col: p.col + ps[0].len() }
    } else {
        Pos { line: p.line + ps.len() - 1, col: ps.last().len() as int }
    }
}

/// Positions after putting pieces in.
pub proof fn lemma_behind(ls: Seq<Seq<char>>, p: Pos, ps: Seq<Seq<char>>)
    requires
        valid(ls, p),
        ps.len() > 0,
    ensures
        valid(inserted(ls, p, ps), p),
        valid(inserted(ls, p, ps), behind(p, ps)),
        up_to(p, behind(p, ps)),
        inserted(ls, p, ps).len() == ls.len() + ps.len() - 1,
{
    let r = inserted(ls, p, ps);
    let n = ps.len() as int;
    let before = ls[p.line].take(p.col);
    let tail = ls[p.line].skip(p.col);
    if n == 1 {
        assert(r[p.line] == before + ps[0] + tail);
    } else {
        assert(r[p.line] == before + ps[0]);
        assert(r[p.line + n - 1] == ps.last() + tail);
    }
}

/// Cutting out what was put in restores the lines, and gives the pieces back.
pub proof fn law_cut_undoes_put(ls: Seq<Seq<char>>, p: Pos, ps: Seq<Seq<char>>)
    requires
        valid(ls, p),
        ps.len() > 0,
    ensures
        removed(inserted(ls, p, ps), p, behind(p, ps)) == ls,
        cut(inserted(ls, p, ps), p, behind(p, ps)) == ps,
{
    let r = inserted(ls, p, ps);
    let e = behind(p, ps);
    let n = ps.len() as int;
    let before = ls[p.line].take(p.col);
    let tail = ls[p.line].skip(p.col);
    lemma_behind(ls, p, ps);
    assert(before + tail =~= ls[p.line]);
    if n == 1 {
        let m = before + ps[0] + tail;
        assert(r[p.line] == m);
        assert(m.take(p.col) =~= before);
        assert(m.skip(p.col + ps[0].len()) =~= tail);
        assert(m.subrange(p.col, p.col + ps[0].len()) =~= ps[0]);
        assert(r.take(p.line) =~= ls.take(p.line));
        assert(r.skip(p.line + 1) =~= ls.skip(p.line + 1));
        assert(removed(r, p, e) =~= ls);
        assert(cut(r, p, e) =~= ps);
    } else {
        let f = before + ps[0];
        let l = ps.last() + tail;
        assert(r[p.line] == f);
        assert(r[p.line + n - 1] == l);
        assert(f.take(p.col) =~= before);
        assert(f.skip(p.col) =~= ps[0]);
        assert(l.skip(ps.last().len() as int) =~= tail);
        assert(l.take(ps.last().len() as int) =~= ps.last());
        assert(r.take(p.line) =~= ls.take(p.line));
        assert(r.skip(p.line + n) =~= ls.skip(p.line + 1));
        assert(removed(r, p, e) =~= ls);
        assert(r.subrange(p.line + 1, p.line + n - 1) =~= ps.subrange(1, n - 1));
        assert(cut(r, p, e) =~= ps);
    }
}

/// Putting back what was cut out restores the lines, and ends where the cut ended.
pub proof fn law_put_undoes_cut(ls: Seq<Seq<char>>, a: Pos, b: Pos)
    requires
        valid(ls, a),
        valid(ls, b),
        up_to(a, b),
    ensures
        cut(ls, a, b).len() > 0,
        valid(removed(ls, a, b), a),
        inserted(removed(ls, a, b), a, cut(ls, a, b)) == ls,
        behind(a, cut(ls, a, b)) == b,
{
    let r = removed(ls, a, b);
    let ps = cut(ls, a, b);
    let m = ls[a.line].take(a.col) + ls[b.line].skip(b.col);
    assert(r[a.line] == m);
    assert(m.take(a.col) =~= ls[a.line].take(a.col));
    assert(m.skip(a.col) =~= ls[b.line].skip(b.col));
    assert(r.take(a.line) =~= ls.take(a.line));
    assert(r.skip(a.line + 1) =~= ls.skip(b.line + 1));
    if a.line == b.line {
        assert(m.take(a.col) + ps[0] + m.skip(a.col) =~= ls[a.line]);
        assert(inserted(r, a, ps) =~= ls);
    } else {
        let n = ps.len() as int;
        assert(n == b.line - a.line + 1);
        assert(m.take(a.col) + ps[0] =~= ls[a.line]);
        assert(ps.last() == ls[b.line].take(b.col));
        assert(ps.last() + m.skip(a.col) =~= ls[b.line]);
        assert(ps.subrange(1, n - 1) =~= ls.subrange(a.line + 1, b.line));
        assert(inserted(r, a, ps) =~= ls);
    }
}

/// Neither cutting nor putting flat pieces makes a line hold a line ending.
pub proof fn lemma_flat_kept(ls: Seq<Seq<char>>, a: Pos, b: Pos, ps: Seq<Seq<char>>)
    requires
        all_flat(ls),
        valid(ls, a),
        valid(ls, b),
        up_to(a, b),
        ps.len() > 0,
        all_flat(ps),
    ensures
        all_flat(removed(ls, a, b)),
        all_flat(cut(ls, a, b)),
        all_flat(inserted(ls, a, ps)),
{
    let r = removed(ls, a, b);
    assert(flat(ls[a.line]) && flat(ls[b.line]));
    assert forall|i: int| 0 <= i < r.len() implies flat(#[trigger] r[i]) by {
        if i < a.line {
            assert(r[i] == ls[i]);
        } else if i > a.line {
            assert(r[i] == ls[i - a.line + b.line]);
        } else {
            assert forall|k: int| 0 <= k < r[i].len() implies !is_break(#[trigger] r[i][k]) by {
                if k < a.col {
                    assert(r[i][k] == ls[a.line][k]);
                } else {
                    assert(r[i][k] == ls[b.line][k - a.col + b.col]);
                }
            }
        }
    }
    let c = cut(ls, a, b);
    assert forall|i: int| 0 <= i < c.len() implies flat(#[trigger] c[i]) by {
        assert forall|k: int| 0 <= k < c[i].len() implies !is_break(#[trigger] c[i][k]) by {
            if i == 0 {
                assert(c[i][k] == ls[a.line][a.col + k]);
            } else {
                assert(c[i][k] == ls[a.line + i][k]);
                assert(flat(ls[a.line + i]));
            }
        }
    }
    let t = inserted(ls, a, ps);
    let n = ps.len() as int;
    lemma_behind(ls, a, ps);
    assert forall|i: int| 0 <= i < t.len() implies flat(#[trigger] t[i]) by {
        assert(flat(ps[0]) && flat(ps.last()));
        if i < a.line {
            assert(t[i] == ls[i]);
        } else if i >= a.line + n {
            assert(t[i] == ls[i - n + 1]);
        } else if a.line < i < a.line + n - 1 {
            assert(t[i] == ps[i - a.line]);
        } else {
            assert forall|k: int| 0 <= k < t[i].len() implies !is_break(#[trigger] t[i][k]) by {
                let d = ls[a.line];
                if i == a.line && k < a.col {
                    assert(t[i][k] == d[k]);
                } else if i == a.line && k < a.col + ps[0].len() {
                    assert(t[i][k] == ps[0][k - a.col]);
                } else if i == a.line {
                    assert(t[i][k] == d[k - ps[0].len()]);
                } else if k < ps.last().len() {
                    assert(t[i][k] == ps.last()[k]);
                } else {
                    assert(t[i][k] == d[k - ps.last().len() + a.col]);
                }
            }
        }
    }
}

fn concat2(v: &Vec<char>, to: usize, mid: &str, w: &Vec<char>, from: usize) -> (r: String)
    requires
        to <= v@.len(),
        from <= w@.len(),
    ensures
        r@ == v@.take(to as int) + mid@ + w@.skip(from as int),
{
    let mut s = from_range(v, 0, to);
    let t = from_range(w, from, w.len());
    s.append(mid);
    s.append(t.as_str());
    assert(s@ =~= v@.take(to as int) + mid@ + w@.skip(from as int));
    s
}

fn remove_range(lines: &mut Vec<String>, a: Cursor, b: Cursor)
    requires
        valid(texts(old(lines)@), a@),
        valid(texts(old(lines)@), b@),
        up_to(a@, b@),
    ensures
        texts(final(lines)@) == removed(texts(old(lines)@), a@, b@),
{
    let ghost ls = texts(lines@);
    let v = chars(lines[a.line].as_str());
    let w = chars(lines[b.line].as_str());
    let m = concat2(&v, a.col, "", &w, b.col);
    proof {
        reveal_strlit("");
    }
    assert(m@ =~= ls[a.line as int].take(a.col as int) + ls[b.line as int].skip(b.col as int));
    let n: usize = lines.len();
    assert(b.line < n);
    let mut tail = lines.split_off(b.line + 1);
    lines.truncate(a.line);
    lines.push(m);
    lines.append(&mut tail);
    assert(texts(lines@) =~= removed(ls, a@, b@));
}

fn insert_pieces(lines: &mut Vec<String>, p: Cursor, ps: &Vec<String>)
    requires
        valid(texts(old(lines)@), p@),
        ps@.len() > 0,
    ensures
        texts(final(lines)@) == inserted(texts(old(lines)@), p@, texts(ps@)),
{
    let ghost ls = texts(lines@);
    let ghost qs = texts(ps@);
    let v = chars(lines[p.line].as_str());
    let n: usize = ps.len();
    let m: usize = lines.len();
    assert(p.line < m);
    let mut tail = lines.split_off(p.line + 1);
    lines.truncate(p.line);
    assert(texts(lines@) =~= ls.take(p.line as int));
    assert(texts(tail@) =~= ls.skip(p.line + 1));
    if n == 1 {
        let m = concat2(&v, p.col, ps[0].as_str(), &v, p.col);
        lines.push(m);
        lines.append(&mut tail);
        assert(texts(lines@) =~= inserted(ls, p@, qs));
    } else {
        let mut f = from_range(&v, 0, p.col);
        f.append(ps[0].as_str());
        assert(f@ =~= v@.take(p.col as int) + qs[0]);
        lines.push(f);
        let ghost base = texts(lines@);
        assert(base =~= ls.take(p.line as int) + seq![f@]);
        let mut i: usize = 1;
        while i < n - 1
            invariant
                1 <= i <= n - 1,
                n == ps@.len(),
                qs == texts(ps@),
                texts(lines@) == base + qs.subrange(1, i as int),
            decreases n - i,
        {
            let ghost b0 = texts(lines@);
            lines.push(ps[i].clone());
            assert(texts(lines@) =~= b0.push(qs[i as int]));
            i = i + 1;
            assert(texts(lines@) =~= base + qs.subrange(1, i as int));
        }
        let mut l = ps[n - 1].clone();
        let t = from_range(&v, p.col, v.len());
        l.append(t.as_str());
        assert(l@ =~= qs.last() + v@.skip(p.col as int));
        let ghost b1 = texts(lines@);
        lines.push(l);
        assert(texts(lines@) =~= b1.push(l@));
        let ghost b2 = texts(lines@);
        let ghost t2 = texts(tail@);
        lines.append(&mut tail);
        assert(texts(lines@) =~= b2 + t2);
        assert(texts(lines@) =~= inserted(ls, p@, qs));
    }
}

fn cut_range(lines: &Vec<String>, a: Cursor, b: Cursor) -> (r: Vec<String>)
    requires
        valid(texts(lines@), a@),
        valid(texts(lines@), b@),
        up_to(a@, b@),
    ensures
        texts(r@) == cut(texts(lines@), a@, b@),
        r@.len() > 0,
{
    let ghost ls = texts(lines@);
    let v = chars(lines[a.line].as_str());
    let mut out: Vec<String> = Vec::new();
    if a.line == b.line {
        out.push(from_range(&v, a.col, b.col));
        assert(texts(out@) =~= cut(ls, a@, b@));
        return out;
    }
    let f = from_range(&v, a.col, v.len());
    out.push(f);
    let ghost base = texts(out@);
    assert(base =~= seq![ls[a.line as int].skip(a.col as int)]);
    let mut i: usize = a.line + 1;
    assert(base =~= base + ls.subrange(a.line + 1, a.line + 1));
    while i < b.line
        invariant
            a.line + 1 <= i <= b.line < lines@.len(),
            ls == texts(lines@),
            texts(out@) == base + ls.subrange(a.line + 1, i as int),
        decreases b.line - i,
    {
        let ghost b0 = texts(out@);
        out.push(lines[i].clone());
        assert(texts(out@) =~= b0.push(ls[i as int]));
        i = i + 1;
        assert(texts(out@) =~= base + ls.subrange(a.line + 1, i as int));
    }
    let w = chars(lines[b.line].as_str());
    let l = from_range(&w, 0, b.col);
    let ghost b1 = texts(out@);
    out.push(l);
    assert(texts(out@) =~= b1.push(l@));
    assert(texts(out@) =~= cut(ls, a@, b@));
    out
}

// ---------------------------------------------------------------------------
// Changes
// ---------------------------------------------------------------------------

/// One step of a change: text put in or cut out between two positions.
pub struct Item {
    pub start: Cursor,
    pub end: Cursor,
    pub text: String,
    pub insert: bool,
}

/// One step of a change.
#[verifier::ext_equal]
pub ghost struct ItemV {
    pub start: Pos,
    pub end: Pos,
    pub text: Seq<char>,
    pub insert: bool,
}

impl View for Item {
    type V = ItemV;

    open spec fn view(&self) -> ItemV {
        ItemV { start: self.start@, end: self.end@, text: self.text@, insert: self.insert }
    }
}

/// The steps of a sequence.
pub open spec fn items_v(v: Seq<Item>) -> Seq<ItemV> {
    Seq::new(v.len(), |i: int| v[i]@)
}

/// The lines after a step.
pub open spec fn stepped(ls: Seq<Seq<char>>, it: ItemV) -> Seq<Seq<char>> {
    if it.insert {
        inserted(ls, it.start, pieces(it.text))
    } else {
        removed(ls, it.start, it.end)
    }
}

/// Whether a step can be taken on these lines, and says what it does to them.
pub open spec fn fits(ls: Seq<Seq<char>>, it: ItemV) -> bool {
    &&& valid(ls, it.start)
    &&& if it.insert {
        it.end == behind(it.start, pieces(it.text))
    } else {
        valid(ls, it.end) && up_to(it.start, it.end) && pieces(it.text) == cut(ls, it.start, it.end)
    }
}

/// The step that undoes a step.
pub open spec fn flipped(it: ItemV) -> ItemV {
    ItemV { insert: !it.insert, ..it }
}

/// A step and the step that undoes it leave the lines as they were.
pub proof fn law_flip_undoes(ls: Seq<Seq<char>>, it: ItemV)
    requires
        fits(ls, it),
    ensures
        fits(stepped(ls, it), flipped(it)),
        stepped(stepped(ls, it), flipped(it)) == ls,
{
    lemma_pieces_flat(it.text);
    if it.insert {
        law_cut_undoes_put(ls, it.start, pieces(it.text));
        lemma_behind(ls, it.start, pieces(it.text));
    } else {
        law_put_undoes_cut(ls, it.start, it.end);
    }
}

/// The lines after the steps from the `i`-th on.
pub open spec fn replayed(ls: Seq<Seq<char>>, its: Seq<ItemV>, i: int) -> Seq<Seq<char>>
    decreases its.len() - i,
{
    if i < 0 || i >= its.len() {
        ls
    } else {
        replayed(stepped(ls, its[i]), its, i + 1)
    }
}

/// Whether the steps from the `i`-th on can be taken one after the other.
pub open spec fn all_fit(ls: Seq<Seq<char>>, its: Seq<ItemV>, i: int) -> bool
    decreases its.len() - i,
{
    if i < 0 || i >= its.len() {
        true
    } else {
        fits(ls, its[i]) && all_fit(stepped(ls, its[i]), its, i + 1)
    }
}

/// The change that undoes a change: its steps from the last to the first, each
/// the other way.
pub open spec fn reversed(its: Seq<ItemV>) -> Seq<ItemV> {
    Seq::new(its.len(), |i: int| flipped(its[its.len() - 1 - i]))
}

/// Undoing what undoes a change is the change.
pub proof fn lemma_reversed_twice(its: Seq<ItemV>)
    ensures
        reversed(reversed(its)) == its,
{
    assert(reversed(reversed(its)) =~= its);
}

proof fn lemma_replay_suffix(ls: Seq<Seq<char>>, a: Seq<ItemV>, b: Seq<ItemV>, i: int, j: int)
    requires
        0 <= i <= a.len(),
        0 <= j <= b.len(),
        a.skip(i) == b.skip(j),
    ensures
        replayed(ls, a, i) == replayed(ls, b, j),
        all_fit(ls, a, i) == all_fit(ls, b, j),
    decreases a.len() - i,
{
    let s = a.skip(i);
    let t = b.skip(j);
    assert(s.len() == a.len() - i);
    assert(t.len() == b.len() - j);
    if i < a.len() {
        assert(s[0] == a[i]);
        assert(t[0] == b[j]);
        assert(a.skip(i + 1) =~= a.skip(i).skip(1));
        assert(b.skip(j + 1) =~= b.skip(j).skip(1));
        lemma_replay_suffix(stepped(ls, a[i]), a, b, i + 1, j + 1);
    }
}

/// Steps taken after other steps.
pub proof fn lemma_replay_concat(ls: Seq<Seq<char>>, a: Seq<ItemV>, b: Seq<ItemV>, i: int)
    requires
        0 <= i <= a.len(),
    ensures
        replayed(ls, a + b, i) == replayed(replayed(ls, a, i), b, 0),
        all_fit(ls, a + b, i) == (all_fit(ls, a, i) && all_fit(replayed(ls, a, i), b, 0)),
    decreases a.len() - i,
{
    if i < a.len() {
        assert((a + b)[i] == a[i]);
        lemma_replay_concat(stepped(ls, a[i]), a, b, i + 1);
    } else {
        assert((a + b).skip(i) =~= b.skip(0));
        lemma_replay_suffix(ls, a + b, b, i, 0);
    }
}

/// A change and the change that undoes it leave the lines as they were.
pub proof fn law_reverse_undoes(ls: Seq<Seq<char>>, its: Seq<ItemV>)
    requires
        all_fit(ls, its, 0),
    ensures
        all_fit(replayed(ls, its, 0), reversed(its), 0),
        replayed(replayed(ls, its, 0), reversed(its), 0) == ls,
    decreases its.len(),
{
    let end = replayed(ls, its, 0);
    if its.len() > 0 {
        let head = its.drop_last();
        let last = its.last();
        assert(its =~= head + seq![last]);
        lemma_replay_concat(ls, head, seq![last], 0);
        let mid = replayed(ls, head, 0);
        reveal_with_fuel(replayed, 3);
        reveal_with_fuel(all_fit, 3);
        assert(end == stepped(mid, last));
        assert(fits(mid, last));
        law_flip_undoes(mid, last);
        law_reverse_undoes(ls, head);
        let back = reversed(its);
        assert(back =~= seq![flipped(last)] + reversed(head));
        lemma_replay_concat(end, seq![flipped(last)], reversed(head), 0);
        assert(replayed(end, seq![flipped(last)], 0) == mid);
    }
}

/// The lines of a document stay flat through steps that fit.
pub proof fn lemma_replay_flat(ls: Seq<Seq<char>>, its: Seq<ItemV>, i: int)
    requires
        0 <= i <= its.len(),
        all_fit(ls, its, i),
        all_flat(ls),
        ls.len() > 0,
    ensures
        all_flat(replayed(ls, its, i)),
        replayed(ls, its, i).len() > 0,
    decreases its.len() - i,
{
    if i < its.len() {
        let it = its[i];
        lemma_pieces_flat(it.text);
        if it.insert {
            lemma_flat_kept(ls, it.start, it.start, pieces(it.text));
            lemma_behind(ls, it.start, pieces(it.text));
        } else {
            lemma_flat_kept(ls, it.start, it.end, pieces(it.text));
        }
        lemma_replay_flat(stepped(ls, it), its, i + 1);
    }
}

// ---------------------------------------------------------------------------
// The document
// ---------------------------------------------------------------------------

/// A document: its lines, the caret, and the selection.
#[verifier::ext_equal]
pub ghost struct DocV {
    pub lines: Seq<Seq<char>>,
    pub cursor: Pos,
    pub sel: SelV,
}

/// The anchor of a selection.
pub open spec fn anchor(sel: SelV) -> Option<Pos> {
    match sel {
        SelV::Nothing => None,
        SelV::Normal(p) => Some(p),
        SelV::Line(p) => Some(p),
    }
}

/// Whether a document is sound: there is a line, no line holds a line ending, and
/// the caret and the anchor lie in it.
pub open spec fn doc_wf(d: DocV) -> bool {
    &&& d.lines.len() > 0
    &&& all_flat(d.lines)
    &&& valid(d.lines, d.cursor)
    &&& anchor(d.sel) is Some ==> valid(d.lines, anchor(d.sel)->0)
}

/// What a selection spans.
pub open spec fn bounds(d: DocV) -> Option<(Pos, Pos)> {
    match d.sel {
        SelV::Nothing => None,
        SelV::Normal(a) => Some(if up_to(d.cursor, a) { (d.cursor, a) } else { (a, d.cursor) }),
        SelV::Line(a) => {
            let first = if a.line <= d.cursor.line { a.line } else { d.cursor.line };
            let last = if a.line <= d.cursor.line { d.cursor.line } else { a.line };
            Some((Pos { line: first, col: 0 }, Pos { line: last, col: d.lines[last].len() as int }))
        },
    }
}

/// What a selection spans lies in the document, the earlier end first.
pub proof fn lemma_bounds(d: DocV)
    requires
        doc_wf(d),
    ensures
        bounds(d) matches Some((a, b)) ==> valid(d.lines, a) && valid(d.lines, b) && up_to(a, b),
{
}

/// The selected text.
pub open spec fn selected_text(d: DocV) -> Option<Seq<char>> {
    match bounds(d) {
        None => None,
        Some((a, b)) => Some(join(cut(d.lines, a, b), '\n')),
    }
}

/// A document with the selection cut out, and the step that did it.
pub open spec fn dropped(d: DocV) -> (DocV, Seq<ItemV>) {
    match bounds(d) {
        None => (d, Seq::empty()),
        Some((a, b)) => (
            DocV { lines: removed(d.lines, a, b), cursor: a, sel: SelV::Nothing },
            seq![ItemV { start: a, end: b, text: join(cut(d.lines, a, b), '\n'), insert: false }],
        ),
    }
}

/// A document with text put in at the caret, and the step that did it.
pub open spec fn put(d: DocV, text: Seq<char>) -> (DocV, Seq<ItemV>) {
    if text.len() == 0 {
        (d, Seq::empty())
    } else {
        let ps = pieces(text);
        (
            DocV { lines: inserted(d.lines, d.cursor, ps), cursor: behind(d.cursor, ps), ..d },
            seq![ItemV { start: d.cursor, end: behind(d.cursor, ps), text, insert: true }],
        )
    }
}

/// A document with text put in place of the selection, and the steps that did it.
pub open spec fn typed(d: DocV, text: Seq<char>) -> (DocV, Seq<ItemV>) {
    let one = dropped(d);
    let two = put(one.0, text);
    (two.0, one.1 + two.1)
}

/// The steps lead from one document to another.
pub open spec fn leads(d: DocV, its: Seq<ItemV>, e: DocV) -> bool {
    all_fit(d.lines, its, 0) && replayed(d.lines, its, 0) == e.lines
}

/// Cutting the selection out keeps a document sound, and its step says what it did.
pub proof fn lemma_dropped(d: DocV)
    requires
        doc_wf(d),
    ensures
        doc_wf(dropped(d).0),
        dropped(d).0.sel == SelV::Nothing,
        leads(d, dropped(d).1, dropped(d).0),
{
    reveal_with_fuel(replayed, 2);
    reveal_with_fuel(all_fit, 2);
    lemma_bounds(d);
    if let Some((a, b)) = bounds(d) {
        law_put_undoes_cut(d.lines, a, b);
        lemma_flat_kept(d.lines, a, b, cut(d.lines, a, b));
        lemma_cut_flat(d.lines, a, b);
        law_pieces_of_joined(cut(d.lines, a, b));
        let it = ItemV { start: a, end: b, text: join(cut(d.lines, a, b), '\n'), insert: false };
        assert(fits(d.lines, it));
        let its = seq![it];
        assert(its[0] == it);
    }
}

proof fn lemma_cut_flat(ls: Seq<Seq<char>>, a: Pos, b: Pos)
    requires
        all_flat(ls),
        valid(ls, a),
        valid(ls, b),
        up_to(a, b),
    ensures
        all_flat(cut(ls, a, b)),
{
    let e = seq![Seq::<char>::empty()];
    assert(all_flat(e));
    lemma_flat_kept(ls, a, b, e);
}

/// Putting text in keeps a document without a selection sound, and its step says
/// what it did.
pub proof fn lemma_put(d: DocV, text: Seq<char>)
    requires
        doc_wf(d),
        d.sel == SelV::Nothing,
    ensures
        doc_wf(put(d, text).0),
        put(d, text).0.sel == SelV::Nothing,
        leads(d, put(d, text).1, put(d, text).0),
{
    reveal_with_fuel(replayed, 2);
    reveal_with_fuel(all_fit, 2);
    if text.len() > 0 {
        let ps = pieces(text);
        lemma_pieces_flat(text);
        lemma_behind(d.lines, d.cursor, ps);
        lemma_flat_kept(d.lines, d.cursor, d.cursor, ps);
        let it = ItemV { start: d.cursor, end: behind(d.cursor, ps), text, insert: true };
        let its = seq![it];
        assert(its[0] == it);
        assert(fits(d.lines, it));
    }
}

/// One thing after another.
pub proof fn lemma_leads_concat(d: DocV, a: Seq<ItemV>, e: DocV, b: Seq<ItemV>, f: DocV)
    requires
        leads(d, a, e),
        leads(e, b, f),
    ensures
        leads(d, a + b, f),
{
    lemma_replay_concat(d.lines, a, b, 0);
}

/// Typing keeps a document sound, and its steps say what it did.
pub proof fn lemma_typed(d: DocV, text: Seq<char>)
    requires
        doc_wf(d),
    ensures
        doc_wf(typed(d, text).0),
        typed(d, text).0.sel == SelV::Nothing,
        leads(d, typed(d, text).1, typed(d, text).0),
{
    lemma_dropped(d);
    let one = dropped(d);
    lemma_put(one.0, text);
    let two = put(one.0, text);
    lemma_leads_concat(d, one.1, one.0, two.1, two.0);
}

/// A document: its lines, the caret, and the selection.
pub struct Doc {
    pub lines: Vec<String>,
    pub cursor: Cursor,
    pub sel: Selection,
}

impl View for Doc {
    type V = DocV;

    open spec fn view(&self) -> DocV {
        DocV { lines: texts(self.lines@), cursor: self.cursor@, sel: self.sel@ }
    }
}

impl Doc {
    /// A sound document (see [`doc_wf`]).
    pub open spec fn wf(&self) -> bool {
        doc_wf(self@)
    }

    /// An empty document.
    pub fn new() -> (r: Self)
        ensures
            r.wf(),
            r@.lines == seq![Seq::<char>::empty()],
            r.cursor == (Cursor { line: 0, col: 0 }),
            r.sel == Selection::Nothing,
    {
        let mut lines: Vec<String> = Vec::new();
        lines.push(String::new());
        let d = Doc { lines, cursor: Cursor { line: 0, col: 0 }, sel: Selection::Nothing };
        assert(d@.lines =~= seq![Seq::<char>::empty()]);
        d
    }

    /// The whole text, its lines joined by line feeds.
    pub fn text(&self) -> (r: String)
        ensures
            r@ == join(self@.lines, '\n'),
    {
        join_strs(&self.lines, '\n')
    }

    /// How many characters a line has, and 0 where there is no such line.
    pub fn line_len(&self, l: usize) -> (r: usize)
        ensures
            r == (if l < self@.lines.len() {
                self@.lines[l as int].len()
            } else {
                0
            }),
    {
        if l < self.lines.len() {
            let v = chars(self.lines[l].as_str());
            v.len()
        } else {
            0
        }
    }

    /// The text of a line, and the empty text where there is no such line.
    pub fn line_text(&self, l: usize) -> (r: String)
        ensures
            r@ == (if l < self@.lines.len() {
                self@.lines[l as int]
            } else {
                Seq::empty()
            }),
    {
        if l < self.lines.len() {
            self.lines[l].clone()
        } else {
            String::new()
        }
    }

    /// What the selection spans.
    pub fn selection_bounds(&self) -> (r: Option<(Cursor, Cursor)>)
        requires
            self.wf(),
        ensures
            match r {
                Some((a, b)) => bounds(self@) == Some((a@, b@)),
                None => bounds(self@) is None,
            },
    {
        let c = self.cursor;
        match self.sel {
            Selection::Nothing => None,
            Selection::Normal(a) => if c.line < a.line || (c.line == a.line && c.col <= a.col) {
                Some((c, a))
            } else {
                Some((a, c))
            },
            Selection::Line(a) => {
                let first: usize = if a.line <= c.line {
                    a.line
                } else {
                    c.line
                };
                let last: usize = if a.line <= c.line {
                    c.line
                } else {
                    a.line
                };
                Some((Cursor { line: first, col: 0 }, Cursor { line: last, col: self.line_len(last) }))
            },
        }
    }

    /// The selected text, if something is selected.
    pub fn copy_selection(&self) -> (r: Option<String>)
        requires
            self.wf(),
        ensures
            match r {
                Some(s) => selected_text(self@) == Some(s@),
                None => selected_text(self@) is None,
            },
    {
        proof {
            lemma_bounds(self@);
        }
        match self.selection_bounds() {
            None => None,
            Some((a, b)) => {
                let ps = cut_range(&self.lines, a, b);
                Some(join_strs(&ps, '\n'))
            },
        }
    }

    /// Cut the selection out, if there is one.
    pub fn delete_selection(&mut self, items: &mut Vec<Item>)
        requires
            old(self).wf(),
        ensures
            final(self)@ == dropped(old(self)@).0,
            items_v(final(items)@) == items_v(old(items)@) + dropped(old(self)@).1,
            final(self).wf(),
            final(self).sel == Selection::Nothing,
    {
        let ghost d = self@;
        proof {
            lemma_bounds(d);
            lemma_dropped(d);
        }
        if let Some((a, b)) = self.selection_bounds() {
            let ps = cut_range(&self.lines, a, b);
            let text = join_strs(&ps, '\n');
            remove_range(&mut self.lines, a, b);
            self.cursor = a;
            self.sel = Selection::Nothing;
            let it = Item { start: a, end: b, text, insert: false };
            items.push(it);
            assert(items_v(items@) =~= items_v(old(items)@) + seq![it@]);
            assert(self@ =~= dropped(d).0);
        } else {
            assert(items_v(items@) =~= items_v(old(items)@) + Seq::empty());
        }
    }

    /// Put text in at the caret, in place of the selection.
    pub fn insert_string(&mut self, text: &str, items: &mut Vec<Item>)
        requires
            old(self).wf(),
        ensures
            final(self)@ == typed(old(self)@, text@).0,
            items_v(final(items)@) == items_v(old(items)@) + typed(old(self)@, text@).1,
            final(self).wf(),
            final(self).sel == Selection::Nothing,
    {
        let ghost d = self@;
        proof {
            lemma_typed(d, text@);
        }
        self.delete_selection(items);
        let ghost e = self@;
        let ghost mid = items_v(items@);
        proof {
            lemma_put(e, text@);
        }
        if text.is_empty() {
            assert(items_v(items@) =~= items_v(old(items)@) + typed(d, text@).1);
            return;
        }
        let ps = split_lines(text);
        let c = self.cursor;
        let n: usize = ps.len();
        let last = chars(ps[n - 1].as_str());
        insert_pieces(&mut self.lines, c, &ps);
        proof {
            lemma_behind(e.lines, c@, texts(ps@));
            assert(texts(ps@)[n - 1] == ps@[n - 1]@);
            let b = behind(c@, pieces(text@));
            assert(self@.lines.len() == self.lines@.len());
            assert(b.line < self.lines@.len());
        }
        let end = if n == 1 {
            let w = chars(self.lines[c.line].as_str());
            assert(c.col + last@.len() <= w@.len());
            assert(w@.len() == w.len());
            Cursor { line: c.line, col: c.col + last.len() }
        } else {
            let m: usize = self.lines.len();
            assert(c.line + (n - 1) < m);
            Cursor { line: c.line + (n - 1), col: last.len() }
        };
        self.cursor = end;
        let it = Item { start: c, end, text: text.to_owned(), insert: true };
        items.push(it);
        assert(it@ == put(e, text@).1[0]);
        assert(items_v(items@) =~= mid + seq![it@]);
        assert(items_v(items@) =~= items_v(old(items)@) + typed(d, text@).1);
        assert(self@ =~= typed(d, text@).0);
    }
}

} // verus!

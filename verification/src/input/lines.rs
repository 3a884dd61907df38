//! Operations of the text box on whole lines: indenting, commenting, moving,
//! duplicating and deleting them, and adding an import.

use vstd::prelude::*;
use vstd::string::StringExecFns;

use crate::editops;
use crate::editops::{
    commented, duplicated, indent_unit, indented, leading, on_lines, outdented, swapped, toggled, uncommented,
};
use crate::input::doc::{
    all_flat, bounds, doc_wf, dropped, flat, inserted, is_break, items_v, law_pieces_of_joined, leads, lemma_bounds,
    lemma_pieces_of_flat, lemma_typed, removed, typed, valid, Cursor, Doc, DocV, Item, ItemV, Pos, SelV, Selection,
};
use crate::input::edit::{box_wf, clamped, edited, lemma_clamped, lemma_edit_settles, settled, BoxV, InputBox};
use crate::text::{
    chars, join, join2, join3, join_strs, lemma_join_push, lemma_run, lemma_run_is, run, run_back, same, starts_with,
    str_starts_with, texts, trim, trim_end, trim_start, trim_start_str, trim_str, white_space, ws,
};

verus! {

// ---------------------------------------------------------------------------
// Splicing
// ---------------------------------------------------------------------------

/// The lines with `l0..=l1` replaced; a document always keeps a line.
pub open spec fn spliced(ls: Seq<Seq<char>>, l0: int, l1: int, new: Seq<Seq<char>>) -> Seq<Seq<char>> {
    let r = ls.take(l0) + new + ls.skip(l1 + 1);
    if r.len() == 0 {
        seq![Seq::empty()]
    } else {
        r
    }
}

/// What to cut out and what to put in to replace the lines `l0..=l1`, touching
/// nothing but them and a line ending beside them.
pub open spec fn splice_plan(ls: Seq<Seq<char>>, l0: int, l1: int, new: Seq<Seq<char>>) -> (Pos, Pos, Seq<char>) {
    let joined = join(new, '\n');
    if l1 + 1 < ls.len() {
        (
            Pos { line: l0, col: 0 },
            Pos { line: l1 + 1, col: 0 },
            if new.len() == 0 { Seq::empty() } else { joined.push('\n') },
        )
    } else if l0 > 0 {
        (
            Pos { line: l0 - 1, col: ls[l0 - 1].len() as int },
            Pos { line: l1, col: ls[l1].len() as int },
            if new.len() == 0 { Seq::empty() } else { seq!['\n'] + joined },
        )
    } else {
        (Pos { line: 0, col: 0 }, Pos { line: l1, col: ls[l1].len() as int }, joined)
    }
}

/// A range replaced by text, and the steps that did it.
pub open spec fn swapped_out(d: DocV, plan: (Pos, Pos, Seq<char>)) -> (DocV, Seq<ItemV>) {
    typed(DocV { cursor: plan.1, sel: SelV::Normal(plan.0), ..d }, plan.2)
}

/// Replacing lines by flat ones gives those lines, and keeps a document sound.
pub proof fn lemma_splice(d: DocV, l0: int, l1: int, new: Seq<Seq<char>>)
    requires
        doc_wf(d),
        0 <= l0 <= l1 < d.lines.len(),
        all_flat(new),
    ensures
        swapped_out(d, splice_plan(d.lines, l0, l1, new)).0.lines == spliced(d.lines, l0, l1, new),
        doc_wf(swapped_out(d, splice_plan(d.lines, l0, l1, new)).0),
        leads(
            d,
            swapped_out(d, splice_plan(d.lines, l0, l1, new)).1,
            swapped_out(d, splice_plan(d.lines, l0, l1, new)).0,
        ),
{
    let ls = d.lines;
    let plan = splice_plan(ls, l0, l1, new);
    let (s, e, repl) = plan;
    let d0 = DocV { cursor: e, sel: SelV::Normal(s), ..d };
    assert(doc_wf(d0));
    lemma_typed(d0, repl);
    lemma_bounds(d0);
    assert(bounds(d0) == Some((s, e)));
    let d1 = dropped(d0).0;
    let gone = removed(ls, s, e);
    assert(d1.lines == gone);
    let blank = Seq::<char>::empty();
    if l1 + 1 < ls.len() {
        assert(ls[l0].take(0) + ls[l1 + 1].skip(0) =~= ls[l1 + 1]);
        assert(gone =~= ls.take(l0) + ls.skip(l1 + 1));
        if new.len() > 0 {
            let more = new.push(blank);
            lemma_join_push(new, '\n', blank);
            assert(join(more, '\n') =~= repl);
            assert(all_flat(more)) by {
                assert forall|i: int| 0 <= i < more.len() implies flat(#[trigger] more[i]) by {
                    if i < new.len() {
                        assert(more[i] == new[i]);
                    }
                }
            }
            law_pieces_of_joined(more);
            let t = inserted(gone, s, more);
            let n = new.len() as int;
            assert(gone[l0] == ls[l1 + 1]);
            assert(gone[l0].take(0) + more[0] =~= new[0]);
            assert(more.last() + gone[l0].skip(0) =~= ls[l1 + 1]);
            assert(more.subrange(1, n) =~= new.subrange(1, n));
            assert(gone.take(l0) =~= ls.take(l0));
            assert(gone.skip(l0 + 1) =~= ls.skip(l1 + 2));
            assert(t =~= ls.take(l0) + new + ls.skip(l1 + 1));
        } else {
            assert(ls.take(l0) + new + ls.skip(l1 + 1) =~= gone);
        }
    } else if l0 > 0 {
        assert(ls[l0 - 1].take(ls[l0 - 1].len() as int) + ls[l1].skip(ls[l1].len() as int) =~= ls[l0 - 1]);
        assert(gone =~= ls.take(l0));
        assert(ls.skip(l1 + 1) =~= Seq::empty());
        if new.len() > 0 {
            let more = seq![blank] + new;
            assert(more.skip(1) =~= new);
            assert(blank.push('\n') + join(new, '\n') =~= repl);
            assert(join(more, '\n') =~= repl);
            assert(all_flat(more)) by {
                assert forall|i: int| 0 <= i < more.len() implies flat(#[trigger] more[i]) by {
                    if i > 0 {
                        assert(more[i] == new[i - 1]);
                    }
                }
            }
            law_pieces_of_joined(more);
            let t = inserted(gone, s, more);
            let n = new.len() as int;
            assert(gone[l0 - 1] == ls[l0 - 1]);
            let k = ls[l0 - 1].len() as int;
            assert(gone[l0 - 1].take(k) + more[0] =~= ls[l0 - 1]);
            assert(more.last() == new.last());
            assert(more.last() + gone[l0 - 1].skip(k) =~= new.last());
            assert(more.subrange(1, n) =~= new.subrange(0, n - 1));
            assert(gone.take(l0 - 1) =~= ls.take(l0 - 1));
            assert(gone.skip(l0) =~= Seq::empty());
            assert(t =~= ls.take(l0) + new + ls.skip(l1 + 1));
        } else {
            assert(ls.take(l0) + new + ls.skip(l1 + 1) =~= gone);
        }
    } else {
        assert(ls[0].take(0) + ls[l1].skip(ls[l1].len() as int) =~= blank);
        assert(gone =~= seq![blank]);
        assert(ls.skip(l1 + 1) =~= Seq::empty());
        assert(ls.take(0) =~= Seq::empty());
        assert(ls.take(l0) + new + ls.skip(l1 + 1) =~= new);
        if new.len() > 0 {
            law_pieces_of_joined(new);
            if repl.len() > 0 {
                let t = inserted(gone, s, new);
                let n = new.len() as int;
                assert(blank.take(0) =~= blank);
                assert(blank.skip(0) =~= blank);
                if n == 1 {
                    assert(blank + new[0] + blank =~= new[0]);
                } else {
                    assert(blank + new[0] =~= new[0]);
                    assert(new.last() + blank =~= new.last());
                }
                assert(t =~= new);
            } else {
                lemma_pieces_of_flat(repl);
                assert(repl =~= blank);
                assert(new =~= seq![blank]);
            }
        }
    }
}

/// After the lines `l0..=l1` were replaced, with the caret and the anchor put as
/// near as the text allows; a read-only text stays as it is.
pub open spec fn splice_box(
    b: BoxV,
    l0: int,
    l1: int,
    new: Seq<Seq<char>>,
    caret: Pos,
    sel: Option<Pos>,
) -> BoxV {
    let t = swapped_out(b.doc, splice_plan(b.doc.lines, l0, l1, new));
    let ls = t.0.lines;
    if b.read_only {
        b
    } else {
        edited(
            b,
            DocV {
                lines: ls,
                cursor: clamped(ls, caret),
                sel: match sel {
                    Some(a) => SelV::Normal(clamped(ls, a)),
                    None => SelV::Nothing,
                },
            },
            t.1,
        )
    }
}

/// Replacing lines by others replaces exactly those lines.
pub proof fn law_splice_replaces_lines(b: BoxV, l0: int, l1: int, new: Seq<Seq<char>>, caret: Pos, sel: Option<Pos>)
    requires
        box_wf(b),
        !b.read_only,
        0 <= l0 <= l1 < b.doc.lines.len(),
        all_flat(new),
    ensures
        splice_box(b, l0, l1, new, caret, sel).doc.lines == spliced(b.doc.lines, l0, l1, new),
{
    lemma_splice(b.doc, l0, l1, new);
}

/// Pick the span + replacement so the resulting line count follows the new lines
/// (covers same-count ops, growth, and deletion).
fn plan_splice(doc: &Doc, l0: usize, l1: usize, new_lines: &Vec<String>) -> (r: (Cursor, Cursor, String))
    requires
        l0 <= l1 < doc@.lines.len(),
    ensures
        (r.0@, r.1@, r.2@) == splice_plan(doc@.lines, l0 as int, l1 as int, texts(new_lines@)),
        0 <= r.0.line < doc@.lines.len(),
{
    let n: usize = doc.lines.len();
    let ghost ls = doc@.lines;
    let ghost new = texts(new_lines@);
    let joined = join_strs(new_lines, '\n');
    proof {
        reveal_strlit("\n");
        assert("\n"@ =~= seq!['\n']);
        assert(new.len() == new_lines@.len());
    }
    if l1 + 1 < n {
        // A line follows the block: include the '\n' after l1 so an empty
        // replacement removes the block cleanly (and a normal one restores it).
        let repl = if new_lines.len() == 0 {
            String::new()
        } else {
            join2(joined.as_str(), "\n")
        };
        assert(repl@ =~= splice_plan(ls, l0 as int, l1 as int, new).2);
        (Cursor { line: l0, col: 0 }, Cursor { line: l1 + 1, col: 0 }, repl)
    } else if l0 > 0 {
        // Block runs to EOF but isn't the whole buffer: include the '\n' before
        // l0 so deletion doesn't leave a trailing empty line.
        let repl = if new_lines.len() == 0 {
            String::new()
        } else {
            join2("\n", joined.as_str())
        };
        assert(repl@ =~= splice_plan(ls, l0 as int, l1 as int, new).2);
        (Cursor { line: l0 - 1, col: doc.line_len(l0 - 1) }, Cursor { line: l1, col: doc.line_len(l1) }, repl)
    } else {
        // Whole buffer.
        (Cursor { line: 0, col: 0 }, Cursor { line: l1, col: doc.line_len(l1) }, joined)
    }
}

impl InputBox {
    /// Replace logical lines `l0..=l1` with `new_lines` as ONE undoable change, then
    /// place the caret at `caret` with an optional selection anchor. Only the
    /// affected range is touched (and the recorded change holds only that range), so
    /// a line op on a large file stays O(block), not O(document).
    pub fn splice_lines(
        &mut self,
        l0: usize,
        l1: usize,
        new_lines: &Vec<String>,
        caret: Cursor,
        sel: Option<Cursor>,
    )
        requires
            old(self).wf(),
            l0 <= l1,
            l0 < old(self)@.doc.lines.len(),
        ensures
            ({
                let n = old(self)@.doc.lines.len();
                &&& final(self)@ == splice_box(
                    old(self)@,
                    l0 as int,
                    if l1 < n { l1 as int } else { n - 1 },
                    texts(new_lines@),
                    caret@,
                    match sel {
                        Some(a) => Some(a@),
                        None => None,
                    },
                )
                &&& final(self).wf()
            }),
            settled(old(self)@) ==> settled(final(self)@),
            old(self)@.read_only ==> final(self)@ == old(self)@,
    {
        if self.read_only {
            return;
        }
        let n: usize = self.doc.lines.len();
        let l1: usize = if l1 < n {
            l1
        } else {
            n - 1
        };
        let ghost b = self@;
        let ghost d = self@.doc;
        let ghost plan = splice_plan(d.lines, l0 as int, l1 as int, texts(new_lines@));
        let (start, end, repl) = plan_splice(&self.doc, l0, l1, new_lines);
        let mut items: Vec<Item> = Vec::new();
        assert(items_v(items@) =~= Seq::empty());
        self.doc.sel = Selection::Normal(start);
        self.doc.cursor = end;
        self.doc.insert_string(repl.as_str(), &mut items);
        assert(items_v(items@) =~= swapped_out(d, plan).1);
        let ghost ls = self@.doc.lines;
        assert(ls == swapped_out(d, plan).0.lines);
        proof {
            lemma_clamped(ls, caret@);
            if let Some(a) = sel {
                lemma_clamped(ls, a@);
            }
        }
        let c = self.clamp_cursor(caret);
        let chosen = match sel {
            Some(a) => Selection::Normal(self.clamp_cursor(a)),
            None => Selection::Nothing,
        };
        self.doc.sel = chosen;
        self.doc.cursor = c;
        proof {
            lemma_typed(DocV { cursor: plan.1, sel: SelV::Normal(plan.0), ..d }, plan.2);
            lemma_edit_settles(b, self@.doc, items_v(items@));
        }
        self.record(items);
    }

    /// Owned text of logical lines `l0..=l1`.
    pub fn lines_in_range(&self, l0: usize, l1: usize) -> (r: Vec<String>)
        requires
            l0 <= l1 < self@.doc.lines.len(),
        ensures
            texts(r@) == self@.doc.lines.subrange(l0 as int, l1 + 1),
            r@.len() == l1 + 1 - l0,
    {
        let ghost ls = self@.doc.lines;
        let mut out: Vec<String> = Vec::new();
        let mut i: usize = l0;
        assert(texts(out@) =~= ls.subrange(l0 as int, l0 as int));
        while i <= l1
            invariant
                l0 <= i <= l1 + 1,
                l1 < self.doc.lines@.len(),
                ls == texts(self.doc.lines@),
                texts(out@) == ls.subrange(l0 as int, i as int),
                out@.len() == i - l0,
            decreases l1 + 1 - i,
        {
            let ghost before = texts(out@);
            out.push(self.doc.lines[i].clone());
            assert(texts(out@) =~= before.push(ls[i as int]));
            assert(texts(out@) =~= ls.subrange(l0 as int, i + 1));
            if i == l1 {
                return out;
            }
            i = i + 1;
        }
        out
    }

    /// The line range touched by the selection (or the caret line if none).
    pub fn sel_line_range(&self) -> (r: (usize, usize))
        requires
            self.wf(),
        ensures
            (r.0 as int, r.1 as int) == sel_lines(self@.doc),
            r.0 <= r.1 < self@.doc.lines.len(),
            r.0 <= self.doc.cursor.line <= r.1,
    {
        proof {
            lemma_bounds(self@.doc);
        }
        match self.doc.selection_bounds() {
            Some((a, b)) => (a.line, b.line),
            None => (self.doc.cursor.line, self.doc.cursor.line),
        }
    }
}

/// The line range touched by the selection (or the caret line if none).
pub open spec fn sel_lines(d: DocV) -> (int, int) {
    match bounds(d) {
        Some((a, b)) => (a.line, b.line),
        None => (d.cursor.line, d.cursor.line),
    }
}

/// The lines touched by the selection.
pub open spec fn sel_block(d: DocV) -> Seq<Seq<char>> {
    d.lines.subrange(sel_lines(d).0, sel_lines(d).1 + 1)
}

/// A column in a line that grew or shrank before it.
pub open spec fn shifted(col: int, old_len: int, new_len: int) -> int {
    if col + new_len - old_len < 0 {
        0
    } else {
        col + new_len - old_len
    }
}

/// After the touched lines were replaced one by one: a selection spans them all, a
/// caret keeps its place in the text behind it.
pub open spec fn block_box(b: BoxV, block: Seq<Seq<char>>) -> BoxV {
    let (l0, l1) = sel_lines(b.doc);
    let c = b.doc.cursor;
    if bounds(b.doc) is Some {
        splice_box(
            b,
            l0,
            l1,
            block,
            Pos { line: l1, col: block[l1 - l0].len() as int },
            Some(Pos { line: l0, col: 0 }),
        )
    } else {
        splice_box(
            b,
            l0,
            l1,
            block,
            Pos {
                line: c.line,
                col: shifted(c.col, b.doc.lines[c.line].len() as int, block[c.line - l0].len() as int),
            },
            None,
        )
    }
}

/// A comment prefix.
pub open spec fn comment_prefix() -> Seq<char> {
    "// "@
}

/// After the touched lines were indented by one level; blank lines among several are
/// left alone.
pub open spec fn indent_box(b: BoxV) -> BoxV {
    let block = sel_block(b.doc);
    let only = block.len() == 1;
    block_box(b, on_lines(block, 0, block.len() - 1, |s: Seq<char>| indented(s, only)))
}

/// After the touched lines were outdented by one level.
pub open spec fn outdent_box(b: BoxV) -> BoxV {
    let block = sel_block(b.doc);
    block_box(b, on_lines(block, 0, block.len() - 1, |s: Seq<char>| outdented(s)))
}

/// After the comments of the touched lines were toggled.
pub open spec fn comment_box(b: BoxV) -> BoxV {
    let block = sel_block(b.doc);
    block_box(b, toggled(block, 0, block.len() - 1, comment_prefix()))
}

/// After the caret's line and the one above it changed places.
pub open spec fn line_up_box(b: BoxV) -> BoxV {
    let ls = b.doc.lines;
    let c = b.doc.cursor;
    if c.line == 0 {
        b
    } else {
        splice_box(
            b,
            c.line - 1,
            c.line,
            seq![ls[c.line], ls[c.line - 1]],
            Pos { line: c.line - 1, col: c.col },
            None,
        )
    }
}

/// After the caret's line and the one below it changed places.
pub open spec fn line_down_box(b: BoxV) -> BoxV {
    let ls = b.doc.lines;
    let c = b.doc.cursor;
    if c.line + 1 >= ls.len() {
        b
    } else {
        splice_box(
            b,
            c.line,
            c.line + 1,
            seq![ls[c.line + 1], ls[c.line]],
            Pos { line: c.line + 1, col: c.col },
            None,
        )
    }
}

/// After a copy of the touched lines was put below them; the caret moves to the copy.
pub open spec fn duplicate_box(b: BoxV) -> BoxV {
    let (l0, l1) = sel_lines(b.doc);
    let block = sel_block(b.doc);
    let c = b.doc.cursor;
    splice_box(b, l0, l1, block + block, Pos { line: c.line + (l1 - l0 + 1), col: c.col }, None)
}

/// After the touched lines were deleted.
pub open spec fn delete_box(b: BoxV) -> BoxV {
    let (l0, l1) = sel_lines(b.doc);
    splice_box(b, l0, l1, Seq::empty(), Pos { line: l0, col: 0 }, None)
}

impl InputBox {
    fn block_edit(&mut self, l0: usize, l1: usize, block: &Vec<String>)
        requires
            old(self).wf(),
            (l0 as int, l1 as int) == sel_lines(old(self)@.doc),
            l0 <= l1 < old(self)@.doc.lines.len(),
            l0 <= old(self).doc.cursor.line <= l1,
            block@.len() == l1 + 1 - l0,
        ensures
            final(self)@ == block_box(old(self)@, texts(block@)),
            final(self).wf(),
            settled(old(self)@) ==> settled(final(self)@),
            old(self)@.read_only ==> final(self)@ == old(self)@,
    {
        let c = self.doc.cursor;
        if self.doc.selection_bounds().is_some() {
            let v = chars(block[l1 - l0].as_str());
            assert(texts(block@)[l1 - l0] == block@[l1 - l0]@);
            self.splice_lines(
                l0,
                l1,
                block,
                Cursor { line: l1, col: v.len() },
                Some(Cursor { line: l0, col: 0 }),
            );
        } else {
            let old_len: usize = self.doc.line_len(c.line);
            let v = chars(block[c.line - l0].as_str());
            assert(texts(block@)[c.line - l0] == block@[c.line - l0]@);
            let new_len: usize = v.len();
            let col: usize = if new_len >= old_len {
                c.col + (new_len - old_len)
            } else if c.col >= old_len - new_len {
                c.col - (old_len - new_len)
            } else {
                0
            };
            self.splice_lines(l0, l1, block, Cursor { line: c.line, col }, None);
        }
    }

    /// Indent the touched lines by one level.
    pub fn indent(&mut self)
        requires
            old(self).wf(),
        ensures
            final(self)@ == indent_box(old(self)@),
            final(self).wf(),
            settled(old(self)@) ==> settled(final(self)@),
            old(self)@.read_only ==> final(self)@ == old(self)@,
    {
        let (l0, l1) = self.sel_line_range();
        let mut block = self.lines_in_range(l0, l1);
        let last: usize = block.len() - 1;
        let ghost t = texts(block@);
        let ghost only = t.len() == 1;
        assert(t.len() == block@.len());
        editops::indent(block.as_mut_slice(), 0, last);
        assert(texts(block@) =~= on_lines(t, 0, t.len() - 1, |s: Seq<char>| indented(s, only)));
        assert(texts(block@).len() == block@.len());
        self.block_edit(l0, l1, &block);
    }

    /// Take the touched lines back by up to one level.
    pub fn outdent(&mut self)
        requires
            old(self).wf(),
        ensures
            final(self)@ == outdent_box(old(self)@),
            final(self).wf(),
            settled(old(self)@) ==> settled(final(self)@),
            old(self)@.read_only ==> final(self)@ == old(self)@,
    {
        let (l0, l1) = self.sel_line_range();
        let mut block = self.lines_in_range(l0, l1);
        let last: usize = block.len() - 1;
        let ghost t = texts(block@);
        assert(t.len() == block@.len());
        editops::outdent(block.as_mut_slice(), 0, last);
        assert(texts(block@) =~= on_lines(t, 0, t.len() - 1, |s: Seq<char>| outdented(s)));
        assert(texts(block@).len() == block@.len());
        self.block_edit(l0, l1, &block);
    }

    /// Toggle the line comment on the touched lines.
    pub fn toggle_comment(&mut self)
        requires
            old(self).wf(),
        ensures
            final(self)@ == comment_box(old(self)@),
            final(self).wf(),
            settled(old(self)@) ==> settled(final(self)@),
            old(self)@.read_only ==> final(self)@ == old(self)@,
    {
        let (l0, l1) = self.sel_line_range();
        let mut block = self.lines_in_range(l0, l1);
        let last: usize = block.len() - 1;
        let ghost t = texts(block@);
        assert(t.len() == block@.len());
        editops::toggle_comment(block.as_mut_slice(), 0, last, "// ");
        assert(texts(block@).len() == block@.len());
        self.block_edit(l0, l1, &block);
    }

    /// Exchange the caret's line with the one above it, and go with it.
    pub fn move_line_up(&mut self)
        requires
            old(self).wf(),
        ensures
            final(self)@ == line_up_box(old(self)@),
            final(self).wf(),
            settled(old(self)@) ==> settled(final(self)@),
            old(self)@.read_only ==> final(self)@ == old(self)@,
    {
        let c = self.doc.cursor;
        if c.line == 0 {
            return;
        }
        let ghost ls = self@.doc.lines;
        let mut block = self.lines_in_range(c.line - 1, c.line);
        let ghost t = texts(block@);
        let ghost v = block@;
        assert(t[0] == ls[c.line - 1] && t[1] == ls[c.line as int]);
        editops::move_up(block.as_mut_slice(), 1);
        assert(block@ == swapped(v, 1, 0));
        assert(texts(block@) =~= seq![ls[c.line as int], ls[c.line - 1]]);
        self.splice_lines(c.line - 1, c.line, &block, Cursor { line: c.line - 1, col: c.col }, None);
    }

    /// Exchange the caret's line with the one below it, and go with it.
    pub fn move_line_down(&mut self)
        requires
            old(self).wf(),
        ensures
            final(self)@ == line_down_box(old(self)@),
            final(self).wf(),
            settled(old(self)@) ==> settled(final(self)@),
            old(self)@.read_only ==> final(self)@ == old(self)@,
    {
        let c = self.doc.cursor;
        let n: usize = self.doc.lines.len();
        if c.line + 1 >= n {
            return;
        }
        let ghost ls = self@.doc.lines;
        let mut block = self.lines_in_range(c.line, c.line + 1);
        let ghost t = texts(block@);
        let ghost v = block@;
        assert(t[0] == ls[c.line as int] && t[1] == ls[c.line + 1]);
        editops::move_down(block.as_mut_slice(), 0);
        assert(block@ == swapped(v, 0, 1));
        assert(texts(block@) =~= seq![ls[c.line + 1], ls[c.line as int]]);
        self.splice_lines(c.line, c.line + 1, &block, Cursor { line: c.line + 1, col: c.col }, None);
    }

    /// Put a copy of the touched lines below them, the caret in the copy.
    pub fn duplicate_line(&mut self)
        requires
            old(self).wf(),
            old(self)@.doc.cursor.line + old(self)@.doc.lines.len() < usize::MAX,
        ensures
            final(self)@ == duplicate_box(old(self)@),
            final(self).wf(),
            settled(old(self)@) ==> settled(final(self)@),
            old(self)@.read_only ==> final(self)@ == old(self)@,
    {
        let (l0, l1) = self.sel_line_range();
        let c = self.doc.cursor;
        let mut block = self.lines_in_range(l0, l1);
        let ghost t = texts(block@);
        let ghost v = block@;
        let last: usize = block.len() - 1;
        editops::duplicate(&mut block, 0, last);
        assert(block@ =~= v + v);
        assert(texts(block@) =~= t + t);
        self.splice_lines(l0, l1, &block, Cursor { line: c.line + (l1 - l0 + 1), col: c.col }, None);
    }

    /// Delete the touched lines.
    pub fn delete_line(&mut self)
        requires
            old(self).wf(),
        ensures
            final(self)@ == delete_box(old(self)@),
            final(self).wf(),
            settled(old(self)@) ==> settled(final(self)@),
            old(self)@.read_only ==> final(self)@ == old(self)@,
    {
        let (l0, l1) = self.sel_line_range();
        let none: Vec<String> = Vec::new();
        assert(texts(none@) =~= Seq::empty());
        self.splice_lines(l0, l1, &none, Cursor { line: l0, col: 0 }, None);
    }
}

// ---------------------------------------------------------------------------
// Laws
// ---------------------------------------------------------------------------

proof fn lemma_flat_skip(s: Seq<char>, k: int)
    requires
        flat(s),
        0 <= k <= s.len(),
    ensures
        flat(s.skip(k)),
        flat(s.take(k)),
{
    assert forall|i: int| 0 <= i < s.skip(k).len() implies !is_break(#[trigger] s.skip(k)[i]) by {
        assert(s.skip(k)[i] == s[k + i]);
    }
    assert forall|i: int| 0 <= i < s.take(k).len() implies !is_break(#[trigger] s.take(k)[i]) by {
        assert(s.take(k)[i] == s[i]);
    }
}

proof fn lemma_flat_concat(s: Seq<char>, t: Seq<char>)
    requires
        flat(s),
        flat(t),
    ensures
        flat(s + t),
{
    assert forall|i: int| 0 <= i < (s + t).len() implies !is_break(#[trigger] (s + t)[i]) by {
        if i < s.len() {
            assert((s + t)[i] == s[i]);
        } else {
            assert((s + t)[i] == t[i - s.len()]);
        }
    }
}

/// Indenting, taking back and commenting lines change lines within themselves:
/// none gains a line ending.
pub proof fn law_line_edits_stay_flat(line: Seq<char>, only: bool, at: int)
    requires
        flat(line),
        0 <= at,
    ensures
        flat(indented(line, only)),
        flat(outdented(line)),
        flat(commented(line, comment_prefix(), at)),
        flat(uncommented(line, comment_prefix())),
{
    let unit = indent_unit();
    assert(flat(unit));
    lemma_flat_concat(unit, line);
    lemma_run_is(line, editops::space());
    if line.len() > 0 {
        lemma_flat_skip(line, 1);
    }
    lemma_flat_skip(line, run(line, editops::space()) as int);
    if run(line, editops::space()) >= editops::INDENT_LEN {
        lemma_flat_skip(line, editops::INDENT_LEN as int);
    }
    let prefix = comment_prefix();
    reveal_strlit("// ");
    assert(flat(prefix));
    let k = if at < line.len() { at } else { line.len() as int };
    lemma_flat_skip(line, k);
    lemma_flat_concat(line.take(k), prefix);
    lemma_flat_concat(line.take(k) + prefix, line.skip(k));
    lemma_run_is(line, editops::blank());
    lemma_flat_skip(line, run(line, editops::blank()) as int);
    lemma_run_is(line, ws());
    lemma_flat_skip(line, run(line, ws()) as int);
    let body = trim_start(line);
    assert(flat(body));
    lemma_flat_concat(leading(line), body);
    if starts_with(body, prefix) {
        lemma_flat_skip(body, prefix.len() as int);
        lemma_flat_concat(leading(line), body.skip(prefix.len() as int));
    } else if starts_with(body, trim_end(prefix)) {
        lemma_flat_skip(body, trim_end(prefix).len() as int);
        lemma_flat_concat(leading(line), body.skip(trim_end(prefix).len() as int));
    }
}

proof fn lemma_shallowest_not_negative(lines: Seq<Seq<char>>, l0: int, l1: int)
    ensures
        editops::shallowest(lines, l0, l1) matches Some(m) ==> m >= 0,
    decreases lines.len(),
{
    if lines.len() > 0 {
        lemma_shallowest_not_negative(lines.drop_last(), l0, l1);
    }
}

/// Indenting, taking back and commenting replace the touched lines, one by one,
/// and no others.
#[verifier::spinoff_prover]
#[verifier::rlimit(40)]
pub proof fn law_block_edits_replace_touched_lines(b: BoxV)
    requires
        box_wf(b),
        !b.read_only,
    ensures
        ({
            let (l0, l1) = sel_lines(b.doc);
            let block = sel_block(b.doc);
            let only = block.len() == 1;
            let deeper = on_lines(block, 0, block.len() - 1, |s: Seq<char>| indented(s, only));
            let back = on_lines(block, 0, block.len() - 1, |s: Seq<char>| outdented(s));
            let noted = toggled(block, 0, block.len() - 1, comment_prefix());
            &&& block_box(b, deeper).doc.lines == spliced(b.doc.lines, l0, l1, deeper)
            &&& block_box(b, back).doc.lines == spliced(b.doc.lines, l0, l1, back)
            &&& block_box(b, noted).doc.lines == spliced(b.doc.lines, l0, l1, noted)
        }),
{
    lemma_bounds(b.doc);
    let (l0, l1) = sel_lines(b.doc);
    let block = sel_block(b.doc);
    let only = block.len() == 1;
    let prefix = comment_prefix();
    let deeper = on_lines(block, 0, block.len() - 1, |s: Seq<char>| indented(s, only));
    let back = on_lines(block, 0, block.len() - 1, |s: Seq<char>| outdented(s));
    let noted = toggled(block, 0, block.len() - 1, prefix);
    let at = match editops::shallowest(block, 0, block.len() - 1) {
        Some(m) => m,
        None => 0,
    };
    lemma_shallowest_not_negative(block, 0, block.len() - 1);
    assert forall|i: int| 0 <= i < block.len() implies flat(#[trigger] block[i]) by {
        assert(block[i] == b.doc.lines[l0 + i]);
    }
    assert forall|i: int| 0 <= i < deeper.len() implies flat(#[trigger] deeper[i]) by {
        law_line_edits_stay_flat(block[i], only, at);
    }
    assert forall|i: int| 0 <= i < back.len() implies flat(#[trigger] back[i]) by {
        law_line_edits_stay_flat(block[i], only, at);
    }
    assert forall|i: int| 0 <= i < noted.len() implies flat(#[trigger] noted[i]) by {
        law_line_edits_stay_flat(block[i], only, at);
    }
    lemma_splice(b.doc, l0, l1, deeper);
    lemma_splice(b.doc, l0, l1, back);
    lemma_splice(b.doc, l0, l1, noted);
}

/// Moving a line up exchanges it with the line above and changes no other.
pub proof fn law_move_up_exchanges_lines(b: BoxV)
    requires
        box_wf(b),
        !b.read_only,
        b.doc.cursor.line > 0,
    ensures
        ({
            let ls = b.doc.lines;
            let l = b.doc.cursor.line;
            splice_box(
                b,
                l - 1,
                l,
                seq![ls[l], ls[l - 1]],
                Pos { line: l - 1, col: b.doc.cursor.col },
                None,
            ).doc.lines == swapped(ls, l, l - 1)
        }),
{
    let ls = b.doc.lines;
    let l = b.doc.cursor.line;
    let two = seq![ls[l], ls[l - 1]];
    assert(flat(ls[l]) && flat(ls[l - 1]));
    assert(all_flat(two));
    lemma_splice(b.doc, l - 1, l, two);
    assert(ls.take(l - 1) + two + ls.skip(l + 1) =~= swapped(ls, l, l - 1));
}

/// Duplicating puts a copy of the touched lines below them.
pub proof fn law_duplicate_adds_a_copy(b: BoxV, caret: Pos)
    requires
        box_wf(b),
        !b.read_only,
    ensures
        ({
            let (l0, l1) = sel_lines(b.doc);
            let block = sel_block(b.doc);
            splice_box(b, l0, l1, block + block, caret, None).doc.lines == duplicated(b.doc.lines, l0, l1)
        }),
{
    lemma_bounds(b.doc);
    let (l0, l1) = sel_lines(b.doc);
    let block = sel_block(b.doc);
    let two = block + block;
    assert forall|i: int| 0 <= i < two.len() implies flat(#[trigger] two[i]) by {
        let k = if i < block.len() { i } else { i - block.len() };
        assert(two[i] == b.doc.lines[l0 + k]);
        assert(flat(b.doc.lines[l0 + k]));
    }
    lemma_splice(b.doc, l0, l1, two);
    assert(b.doc.lines.take(l0) + two + b.doc.lines.skip(l1 + 1) =~= duplicated(b.doc.lines, l0, l1));
}

// ---------------------------------------------------------------------------
// Imports
// ---------------------------------------------------------------------------

/// A line that may stand above the imports: blank, a comment, or a directive.
pub open spec fn header_line(t: Seq<char>) -> bool {
    t.len() == 0 || starts_with(t, "//"@) || starts_with(t, "/*"@) || starts_with(t, "*"@) || starts_with(t, "#"@)
}

/// Scanning the lines from the `i`-th on: behind the last import, and at the first
/// line of code.
pub open spec fn import_scan(ls: Seq<Seq<char>>, i: int, last: Option<int>) -> (Option<int>, int)
    decreases ls.len() - i,
{
    if i < 0 || i >= ls.len() {
        (last, ls.len() as int)
    } else {
        let t = trim_start(ls[i]);
        if starts_with(t, "using "@) {
            import_scan(ls, i + 1, Some(i + 1))
        } else if header_line(t) {
            import_scan(ls, i + 1, last)
        } else {
            (last, i)
        }
    }
}

/// The line an import becomes: right after the last leading import (so it groups
/// with them), or else just before the first line of code. Where these lines reach
/// the end of the text, it comes after the last line.
pub open spec fn import_line(ls: Seq<Seq<char>>) -> int {
    let (last, code) = import_scan(ls, 0, None);
    match last {
        Some(i) => i,
        None => code,
    }
}

/// The import of a namespace.
pub open spec fn import_of(ns: Seq<char>) -> Seq<char> {
    "using "@ + ns + ";"@
}

/// Whether some line is this import.
pub open spec fn imports(ls: Seq<Seq<char>>, want: Seq<char>) -> bool {
    exists|i: int| 0 <= i < ls.len() && trim(#[trigger] ls[i]) == want
}

/// Where an import is typed to become line `at`, and what is typed: a line before the
/// one that stands there, or a line after the last.
pub open spec fn import_typing(ls: Seq<Seq<char>>, at: int, want: Seq<char>) -> (Pos, Seq<char>) {
    if at < ls.len() {
        (Pos { line: at, col: 0 }, want.push('\n'))
    } else {
        (Pos { line: ls.len() - 1, col: ls.last().len() as int }, seq!['\n'] + want)
    }
}

/// After an import was added, unless it was there: the caret stays on its line, and a
/// selection is dropped. A read-only text stays as it is.
pub open spec fn import_added(b: BoxV, ns: Seq<char>) -> BoxV {
    let n = trim(ns);
    let want = import_of(n);
    if b.read_only || n.len() == 0 || imports(b.doc.lines, want) {
        b
    } else {
        let at = import_line(b.doc.lines);
        let c = b.doc.cursor;
        let (pos, text) = import_typing(b.doc.lines, at, want);
        let t = typed(DocV { cursor: pos, sel: SelV::Nothing, ..b.doc }, text);
        edited(
            b,
            DocV { cursor: Pos { line: if c.line >= at { c.line + 1 } else { c.line }, col: c.col }, ..t.0 },
            t.1,
        )
    }
}

fn is_header(t: &str) -> (r: bool)
    ensures
        r == header_line(t@),
{
    t.is_empty() || str_starts_with(t, "//") || str_starts_with(t, "/*") || str_starts_with(t, "*")
        || str_starts_with(t, "#")
}

fn find_import_line(lines: &Vec<String>) -> (r: usize)
    requires
        lines@.len() > 0,
    ensures
        r == import_line(texts(lines@)),
        r <= lines@.len(),
{
    let ghost ls = texts(lines@);
    let n: usize = lines.len();
    let mut last: Option<usize> = None;
    let mut code: usize = n;
    let mut i: usize = 0;
    let mut going = true;
    while i < n && going
        invariant
            i <= n == lines@.len(),
            ls == texts(lines@),
            going ==> code == n && import_scan(ls, 0, None) == import_scan(
                ls,
                i as int,
                match last {
                    Some(k) => Some(k as int),
                    None => None,
                },
            ),
            !going ==> import_scan(ls, 0, None) == (
                match last {
                    Some(k) => Some(k as int),
                    None => None,
                },
                code as int,
            ),
            last matches Some(k) ==> k <= n,
            code <= n,
        decreases n - i + (if going { 1int } else { 0 }),
    {
        assert(ls[i as int] == lines@[i as int]@);
        let t = trim_start_str(lines[i].as_str());
        if str_starts_with(t.as_str(), "using ") {
            last = Some(i + 1);
            i = i + 1;
        } else if is_header(t.as_str()) {
            i = i + 1;
        } else {
            code = i;
            going = false;
        }
    }
    match last {
        Some(k) => k,
        None => code,
    }
}

impl InputBox {
    /// Insert `using <ns>;` near the top of the file (after the leading run of
    /// imports), as one undoable change — unless it's already imported. The caret
    /// stays on its line (shifted down when the import lands above it). Used by
    /// completion's auto-import of an unimported type.
    pub fn add_using(&mut self, ns: &str)
        requires
            old(self).wf(),
            old(self)@.doc.lines.len() < usize::MAX,
        ensures
            final(self)@ == import_added(old(self)@, ns@),
            flat(trim(ns@)) ==> final(self).wf(),
            text_sound(final(self)@),
            settled(old(self)@) ==> settled(final(self)@),
            old(self)@.read_only ==> final(self)@ == old(self)@,
    {
        if self.read_only {
            return;
        }
        let n = trim_str(ns);
        if n.as_str().is_empty() {
            return;
        }
        let want = join3("using ", n.as_str(), ";");
        let ghost b = self@;
        let ghost ls = b.doc.lines;
        let mut i: usize = 0;
        while i < self.doc.lines.len()
            invariant
                i <= self.doc.lines@.len(),
                self@ == b,
                b == old(self)@,
                box_wf(b),
                n@ == trim(ns@),
                want@ == import_of(n@),
                ls == texts(self.doc.lines@),
                forall|k: int| 0 <= k < i ==> trim(#[trigger] ls[k]) != want@,
            decreases self.doc.lines@.len() - i,
        {
            assert(ls[i as int] == self.doc.lines@[i as int]@);
            let t = trim_str(self.doc.lines[i].as_str());
            if same(t.as_str(), want.as_str()) {
                assert(imports(ls, want@));
                return;
            }
            i = i + 1;
        }
        assert(!imports(ls, want@));
        let at: usize = find_import_line(&self.doc.lines);
        let c = self.doc.cursor;
        let rows: usize = self.doc.lines.len();
        self.doc.sel = Selection::Nothing;
        let line = if at < rows {
            self.doc.cursor = Cursor { line: at, col: 0 };
            join2(want.as_str(), "\n")
        } else {
            let col: usize = self.doc.line_len(rows - 1);
            self.doc.cursor = Cursor { line: rows - 1, col };
            join2("\n", want.as_str())
        };
        proof {
            reveal_strlit("\n");
            assert(ls.last() == ls[rows - 1]);
            assert(line@ =~= import_typing(ls, at as int, want@).1);
        }
        let ghost d0 = self@.doc;
        let mut items: Vec<Item> = Vec::new();
        assert(items_v(items@) =~= Seq::empty());
        self.doc.insert_string(line.as_str(), &mut items);
        assert(items_v(items@) =~= typed(d0, line@).1);
        let to: usize = if c.line >= at {
            c.line + 1
        } else {
            c.line
        };
        self.doc.cursor = Cursor { line: to, col: c.col };
        proof {
            if flat(n@) {
                reveal_strlit("using ");
                reveal_strlit(";");
                lemma_flat_concat("using "@, n@);
                lemma_flat_concat("using "@ + n@, ";"@);
                if at < rows {
                    lemma_line_pushed(d0, want@, at as int, c@);
                } else {
                    lemma_line_appended(d0, want@, c@);
                }
            }
            lemma_typed(d0, line@);
            lemma_edit_settles(b, self@.doc, items_v(items@));
        }
        self.record(items);
    }
}

/// A text box whose history is in order and whose lines are, whatever the caret.
pub open spec fn text_sound(b: BoxV) -> bool {
    b.doc.lines.len() > 0 && all_flat(b.doc.lines) && crate::input::history::history_wf(b.hist)
}

/// Putting a whole line in moves the lines from there on down by one.
proof fn lemma_line_pushed(d: DocV, want: Seq<char>, at: int, c: Pos)
    requires
        doc_wf(d),
        d.sel == SelV::Nothing,
        d.cursor == (Pos { line: at, col: 0 }),
        valid(d.lines, c),
        flat(want),
    ensures
        ({
            let t = typed(d, want.push('\n')).0;
            &&& t.lines == d.lines.take(at) + seq![want] + d.lines.skip(at)
            &&& valid(t.lines, Pos { line: if c.line >= at { c.line + 1 } else { c.line }, col: c.col })
        }),
{
    let blank = Seq::<char>::empty();
    let two = seq![want, blank];
    assert(all_flat(two));
    law_pieces_of_joined(two);
    assert(two.skip(1) =~= seq![blank]);
    reveal_with_fuel(join, 3);
    assert(join(two, '\n') =~= want.push('\n'));
    let t = typed(d, want.push('\n')).0;
    let l = d.lines[at];
    assert(l.take(0) + want =~= want);
    assert(blank + l.skip(0) =~= l);
    assert(two.subrange(1, 1) =~= Seq::empty());
    assert(t.lines =~= d.lines.take(at) + seq![want] + d.lines.skip(at));
}

/// Putting a whole line in after the last keeps the lines before it.
proof fn lemma_line_appended(d: DocV, want: Seq<char>, c: Pos)
    requires
        doc_wf(d),
        d.sel == SelV::Nothing,
        d.cursor == (Pos { line: d.lines.len() - 1, col: d.lines.last().len() as int }),
        valid(d.lines, c),
        flat(want),
    ensures
        typed(d, seq!['\n'] + want).0.lines == d.lines.push(want),
        valid(typed(d, seq!['\n'] + want).0.lines, c),
{
    let blank = Seq::<char>::empty();
    let two = seq![blank, want];
    assert(all_flat(two));
    law_pieces_of_joined(two);
    assert(two.skip(1) =~= seq![want]);
    reveal_with_fuel(join, 3);
    assert(join(two, '\n') =~= seq!['\n'] + want);
    let t = typed(d, seq!['\n'] + want).0;
    let at = d.lines.len() - 1;
    let l = d.lines[at];
    assert(l.take(l.len() as int) + blank =~= l);
    assert(want + l.skip(l.len() as int) =~= want);
    assert(two.subrange(1, 1) =~= Seq::empty());
    assert(t.lines =~= d.lines.push(want));
}

/// A text that neither begins nor ends with white space is left whole by trimming.
proof fn lemma_trim_whole(s: Seq<char>)
    requires
        s.len() > 0,
        !white_space(s[0]),
        !white_space(s.last()),
    ensures
        trim(s) == s,
{
    lemma_run(s, ws(), 0);
    assert(s.skip(0) =~= s);
    assert(run_back(s, ws()) == 0);
    assert(s.take(s.len() as int) =~= s);
}

/// The first line of code lies behind the lines that may stand above the imports.
proof fn lemma_import_scan(ls: Seq<Seq<char>>, i: int, last: Option<int>)
    requires
        0 <= i <= ls.len(),
        last matches Some(k) ==> 0 <= k <= ls.len(),
    ensures
        0 <= import_scan(ls, i, last).1 <= ls.len(),
        import_scan(ls, i, last).0 matches Some(k) ==> 0 <= k <= ls.len(),
    decreases ls.len() - i,
{
    if i < ls.len() {
        lemma_import_scan(ls, i + 1, Some(i + 1));
        lemma_import_scan(ls, i + 1, last);
    }
}

/// Adding an import puts its line at its place among the lines and keeps every other
/// line; adding it again changes nothing.
pub proof fn law_imports_are_added_once(b: BoxV, ns: Seq<char>)
    requires
        box_wf(b),
        !b.read_only,
        flat(trim(ns)),
        trim(ns).len() > 0,
        !imports(b.doc.lines, import_of(trim(ns))),
    ensures
        ({
            let ls = b.doc.lines;
            let at = import_line(ls);
            let c = import_added(b, ns);
            &&& 0 <= at <= ls.len()
            &&& c.doc.lines == ls.take(at) + seq![import_of(trim(ns))] + ls.skip(at)
            &&& import_added(c, ns) == c
        }),
{
    let ls = b.doc.lines;
    let n = trim(ns);
    let want = import_of(n);
    let at = import_line(ls);
    reveal_strlit("using ");
    reveal_strlit(";");
    lemma_import_scan(ls, 0, None);
    lemma_flat_concat("using "@, n);
    lemma_flat_concat("using "@ + n, ";"@);
    let (pos, text) = import_typing(ls, at, want);
    let d = DocV { cursor: pos, sel: SelV::Nothing, ..b.doc };
    assert(doc_wf(d));
    if at < ls.len() {
        lemma_line_pushed(d, want, at, b.doc.cursor);
    } else {
        lemma_line_appended(d, want, b.doc.cursor);
        assert(ls.push(want) =~= ls.take(at) + seq![want] + ls.skip(at));
    }
    let c = import_added(b, ns);
    assert(c.doc.lines[at] == want);
    assert(want[0] == 'u' && want.last() == ';');
    lemma_trim_whole(want);
    assert(trim(c.doc.lines[at]) == want);
    assert(imports(c.doc.lines, want));
}

// ---------------------------------------------------------------------------
// What becomes of each line
// ---------------------------------------------------------------------------

proof fn lemma_line_of_block(b: BoxV, block: Seq<Seq<char>>, i: int)
    requires
        doc_wf(b.doc),
        !b.read_only,
        0 <= i < b.doc.lines.len(),
        block.len() == sel_lines(b.doc).1 + 1 - sel_lines(b.doc).0,
        block_box(b, block).doc.lines == spliced(b.doc.lines, sel_lines(b.doc).0, sel_lines(b.doc).1, block),
    ensures
        ({
            let (l0, l1) = sel_lines(b.doc);
            let e = block_box(b, block).doc;
            let c = b.doc.cursor;
            &&& 0 <= l0 <= c.line <= l1 < b.doc.lines.len()
            &&& e.lines.len() == b.doc.lines.len()
            &&& i < l0 || i > l1 ==> e.lines[i] == b.doc.lines[i]
            &&& l0 <= i <= l1 ==> e.lines[i] == block[i - l0]
            &&& bounds(b.doc) is None ==> e.sel == SelV::Nothing && e.cursor == clamped(
                e.lines,
                Pos { line: c.line, col: shifted(c.col, b.doc.lines[c.line].len() as int, block[0].len() as int) },
            )
        }),
{
    lemma_bounds(b.doc);
    let (l0, l1) = sel_lines(b.doc);
    let ls = b.doc.lines;
    let r = ls.take(l0) + block + ls.skip(l1 + 1);
    assert(r.len() == ls.len());
    assert(spliced(ls, l0, l1, block) == r);
    if i < l0 {
        assert(r[i] == ls[i]);
    } else if i <= l1 {
        assert(r[i] == block[i - l0]);
    } else {
        assert(r[i] == ls[i]);
    }
}

proof fn lemma_caret_of_splice(b: BoxV, l0: int, l1: int, new: Seq<Seq<char>>, caret: Pos)
    requires
        doc_wf(b.doc),
        !b.read_only,
        0 <= l0 <= l1 < b.doc.lines.len(),
        all_flat(new),
    ensures
        ({
            let e = splice_box(b, l0, l1, new, caret, None).doc;
            &&& e.lines == spliced(b.doc.lines, l0, l1, new)
            &&& valid(e.lines, caret) ==> e.cursor == caret
        }),
{
    lemma_splice(b.doc, l0, l1, new);
}

/// Indenting puts four blanks before each touched line that holds something, and before
/// the caret's line in any case; every other line stays. Without a selection the caret
/// stays where it is in the text.
#[verifier::spinoff_prover]
#[verifier::rlimit(60)]
pub proof fn law_indenting_deepens_the_touched_lines(b: BoxV, i: int)
    requires
        box_wf(b),
        !b.read_only,
        0 <= i < b.doc.lines.len(),
    ensures
        ({
            let (l0, l1) = sel_lines(b.doc);
            let e = indent_box(b).doc;
            let line = b.doc.lines[i];
            &&& e.lines.len() == b.doc.lines.len()
            &&& i < l0 || i > l1 ==> e.lines[i] == line
            &&& l0 <= i <= l1 && (line.len() > 0 || l0 == l1) ==> e.lines[i] == seq![' ', ' ', ' ', ' '] + line
            &&& l0 <= i <= l1 && line.len() == 0 && l0 < l1 ==> e.lines[i] == line
            &&& bounds(b.doc) is None ==> e.cursor == (Pos { col: b.doc.cursor.col + 4, ..b.doc.cursor }) && e.sel
                == SelV::Nothing
        }),
{
    lemma_bounds(b.doc);
    let (l0, l1) = sel_lines(b.doc);
    let block = sel_block(b.doc);
    let only = block.len() == 1;
    let new = on_lines(block, 0, block.len() - 1, |s: Seq<char>| indented(s, only));
    law_block_edits_replace_touched_lines(b);
    let ls = b.doc.lines;
    lemma_line_of_block(b, new, i);
    lemma_line_of_block(b, new, b.doc.cursor.line);
    if l0 <= i <= l1 {
        assert(new[i - l0] == indented(block[i - l0], only));
    }
    assert(new[0] == indented(block[0], only));
}

/// Outdenting takes from the start of each touched line one tab, or as many blanks as it
/// starts with, up to four, and nothing else; every other line stays.
#[verifier::spinoff_prover]
#[verifier::rlimit(60)]
pub proof fn law_outdenting_takes_back_one_level(b: BoxV, i: int)
    requires
        box_wf(b),
        !b.read_only,
        0 <= i < b.doc.lines.len(),
    ensures
        ({
            let (l0, l1) = sel_lines(b.doc);
            let e = outdent_box(b).doc.lines;
            let line = b.doc.lines[i];
            let n = line.len() - e[i].len();
            &&& e.len() == b.doc.lines.len()
            &&& i < l0 || i > l1 ==> e[i] == line
            &&& 0 <= n <= line.len()
            &&& e[i] == line.skip(n)
            &&& l0 <= i <= l1 ==> {
                if line.len() > 0 && line[0] == '\t' {
                    n == 1
                } else {
                    &&& n <= 4
                    &&& forall|k: int| 0 <= k < n ==> #[trigger] line[k] == ' '
                    &&& n < 4 && n < line.len() ==> line[n] != ' '
                }
            }
        }),
{
    lemma_bounds(b.doc);
    let (l0, l1) = sel_lines(b.doc);
    let block = sel_block(b.doc);
    let new = on_lines(block, 0, block.len() - 1, |s: Seq<char>| outdented(s));
    law_block_edits_replace_touched_lines(b);
    let ls = b.doc.lines;
    let line = ls[i];
    lemma_line_of_block(b, new, i);
    if l0 <= i <= l1 {
        assert(new[i - l0] == outdented(block[i - l0]));
        lemma_run_is(line, editops::space());
        let r = run(line, editops::space()) as int;
        assert forall|k: int| 0 <= k < r implies #[trigger] line[k] == ' ' by {
            assert(editops::space()(line[k]));
        }
        if r < line.len() {
            assert(!editops::space()(line[r]));
        }
    } else {
        assert(line.skip(0) =~= line);
    }
}

/// Moving a line up exchanges it with the line above, and the caret goes with it, in its
/// column; the first line stays.
#[verifier::spinoff_prover]
#[verifier::rlimit(60)]
pub proof fn law_moved_up_line_takes_the_caret(b: BoxV)
    requires
        box_wf(b),
        !b.read_only,
    ensures
        ({
            let ls = b.doc.lines;
            let c = b.doc.cursor;
            let e = line_up_box(b);
            if c.line > 0 {
                &&& e.doc.lines == ls.update(c.line, ls[c.line - 1]).update(c.line - 1, ls[c.line])
                &&& e.doc.cursor == (Pos { line: c.line - 1, col: c.col })
            } else {
                e == b
            }
        }),
{
    let ls = b.doc.lines;
    let c = b.doc.cursor;
    if c.line > 0 {
        let two = seq![ls[c.line], ls[c.line - 1]];
        let new = ls.update(c.line, ls[c.line - 1]).update(c.line - 1, ls[c.line]);
        assert(flat(ls[c.line]) && flat(ls[c.line - 1]));
        assert(all_flat(two));
        lemma_caret_of_splice(b, c.line - 1, c.line, two, Pos { line: c.line - 1, col: c.col });
        assert(spliced(ls, c.line - 1, c.line, two) =~= new);
        assert(new[c.line - 1] == ls[c.line]);
        assert(valid(new, Pos { line: c.line - 1, col: c.col }));
    }
}

/// Moving a line down exchanges it with the line below, and the caret goes with it, in
/// its column; the last line stays.
#[verifier::spinoff_prover]
#[verifier::rlimit(60)]
pub proof fn law_moved_down_line_takes_the_caret(b: BoxV)
    requires
        box_wf(b),
        !b.read_only,
    ensures
        ({
            let ls = b.doc.lines;
            let c = b.doc.cursor;
            let e = line_down_box(b);
            if c.line + 1 < ls.len() {
                &&& e.doc.lines == ls.update(c.line, ls[c.line + 1]).update(c.line + 1, ls[c.line])
                &&& e.doc.cursor == (Pos { line: c.line + 1, col: c.col })
            } else {
                e == b
            }
        }),
{
    let ls = b.doc.lines;
    let c = b.doc.cursor;
    if c.line + 1 < ls.len() {
        let two = seq![ls[c.line + 1], ls[c.line]];
        let new = ls.update(c.line, ls[c.line + 1]).update(c.line + 1, ls[c.line]);
        assert(flat(ls[c.line]) && flat(ls[c.line + 1]));
        assert(all_flat(two));
        lemma_caret_of_splice(b, c.line, c.line + 1, two, Pos { line: c.line + 1, col: c.col });
        assert(spliced(ls, c.line, c.line + 1, two) =~= new);
        assert(new[c.line + 1] == ls[c.line]);
        assert(valid(new, Pos { line: c.line + 1, col: c.col }));
    }
}

/// Duplicating puts the touched lines once more below themselves, with the caret in the
/// copy; deleting takes them out, and leaves an empty line if there is no other.
pub proof fn law_touched_lines_are_doubled_or_taken_out(b: BoxV)
    requires
        box_wf(b),
        !b.read_only,
    ensures
        ({
            let ls = b.doc.lines;
            let c = b.doc.cursor;
            let (l0, l1) = sel_lines(b.doc);
            let n = l1 + 1 - l0;
            let twice = duplicate_box(b).doc;
            let gone = delete_box(b).doc;
            &&& l0 <= c.line <= l1
            &&& twice.lines == ls.take(l1 + 1) + ls.subrange(l0, l1 + 1) + ls.skip(l1 + 1)
            &&& twice.cursor == (Pos { line: c.line + n, col: c.col })
            &&& n < ls.len() ==> gone.lines == ls.take(l0) + ls.skip(l1 + 1)
            &&& n == ls.len() ==> gone.lines == seq![Seq::<char>::empty()]
        }),
{
    lemma_bounds(b.doc);
    let ls = b.doc.lines;
    let (l0, l1) = sel_lines(b.doc);
    let c = b.doc.cursor;
    law_duplicate_adds_a_copy(b, Pos { line: c.line + (l1 - l0 + 1), col: c.col });
    lemma_splice(b.doc, l0, l1, Seq::empty());
    assert(ls.take(l0) + Seq::<Seq<char>>::empty() + ls.skip(l1 + 1) =~= ls.take(l0) + ls.skip(l1 + 1));
    let n = l1 + 1 - l0;
    let t = duplicated(ls, l0, l1);
    assert(t[c.line + n] == ls[c.line]);
}

/// The touched lines are those of the selection, from its first to its last, or the
/// caret's.
pub proof fn law_touched_lines(d: DocV)
    requires
        doc_wf(d),
    ensures
        bounds(d) is None ==> sel_lines(d) == (d.cursor.line, d.cursor.line),
        bounds(d) matches Some((a, b)) ==> sel_lines(d) == (a.line, b.line),
        sel_block(d).len() == sel_lines(d).1 + 1 - sel_lines(d).0,
        forall|k: int| 0 <= k < sel_block(d).len() ==> #[trigger] sel_block(d)[k] == d.lines[sel_lines(d).0 + k],
{
    lemma_bounds(d);
}

/// Commenting touched lines puts the mark before each line that holds more than white
/// space, all at one column that is not behind any of their indentations; the other
/// lines stay.
#[verifier::spinoff_prover]
#[verifier::rlimit(60)]
pub proof fn law_commenting_marks_every_line(b: BoxV, i: int)
    requires
        box_wf(b),
        !b.read_only,
        0 <= i < b.doc.lines.len(),
        !editops::all_commented(sel_block(b.doc), 0, sel_block(b.doc).len() - 1, "// "@),
    ensures
        ({
            let (l0, l1) = sel_lines(b.doc);
            let e = comment_box(b).doc.lines;
            let line = b.doc.lines[i];
            &&& e.len() == b.doc.lines.len()
            &&& i < l0 || i > l1 || trim(line).len() == 0 ==> e[i] == line
            &&& l0 <= i <= l1 && trim(line).len() > 0 ==> exists|at: int|
                {
                    &&& 0 <= at <= leading(line).len()
                    &&& #[trigger] noted_at(b, e, at)
                    &&& e[i] == line.take(at) + "// "@ + line.skip(at)
                }
        }),
{
    lemma_bounds(b.doc);
    let (l0, l1) = sel_lines(b.doc);
    let block = sel_block(b.doc);
    let n = block.len() - 1;
    let new = toggled(block, 0, n, comment_prefix());
    law_block_edits_replace_touched_lines(b);
    let ls = b.doc.lines;
    let line = ls[i];
    let e = comment_box(b).doc.lines;
    assert forall|k: int| 0 <= k < ls.len() implies (#[trigger] e[k]) == (if l0 <= k <= l1 {
        new[k - l0]
    } else {
        ls[k]
    }) by {
        lemma_line_of_block(b, new, k);
    }
    lemma_line_of_block(b, new, i);
    let at = match editops::shallowest(block, 0, n) {
        Some(m) => m,
        None => 0,
    };
    editops::lemma_shallowest(block, 0, n);
    assert forall|k: int| l0 <= k <= l1 && trim(#[trigger] ls[k]).len() > 0 implies {
        &&& 0 <= at <= leading(ls[k]).len()
        &&& e[k] == ls[k].take(at) + "// "@ + ls[k].skip(at)
    } by {
        assert(block[k - l0] == ls[k]);
        assert(editops::inked(block[k - l0]));
        lemma_run_is(ls[k], editops::blank());
        assert(e[k] == new[k - l0]);
        assert(new[k - l0] == commented(block[k - l0], comment_prefix(), at));
    }
    if l0 <= i <= l1 {
        assert(block[i - l0] == line);
        assert(e[i] == new[i - l0]);
        if trim(line).len() > 0 {
            assert(noted_at(b, e, at));
        }
    }
}

/// Whether every touched line that holds more than white space has the mark at a column.
pub open spec fn noted_at(b: BoxV, e: Seq<Seq<char>>, at: int) -> bool {
    forall|k: int|
        sel_lines(b.doc).0 <= k <= sel_lines(b.doc).1 && trim(#[trigger] b.doc.lines[k]).len() > 0 ==> e[k]
            == b.doc.lines[k].take(at) + "// "@ + b.doc.lines[k].skip(at)
}

/// An import goes behind the last import at the head of the file; where there is none, before
/// the first line of code, behind the comments, directives and empty lines that lead it.
pub proof fn law_import_goes_behind_the_imports(ls: Seq<Seq<char>>, code: int, k: int)
    requires
        -1 <= k < code <= ls.len(),
        forall|i: int| 0 <= i < code ==> starts_with(trim_start(#[trigger] ls[i]), "using "@) || header_line(trim_start(ls[i])),
        code < ls.len() ==> !starts_with(trim_start(ls[code]), "using "@) && !header_line(trim_start(ls[code])),
        k >= 0 ==> starts_with(trim_start(ls[k]), "using "@),
        forall|i: int| k < i < code ==> !starts_with(trim_start(#[trigger] ls[i]), "using "@),
    ensures
        k >= 0 ==> import_line(ls) == k + 1,
        k < 0 ==> import_line(ls) == code,
{
    lemma_scanned(ls, 0, None, code, k);
}

proof fn lemma_scanned(ls: Seq<Seq<char>>, i: int, last: Option<int>, code: int, k: int)
    requires
        0 <= i <= code <= ls.len(),
        -1 <= k < code || (k == -1 && code == 0),
        forall|j: int| 0 <= j < code ==> starts_with(trim_start(#[trigger] ls[j]), "using "@) || header_line(trim_start(ls[j])),
        code < ls.len() ==> !starts_with(trim_start(ls[code]), "using "@) && !header_line(trim_start(ls[code])),
        k >= 0 ==> starts_with(trim_start(ls[k]), "using "@),
        forall|j: int| k < j < code ==> !starts_with(trim_start(#[trigger] ls[j]), "using "@),
    ensures
        import_scan(ls, i, last) == (if i <= k {
            (Some(k + 1), code)
        } else {
            (last, code)
        }),
    decreases ls.len() - i,
{
    if i < code {
        assert(starts_with(trim_start(ls[i]), "using "@) || header_line(trim_start(ls[i])));
        if starts_with(trim_start(ls[i]), "using "@) {
            lemma_scanned(ls, i + 1, Some(i + 1), code, k);
        } else {
            lemma_scanned(ls, i + 1, last, code, k);
        }
    }
}

/// What leads a file are empty lines, comments and directives.
pub proof fn law_leading_lines(t: Seq<char>)
    ensures
        t.len() == 0 ==> header_line(t),
        starts_with(t, "//"@) || starts_with(t, "/*"@) || starts_with(t, "*"@) || starts_with(t, "#"@) ==> header_line(t),
        t.len() > 0 && !starts_with(t, "//"@) && !starts_with(t, "/*"@) && !starts_with(t, "*"@) && !starts_with(t, "#"@)
            ==> !header_line(t),
{
}

/// An import reads as the language writes it.
pub proof fn law_import_reads_as_written(ns: Seq<char>)
    ensures
        import_of(ns) == "using "@ + ns + ";"@,
{
}

} // verus!

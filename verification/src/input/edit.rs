//! The editing core of the text box: typing, composing, undo, and the operations
//! on lines, words and selections.
//!
//! Motions that depend on how the text is laid out are left to the program around
//! the library: [`InputBox::key`] says which one it needs, and
//! [`InputBox::moved`] takes the position it leads to.

use vstd::prelude::*;
use vstd::string::StringExecFns;

use crate::input::doc::{
    behind, bounds, doc_wf, dropped, inserted, items_v, leads, lemma_behind, lemma_dropped, lemma_leads_concat, lemma_pieces_flat,
    lemma_pieces_of_flat, lemma_typed, pieces, reversed, split_lines, typed, up_to, valid, Cursor, Doc, DocV, Item,
    ItemV, Pos, SelV, Selection,
};
use crate::input::gutter::{Gutter, GutterV};
use crate::input::hunks::{Diff, DiffV};
use crate::input::look::{Look, LookV};
use crate::input::popup::{Popup, PopupV};
use crate::input::history::{
    applied, applies, capped, history_wf, law_recording_is_sound, law_redoing_is_sound, law_undoing_is_sound,
    lemma_fit_applies, next_version, recorded, redone, restarted, sound, text_wf, undone, History, HistoryV,
};
use crate::text::{join, same};

verus! {

// ---------------------------------------------------------------------------
// State
// ---------------------------------------------------------------------------

/// A "peek" at a changed block: the lines it had and has, each with whether it was
/// added.
pub struct Peek {
    /// The block, by its index, so that hovering only rebuilds on a different one.
    pub hunk: usize,
    pub lines: Vec<(bool, String)>,
}

/// A "peek" at a changed block.
#[verifier::ext_equal]
pub ghost struct PeekV {
    pub hunk: int,
    pub lines: Seq<(bool, Seq<char>)>,
}

impl View for Peek {
    type V = PeekV;

    open spec fn view(&self) -> PeekV {
        PeekV {
            hunk: self.hunk as int,
            lines: Seq::new(self.lines@.len(), |i: int| (self.lines@[i].0, self.lines@[i].1@)),
        }
    }
}

/// The state of a text box.
#[verifier::ext_equal]
pub ghost struct BoxV {
    pub doc: DocV,
    pub hist: HistoryV,
    /// Live IME preedit (marked text) inserted inline at the caret while composing,
    /// and where it starts.
    pub preedit: Seq<char>,
    pub preedit_anchor: Option<Pos>,
    pub read_only: bool,
    pub code_mode: bool,
    /// Grows on every text mutation.
    pub edit_gen: u64,
    /// Set when the caret moved, so that it is scrolled into view once.
    pub caret_dirty: bool,
    pub peek: Option<PeekV>,
    pub diff: DiffV,
    pub popup: PopupV,
    pub gutter: GutterV,
    pub look: LookV,
}

/// Whether a text box is sound.
pub open spec fn box_wf(b: BoxV) -> bool {
    doc_wf(b.doc) && history_wf(b.hist)
}

/// An empty text box.
pub open spec fn fresh_box() -> BoxV {
    BoxV {
        doc: DocV {
            lines: seq![Seq::<char>::empty()],
            cursor: Pos { line: 0, col: 0 },
            sel: SelV::Nothing,
        },
        hist: HistoryV {
            undo: Seq::empty(),
            redo: Seq::empty(),
            undo_marks: Seq::empty(),
            redo_marks: Seq::empty(),
            cur_mark: 0,
            next_mark: 1,
            wrapped: false,
            limit: crate::input::history::DEFAULT_UNDO_LIMIT,
        },
        preedit: Seq::empty(),
        preedit_anchor: None,
        read_only: false,
        code_mode: false,
        edit_gen: 0,
        caret_dirty: true,
        peek: None,
        diff: DiffV {
            head: None,
            index: None,
            index_hunks: Seq::empty(),
            generation: u64::MAX,
            shown: Seq::empty(),
        },
        popup: PopupV { items: Seq::empty(), selected: 0 },
        gutter: GutterV { shown: false, breakpoints: Seq::empty(), bp_column: false, exec_line: None },
        look: LookV { language: None, dark: true, generation: u64::MAX, attrs_dirty: true },
    }
}

/// The text changed: what depends on it is out of date, the caret is to be seen,
/// and a peek is dropped, for an edit shifts the blocks.
pub open spec fn bumped(b: BoxV) -> BoxV {
    BoxV { edit_gen: next_version(b.edit_gen), caret_dirty: true, peek: None, ..b }
}

/// After an undoable edit that leads to a document by some steps.
pub open spec fn edited(b: BoxV, d: DocV, its: Seq<ItemV>) -> BoxV {
    bumped(BoxV { doc: d, hist: recorded(b.hist, its), ..b })
}

/// Where the caret moved.
pub open spec fn moved_to(b: BoxV, d: DocV) -> BoxV {
    BoxV { doc: d, caret_dirty: true, ..b }
}

/// An edit whose steps lead from the old document to the new keeps the history
/// belonging to the text.
pub proof fn law_edits_keep_history_sound(b: BoxV, d: DocV, its: Seq<ItemV>)
    requires
        sound(b.hist, b.doc.lines),
        leads(b.doc, its, d),
    ensures
        sound(edited(b, d, its).hist, edited(b, d, its).doc.lines),
{
    law_recording_is_sound(b.hist, b.doc.lines, its);
}

/// Whether nothing is being composed and the history belongs to the text: all that
/// was done can be undone, and all that was undone can be redone.
pub open spec fn settled(b: BoxV) -> bool {
    b.preedit.len() == 0 && sound(b.hist, b.doc.lines)
}

/// Whether undo has nothing to do or can take the latest change back: every settled
/// box can, and any other in which its steps still lie in the text.
pub open spec fn undoable(b: BoxV) -> bool {
    b.read_only || b.hist.undo.len() == 0 || settled(b) || applies(b.doc.lines, reversed(b.hist.undo.last()), 0)
}

/// Whether redo has nothing to do or can make the latest undone change again.
pub open spec fn redoable(b: BoxV) -> bool {
    b.read_only || b.hist.redo.len() == 0 || settled(b) || applies(b.doc.lines, reversed(b.hist.redo.last()), 0)
}

/// Whether there is a change that undo takes back.
pub open spec fn undo_waits(b: BoxV) -> bool {
    !b.read_only && b.hist.undo.len() > 0 && applies(b.doc.lines, reversed(b.hist.undo.last()), 0)
}

/// Whether there is an undone change that redo makes again.
pub open spec fn redo_waits(b: BoxV) -> bool {
    !b.read_only && b.hist.redo.len() > 0 && applies(b.doc.lines, reversed(b.hist.redo.last()), 0)
}

/// In a settled box that can be written to, all that was done can be undone, and all
/// that was undone redone.
pub proof fn law_settled_boxes_undo(b: BoxV)
    requires
        settled(b),
        !b.read_only,
    ensures
        undo_waits(b) == (b.hist.undo.len() > 0),
        redo_waits(b) == (b.hist.redo.len() > 0),
{
    lemma_undoable(b);
}

/// With the latest change undone; a read-only text stays as it is.
pub open spec fn undo_box(b: BoxV) -> BoxV {
    if !b.read_only && b.hist.undo.len() > 0 {
        bumped(BoxV { doc: applied(b.doc, reversed(b.hist.undo.last())), hist: undone(b.hist), ..b })
    } else {
        b
    }
}

/// With the latest undone change redone; a read-only text stays as it is.
pub open spec fn redo_box(b: BoxV) -> BoxV {
    if !b.read_only && b.hist.redo.len() > 0 {
        bumped(BoxV { doc: applied(b.doc, reversed(b.hist.redo.last())), hist: redone(b.hist), ..b })
    } else {
        b
    }
}

/// An edit leaves a settled box settled.
pub proof fn lemma_edit_settles(b: BoxV, d: DocV, its: Seq<ItemV>)
    requires
        leads(b.doc, its, d),
    ensures
        settled(b) ==> settled(edited(b, d, its)),
{
    if settled(b) {
        law_edits_keep_history_sound(b, d, its);
    }
}

/// Undoing and redoing leave a settled box settled.
pub proof fn law_undo_and_redo_settle(b: BoxV)
    requires
        settled(b),
    ensures
        settled(undo_box(b)),
        settled(redo_box(b)),
{
    if b.hist.undo.len() > 0 {
        law_undoing_is_sound(b.hist, b.doc.lines);
    }
    if b.hist.redo.len() > 0 {
        law_redoing_is_sound(b.hist, b.doc.lines);
    }
}

/// An edit changes the version, as long as versions have not come round; undo takes
/// the edit back, text and version, and redo makes it again.
pub proof fn law_undo_takes_an_edit_back(b: BoxV, d: DocV, its: Seq<ItemV>)
    requires
        settled(b),
        !b.read_only,
        history_wf(b.hist),
        leads(b.doc, its, d),
    ensures
        ({
            let e = edited(b, d, its);
            &&& !b.hist.wrapped ==> e.hist.cur_mark != b.hist.cur_mark
            &&& undo_box(e).doc.lines == b.doc.lines
            &&& undo_box(e).hist.cur_mark == b.hist.cur_mark
            &&& redo_box(undo_box(e)).doc.lines == e.doc.lines
            &&& redo_box(undo_box(e)).hist == e.hist
        }),
{
    let e = edited(b, d, its);
    lemma_edit_settles(b, d, its);
    crate::input::history::law_undo_restores(b.hist, b.doc.lines, its);
    crate::input::history::law_redo_undoes_undo(e.hist, e.doc.lines);
    if !b.hist.wrapped {
        crate::input::history::law_edits_change_the_version(b.hist, its);
    }
}

proof fn lemma_undoable(b: BoxV)
    ensures
        undoable(b) && !b.read_only && b.hist.undo.len() > 0 ==> applies(
            b.doc.lines,
            reversed(b.hist.undo.last()),
            0,
        ),
        redoable(b) && !b.read_only && b.hist.redo.len() > 0 ==> applies(
            b.doc.lines,
            reversed(b.hist.redo.last()),
            0,
        ),
{
    if settled(b) {
        if b.hist.undo.len() > 0 {
            lemma_fit_applies(b.doc.lines, reversed(b.hist.undo.last()), 0);
        }
        if b.hist.redo.len() > 0 {
            lemma_fit_applies(b.doc.lines, reversed(b.hist.redo.last()), 0);
        }
    }
}

/// A text box with undo, in which text can be composed.
pub struct InputBox {
    pub doc: Doc,
    pub hist: History,
    pub preedit: String,
    pub preedit_anchor: Option<Cursor>,
    pub read_only: bool,
    pub code_mode: bool,
    pub edit_gen: u64,
    pub caret_dirty: bool,
    pub peek: Option<Peek>,
    pub diff: Diff,
    pub popup: Popup,
    pub gutter: Gutter,
    pub look: Look,
}

impl View for InputBox {
    type V = BoxV;

    open spec fn view(&self) -> BoxV {
        BoxV {
            doc: self.doc@,
            hist: self.hist@,
            preedit: self.preedit@,
            preedit_anchor: match self.preedit_anchor {
                Some(c) => Some(c@),
                None => None,
            },
            read_only: self.read_only,
            code_mode: self.code_mode,
            edit_gen: self.edit_gen,
            caret_dirty: self.caret_dirty,
            peek: match self.peek {
                Some(p) => Some(p@),
                None => None,
            },
            diff: self.diff@,
            popup: self.popup@,
            gutter: self.gutter@,
            look: self.look@,
        }
    }
}

// ---------------------------------------------------------------------------
// Typing and composing
// ---------------------------------------------------------------------------

/// If a text is a single opening bracket/quote, the matching closer to auto-insert.
pub open spec fn close_of(text: Seq<char>) -> Option<Seq<char>> {
    if text == "("@ {
        Some(")"@)
    } else if text == "["@ {
        Some("]"@)
    } else if text == "{"@ {
        Some("}"@)
    } else if text == "\""@ {
        Some("\""@)
    } else if text == "'"@ {
        Some("'"@)
    } else {
        None
    }
}

/// If `text` is a single opening bracket/quote, the matching closer to auto-insert.
pub fn matching_close(text: &str) -> (r: Option<&'static str>)
    ensures
        match r {
            Some(c) => close_of(text@) == Some(c@),
            None => close_of(text@) is None,
        },
{
    if same(text, "(") {
        Some(")")
    } else if same(text, "[") {
        Some("]")
    } else if same(text, "{") {
        Some("}")
    } else if same(text, "\"") {
        Some("\"")
    } else if same(text, "'") {
        Some("'")
    } else {
        None
    }
}

/// The position in the text that is nearest to a position.
pub open spec fn clamped(ls: Seq<Seq<char>>, p: Pos) -> Pos {
    let line = if p.line < ls.len() { p.line } else { ls.len() - 1 };
    Pos { line, col: if p.col <= ls[line].len() { p.col } else { ls[line].len() as int } }
}

/// Without the composed text, the caret back where composing started.
pub open spec fn uncomposed(b: BoxV) -> BoxV {
    if b.preedit.len() == 0 {
        b
    } else {
        let d = match b.preedit_anchor {
            Some(a) => dropped(DocV { sel: SelV::Normal(clamped(b.doc.lines, a)), ..b.doc }).0,
            None => b.doc,
        };
        bumped(BoxV { doc: d, preedit: Seq::empty(), preedit_anchor: None, ..b })
    }
}

/// With composed text at the caret in place of the selection.
pub open spec fn composed(b: BoxV, text: Seq<char>) -> BoxV {
    let c = uncomposed(b);
    if text.len() == 0 || b.read_only {
        c
    } else {
        bumped(
            BoxV {
                doc: typed(c.doc, text).0,
                preedit: text,
                preedit_anchor: Some(dropped(c.doc).0.cursor),
                ..c
            },
        )
    }
}

/// A text and its closer typed, the caret between them.
pub open spec fn typed_pair(d: DocV, text: Seq<char>, close: Seq<char>) -> (DocV, Seq<ItemV>) {
    let one = typed(d, text);
    let two = typed(one.0, close);
    (DocV { cursor: one.0.cursor, ..two.0 }, one.1 + two.1)
}

/// After typed or committed text was put in.
pub open spec fn entered(b: BoxV, text: Seq<char>) -> BoxV {
    if text.len() == 0 || b.read_only {
        b
    } else {
        let c = uncomposed(b);
        let t = if b.code_mode && close_of(text) is Some {
            typed_pair(c.doc, text, close_of(text)->0)
        } else {
            typed(c.doc, text)
        };
        edited(c, t.0, t.1)
    }
}

/// With the whole text replaced, the caret at its end and the history afresh. What
/// was composed is forgotten, and the selection stays where it is.
pub open spec fn retexted(b: BoxV, text: Seq<char>) -> BoxV {
    let ls = pieces(text);
    bumped(
        BoxV {
            doc: DocV {
                lines: ls,
                cursor: Pos { line: ls.len() - 1, col: ls.last().len() as int },
                ..b.doc
            },
            hist: restarted(b.hist),
            preedit: Seq::empty(),
            preedit_anchor: None,
            ..b
        },
    )
}

/// With text put in at the caret in place of the selection, undoably.
pub open spec fn typed_box(b: BoxV, text: Seq<char>) -> BoxV {
    edited(b, typed(b.doc, text).0, typed(b.doc, text).1)
}

/// The first `n` characters of two insertions stay put: the caret lies in the
/// longer text.
proof fn lemma_pair_wf(d: DocV, text: Seq<char>, close: Seq<char>)
    requires
        doc_wf(d),
    ensures
        doc_wf(typed_pair(d, text, close).0),
        leads(d, typed_pair(d, text, close).1, typed_pair(d, text, close).0),
{
    let one = typed(d, text);
    lemma_typed(d, text);
    let two = typed(one.0, close);
    lemma_typed(one.0, close);
    lemma_leads_concat(d, one.1, one.0, two.1, two.0);
    let c = one.0.cursor;
    if close.len() > 0 {
        lemma_pieces_flat(close);
        lemma_behind(one.0.lines, c, pieces(close));
    }
}

/// A position moved into the text lies in it.
pub proof fn lemma_clamped(ls: Seq<Seq<char>>, p: Pos)
    requires
        ls.len() > 0,
        0 <= p.line,
        0 <= p.col,
    ensures
        valid(ls, clamped(ls, p)),
        valid(ls, p) ==> clamped(ls, p) == p,
{
}

/// Composing and then giving it up leaves the text and the caret as they were, but
/// for a selection, which the composition replaced.
pub proof fn law_composing_leaves_no_trace(b: BoxV, text: Seq<char>)
    requires
        box_wf(b),
        b.preedit.len() == 0,
        !b.read_only,
    ensures
        uncomposed(composed(b, text)).doc == (if text.len() == 0 {
            b.doc
        } else {
            dropped(b.doc).0
        }),
        b.doc.sel == SelV::Nothing ==> uncomposed(composed(b, text)).doc == b.doc,
        uncomposed(composed(b, text)).hist == b.hist,
        uncomposed(composed(b, text)).preedit.len() == 0,
        settled(b) && b.doc.sel == SelV::Nothing ==> settled(uncomposed(composed(b, text))),
{
    if text.len() > 0 {
        let c = composed(b, text);
        let ps = pieces(text);
        let d0 = dropped(b.doc).0;
        let p = d0.cursor;
        lemma_dropped(b.doc);
        lemma_pieces_flat(text);
        lemma_behind(d0.lines, p, ps);
        crate::input::doc::law_cut_undoes_put(d0.lines, p, ps);
        assert(c.doc.lines == inserted(d0.lines, p, ps));
        assert(clamped(c.doc.lines, p) == p);
        let d = DocV { sel: SelV::Normal(p), ..c.doc };
        assert(bounds(d) == Some((p, behind(p, ps)))) by {
            if up_to(behind(p, ps), p) {
                assert(behind(p, ps) == p);
            }
        }
        assert(uncomposed(c).doc =~= d0);
    }
}

/// Composing again replaces what was composed.
pub proof fn law_compositions_replace_each_other(b: BoxV, one: Seq<char>, two: Seq<char>)
    requires
        box_wf(b),
        b.preedit.len() == 0,
        !b.read_only,
        two.len() > 0,
    ensures
        composed(composed(b, one), two).doc == composed(b, two).doc,
        composed(composed(b, one), two).preedit == two,
{
    law_composing_leaves_no_trace(b, one);
    lemma_dropped(b.doc);
}

impl InputBox {
    /// A sound text box (see [`box_wf`]).
    pub open spec fn wf(&self) -> bool {
        box_wf(self@)
    }

    pub fn new() -> (r: Self)
        ensures
            r.wf(),
            settled(r@),
            r@ == fresh_box(),
    {
        let b = InputBox {
            doc: Doc::new(),
            hist: History::new(),
            preedit: String::new(),
            preedit_anchor: None,
            read_only: false,
            code_mode: false,
            edit_gen: 0,
            caret_dirty: true,
            peek: None,
            diff: Diff::new(),
            popup: Popup::new(),
            gutter: Gutter::new(),
            look: Look::new(),
        };
        assert(b@.doc.lines =~= seq![Seq::<char>::empty()]);
        b
    }

    /// Read-only mode: caret/selection/scroll/find still work; text edits are ignored.
    pub fn set_read_only(&mut self, on: bool)
        ensures
            final(self)@ == (BoxV { read_only: on, ..old(self)@ }),
    {
        self.read_only = on;
    }

    /// Enable code-editor behaviors (auto-indent, auto-close brackets, smart Home).
    pub fn set_code_mode(&mut self, on: bool)
        ensures
            final(self)@ == (BoxV { code_mode: on, ..old(self)@ }),
    {
        self.code_mode = on;
    }

    /// The generation of the text: it differs after every mutation.
    pub fn generation(&self) -> (r: u64)
        ensures
            r == self@.edit_gen,
    {
        self.edit_gen
    }

    /// Whether text is being composed.
    pub fn composing(&self) -> (r: bool)
        ensures
            r == (self@.preedit.len() > 0),
    {
        !self.preedit.as_str().is_empty()
    }

    /// Where the composed text starts, while text is being composed.
    pub fn preedit_start(&self) -> (r: Option<Cursor>)
        ensures
            match r {
                Some(c) => self@.preedit.len() > 0 && self@.preedit_anchor == Some(c@),
                None => self@.preedit.len() == 0 || self@.preedit_anchor is None,
            },
    {
        if self.composing() {
            self.preedit_anchor
        } else {
            None
        }
    }

    /// Whether the caret and the selection lie in the text. Every operation asks for
    /// that; undo and a replaced text can leave a selection behind that does not.
    pub fn selection_fits(&self) -> (r: bool)
        requires
            text_wf(self@.doc),
        ensures
            r == doc_wf(self@.doc),
    {
        let a = match self.doc.sel {
            Selection::Nothing => return true,
            Selection::Normal(a) => a,
            Selection::Line(a) => a,
        };
        a.line < self.doc.lines.len() && a.col <= self.doc.line_len(a.line)
    }

    /// Mark the text as changed.
    pub(crate) fn bump(&mut self)
        ensures
            final(self)@ == bumped(old(self)@),
    {
        self.edit_gen = if self.edit_gen == u64::MAX {
            0
        } else {
            self.edit_gen + 1
        };
        self.caret_dirty = true;
        self.peek = None;
    }

    /// Record an undoable edit that was just made.
    pub(crate) fn record(&mut self, items: Vec<Item>)
        requires
            history_wf(old(self)@.hist),
        ensures
            final(self)@ == edited(old(self)@, old(self)@.doc, items_v(items@)),
            history_wf(final(self)@.hist),
    {
        self.hist.push_change(items);
        self.bump();
    }

    /// The current text (lines joined by '\n').
    pub fn text(&self) -> (r: String)
        ensures
            r@ == join(self@.doc.lines, '\n'),
    {
        self.doc.text()
    }

    /// Logical line count.
    pub fn line_count(&self) -> (r: usize)
        ensures
            r == self@.doc.lines.len(),
    {
        self.doc.lines.len()
    }

    /// Replace the whole text and move the caret to the end. The history starts
    /// afresh; what was composed is forgotten, and the selection stays where it is.
    pub fn set_text(&mut self, text: &str)
        ensures
            final(self)@ == retexted(old(self)@, text@),
            text_wf(final(self)@.doc),
            history_wf(final(self)@.hist),
            settled(final(self)@),
            old(self)@.doc.sel == SelV::Nothing ==> final(self).wf(),
    {
        proof {
            lemma_pieces_flat(text@);
        }
        let lines = split_lines(text);
        let n: usize = lines.len();
        self.doc.lines = lines;
        let col: usize = self.doc.line_len(n - 1);
        self.doc.cursor = Cursor { line: n - 1, col };
        self.preedit = String::new();
        self.preedit_anchor = None;
        self.hist.restart();
        self.bump();
    }

    /// Empty the box.
    pub fn clear(&mut self)
        ensures
            final(self)@ == retexted(old(self)@, Seq::empty()),
            final(self)@.doc.lines == seq![Seq::<char>::empty()],
            text_wf(final(self)@.doc),
            history_wf(final(self)@.hist),
            settled(final(self)@),
            old(self)@.doc.sel == SelV::Nothing ==> final(self).wf(),
    {
        proof {
            reveal_strlit("");
            lemma_pieces_of_flat(""@);
            assert(""@ =~= Seq::<char>::empty());
        }
        self.set_text("");
    }

    /// Clamp a cursor to the current buffer's bounds.
    pub(crate) fn clamp_cursor(&self, c: Cursor) -> (r: Cursor)
        requires
            self@.doc.lines.len() > 0,
        ensures
            r@ == clamped(self@.doc.lines, c@),
    {
        let n: usize = self.doc.lines.len();
        let line: usize = if c.line < n {
            c.line
        } else {
            n - 1
        };
        let len: usize = self.doc.line_len(line);
        Cursor {
            line,
            col: if c.col <= len {
                c.col
            } else {
                len
            },
        }
    }

    /// Remove the current preedit (if any), restoring the caret to its anchor.
    pub fn clear_preedit(&mut self)
        requires
            old(self).wf(),
        ensures
            final(self)@ == uncomposed(old(self)@),
            final(self).wf(),
    {
        if self.preedit.as_str().is_empty() {
            return;
        }
        if let Some(a) = self.preedit_anchor {
            proof {
                lemma_clamped(self@.doc.lines, a@);
            }
            let c = self.clamp_cursor(a);
            self.doc.sel = Selection::Normal(c);
            let mut spare: Vec<Item> = Vec::new();
            self.doc.delete_selection(&mut spare);
        }
        self.preedit_anchor = None;
        self.preedit = String::new();
        self.bump();
    }

    /// Show `text` as inline IME preedit (marked text) at the caret. It's inserted
    /// into the text so it wraps and grows the box exactly like real text, but is
    /// not committed (no undo) — passing it again replaces it, and an empty string
    /// removes it (on commit/cancel). The caret sits at its end.
    pub fn set_preedit(&mut self, text: &str)
        requires
            old(self).wf(),
        ensures
            final(self)@ == composed(old(self)@, text@),
            final(self).wf(),
            settled(old(self)@) && old(self)@.doc.sel == SelV::Nothing && !old(self)@.read_only ==> settled(
                uncomposed(final(self)@),
            ),
    {
        proof {
            if settled(self@) && self@.doc.sel == SelV::Nothing && !self@.read_only {
                law_composing_leaves_no_trace(self@, text@);
            }
        }
        self.clear_preedit();
        if text.is_empty() || self.read_only {
            return;
        }
        // The composition takes the selection's place.
        proof {
            lemma_dropped(self@.doc);
        }
        let mut spare: Vec<Item> = Vec::new();
        self.doc.delete_selection(&mut spare);
        self.preedit_anchor = Some(self.doc.cursor);
        self.preedit = text.to_owned();
        self.doc.insert_string(text, &mut spare);
        self.bump();
    }

    /// Insert typed or IME-committed text at the caret.
    pub fn insert(&mut self, text: &str)
        requires
            old(self).wf(),
        ensures
            final(self)@ == entered(old(self)@, text@),
            final(self).wf(),
            settled(old(self)@) ==> settled(final(self)@),
            text@.len() > 0 && !old(self)@.read_only && settled(uncomposed(old(self)@)) ==> settled(final(self)@),
    {
        if text.is_empty() || self.read_only {
            return;
        }
        // A real insert (e.g. IME commit) replaces any in-progress composition.
        self.clear_preedit();
        let ghost c = self@;
        let mut items: Vec<Item> = Vec::new();
        assert(items_v(items@) =~= Seq::empty());
        // Code mode: typing an opening bracket/quote also inserts its closer, with
        // the caret left between the pair.
        if self.code_mode {
            if let Some(close) = matching_close(text) {
                proof {
                    lemma_pair_wf(c.doc, text@, close@);
                }
                self.doc.insert_string(text, &mut items);
                let mid = self.doc.cursor;
                self.doc.insert_string(close, &mut items);
                self.doc.cursor = mid;
                assert(items_v(items@) =~= typed_pair(c.doc, text@, close@).1);
                assert(self@.doc =~= typed_pair(c.doc, text@, close@).0);
                proof {
                    lemma_edit_settles(c, typed_pair(c.doc, text@, close@).0, typed_pair(c.doc, text@, close@).1);
                }
                self.record(items);
                return;
            }
        }
        self.doc.insert_string(text, &mut items);
        assert(items_v(items@) =~= typed(c.doc, text@).1);
        proof {
            lemma_typed(c.doc, text@);
            lemma_edit_settles(c, typed(c.doc, text@).0, typed(c.doc, text@).1);
        }
        self.record(items);
    }

    /// Whether there is an edit that [`InputBox::undo`] takes back: its steps lie in
    /// the text, which a composition may have moved away from under them.
    pub fn can_undo(&self) -> (r: bool)
        requires
            text_wf(self@.doc),
            history_wf(self@.hist),
        ensures
            r == undo_waits(self@),
            r ==> undoable(self@),
    {
        !self.read_only && self.hist.can_undo(&self.doc)
    }

    /// Whether there is an undone edit that [`InputBox::redo`] makes again.
    pub fn can_redo(&self) -> (r: bool)
        requires
            text_wf(self@.doc),
            history_wf(self@.hist),
        ensures
            r == redo_waits(self@),
            r ==> redoable(self@),
    {
        !self.read_only && self.hist.can_redo(&self.doc)
    }

    /// Undo the most recent edit (moves it to the redo stack). The caret goes where
    /// the text changed; the selection stays where it is.
    pub fn undo(&mut self)
        requires
            text_wf(old(self)@.doc),
            history_wf(old(self)@.hist),
            undoable(old(self)@),
        ensures
            final(self)@ == undo_box(old(self)@),
            text_wf(final(self)@.doc),
            history_wf(final(self)@.hist),
            settled(old(self)@) ==> settled(final(self)@),
            old(self)@.doc.sel == SelV::Nothing ==> final(self).wf(),
            old(self)@.read_only ==> final(self)@ == old(self)@,
    {
        let ghost b = self@;
        proof {
            lemma_undoable(b);
            if settled(b) {
                law_undo_and_redo_settle(b);
            }
        }
        if !self.read_only && self.hist.undo(&mut self.doc) {
            self.bump();
        }
    }

    /// Redo the most recently undone edit.
    pub fn redo(&mut self)
        requires
            text_wf(old(self)@.doc),
            history_wf(old(self)@.hist),
            redoable(old(self)@),
        ensures
            final(self)@ == redo_box(old(self)@),
            text_wf(final(self)@.doc),
            history_wf(final(self)@.hist),
            settled(old(self)@) ==> settled(final(self)@),
            old(self)@.doc.sel == SelV::Nothing ==> final(self).wf(),
            old(self)@.read_only ==> final(self)@ == old(self)@,
    {
        let ghost b = self@;
        proof {
            lemma_undoable(b);
            if settled(b) {
                law_undo_and_redo_settle(b);
            }
        }
        if !self.read_only && self.hist.redo(&mut self.doc) {
            self.bump();
        }
    }

    /// Set the undo-history cap (0 = unlimited).
    pub fn set_undo_limit(&mut self, limit: usize)
        requires
            history_wf(old(self)@.hist),
        ensures
            final(self)@ == (BoxV {
                hist: capped(HistoryV { limit, ..old(self)@.hist }),
                ..old(self)@
            }),
            history_wf(final(self)@.hist),
            settled(old(self)@) ==> settled(final(self)@),
    {
        proof {
            if settled(self@) {
                crate::input::history::law_capping_is_sound(self@.hist, self@.doc.lines, limit);
            }
        }
        self.hist.set_undo_limit(limit);
    }

    /// The current document-state version.
    pub fn edit_serial(&self) -> (r: u64)
        ensures
            r == self@.hist.cur_mark,
    {
        self.hist.edit_serial()
    }
}

} // verus!

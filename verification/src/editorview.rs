//! Code-editor view: a single editing surface — an [`InputBox`] in code-editor mode
//! (highlighting + line-number gutter, no Send button) — that the host drives.

use vstd::prelude::*;

use crate::agentview::{clean, without_nul};
use crate::debugger::source::ident_flags;
use crate::editops::{first_met, hit, hit_flags};
use crate::input::doc::{flat, selected_text, valid, Cursor, SelV};
use crate::input::edit::{
    composed, entered, fresh_box, moved_to, redo_box, redo_waits, redoable, retexted, settled, uncomposed, undo_box,
    undo_waits, undoable, BoxV, InputBox,
};
use crate::input::gutter::{all_marked, ascending, toggled, GutterV};
use crate::input::history::{capped, history_wf, text_wf, HistoryV};
use crate::input::hunks::{hovered, hunk_near, reverted, staged_within, text_v, DiffV, Hunk};
use crate::input::keys::{
    all_replaced, all_selected, completed, cut_box, doc_offset, flagged_back, gone_to, keyed, match_selected, pointed,
    reselected, search_from, KeyStep,
};
use crate::input::lines::{
    comment_box, delete_box, duplicate_box, import_added, indent_box, line_down_box, line_up_box, outdent_box,
    text_sound,
};
use crate::input::look::LookV;
use crate::input::popup::{popup_wf, PopupV};
use crate::text::{join, split, split_str, texts, trim, trim_str};

verus! {

/// A code editor.
pub struct EditorView {
    pub edit: InputBox,
}

/// Trimmed text, or none if nothing is left.
pub open spec fn trimmed(s: Seq<char>) -> Option<Seq<char>> {
    if trim(s).len() == 0 {
        None
    } else {
        Some(trim(s))
    }
}

/// Trimmed text, or none if nothing is left.
pub fn trimmed_text(s: &str) -> (r: Option<String>)
    ensures
        text_v(r) == trimmed(s@),
{
    let t = trim_str(s);
    if t.as_str().is_empty() {
        None
    } else {
        Some(t)
    }
}

impl EditorView {
    pub fn new() -> (r: Self)
        ensures
            r.edit.wf(),
            r.edit@ == (BoxV {
                gutter: GutterV { shown: true, ..fresh_box().gutter },
                code_mode: true,
                ..fresh_box()
            }),
            settled(r.edit@),
    {
        let mut edit = InputBox::new();
        edit.set_gutter(true);
        edit.set_code_mode(true); // no-wrap, auto-indent, auto-close, etc.
        EditorView { edit }
    }

    /// Apply a finished background git fetch (the HEAD and the index version of the
    /// file, and the staged blocks between them), if one arrived. Returns true only
    /// when the git texts actually CHANGED (the host should re-render) — the host
    /// refreshes on a 1s poll, so unchanged deliveries stay no-ops.
    pub fn poll_diff(&mut self, fetched: Option<(Option<String>, Option<String>, Vec<Hunk>)>) -> (r: bool)
        ensures
            match fetched {
                None => !r && final(self).edit@ == old(self).edit@,
                Some((head, index, hunks)) => {
                    &&& r == (text_v(head) != old(self).edit@.diff.head || text_v(index) != old(self).edit@.diff.index)
                    &&& final(self).edit@ == (if r {
                        BoxV {
                            diff: DiffV {
                                head: text_v(head),
                                index: text_v(index),
                                index_hunks: if head is Some && index is Some {
                                    hunks@
                                } else {
                                    Seq::empty()
                                },
                                generation: u64::MAX,
                                shown: old(self).edit@.diff.shown,
                            },
                            peek: None,
                            ..old(self).edit@
                        }
                    } else {
                        old(self).edit@
                    })
                },
            },
    {
        match fetched {
            Some((head, index, hunks)) => self.edit.set_diff(head, index, hunks),
            None => false,
        }
    }

    /// Language token (e.g. "cs"); empty = plain. Returns whether it changed.
    pub fn set_language(&mut self, token: &str) -> (r: bool)
        ensures
            r == (trimmed(token@) != old(self).edit@.look.language),
            final(self).edit@ == (if r {
                BoxV {
                    look: LookV { language: trimmed(token@), generation: u64::MAX, ..old(self).edit@.look },
                    ..old(self).edit@
                }
            } else {
                old(self).edit@
            }),
    {
        let t = trimmed_text(token);
        self.edit.set_language(t)
    }

    /// Highlight a 0-based execution line (debugger current line), or `usize::MAX` to
    /// clear.
    pub fn set_exec_line(&mut self, line: usize)
        ensures
            final(self).edit@ == (BoxV {
                gutter: GutterV {
                    exec_line: if line == usize::MAX { None } else { Some(line) },
                    ..old(self).edit@.gutter
                },
                ..old(self).edit@
            }),
    {
        self.edit.set_exec_line(if line == usize::MAX {
            None
        } else {
            Some(line)
        });
    }

    /// The git-diff hunk index a click targets (gutter lane), or -1. The host uses it to
    /// open the Stage/Unstage/Revert menu for that hunk.
    pub fn hunk_at(&self, over_gutter: bool, line: Option<usize>) -> (r: i32)
        requires
            self.edit@.diff.shown.len() <= i32::MAX,
        ensures
            ({
                let e = self.edit@;
                let k = match line {
                    Some(l) => hunk_near(e.diff, l as int, e.doc.lines.len() as int, 0),
                    None => None,
                };
                r == (if over_gutter && k is Some {
                    k->0
                } else {
                    -1
                })
            }),
    {
        match self.edit.hunk_at(over_gutter, line) {
            Some(k) => k as i32,
            None => -1,
        }
    }

    /// Set the autocomplete popup items ('\n'-joined; empty hides it) + selection.
    pub fn set_completions(&mut self, joined: &str, selected: usize)
        ensures
            ({
                let items = if joined@.len() == 0 {
                    Seq::empty()
                } else {
                    split(joined@, '\n')
                };
                let n = items.len();
                final(self).edit@ == (BoxV {
                    popup: PopupV {
                        items,
                        selected: if n == 0 {
                            0
                        } else if selected < n {
                            selected as int
                        } else {
                            n - 1
                        },
                    },
                    ..old(self).edit@
                })
            }),
            popup_wf(final(self).edit@.popup),
    {
        let items: Vec<String> = if joined.is_empty() {
            let none: Vec<String> = Vec::new();
            assert(texts(none@) =~= Seq::empty());
            none
        } else {
            split_str(joined, '\n')
        };
        assert(texts(items@).len() == items@.len());
        self.edit.set_completions(items, selected);
    }

    /// Set the undo-history cap (0 = unlimited).
    pub fn set_undo_limit(&mut self, limit: usize)
        requires
            history_wf(old(self).edit@.hist),
        ensures
            final(self).edit@ == (BoxV {
                hist: capped(HistoryV { limit, ..old(self).edit@.hist }),
                ..old(self).edit@
            }),
            history_wf(final(self).edit@.hist),
            settled(old(self).edit@) ==> settled(final(self).edit@),
    {
        self.edit.set_undo_limit(limit);
    }

    /// Read-only mode: navigation/selection/scroll work; text edits are ignored.
    pub fn set_read_only(&mut self, on: bool)
        ensures
            final(self).edit@ == (BoxV { read_only: on, ..old(self).edit@ }),
    {
        self.edit.set_read_only(on);
    }

    /// Reserve (and draw) the gutter's breakpoint-dot column (debugging enabled).
    pub fn set_bp_gutter(&mut self, on: bool)
        ensures
            final(self).edit@ == (BoxV { gutter: GutterV { bp_column: on, ..old(self).edit@.gutter }, ..old(self).edit@ }),
    {
        self.edit.set_bp_gutter(on);
    }

    /// The current document-state version, for telling unsaved changes.
    pub fn edit_serial(&self) -> (r: u64)
        ensures
            r == self.edit@.hist.cur_mark,
    {
        self.edit.edit_serial()
    }

    /// Apply a named editing key; a motion that depends on the layout is asked for.
    pub fn key(&mut self, name: &str, shift: bool) -> (r: KeyStep)
        requires
            old(self).edit.wf(),
        ensures
            final(self).edit@ == keyed(old(self).edit@, name@, shift).0,
            r == keyed(old(self).edit@, name@, shift).1,
            final(self).edit.wf(),
            settled(old(self).edit@) ==> settled(final(self).edit@),
    {
        self.edit.key(name, shift)
    }

    /// Insert typed or IME-committed text at the caret.
    pub fn insert(&mut self, text: &str)
        requires
            old(self).edit.wf(),
        ensures
            final(self).edit@ == entered(old(self).edit@, text@),
            final(self).edit.wf(),
            settled(old(self).edit@) ==> settled(final(self).edit@),
            text@.len() > 0 && !old(self).edit@.read_only && settled(uncomposed(old(self).edit@)) ==> settled(final(self).edit@),
    {
        self.edit.insert(text);
    }

    /// Show inline IME preedit (marked text) at the caret; empty removes it.
    pub fn set_preedit(&mut self, text: &str)
        requires
            old(self).edit.wf(),
        ensures
            final(self).edit@ == composed(old(self).edit@, text@),
            final(self).edit.wf(),
            settled(old(self).edit@) && old(self).edit@.doc.sel == SelV::Nothing && !old(self).edit@.read_only ==> settled(
                uncomposed(final(self).edit@),
            ),
    {
        self.edit.set_preedit(text);
    }

    /// Replace the whole text; the history starts afresh.
    pub fn set_text(&mut self, text: &str)
        ensures
            final(self).edit@ == retexted(old(self).edit@, text@),
            text_wf(final(self).edit@.doc),
            history_wf(final(self).edit@.hist),
            settled(final(self).edit@),
            old(self).edit@.doc.sel == SelV::Nothing ==> final(self).edit.wf(),
    {
        self.edit.set_text(text);
    }

    /// Whether there is an edit to undo.
    pub fn can_undo(&self) -> (r: bool)
        requires
            text_wf(self.edit@.doc),
            history_wf(self.edit@.hist),
        ensures
            r == undo_waits(self.edit@),
            r ==> undoable(self.edit@),
    {
        self.edit.can_undo()
    }

    /// Whether there is an undone edit to redo.
    pub fn can_redo(&self) -> (r: bool)
        requires
            text_wf(self.edit@.doc),
            history_wf(self.edit@.hist),
        ensures
            r == redo_waits(self.edit@),
            r ==> redoable(self.edit@),
    {
        self.edit.can_redo()
    }

    /// Undo the most recent edit.
    pub fn undo(&mut self)
        requires
            text_wf(old(self).edit@.doc),
            history_wf(old(self).edit@.hist),
            undoable(old(self).edit@),
        ensures
            final(self).edit@ == undo_box(old(self).edit@),
            text_wf(final(self).edit@.doc),
            history_wf(final(self).edit@.hist),
            settled(old(self).edit@) ==> settled(final(self).edit@),
            old(self).edit@.doc.sel == SelV::Nothing ==> final(self).edit.wf(),
    {
        self.edit.undo();
    }

    /// Redo the most recently undone edit.
    pub fn redo(&mut self)
        requires
            text_wf(old(self).edit@.doc),
            history_wf(old(self).edit@.hist),
            redoable(old(self).edit@),
        ensures
            final(self).edit@ == redo_box(old(self).edit@),
            text_wf(final(self).edit@.doc),
            history_wf(final(self).edit@.hist),
            settled(old(self).edit@) ==> settled(final(self).edit@),
            old(self).edit@.doc.sel == SelV::Nothing ==> final(self).edit.wf(),
    {
        self.edit.redo();
    }

    /// Select the whole text.
    pub fn select_all(&mut self)
        requires
            old(self).edit.wf(),
        ensures
            final(self).edit@ == (BoxV { doc: all_selected(old(self).edit@.doc), ..old(self).edit@ }),
            final(self).edit.wf(),
    {
        self.edit.select_all();
    }

    /// Pointer interaction, by the position of the text that it hit.
    pub fn mouse(&mut self, hit: Option<Cursor>, kind: u8)
        requires
            old(self).edit.wf(),
            hit matches Some(c) ==> valid(old(self).edit@.doc.lines, c@),
        ensures
            final(self).edit@ == moved_to(
                old(self).edit@,
                pointed(
                    old(self).edit@.doc,
                    kind,
                    match hit {
                        Some(c) => Some(c@),
                        None => None,
                    },
                ),
            ),
            final(self).edit.wf(),
    {
        self.edit.mouse(hit, kind);
    }

    /// Pointer moved (no button): show/hide the diff-peek tooltip, by whether it is over
    /// the gutter and the line it is at. Returns true when the host should re-render (the
    /// tooltip just changed/cleared).
    pub fn hover(&mut self, over_gutter: bool, line: Option<usize>) -> (r: bool)
        ensures
            ({
                let at = match line {
                    Some(l) => if over_gutter {
                        Some(l as int)
                    } else {
                        None
                    },
                    None => None,
                };
                final(self).edit@ == hovered(old(self).edit@, at).0 && r == hovered(old(self).edit@, at).1
            }),
    {
        self.edit.hover(over_gutter, line)
    }

    /// Whether hunk `hunk_i` is already staged (drives the menu's Stage vs Unstage).
    pub fn hunk_staged(&self, hunk_i: usize) -> (r: bool)
        ensures
            r == (hunk_i < self.edit@.diff.shown.len() && self.edit@.diff.shown[hunk_i as int].staged),
    {
        self.edit.hunk_staged(hunk_i)
    }

    /// Whether any staged content overlaps hunk `hunk_i` (partially staged regions
    /// included), so the menu can offer Unstage alongside Stage there.
    pub fn hunk_has_staged(&self, hunk_i: usize) -> (r: bool)
        ensures
            r == (hunk_i < self.edit@.diff.shown.len() && staged_within(
                self.edit@.diff.index_hunks,
                self.edit@.diff.index_hunks.len() as int,
                self.edit@.diff.shown[hunk_i as int].hunk,
            )),
    {
        self.edit.hunk_has_staged(hunk_i)
    }

    /// Whether hunk `hunk_i` is staged-only (buffer already at HEAD): reverting is a
    /// no-op there, so the menu hides Revert and offers just Unstage.
    pub fn hunk_staged_only(&self, hunk_i: usize) -> (r: bool)
        ensures
            r == (hunk_i < self.edit@.diff.shown.len() && self.edit@.diff.shown[hunk_i as int].index_new is Some),
    {
        self.edit.hunk_staged_only(hunk_i)
    }

    /// What staging hunk `hunk_i` to the git index starts from, if it is stageable.
    pub fn stage_hunk(&self, hunk_i: usize) -> (r: Option<(String, String, (usize, usize))>)
        ensures
            match r {
                Some((index, text, (start, len))) => {
                    &&& hunk_i < self.edit@.diff.shown.len()
                    &&& self.edit@.diff.index == Some(index@)
                    &&& text@ == crate::text::join(self.edit@.doc.lines, '\n')
                    &&& start == self.edit@.diff.shown[hunk_i as int].hunk.new_start
                    &&& len == self.edit@.diff.shown[hunk_i as int].hunk.new_len
                },
                None => hunk_i >= self.edit@.diff.shown.len() || self.edit@.diff.index is None,
            },
    {
        self.edit.stage_hunk_content(hunk_i)
    }

    /// What unstaging hunk `hunk_i` starts from (its staged block in the index goes back to
    /// HEAD; the buffer is untouched), unless nothing is staged there.
    pub fn unstage_hunk(&self, hunk_i: usize) -> (r: Option<(String, String, (usize, usize))>)
        ensures
            match r {
                Some((head, index, (start, len))) => {
                    &&& hunk_i < self.edit@.diff.shown.len()
                    &&& self.edit@.diff.head == Some(head@)
                    &&& self.edit@.diff.index == Some(index@)
                    &&& start == self.edit@.diff.shown[hunk_i as int].hunk.old_start
                    &&& len == self.edit@.diff.shown[hunk_i as int].hunk.old_len
                },
                None => hunk_i >= self.edit@.diff.shown.len() || self.edit@.diff.head is None || self.edit@.diff.index is None,
            },
    {
        self.edit.unstage_hunk_content(hunk_i)
    }

    /// Revert hunk `hunk_i` to its git-base (HEAD) content (one undoable buffer edit).
    pub fn revert_hunk(&mut self, hunk_i: usize)
        requires
            old(self).edit.wf(),
        ensures
            final(self).edit@ == reverted(old(self).edit@, hunk_i as int),
            final(self).edit.wf(),
            settled(old(self).edit@) ==> settled(final(self).edit@),
    {
        self.edit.revert_hunk(hunk_i);
    }

    /// Toggle a breakpoint on a 0-based line.
    pub fn toggle_breakpoint(&mut self, line: usize)
        requires
            ascending(old(self).edit@.gutter.breakpoints),
        ensures
            final(self).edit@ == (BoxV {
                gutter: GutterV {
                    breakpoints: toggled(old(self).edit@.gutter.breakpoints, line),
                    ..old(self).edit@.gutter
                },
                ..old(self).edit@
            }),
            ascending(final(self).edit@.gutter.breakpoints),
    {
        self.edit.toggle_breakpoint(line);
    }

    /// Replace the breakpoint set (0-based lines).
    pub fn set_breakpoints(&mut self, lines: &Vec<u32>)
        ensures
            final(self).edit@ == (BoxV {
                gutter: GutterV {
                    breakpoints: all_marked(lines@, lines@.len() as int),
                    ..old(self).edit@.gutter
                },
                ..old(self).edit@
            }),
            ascending(final(self).edit@.gutter.breakpoints),
    {
        self.edit.set_breakpoints(lines);
    }

    /// Current breakpoint lines (0-based), ascending.
    pub fn breakpoints(&self) -> (r: Vec<u32>)
        ensures
            r@.len() == self.edit@.gutter.breakpoints.len(),
            forall|i: int| 0 <= i < r@.len() ==> #[trigger] r@[i] == self.edit@.gutter.breakpoints[i] as u32,
    {
        self.edit.breakpoints()
    }

    /// Indent the touched lines by one level.
    pub fn indent(&mut self)
        requires
            old(self).edit.wf(),
        ensures
            final(self).edit@ == indent_box(old(self).edit@),
            final(self).edit.wf(),
            settled(old(self).edit@) ==> settled(final(self).edit@),
    {
        self.edit.indent();
    }

    /// Outdent the touched lines by one level.
    pub fn outdent(&mut self)
        requires
            old(self).edit.wf(),
        ensures
            final(self).edit@ == outdent_box(old(self).edit@),
            final(self).edit.wf(),
            settled(old(self).edit@) ==> settled(final(self).edit@),
    {
        self.edit.outdent();
    }

    /// Toggle the comments of the touched lines.
    pub fn toggle_comment(&mut self)
        requires
            old(self).edit.wf(),
        ensures
            final(self).edit@ == comment_box(old(self).edit@),
            final(self).edit.wf(),
            settled(old(self).edit@) ==> settled(final(self).edit@),
    {
        self.edit.toggle_comment();
    }

    /// Move the caret's line up.
    pub fn move_line_up(&mut self)
        requires
            old(self).edit.wf(),
        ensures
            final(self).edit@ == line_up_box(old(self).edit@),
            final(self).edit.wf(),
            settled(old(self).edit@) ==> settled(final(self).edit@),
    {
        self.edit.move_line_up();
    }

    /// Move the caret's line down.
    pub fn move_line_down(&mut self)
        requires
            old(self).edit.wf(),
        ensures
            final(self).edit@ == line_down_box(old(self).edit@),
            final(self).edit.wf(),
            settled(old(self).edit@) ==> settled(final(self).edit@),
    {
        self.edit.move_line_down();
    }

    /// Duplicate the touched lines.
    pub fn duplicate_line(&mut self)
        requires
            old(self).edit.wf(),
            old(self).edit@.doc.cursor.line + old(self).edit@.doc.lines.len() < usize::MAX,
        ensures
            final(self).edit@ == duplicate_box(old(self).edit@),
            final(self).edit.wf(),
            settled(old(self).edit@) ==> settled(final(self).edit@),
    {
        self.edit.duplicate_line();
    }

    /// Delete the touched lines.
    pub fn delete_line(&mut self)
        requires
            old(self).edit.wf(),
        ensures
            final(self).edit@ == delete_box(old(self).edit@),
            final(self).edit.wf(),
            settled(old(self).edit@) ==> settled(final(self).edit@),
    {
        self.edit.delete_line();
    }

    /// Put the caret at the start of a 0-based line.
    pub fn goto_line(&mut self, line: usize)
        requires
            text_wf(old(self).edit@.doc),
            history_wf(old(self).edit@.hist),
        ensures
            final(self).edit@ == gone_to(old(self).edit@, line as int),
            final(self).edit.wf(),
    {
        self.edit.goto_line(line);
    }

    /// Insert `using <ns>;` near the top of the file unless it is there.
    pub fn add_using(&mut self, ns: &str)
        requires
            old(self).edit.wf(),
            old(self).edit@.doc.lines.len() < usize::MAX,
        ensures
            final(self).edit@ == import_added(old(self).edit@, ns@),
            flat(trim(ns@)) ==> final(self).edit.wf(),
            text_sound(final(self).edit@),
            settled(old(self).edit@) ==> settled(final(self).edit@),
    {
        self.edit.add_using(ns);
    }

    /// Find `query` and select the match (search wraps). Returns true if found.
    pub fn find(&mut self, query: &str, forward: bool, case_sensitive: bool) -> (r: bool)
        requires
            old(self).edit.wf(),
        ensures
            ({
                let text = join(old(self).edit@.doc.lines, '\n');
                let from = search_from(old(self).edit@.doc, forward);
                &&& r ==> query@.len() > 0 && exists|p: int| #[trigger]
                    first_met(hit_flags(text, query@, case_sensitive), from, forward, p) && final(self).edit@ == moved_to(
                        old(self).edit@,
                        match_selected(old(self).edit@.doc, p, p + query@.len()),
                    )
                &&& !r ==> final(self).edit@ == old(self).edit@ && (query@.len() == 0 || forall|i: int| !#[trigger]
                    hit(text, query@, i, case_sensitive))
            }),
            final(self).edit.wf(),
    {
        self.edit.find(query, forward, case_sensitive)
    }

    /// Replace the current selection with `repl` (no-op without a selection).
    pub fn replace_selection(&mut self, repl: &str)
        requires
            old(self).edit.wf(),
        ensures
            final(self).edit@ == reselected(old(self).edit@, repl@),
            final(self).edit.wf(),
            settled(old(self).edit@) ==> settled(final(self).edit@),
    {
        self.edit.replace_selection(repl);
    }

    /// Replace every occurrence of `query` with `repl`. Returns the count.
    pub fn replace_all(&mut self, query: &str, repl: &str, case_sensitive: bool) -> (r: u32)
        requires
            old(self).edit.wf(),
        ensures
            (final(self).edit@, r as nat) == all_replaced(old(self).edit@, query@, repl@, case_sensitive),
            final(self).edit.wf(),
            settled(old(self).edit@) ==> settled(final(self).edit@),
    {
        self.edit.replace_all(query, repl, case_sensitive)
    }

    /// The caret's character offset in the whole text.
    pub fn caret_offset(&self) -> (r: usize)
        requires
            self.edit.wf(),
        ensures
            r == doc_offset(self.edit@.doc.lines, self.edit@.doc.cursor),
    {
        self.edit.caret_offset()
    }

    /// Accept a completion: replace `prefix_len` characters before the caret by `text`.
    pub fn complete(&mut self, prefix_len: usize, text: &str)
        requires
            old(self).edit.wf(),
        ensures
            final(self).edit@ == completed(old(self).edit@, prefix_len as int, text@),
            final(self).edit.wf(),
            settled(old(self).edit@) ==> settled(final(self).edit@),
    {
        self.edit.complete(prefix_len, text);
    }

    /// The identifier before the caret, for the completion popup.
    pub fn word_prefix(&self) -> (r: String)
        requires
            self.edit.wf(),
        ensures
            ({
                let line = self.edit@.doc.lines[self.edit@.doc.cursor.line];
                let col = self.edit@.doc.cursor.col;
                r@ == without_nul(line.subrange(col - flagged_back(ident_flags(line), col), col))
            }),
    {
        let s = self.edit.word_prefix();
        clean(s.as_str())
    }

    /// The text (lines joined by '\n').
    pub fn text(&self) -> (r: String)
        ensures
            r@ == without_nul(join(self.edit@.doc.lines, '\n')),
    {
        let s = self.edit.text();
        clean(s.as_str())
    }

    /// The selected text, empty without a selection.
    pub fn copy(&self) -> (r: String)
        requires
            self.edit.wf(),
        ensures
            r@ == (match selected_text(self.edit@.doc) {
                Some(t) => without_nul(t),
                None => Seq::empty(),
            }),
    {
        match self.edit.copy() {
            Some(s) => clean(s.as_str()),
            None => String::new(),
        }
    }

    /// Copy then delete the selection (returns the copied text, empty without one).
    pub fn cut(&mut self) -> (r: String)
        requires
            old(self).edit.wf(),
        ensures
            match selected_text(old(self).edit@.doc) {
                Some(t) => r@ == without_nul(t),
                None => r@.len() == 0,
            },
            final(self).edit@ == cut_box(old(self).edit@),
            final(self).edit.wf(),
            settled(old(self).edit@) ==> settled(final(self).edit@),
    {
        match self.edit.cut() {
            Some(s) => clean(s.as_str()),
            None => String::new(),
        }
    }
}

} // verus!

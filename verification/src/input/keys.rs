//! Keys and the pointer in the text box: word motion, deleting, finding and
//! replacing, and which key does what.

use vstd::prelude::*;
use vstd::string::StringExecFns;

use crate::debugger::source::{flag_idents, ident_flags};
use crate::editops;
use crate::editops::{
    blank, classes, classify, first_met, hit, hit_flags, indent_unit, leading, left_in, left_of, opens_block, replaced,
    replacements, right_in, right_of, token_at, CharClass, INDENT_LEN,
};
use crate::input::doc::{
    bounds, cut, doc_wf, dropped, inserted, items_v, leads, lemma_bounds, lemma_dropped, lemma_leads_concat,
    lemma_pieces_flat, lemma_typed, pieces, removed, selected_text, typed, valid, Cursor, Doc, DocV, Item, ItemV, Pos,
    SelV, Selection,
};
use crate::input::edit::{
    edited, entered, lemma_edit_settles, moved_to, redo_box, settled, typed_box, uncomposed, undo_box, BoxV, InputBox,
};
use crate::input::history::{history_wf, text_wf};
use crate::input::hunks::reverted;
use crate::input::lines::{
    comment_box, delete_box, duplicate_box, import_added, indent_box, line_down_box, line_up_box, outdent_box,
};
use crate::text::{chars, from_range, is_whitespace, join, lemma_join_push, lemma_run, run, same, white_space, ws};

verus! {

// ---------------------------------------------------------------------------
// Offsets
// ---------------------------------------------------------------------------

/// How many characters stand before a line, a line ending counting one.
pub open spec fn chars_before(ls: Seq<Seq<char>>, l: int) -> int
    decreases l,
{
    if l <= 0 || l > ls.len() {
        0
    } else {
        chars_before(ls, l - 1) + ls[l - 1].len() + 1
    }
}

/// The character offset of a position in the whole text.
pub open spec fn doc_offset(ls: Seq<Seq<char>>, p: Pos) -> int {
    chars_before(ls, p.line) + p.col
}

/// The position that lies `off` characters behind the start of line `l`, at most
/// the end of the text.
pub open spec fn at_offset(ls: Seq<Seq<char>>, off: int, l: int) -> Pos
    decreases ls.len() - l,
{
    if l < 0 || l >= ls.len() {
        Pos { line: l, col: 0 }
    } else if off <= ls[l].len() {
        Pos { line: l, col: off }
    } else if l + 1 < ls.len() {
        at_offset(ls, off - ls[l].len() - 1, l + 1)
    } else {
        Pos { line: l, col: ls[l].len() as int }
    }
}

proof fn lemma_at_offset_from(ls: Seq<Seq<char>>, p: Pos, l: int)
    requires
        valid(ls, p),
        0 <= l <= p.line,
    ensures
        at_offset(ls, doc_offset(ls, p) - chars_before(ls, l), l) == p,
        chars_before(ls, l) <= chars_before(ls, p.line),
    decreases p.line - l,
{
    if l < p.line {
        lemma_at_offset_from(ls, p, l + 1);
        assert(chars_before(ls, l + 1) == chars_before(ls, l) + ls[l].len() + 1);
    }
}

/// A position's offset leads back to the position.
pub proof fn law_offset_round_trip(ls: Seq<Seq<char>>, p: Pos)
    requires
        valid(ls, p),
    ensures
        at_offset(ls, doc_offset(ls, p), 0) == p,
{
    lemma_at_offset_from(ls, p, 0);
}

/// The position at an offset lies in the text.
proof fn lemma_at_offset_valid(ls: Seq<Seq<char>>, off: int, l: int)
    requires
        0 <= l < ls.len(),
        0 <= off,
    ensures
        valid(ls, at_offset(ls, off, l)),
    decreases ls.len() - l,
{
    if off > ls[l].len() && l + 1 < ls.len() {
        lemma_at_offset_valid(ls, off - ls[l].len() - 1, l + 1);
    }
}

/// The text is as long as its lines and the line endings between them.
pub proof fn lemma_text_len(ls: Seq<Seq<char>>, k: int)
    requires
        0 < k <= ls.len(),
    ensures
        join(ls.take(k), '\n').len() + 1 == chars_before(ls, k),
    decreases k,
{
    let t = ls.take(k - 1);
    assert(ls.take(k) =~= t.push(ls[k - 1]));
    lemma_join_push(t, '\n', ls[k - 1]);
    if k > 1 {
        lemma_text_len(ls, k - 1);
    } else {
        assert(t =~= Seq::empty());
        assert(chars_before(ls, 0) == 0);
    }
}

pub proof fn lemma_before_mono(ls: Seq<Seq<char>>, a: int, b: int)
    requires
        0 <= a <= b <= ls.len(),
    ensures
        0 <= chars_before(ls, a) <= chars_before(ls, b),
    decreases b,
{
    if a < b {
        lemma_before_mono(ls, a, b - 1);
    } else if a > 0 {
        lemma_before_mono(ls, a - 1, a - 1);
    }
}

impl Doc {
    /// The character offset of a position in the whole text.
    pub fn offset_of(&self, c: Cursor) -> (r: usize)
        requires
            valid(self@.lines, c@),
            join(self@.lines, '\n').len() <= usize::MAX,
        ensures
            r == doc_offset(self@.lines, c@),
            r <= join(self@.lines, '\n').len(),
    {
        let ghost ls = self@.lines;
        let ghost n = ls.len() as int;
        proof {
            lemma_text_len(ls, n);
            assert(ls.take(n) =~= ls);
            lemma_before_mono(ls, c.line as int, n);
            lemma_before_mono(ls, c.line + 1, n);
        }
        let mut off: usize = 0;
        let mut i: usize = 0;
        while i < c.line
            invariant
                i <= c.line < ls.len() == n,
                ls == self@.lines,
                off == chars_before(ls, i as int),
                chars_before(ls, n) <= usize::MAX + 1,
                chars_before(ls, c.line + 1) <= chars_before(ls, n),
            decreases c.line - i,
        {
            proof {
                lemma_before_mono(ls, i + 1, c.line as int);
                assert(chars_before(ls, c.line + 1) == chars_before(ls, c.line as int) + ls[c.line as int].len() + 1);
            }
            off = off + self.line_len(i) + 1;
            i = i + 1;
        }
        off + c.col
    }

    /// The position at a character offset of the whole text.
    pub fn cursor_at(&self, off: usize) -> (r: Cursor)
        requires
            self@.lines.len() > 0,
        ensures
            r@ == at_offset(self@.lines, off as int, 0),
            valid(self@.lines, r@),
    {
        let ghost ls = self@.lines;
        proof {
            lemma_at_offset_valid(ls, off as int, 0);
        }
        let n: usize = self.lines.len();
        let mut rest: usize = off;
        let mut l: usize = 0;
        while l < n
            invariant
                l < n == ls.len(),
                ls == self@.lines,
                at_offset(ls, off as int, 0) == at_offset(ls, rest as int, l as int),
                valid(ls, at_offset(ls, off as int, 0)),
            decreases n - l,
        {
            let len: usize = self.line_len(l);
            if rest <= len {
                return Cursor { line: l, col: rest };
            }
            if l + 1 >= n {
                return Cursor { line: l, col: len };
            }
            rest = rest - len - 1;
            l = l + 1;
        }
        Cursor { line: 0, col: 0 }
    }
}

impl InputBox {
    /// The caret's absolute character offset in the document.
    pub fn caret_offset(&self) -> (r: usize)
        requires
            self.wf(),
        ensures
            r == doc_offset(self@.doc.lines, self@.doc.cursor),
    {
        let t = self.doc.text();
        let v = chars(t.as_str());
        assert(v@.len() == v.len());
        self.doc.offset_of(self.doc.cursor)
    }
}

// ---------------------------------------------------------------------------
// Prefixes
// ---------------------------------------------------------------------------

/// How many flags at the end of the first `n` are set, back to the last that is not.
pub open spec fn flagged_back(flags: Seq<bool>, n: int) -> int
    decreases n,
{
    if n <= 0 || n > flags.len() || !flags[n - 1] {
        0
    } else {
        1 + flagged_back(flags, n - 1)
    }
}

/// The flagged characters immediately before column `col` of a line.
pub fn prefix_in(line: &str, flags: &Vec<bool>, col: usize) -> (r: String)
    requires
        flags@.len() == line@.len(),
        col <= line@.len(),
    ensures
        r@ == line@.subrange(col - flagged_back(flags@, col as int), col as int),
        0 <= flagged_back(flags@, col as int) <= col,
{
    let v = chars(line);
    let mut a: usize = col;
    while a > 0 && flags[a - 1]
        invariant
            a <= col <= flags@.len(),
            flagged_back(flags@, col as int) == (col - a) + flagged_back(flags@, a as int),
        decreases a,
    {
        a = a - 1;
    }
    from_range(&v, a, col)
}

/// The text of the caret's line before the caret.
pub open spec fn before_caret(d: DocV) -> Seq<char> {
    d.lines[d.cursor.line].take(d.cursor.col)
}

/// A leading `/command` token, if the text before the caret is one.
pub open spec fn command_prefix(before: Seq<char>) -> Seq<char> {
    if before.len() > 0 && before[0] == '/' && forall|i: int| 1 <= i < before.len() ==> !white_space(
        #[trigger] before[i],
    ) {
        before
    } else {
        Seq::empty()
    }
}

impl InputBox {
    /// The identifier characters immediately before the caret (empty if none) — the
    /// prefix an autocomplete popup filters on.
    pub fn word_prefix(&self) -> (r: String)
        requires
            self.wf(),
        ensures
            ({
                let line = self@.doc.lines[self@.doc.cursor.line];
                let col = self@.doc.cursor.col;
                r@ == line.subrange(col - flagged_back(ident_flags(line), col), col)
            }),
    {
        let c = self.doc.cursor;
        let flags = flag_idents(self.doc.lines[c.line].as_str());
        prefix_in(self.doc.lines[c.line].as_str(), &flags, c.col)
    }

    /// If the caret sits within a leading `/command` token on the first line, return
    /// that token *including* the slash (e.g. `/co`, or `/` right after typing the
    /// slash). Unlike [`InputBox::word_prefix`], this doesn't stop at hyphens, so it
    /// matches slash-command names like `code-review`. Empty when not in that context
    /// (no leading slash, caret past the first whitespace, or not on line 0).
    pub fn slash_prefix(&self) -> (r: String)
        requires
            self.wf(),
        ensures
            r@ == (if self@.doc.cursor.line == 0 {
                command_prefix(before_caret(self@.doc))
            } else {
                Seq::empty()
            }),
    {
        let c = self.doc.cursor;
        if c.line != 0 {
            return String::new();
        }
        let ghost before = before_caret(self@.doc);
        let v = chars(self.doc.lines[0].as_str());
        if c.col == 0 || v[0] != '/' {
            return String::new();
        }
        let mut i: usize = 1;
        while i < c.col
            invariant
                1 <= i <= c.col <= v@.len(),
                before == v@.take(c.col as int),
                before == before_caret(self@.doc),
                self@.doc.cursor.line == 0,
                forall|k: int| 1 <= k < i ==> !white_space(#[trigger] before[k]),
            decreases c.col - i,
        {
            if is_whitespace(v[i]) {
                assert(white_space(before[i as int]));
                return String::new();
            }
            i = i + 1;
        }
        from_range(&v, 0, c.col)
    }
}

// ---------------------------------------------------------------------------
// Deleting
// ---------------------------------------------------------------------------

/// A document with the selection or the character before the caret deleted, and the
/// step that did it; at the start of a line it joins the line above.
pub open spec fn backspaced(d: DocV) -> (DocV, Seq<ItemV>) {
    let c = d.cursor;
    if bounds(d) is Some {
        dropped(d)
    } else if c.col > 0 {
        dropped(DocV { cursor: Pos { line: c.line, col: c.col - 1 }, sel: SelV::Normal(c), ..d })
    } else if c.line > 0 {
        dropped(
            DocV {
                cursor: Pos { line: c.line - 1, col: d.lines[c.line - 1].len() as int },
                sel: SelV::Normal(c),
                ..d
            },
        )
    } else {
        (d, Seq::empty())
    }
}

/// The same, `n` times.
pub open spec fn back_times(d: DocV, n: int) -> (DocV, Seq<ItemV>)
    decreases n,
{
    if n <= 0 {
        (d, Seq::empty())
    } else {
        let one = back_times(d, n - 1);
        let two = backspaced(one.0);
        (two.0, one.1 + two.1)
    }
}

/// Deleting backwards keeps a document sound, and its steps say what it did.
pub proof fn lemma_back_times(d: DocV, n: int)
    requires
        doc_wf(d),
    ensures
        doc_wf(back_times(d, n).0),
        leads(d, back_times(d, n).1, back_times(d, n).0),
    decreases n,
{
    if n > 0 {
        lemma_back_times(d, n - 1);
        let one = back_times(d, n - 1);
        lemma_backspaced(one.0);
        let two = backspaced(one.0);
        lemma_leads_concat(d, one.1, one.0, two.1, two.0);
    }
}

proof fn lemma_backspaced(d: DocV)
    requires
        doc_wf(d),
    ensures
        doc_wf(backspaced(d).0),
        leads(d, backspaced(d).1, backspaced(d).0),
{
    let c = d.cursor;
    if bounds(d) is Some {
        lemma_dropped(d);
    } else if c.col > 0 {
        lemma_dropped(DocV { cursor: Pos { line: c.line, col: c.col - 1 }, sel: SelV::Normal(c), ..d });
    } else if c.line > 0 {
        lemma_dropped(
            DocV {
                cursor: Pos { line: c.line - 1, col: d.lines[c.line - 1].len() as int },
                sel: SelV::Normal(c),
                ..d
            },
        );
    }
}

impl Doc {
    /// Delete the selection, or the character before the caret.
    pub fn backspace(&mut self, items: &mut Vec<Item>)
        requires
            old(self).wf(),
        ensures
            final(self)@ == backspaced(old(self)@).0,
            items_v(final(items)@) == items_v(old(items)@) + backspaced(old(self)@).1,
            final(self).wf(),
    {
        let c = self.cursor;
        if self.selection_bounds().is_none() {
            if c.col > 0 {
                self.sel = Selection::Normal(c);
                self.cursor = Cursor { line: c.line, col: c.col - 1 };
            } else if c.line > 0 {
                let col: usize = self.line_len(c.line - 1);
                self.sel = Selection::Normal(c);
                self.cursor = Cursor { line: c.line - 1, col };
            } else {
                assert(items_v(items@) =~= items_v(old(items)@) + Seq::<ItemV>::empty());
                return;
            }
        }
        self.delete_selection(items);
    }

    fn backspace_times(&mut self, n: usize, items: &mut Vec<Item>)
        requires
            old(self).wf(),
        ensures
            final(self)@ == back_times(old(self)@, n as int).0,
            items_v(final(items)@) == items_v(old(items)@) + back_times(old(self)@, n as int).1,
            final(self).wf(),
    {
        let ghost d = self@;
        let ghost base = items_v(items@);
        let mut i: usize = 0;
        assert(items_v(items@) =~= base + Seq::<ItemV>::empty());
        while i < n
            invariant
                i <= n,
                self.wf(),
                self@ == back_times(d, i as int).0,
                items_v(items@) == base + back_times(d, i as int).1,
            decreases n - i,
        {
            let ghost one = back_times(d, i as int);
            self.backspace(items);
            i = i + 1;
            assert(items_v(items@) =~= base + back_times(d, i as int).1);
        }
    }
}

/// How far behind a tab stop the `k`-th column lies: a tab leads to the next one.
pub open spec fn past_stop(s: Seq<char>, k: int) -> int
    decreases k,
{
    if k <= 0 || k > s.len() || s[k - 1] == '\t' {
        0
    } else {
        (past_stop(s, k - 1) + 1) % (INDENT_LEN as int)
    }
}

/// The last of the columns up to `k` that lies at a tab stop.
pub open spec fn tab_stop(s: Seq<char>, k: int) -> int
    decreases k,
{
    if k <= 0 || past_stop(s, k) == 0 {
        k
    } else {
        tab_stop(s, k - 1)
    }
}

/// How many characters a smart backspace deletes: when only white space precedes the
/// caret, back to the previous tab stop.
pub open spec fn back_count(before: Seq<char>) -> int {
    if before.len() > 0 && forall|i: int| 0 <= i < before.len() ==> ws()(#[trigger] before[i]) {
        before.len() - tab_stop(before, before.len() - 1)
    } else {
        1
    }
}

/// After a smart backspace.
pub open spec fn smart_backspaced(b: BoxV) -> BoxV {
    let t = if bounds(b.doc) is Some {
        backspaced(b.doc)
    } else {
        back_times(b.doc, back_count(before_caret(b.doc)))
    };
    edited(b, t.0, t.1)
}

proof fn lemma_tab_stop(s: Seq<char>, k: int)
    requires
        0 <= k <= s.len(),
    ensures
        0 <= past_stop(s, k) < INDENT_LEN,
        0 <= tab_stop(s, k) <= k,
        past_stop(s, tab_stop(s, k)) == 0,
        k - tab_stop(s, k) <= past_stop(s, k),
    decreases k,
{
    if k > 0 {
        lemma_tab_stop(s, k - 1);
    }
}

proof fn lemma_spaces_count(s: Seq<char>, k: int)
    requires
        0 <= k <= s.len(),
        forall|i: int| 0 <= i < s.len() ==> #[trigger] s[i] == ' ',
    ensures
        past_stop(s, k) == k % (INDENT_LEN as int),
    decreases k,
{
    if k > 0 {
        lemma_spaces_count(s, k - 1);
    }
}

/// A smart backspace among leading white space stops at a tab stop, and always
/// deletes at least one character and at most as many as a level has; among spaces
/// alone, what is left is a whole number of levels.
pub proof fn law_smart_backspace_stops_at_tab_stops(before: Seq<char>)
    requires
        before.len() > 0,
        forall|i: int| 0 <= i < before.len() ==> ws()(#[trigger] before[i]),
    ensures
        1 <= back_count(before) <= INDENT_LEN,
        back_count(before) <= before.len(),
        past_stop(before, before.len() - back_count(before)) == 0,
        (forall|i: int| 0 <= i < before.len() ==> #[trigger] before[i] == ' ') ==> (before.len() - back_count(before))
            % (INDENT_LEN as int) == 0,
{
    let n = before.len() as int;
    lemma_tab_stop(before, n - 1);
    if forall|i: int| 0 <= i < before.len() ==> #[trigger] before[i] == ' ' {
        lemma_spaces_count(before, n - back_count(before));
    }
}

/// After a completion was accepted: `n` characters before the caret deleted and the
/// text put in, as one change. A read-only text stays as it is.
pub open spec fn completed(b: BoxV, n: int, text: Seq<char>) -> BoxV {
    let one = back_times(b.doc, n);
    let two = typed(one.0, text);
    if b.read_only {
        b
    } else {
        edited(b, two.0, one.1 + two.1)
    }
}

impl InputBox {
    /// Smart Backspace: when only white space precedes the caret, delete back to the
    /// previous tab stop; otherwise a normal one-character backspace (also deletes
    /// a selection).
    fn smart_backspace(&mut self)
        requires
            old(self).wf(),
        ensures
            final(self)@ == smart_backspaced(old(self)@),
            final(self).wf(),
            settled(old(self)@) ==> settled(final(self)@),
    {
        let ghost b = self@;
        let mut items: Vec<Item> = Vec::new();
        assert(items_v(items@) =~= Seq::empty());
        if self.doc.selection_bounds().is_some() {
            self.doc.backspace(&mut items);
            assert(items_v(items@) =~= backspaced(b.doc).1);
            proof {
                lemma_backspaced(b.doc);
                lemma_edit_settles(b, backspaced(b.doc).0, backspaced(b.doc).1);
            }
            self.record(items);
            return;
        }
        let c = self.doc.cursor;
        let v = chars(self.doc.lines[c.line].as_str());
        let ghost before = before_caret(b.doc);
        let mut blanks = c.col > 0;
        let mut past: usize = 0;
        let mut stop: usize = 0;
        let mut i: usize = 0;
        while i < c.col && blanks
            invariant
                i <= c.col <= v@.len(),
                before == v@.take(c.col as int),
                blanks ==> c.col > 0 && past == past_stop(before, i as int) && stop == tab_stop(
                    before,
                    if i > 0 { i - 1 } else { 0 },
                ) && stop < c.col,
                past < INDENT_LEN,
                blanks ==> forall|k: int| 0 <= k < i ==> ws()(#[trigger] before[k]),
                !blanks ==> c.col == 0 || exists|k: int| 0 <= k < c.col && !ws()(#[trigger] before[k]),
            decreases c.col - i,
        {
            if past == 0 {
                stop = i;
            }
            if v[i] == '\t' {
                past = 0;
            } else if is_whitespace(v[i]) {
                past = if past + 1 < INDENT_LEN {
                    past + 1
                } else {
                    0
                };
            } else {
                blanks = false;
                assert(!ws()(before[i as int]));
            }
            assert(before[i as int] == v@[i as int]);
            i = i + 1;
        }
        let n: usize = if blanks {
            c.col - stop
        } else {
            1
        };
        assert(n == back_count(before));
        self.doc.backspace_times(n, &mut items);
        assert(items_v(items@) =~= back_times(b.doc, n as int).1);
        proof {
            lemma_back_times(b.doc, n as int);
            lemma_edit_settles(b, back_times(b.doc, n as int).0, back_times(b.doc, n as int).1);
        }
        self.record(items);
    }

    /// Accept a completion: delete `prefix_len` characters before the caret and
    /// insert `text` in their place (one undoable change).
    pub fn complete(&mut self, prefix_len: usize, text: &str)
        requires
            old(self).wf(),
        ensures
            final(self)@ == completed(old(self)@, prefix_len as int, text@),
            final(self).wf(),
            settled(old(self)@) ==> settled(final(self)@),
            old(self)@.read_only ==> final(self)@ == old(self)@,
    {
        if self.read_only {
            return;
        }
        let ghost b = self@;
        let mut items: Vec<Item> = Vec::new();
        assert(items_v(items@) =~= Seq::empty());
        self.doc.backspace_times(prefix_len, &mut items);
        let ghost one = back_times(b.doc, prefix_len as int);
        self.doc.insert_string(text, &mut items);
        assert(items_v(items@) =~= one.1 + typed(one.0, text@).1);
        proof {
            lemma_back_times(b.doc, prefix_len as int);
            let two = typed(one.0, text@);
            lemma_typed(one.0, text@);
            lemma_leads_concat(b.doc, one.1, one.0, two.1, two.0);
            lemma_edit_settles(b, two.0, one.1 + two.1);
        }
        self.record(items);
    }

    /// Insert a newline that carries the current line's indentation (code mode).
    fn auto_indent_enter(&mut self)
        requires
            old(self).wf(),
        ensures
            final(self)@ == auto_indented(old(self)@),
            final(self).wf(),
            settled(old(self)@) ==> settled(final(self)@),
    {
        let ghost b = self@;
        let c = self.doc.cursor;
        let ins = editops::auto_indent(self.doc.lines[c.line].as_str(), c.col);
        let mut items: Vec<Item> = Vec::new();
        assert(items_v(items@) =~= Seq::empty());
        self.doc.insert_string(ins.as_str(), &mut items);
        assert(items_v(items@) =~= typed(b.doc, ins@).1);
        proof {
            lemma_typed(b.doc, ins@);
            lemma_edit_settles(b, typed(b.doc, ins@).0, typed(b.doc, ins@).1);
        }
        self.record(items);
    }
}

/// After Enter in code mode: the new line carries the indentation, one level more
/// behind an opening brace.
pub open spec fn auto_indented(b: BoxV) -> BoxV {
    let line = b.doc.lines[b.doc.cursor.line];
    typed_box(
        b,
        seq!['\n'] + leading(line) + (if opens_block(line, b.doc.cursor.col) {
            indent_unit()
        } else {
            Seq::empty()
        }),
    )
}

// ---------------------------------------------------------------------------
// Moving
// ---------------------------------------------------------------------------

/// Before a motion: with `shift` a selection starts at the caret unless there is
/// one, without it the selection is dropped.
pub open spec fn anchored(d: DocV, shift: bool) -> DocV {
    if !shift {
        DocV { sel: SelV::Nothing, ..d }
    } else if d.sel == SelV::Nothing {
        DocV { sel: SelV::Normal(d.cursor), ..d }
    } else {
        d
    }
}

/// Where a word motion leads, by the classes of the characters of the caret's line.
pub open spec fn word_goal(d: DocV, forward: bool, cs: Seq<CharClass>) -> Pos {
    let c = d.cursor;
    let len = d.lines[c.line].len() as int;
    if forward {
        if c.col >= len {
            if c.line + 1 < d.lines.len() {
                Pos { line: c.line + 1, col: 0 }
            } else {
                Pos { line: c.line, col: len }
            }
        } else {
            Pos { line: c.line, col: right_of(cs, c.col) }
        }
    } else if c.col == 0 {
        if c.line > 0 {
            Pos { line: c.line - 1, col: d.lines[c.line - 1].len() as int }
        } else {
            c
        }
    } else {
        Pos { line: c.line, col: left_of(cs, c.col) }
    }
}

/// The classes of the characters of the caret's line.
pub open spec fn caret_classes(d: DocV) -> Seq<CharClass> {
    classes(d.lines[d.cursor.line])
}

/// A document with the text up to a position deleted, or the selection if there is
/// one, and the step that did it.
pub open spec fn deleted_to(d: DocV, goal: Pos) -> (DocV, Seq<ItemV>) {
    if bounds(d) is Some {
        dropped(d)
    } else {
        dropped(DocV { cursor: goal, sel: SelV::Normal(d.cursor), ..d })
    }
}

/// After the text between two columns of the caret's line was deleted; a read-only
/// text stays as it is.
pub open spec fn cluster_deleted(b: BoxV, from: int, to: int) -> BoxV {
    let d = b.doc;
    let t = dropped(
        DocV {
            cursor: Pos { line: d.cursor.line, col: from },
            sel: SelV::Normal(Pos { line: d.cursor.line, col: to }),
            ..d
        },
    );
    if b.read_only {
        b
    } else {
        edited(b, t.0, t.1)
    }
}

/// The column that Home leads to from `col`: the first character that is no white
/// space, or the start of the line if the caret is there already.
pub open spec fn home_col(line: Seq<char>, col: int) -> int {
    if col != run(line, blank()) && run(line, ws()) < line.len() {
        run(line, ws()) as int
    } else {
        0
    }
}

/// With the caret at the start of a line, or of the last one.
pub open spec fn gone_to(b: BoxV, line: int) -> BoxV {
    let n = b.doc.lines.len();
    moved_to(
        b,
        DocV {
            cursor: Pos { line: if line < n { line } else { n - 1 }, col: 0 },
            sel: SelV::Nothing,
            ..b.doc
        },
    )
}

impl InputBox {
    /// Target position for a code-aware word motion/deletion from the caret (handles
    /// line edges), by the classes of the characters of the caret's line.
    pub fn word_target_in(&self, forward: bool, cs: &Vec<CharClass>) -> (r: Cursor)
        requires
            self.wf(),
            cs@.len() == self@.doc.lines[self@.doc.cursor.line].len(),
        ensures
            r@ == word_goal(self@.doc, forward, cs@),
            valid(self@.doc.lines, r@),
    {
        let c = self.doc.cursor;
        let len: usize = self.doc.line_len(c.line);
        let n: usize = self.doc.lines.len();
        if forward {
            if c.col >= len {
                if c.line + 1 < n {
                    Cursor { line: c.line + 1, col: 0 }
                } else {
                    Cursor { line: c.line, col: len }
                }
            } else {
                Cursor { line: c.line, col: right_in(cs, c.col) }
            }
        } else if c.col == 0 {
            if c.line > 0 {
                Cursor { line: c.line - 1, col: self.doc.line_len(c.line - 1) }
            } else {
                c
            }
        } else {
            Cursor { line: c.line, col: left_in(cs, c.col) }
        }
    }

    /// Target position for a code-aware word motion/deletion from the caret. `.` is a
    /// boundary except inside a float literal.
    pub fn word_target(&self, forward: bool) -> (r: Cursor)
        requires
            self.wf(),
        ensures
            r@ == word_goal(self@.doc, forward, caret_classes(self@.doc)),
            valid(self@.doc.lines, r@),
    {
        let cs = classify(self.doc.lines[self.doc.cursor.line].as_str());
        self.word_target_in(forward, &cs)
    }

    fn start_motion(&mut self, shift: bool)
        requires
            old(self).wf(),
        ensures
            final(self)@ == (BoxV { doc: anchored(old(self)@.doc, shift), ..old(self)@ }),
            final(self).wf(),
    {
        if shift {
            if let Selection::Nothing = self.doc.sel {
                self.doc.sel = Selection::Normal(self.doc.cursor);
            }
        } else {
            self.doc.sel = Selection::Nothing;
        }
    }

    /// Move the caret one word left/right (code-aware); `shift` extends selection.
    fn word_move(&mut self, forward: bool, shift: bool)
        requires
            old(self).wf(),
        ensures
            final(self)@ == moved_to(
                old(self)@,
                DocV {
                    cursor: word_goal(old(self)@.doc, forward, caret_classes(old(self)@.doc)),
                    ..anchored(old(self)@.doc, shift)
                },
            ),
            final(self).wf(),
    {
        let goal = self.word_target(forward);
        self.start_motion(shift);
        self.doc.cursor = goal;
        self.caret_dirty = true;
    }

    /// Delete the selection, or the text between the caret and a position, as one
    /// undoable change.
    fn delete_to(&mut self, goal: Cursor)
        requires
            old(self).wf(),
            valid(old(self)@.doc.lines, goal@),
        ensures
            final(self)@ == edited(
                old(self)@,
                deleted_to(old(self)@.doc, goal@).0,
                deleted_to(old(self)@.doc, goal@).1,
            ),
            final(self).wf(),
            settled(old(self)@) ==> settled(final(self)@),
    {
        let ghost b = self@;
        if self.doc.selection_bounds().is_none() {
            self.doc.sel = Selection::Normal(self.doc.cursor);
            self.doc.cursor = goal;
        }
        let ghost d = self@.doc;
        let mut items: Vec<Item> = Vec::new();
        assert(items_v(items@) =~= Seq::empty());
        self.doc.delete_selection(&mut items);
        assert(items_v(items@) =~= deleted_to(b.doc, goal@).1);
        proof {
            lemma_dropped(d);
            lemma_edit_settles(b, dropped(d).0, dropped(d).1);
        }
        self.record(items);
    }

    /// Smart Home: jump to the first non-whitespace char, or to column 0 if already
    /// there. `shift` extends the selection.
    fn smart_home(&mut self, shift: bool)
        requires
            old(self).wf(),
        ensures
            ({
                let d = old(self)@.doc;
                let col = home_col(d.lines[d.cursor.line], d.cursor.col);
                final(self)@ == (BoxV {
                    doc: DocV { cursor: Pos { line: d.cursor.line, col }, ..anchored(d, shift) },
                    ..old(self)@
                })
            }),
            final(self).wf(),
    {
        self.start_motion(shift);
        let c = self.doc.cursor;
        let v = chars(self.doc.lines[c.line].as_str());
        let n: usize = v.len();
        let mut soft: usize = 0;
        while soft < n && (v[soft] == ' ' || v[soft] == '\t')
            invariant
                soft <= n == v@.len(),
                forall|k: int| 0 <= k < soft ==> blank()(#[trigger] v@[k]),
            decreases n - soft,
        {
            soft = soft + 1;
        }
        let mut first: usize = 0;
        while first < n && is_whitespace(v[first])
            invariant
                first <= n == v@.len(),
                forall|k: int| 0 <= k < first ==> ws()(#[trigger] v@[k]),
            decreases n - first,
        {
            first = first + 1;
        }
        proof {
            lemma_run(v@, blank(), soft as nat);
            lemma_run(v@, ws(), first as nat);
        }
        let col: usize = if c.col != soft && first < n {
            first
        } else {
            0
        };
        self.doc.cursor = Cursor { line: c.line, col };
    }

    /// Move the caret to the start of line `line` (0-based), clearing any selection.
    pub fn goto_line(&mut self, line: usize)
        requires
            text_wf(old(self)@.doc),
            history_wf(old(self)@.hist),
        ensures
            final(self)@ == gone_to(old(self)@, line as int),
            final(self).wf(),
    {
        let n: usize = self.doc.lines.len();
        let l: usize = if line < n {
            line
        } else {
            n - 1
        };
        self.doc.sel = Selection::Nothing;
        self.doc.cursor = Cursor { line: l, col: 0 };
        self.caret_dirty = true;
    }

    /// A motion led to a position.
    pub fn moved(&mut self, to: Cursor)
        requires
            old(self).wf(),
            valid(old(self)@.doc.lines, to@),
        ensures
            final(self)@ == (BoxV { doc: DocV { cursor: to@, ..old(self)@.doc }, ..old(self)@ }),
            final(self).wf(),
    {
        self.doc.cursor = to;
    }

    /// Delete the character cluster that spans two columns of the caret's line.
    pub fn delete_cluster(&mut self, from: usize, to: usize)
        requires
            old(self).wf(),
            from <= to <= old(self)@.doc.lines[old(self)@.doc.cursor.line].len(),
        ensures
            final(self)@ == cluster_deleted(old(self)@, from as int, to as int),
            final(self).wf(),
            settled(old(self)@) ==> settled(final(self)@),
            old(self)@.read_only ==> final(self)@ == old(self)@,
    {
        if self.read_only {
            return;
        }
        let ghost b = self@;
        let l: usize = self.doc.cursor.line;
        self.doc.cursor = Cursor { line: l, col: from };
        self.doc.sel = Selection::Normal(Cursor { line: l, col: to });
        let ghost d = self@.doc;
        let mut items: Vec<Item> = Vec::new();
        assert(items_v(items@) =~= Seq::empty());
        self.doc.delete_selection(&mut items);
        assert(items_v(items@) =~= dropped(d).1);
        proof {
            lemma_dropped(d);
            lemma_edit_settles(b, dropped(d).0, dropped(d).1);
        }
        self.record(items);
    }
}

// ---------------------------------------------------------------------------
// Selecting
// ---------------------------------------------------------------------------

/// The whole text selected, the caret at its end.
pub open spec fn all_selected(d: DocV) -> DocV {
    DocV {
        sel: SelV::Normal(Pos { line: 0, col: 0 }),
        cursor: Pos { line: d.lines.len() - 1, col: d.lines.last().len() as int },
        ..d
    }
}

/// Selecting everything selects the whole text.
pub proof fn law_select_all_selects_text(d: DocV)
    requires
        doc_wf(d),
    ensures
        selected_text(all_selected(d)) == Some(join(d.lines, '\n')),
{
    let a = all_selected(d);
    let ls = d.lines;
    let n = ls.len() as int;
    let s = Pos { line: 0, col: 0 };
    assert(bounds(a) == Some((s, a.cursor)));
    if n == 1 {
        assert(ls[0].subrange(0, ls[0].len() as int) =~= ls[0]);
    } else {
        assert(ls[0].skip(0) =~= ls[0]);
        assert(ls[n - 1].take(ls[n - 1].len() as int) =~= ls[n - 1]);
    }
    assert(cut(ls, s, a.cursor) =~= ls);
}

/// After the selection was cut; a read-only text stays as it is.
pub open spec fn cut_box(b: BoxV) -> BoxV {
    if b.read_only || selected_text(b.doc) is None {
        b
    } else {
        edited(b, dropped(b.doc).0, dropped(b.doc).1)
    }
}

/// Pasting back what was cut restores the text.
pub proof fn law_paste_undoes_cut(d: DocV)
    requires
        doc_wf(d),
        bounds(d) is Some,
    ensures
        selected_text(d) is Some,
        typed(dropped(d).0, selected_text(d)->0).0.lines == d.lines,
{
    lemma_bounds(d);
    if let Some((a, b)) = bounds(d) {
        crate::input::doc::law_put_undoes_cut(d.lines, a, b);
        let ps = cut(d.lines, a, b);
        crate::input::doc::lemma_flat_kept(d.lines, a, b, seq![Seq::empty()]);
        crate::input::doc::law_pieces_of_joined(ps);
        let t = join(ps, '\n');
        let e = dropped(d).0;
        if t.len() == 0 {
            crate::input::doc::lemma_pieces_of_flat(t);
            assert(ps =~= seq![t]);
            let l = removed(d.lines, a, b)[a.line];
            assert(t =~= Seq::empty());
            assert(l.take(a.col) + t + l.skip(a.col) =~= l);
            assert(inserted(e.lines, a, ps) =~= e.lines);
        }
    }
}

/// After a click, drag or multiple click, by where the pointer hit the text: 1 is a
/// drag, 2 a double click, 3 a triple click, and anything else a click.
pub open spec fn pointed(d: DocV, kind: u8, hit: Option<Pos>) -> DocV {
    let to = match hit {
        Some(p) => p,
        None => d.cursor,
    };
    if kind == 1 {
        DocV { cursor: to, ..anchored(d, true) }
    } else if kind == 2 {
        let (s, e) = token_at(classes(d.lines[to.line]), to.col);
        DocV {
            cursor: Pos { line: to.line, col: e },
            sel: SelV::Normal(Pos { line: to.line, col: s }),
            ..d
        }
    } else if kind == 3 && hit is Some {
        DocV { cursor: to, sel: SelV::Line(to), ..d }
    } else {
        DocV { cursor: to, sel: SelV::Nothing, ..d }
    }
}

impl InputBox {
    /// The current selection text, or None if nothing is selected.
    pub fn copy(&self) -> (r: Option<String>)
        requires
            self.wf(),
        ensures
            match r {
                Some(s) => selected_text(self@.doc) == Some(s@),
                None => selected_text(self@.doc) is None,
            },
    {
        self.doc.copy_selection()
    }

    /// Copy then delete the selection (returns the copied text). A read-only text is
    /// only copied from.
    pub fn cut(&mut self) -> (r: Option<String>)
        requires
            old(self).wf(),
        ensures
            match r {
                Some(s) => selected_text(old(self)@.doc) == Some(s@),
                None => selected_text(old(self)@.doc) is None,
            },
            final(self)@ == cut_box(old(self)@),
            final(self).wf(),
            settled(old(self)@) ==> settled(final(self)@),
            old(self)@.read_only ==> final(self)@ == old(self)@,
    {
        let ghost b = self@;
        let s = self.doc.copy_selection();
        if s.is_some() && !self.read_only {
            let mut items: Vec<Item> = Vec::new();
            assert(items_v(items@) =~= Seq::empty());
            self.doc.delete_selection(&mut items);
            assert(items_v(items@) =~= dropped(b.doc).1);
            proof {
                lemma_dropped(b.doc);
                lemma_edit_settles(b, dropped(b.doc).0, dropped(b.doc).1);
            }
            self.record(items);
        }
        s
    }

    pub fn select_all(&mut self)
        requires
            old(self).wf(),
        ensures
            final(self)@ == (BoxV { doc: all_selected(old(self)@.doc), ..old(self)@ }),
            final(self).wf(),
    {
        let n: usize = self.doc.lines.len();
        let col: usize = self.doc.line_len(n - 1);
        assert(self@.doc.lines.last() == self@.doc.lines[n - 1]);
        self.doc.sel = Selection::Normal(Cursor { line: 0, col: 0 });
        self.doc.cursor = Cursor { line: n - 1, col };
    }

    /// Drop any selection (used when focus moves to the transcript).
    pub fn clear_selection(&mut self)
        ensures
            final(self)@ == (BoxV { doc: DocV { sel: SelV::Nothing, ..old(self)@.doc }, ..old(self)@ }),
            old(self).wf() ==> final(self).wf(),
    {
        self.doc.sel = Selection::Nothing;
    }

    /// Pointer interaction, by the position of the text that it hit (none where the
    /// pointer hit no text): kind 0 = click (place caret), 1 = drag (extend
    /// selection), 2 = double-click (word), 3 = triple (line).
    pub fn mouse(&mut self, hit: Option<Cursor>, kind: u8)
        requires
            old(self).wf(),
            hit matches Some(c) ==> valid(old(self)@.doc.lines, c@),
        ensures
            final(self)@ == moved_to(
                old(self)@,
                pointed(
                    old(self)@.doc,
                    kind,
                    match hit {
                        Some(c) => Some(c@),
                        None => None,
                    },
                ),
            ),
            final(self).wf(),
    {
        let to = match hit {
            Some(c) => c,
            None => self.doc.cursor,
        };
        self.caret_dirty = true;
        if kind == 1 {
            if let Selection::Nothing = self.doc.sel {
                self.doc.sel = Selection::Normal(self.doc.cursor);
            }
            self.doc.cursor = to;
        } else if kind == 2 {
            // The code-aware token under the pointer: `.` is a boundary except inside
            // a float literal.
            let (s, e) = editops::word_at(self.doc.lines[to.line].as_str(), to.col);
            self.doc.sel = Selection::Normal(Cursor { line: to.line, col: s });
            self.doc.cursor = Cursor { line: to.line, col: e };
        } else if kind == 3 && hit.is_some() {
            self.doc.sel = Selection::Line(to);
            self.doc.cursor = to;
        } else {
            self.doc.sel = Selection::Nothing;
            self.doc.cursor = to;
        }
    }
}

// ---------------------------------------------------------------------------
// Finding and replacing
// ---------------------------------------------------------------------------

/// Where a search starts: at the selection's end when it goes forward, at its start
/// when it goes backward, and at the caret without one.
pub open spec fn search_from(d: DocV, forward: bool) -> int {
    match bounds(d) {
        Some((a, b)) => doc_offset(d.lines, if forward { b } else { a }),
        None => doc_offset(d.lines, d.cursor),
    }
}

/// A document with a match selected, the caret at its end.
pub open spec fn match_selected(d: DocV, start: int, end: int) -> DocV {
    DocV {
        sel: SelV::Normal(at_offset(d.lines, start, 0)),
        cursor: at_offset(d.lines, end, 0),
        ..d
    }
}

/// The whole text replaced, the caret at its start, and the steps that did it.
pub open spec fn rewritten(d: DocV, text: Seq<char>) -> (DocV, Seq<ItemV>) {
    let t = typed(all_selected(d), text);
    (DocV { cursor: Pos { line: 0, col: 0 }, ..t.0 }, t.1)
}

/// Replacing the whole text leaves the new text.
pub proof fn law_rewriting_replaces_text(d: DocV, text: Seq<char>)
    requires
        doc_wf(d),
    ensures
        rewritten(d, text).0.lines == pieces(text),
        doc_wf(rewritten(d, text).0),
        leads(d, rewritten(d, text).1, rewritten(d, text).0),
{
    let a = all_selected(d);
    let ls = d.lines;
    let n = ls.len() as int;
    let s = Pos { line: 0, col: 0 };
    assert(bounds(a) == Some((s, a.cursor)));
    lemma_typed(a, text);
    let blank = Seq::<char>::empty();
    let gone = removed(ls, s, a.cursor);
    assert(ls[0].take(0) + ls[n - 1].skip(ls[n - 1].len() as int) =~= blank);
    assert(gone =~= seq![blank]);
    if text.len() > 0 {
        let ps = pieces(text);
        lemma_pieces_flat(text);
        let m = ps.len() as int;
        assert(blank.take(0) =~= blank && blank.skip(0) =~= blank);
        if m == 1 {
            assert(blank + ps[0] + blank =~= ps[0]);
        } else {
            assert(blank + ps[0] =~= ps[0]);
            assert(ps.last() + blank =~= ps.last());
        }
        assert(inserted(gone, s, ps) =~= ps);
    } else {
        crate::input::doc::lemma_pieces_of_flat(text);
        assert(text =~= blank);
    }
}

/// After every occurrence of a text was replaced, and the count of them, in 32 bits;
/// none is replaced in a read-only text.
pub open spec fn all_replaced(b: BoxV, query: Seq<char>, repl: Seq<char>, case_sensitive: bool) -> (BoxV, nat) {
    let text = join(b.doc.lines, '\n');
    let flags = hit_flags(text, query, case_sensitive);
    let n = query.len() as int;
    let count = if b.read_only || n == 0 {
        0
    } else {
        replacements(text, flags, n, 0) % 0x1_0000_0000
    };
    let t = rewritten(b.doc, replaced(text, flags, n, repl, 0));
    if count > 0 {
        (edited(b, t.0, t.1), count)
    } else {
        (b, count)
    }
}

/// After the selection was replaced by a text; a read-only text stays as it is.
pub open spec fn reselected(b: BoxV, repl: Seq<char>) -> BoxV {
    if b.read_only || bounds(b.doc) is None {
        b
    } else {
        typed_box(uncomposed(b), repl)
    }
}

impl InputBox {
    /// Find `query` and select the match (search wraps). Returns true if found.
    pub fn find(&mut self, query: &str, forward: bool, case_sensitive: bool) -> (r: bool)
        requires
            old(self).wf(),
        ensures
            ({
                let text = join(old(self)@.doc.lines, '\n');
                let from = search_from(old(self)@.doc, forward);
                &&& r ==> query@.len() > 0 && exists|p: int| #[trigger]
                    first_met(hit_flags(text, query@, case_sensitive), from, forward, p) && final(self)@ == moved_to(
                        old(self)@,
                        match_selected(old(self)@.doc, p, p + query@.len()),
                    )
                &&& !r ==> final(self)@ == old(self)@ && (query@.len() == 0 || forall|i: int| !#[trigger]
                    hit(text, query@, i, case_sensitive))
            }),
            final(self).wf(),
    {
        let ghost b = self@;
        let text = self.doc.text();
        let v = chars(text.as_str());
        assert(v@.len() == v.len());
        proof {
            lemma_bounds(b.doc);
        }
        let start: usize = match self.doc.selection_bounds() {
            Some((a, b)) => if forward {
                self.doc.offset_of(b)
            } else {
                self.doc.offset_of(a)
            },
            None => self.doc.offset_of(self.doc.cursor),
        };
        match editops::find(text.as_str(), query, start, forward, case_sensitive) {
            Some((s, e)) => {
                let cs = self.doc.cursor_at(s);
                let ce = self.doc.cursor_at(e);
                self.doc.sel = Selection::Normal(cs);
                self.doc.cursor = ce;
                self.caret_dirty = true;
                assert(self@ =~= moved_to(b, match_selected(b.doc, s as int, s + query@.len())));
                assert(first_met(
                    hit_flags(join(b.doc.lines, '\n'), query@, case_sensitive),
                    search_from(b.doc, forward),
                    forward,
                    s as int,
                ));
                true
            },
            None => false,
        }
    }

    /// Replace the current selection with `repl` (no-op without a selection).
    pub fn replace_selection(&mut self, repl: &str)
        requires
            old(self).wf(),
        ensures
            final(self)@ == reselected(old(self)@, repl@),
            final(self).wf(),
            settled(old(self)@) ==> settled(final(self)@),
            old(self)@.read_only ==> final(self)@ == old(self)@,
    {
        if self.read_only {
            return;
        }
        if self.doc.selection_bounds().is_none() {
            return;
        }
        self.clear_preedit();
        let ghost b = self@;
        let mut items: Vec<Item> = Vec::new();
        assert(items_v(items@) =~= Seq::empty());
        self.doc.insert_string(repl, &mut items);
        assert(items_v(items@) =~= typed(b.doc, repl@).1);
        proof {
            lemma_typed(b.doc, repl@);
            lemma_edit_settles(b, typed(b.doc, repl@).0, typed(b.doc, repl@).1);
        }
        self.record(items);
    }

    /// Replace every occurrence of `query` with `repl`. Returns the count.
    pub fn replace_all(&mut self, query: &str, repl: &str, case_sensitive: bool) -> (r: u32)
        requires
            old(self).wf(),
        ensures
            (final(self)@, r as nat) == all_replaced(old(self)@, query@, repl@, case_sensitive),
            final(self).wf(),
            settled(old(self)@) ==> settled(final(self)@),
            old(self)@.read_only ==> final(self)@ == old(self)@,
    {
        if self.read_only {
            return 0;
        }
        let ghost b = self@;
        let text = self.doc.text();
        let (new, n) = editops::replace_all(text.as_str(), query, repl, case_sensitive);
        if n > 0 {
            proof {
                law_rewriting_replaces_text(b.doc, new@);
            }
            self.select_all();
            let mut items: Vec<Item> = Vec::new();
            assert(items_v(items@) =~= Seq::empty());
            self.doc.insert_string(new.as_str(), &mut items);
            self.doc.cursor = Cursor { line: 0, col: 0 };
            assert(items_v(items@) =~= rewritten(b.doc, new@).1);
            assert(self@.doc =~= rewritten(b.doc, new@).0);
            proof {
                lemma_edit_settles(b, rewritten(b.doc, new@).0, rewritten(b.doc, new@).1);
            }
            self.record(items);
        }
        n
    }
}

// ---------------------------------------------------------------------------
// Keys
// ---------------------------------------------------------------------------

/// A motion that depends on how the text is laid out.
#[derive(Clone, Copy, PartialEq, Eq, Structural, Debug)]
pub enum Motion {
    Left,
    Right,
    Up,
    Down,
    PageUp,
    PageDown,
}

/// What is left to do for a key.
#[derive(Clone, Copy, PartialEq, Eq, Structural, Debug)]
pub enum KeyStep {
    Done,
    /// Find where the motion leads, for [`InputBox::moved`].
    Move(Motion),
    /// Find the character cluster under the caret, for [`InputBox::delete_cluster`].
    Cluster,
}

/// Whether a key changes the text.
pub open spec fn mutating(name: Seq<char>) -> bool {
    name == "DeleteWordBack"@ || name == "DeleteWordForward"@ || name == "Return"@ || name == "KeypadEnter"@ || name
        == "Backspace"@ || name == "Delete"@ || name == "DeleteToLineStart"@
}

/// The motion of a key, where it depends on the layout.
pub open spec fn layout_motion(name: Seq<char>) -> Option<Motion> {
    if name == "LeftArrow"@ {
        Some(Motion::Left)
    } else if name == "RightArrow"@ {
        Some(Motion::Right)
    } else if name == "UpArrow"@ {
        Some(Motion::Up)
    } else if name == "DownArrow"@ {
        Some(Motion::Down)
    } else if name == "PageUp"@ {
        Some(Motion::PageUp)
    } else if name == "PageDown"@ {
        Some(Motion::PageDown)
    } else {
        None
    }
}

/// Where a key moves the caret, where that goes by the lines alone.
pub open spec fn line_motion(d: DocV, name: Seq<char>) -> Option<Pos> {
    if name == "Home"@ || name == "LineStart"@ {
        Some(Pos { line: d.cursor.line, col: 0 })
    } else if name == "End"@ || name == "LineEnd"@ {
        Some(Pos { line: d.cursor.line, col: d.lines[d.cursor.line].len() as int })
    } else if name == "DocStart"@ {
        Some(Pos { line: 0, col: 0 })
    } else if name == "DocEnd"@ {
        Some(Pos { line: d.lines.len() - 1, col: d.lines.last().len() as int })
    } else {
        None
    }
}

/// With the caret moved to a position, a selection extended or dropped.
pub open spec fn motioned(b: BoxV, to: Pos, shift: bool) -> BoxV {
    BoxV { doc: DocV { cursor: to, ..anchored(b.doc, shift) }, ..b }
}

/// With the selection, or the text back to the start of the line, deleted. A
/// selection is first extended to the start of the line.
pub open spec fn line_start_deleted(b: BoxV) -> BoxV {
    let a = anchored(b.doc, true);
    let t = dropped(DocV { cursor: Pos { line: a.cursor.line, col: 0 }, ..a });
    edited(b, t.0, t.1)
}

/// With the selection, or what is in front of the caret, deleted.
pub open spec fn forward_deleted(b: BoxV) -> (BoxV, KeyStep) {
    let d = b.doc;
    let c = d.cursor;
    if bounds(d) is Some {
        (edited(b, dropped(d).0, dropped(d).1), KeyStep::Done)
    } else if c.col < d.lines[c.line].len() {
        (b, KeyStep::Cluster)
    } else if c.line + 1 < d.lines.len() {
        let t = dropped(DocV { sel: SelV::Normal(Pos { line: c.line + 1, col: 0 }), ..d });
        (edited(b, t.0, t.1), KeyStep::Done)
    } else {
        (edited(b, d, Seq::empty()), KeyStep::Done)
    }
}

/// After a named editing key.
pub open spec fn keyed(b0: BoxV, name: Seq<char>, shift: bool) -> (BoxV, KeyStep) {
    let b = BoxV { caret_dirty: true, ..b0 };
    let d = b.doc;
    let enter = name == "Return"@ || name == "KeypadEnter"@;
    if b.read_only && mutating(name) {
        (b, KeyStep::Done)
    } else if name == "WordLeft"@ || name == "WordRight"@ {
        (motioned(b, word_goal(d, name == "WordRight"@, caret_classes(d)), shift), KeyStep::Done)
    } else if name == "DeleteWordBack"@ || name == "DeleteWordForward"@ {
        let t = deleted_to(d, word_goal(d, name == "DeleteWordForward"@, caret_classes(d)));
        (edited(b, t.0, t.1), KeyStep::Done)
    } else if b.code_mode && enter {
        (auto_indented(b), KeyStep::Done)
    } else if b.code_mode && name == "LineStart"@ {
        let col = home_col(d.lines[d.cursor.line], d.cursor.col);
        (motioned(b, Pos { line: d.cursor.line, col }, shift), KeyStep::Done)
    } else if b.code_mode && name == "Backspace"@ {
        (smart_backspaced(b), KeyStep::Done)
    } else if line_motion(d, name) is Some {
        (motioned(b, line_motion(d, name)->0, shift), KeyStep::Done)
    } else if layout_motion(name) is Some {
        (BoxV { doc: anchored(d, shift), ..b }, KeyStep::Move(layout_motion(name)->0))
    } else if name == "DeleteToLineStart"@ {
        (line_start_deleted(b), KeyStep::Done)
    } else if enter {
        (typed_box(b, seq!['\n']), KeyStep::Done)
    } else if name == "Backspace"@ {
        (edited(b, backspaced(d).0, backspaced(d).1), KeyStep::Done)
    } else if name == "Delete"@ {
        forward_deleted(b)
    } else {
        (b, KeyStep::Done)
    }
}

/// A read-only text box keeps its text and its history, whatever the key and
/// whatever the edit that is asked for.
pub proof fn law_read_only_keeps_text(
    b: BoxV,
    name: Seq<char>,
    shift: bool,
    text: Seq<char>,
    query: Seq<char>,
    case_sensitive: bool,
    n: int,
    m: int,
)
    requires
        b.read_only,
    ensures
        keyed(b, name, shift).0.doc.lines == b.doc.lines,
        keyed(b, name, shift).0.hist == b.hist,
        keyed(b, name, shift).1 != KeyStep::Cluster,
        cluster_deleted(b, n, m) == b,
        entered(b, text).doc.lines == b.doc.lines,
        entered(b, text).hist == b.hist,
        cut_box(b) == b,
        indent_box(b) == b,
        outdent_box(b) == b,
        comment_box(b) == b,
        line_up_box(b) == b,
        line_down_box(b) == b,
        duplicate_box(b) == b,
        delete_box(b) == b,
        import_added(b, text) == b,
        completed(b, n, text) == b,
        reselected(b, text) == b,
        all_replaced(b, query, text, case_sensitive) == (b, 0nat),
        undo_box(b) == b,
        redo_box(b) == b,
        reverted(b, n) == b,
{
    reveal_strlit("Return");
    reveal_strlit("KeypadEnter");
    reveal_strlit("Backspace");
    reveal_strlit("Delete");
    reveal_strlit("DeleteToLineStart");
    reveal_strlit("DeleteWordBack");
    reveal_strlit("DeleteWordForward");
}

fn is_mutating(name: &str) -> (r: bool)
    ensures
        r == mutating(name@),
{
    same(name, "DeleteWordBack") || same(name, "DeleteWordForward") || same(name, "Return") || same(name, "KeypadEnter")
        || same(name, "Backspace") || same(name, "Delete") || same(name, "DeleteToLineStart")
}

fn motion_of(name: &str) -> (r: Option<Motion>)
    ensures
        r == layout_motion(name@),
{
    if same(name, "LeftArrow") {
        Some(Motion::Left)
    } else if same(name, "RightArrow") {
        Some(Motion::Right)
    } else if same(name, "UpArrow") {
        Some(Motion::Up)
    } else if same(name, "DownArrow") {
        Some(Motion::Down)
    } else if same(name, "PageUp") {
        Some(Motion::PageUp)
    } else if same(name, "PageDown") {
        Some(Motion::PageDown)
    } else {
        None
    }
}

impl InputBox {
    fn line_goal(&self, name: &str) -> (r: Option<Cursor>)
        requires
            self.wf(),
        ensures
            match r {
                Some(c) => line_motion(self@.doc, name@) == Some(c@) && valid(self@.doc.lines, c@),
                None => line_motion(self@.doc, name@) is None,
            },
    {
        let c = self.doc.cursor;
        let n: usize = self.doc.lines.len();
        if same(name, "Home") || same(name, "LineStart") {
            Some(Cursor { line: c.line, col: 0 })
        } else if same(name, "End") || same(name, "LineEnd") {
            Some(Cursor { line: c.line, col: self.doc.line_len(c.line) })
        } else if same(name, "DocStart") {
            Some(Cursor { line: 0, col: 0 })
        } else if same(name, "DocEnd") {
            assert(self@.doc.lines.last() == self@.doc.lines[n - 1]);
            Some(Cursor { line: n - 1, col: self.doc.line_len(n - 1) })
        } else {
            None
        }
    }

    fn delete_to_line_start(&mut self)
        requires
            old(self).wf(),
        ensures
            final(self)@ == line_start_deleted(old(self)@),
            final(self).wf(),
            settled(old(self)@) ==> settled(final(self)@),
    {
        let ghost b = self@;
        self.start_motion(true);
        self.doc.cursor = Cursor { line: self.doc.cursor.line, col: 0 };
        let ghost d = self@.doc;
        let mut items: Vec<Item> = Vec::new();
        assert(items_v(items@) =~= Seq::empty());
        self.doc.delete_selection(&mut items);
        assert(items_v(items@) =~= dropped(d).1);
        proof {
            lemma_dropped(d);
            lemma_edit_settles(b, dropped(d).0, dropped(d).1);
        }
        self.record(items);
    }

    fn delete_forward(&mut self) -> (r: KeyStep)
        requires
            old(self).wf(),
        ensures
            final(self)@ == forward_deleted(old(self)@).0,
            r == forward_deleted(old(self)@).1,
            final(self).wf(),
            settled(old(self)@) ==> settled(final(self)@),
    {
        let ghost b = self@;
        let c = self.doc.cursor;
        let n: usize = self.doc.lines.len();
        let mut items: Vec<Item> = Vec::new();
        assert(items_v(items@) =~= Seq::empty());
        if self.doc.selection_bounds().is_none() {
            if c.col < self.doc.line_len(c.line) {
                return KeyStep::Cluster;
            }
            if c.line + 1 >= n {
                proof {
                    lemma_edit_settles(b, b.doc, Seq::empty());
                }
                self.record(items);
                return KeyStep::Done;
            }
            self.doc.sel = Selection::Normal(Cursor { line: c.line + 1, col: 0 });
        }
        let ghost d = self@.doc;
        self.doc.delete_selection(&mut items);
        assert(items_v(items@) =~= dropped(d).1);
        proof {
            lemma_dropped(d);
            lemma_edit_settles(b, dropped(d).0, dropped(d).1);
        }
        self.record(items);
        KeyStep::Done
    }

    /// Apply a named editing key. The host decides Enter-to-send; `shift` with a
    /// motion key extends the selection (otherwise the motion clears it).
    pub fn key(&mut self, name: &str, shift: bool) -> (r: KeyStep)
        requires
            old(self).wf(),
        ensures
            final(self)@ == keyed(old(self)@, name@, shift).0,
            r == keyed(old(self)@, name@, shift).1,
            final(self).wf(),
            settled(old(self)@) ==> settled(final(self)@),
    {
        // A key moves the caret → scroll to keep it visible.
        self.caret_dirty = true;
        let ghost b = self@;

        // Read-only (debugger source view): drop text-mutating keys, keep navigation.
        if self.read_only && is_mutating(name) {
            return KeyStep::Done;
        }

        // Code-aware word motion/deletion (`.` is a boundary except in floats).
        if same(name, "WordLeft") || same(name, "WordRight") {
            let forward = same(name, "WordRight");
            self.word_move(forward, shift);
            return KeyStep::Done;
        }
        if same(name, "DeleteWordBack") || same(name, "DeleteWordForward") {
            let forward = same(name, "DeleteWordForward");
            let goal = self.word_target(forward);
            self.delete_to(goal);
            return KeyStep::Done;
        }
        let enter = same(name, "Return") || same(name, "KeypadEnter");
        if self.code_mode {
            if enter {
                self.auto_indent_enter();
                return KeyStep::Done;
            }
            if same(name, "LineStart") {
                self.smart_home(shift);
                return KeyStep::Done;
            }
            if same(name, "Backspace") {
                self.smart_backspace();
                return KeyStep::Done;
            }
        }
        if let Some(to) = self.line_goal(name) {
            self.start_motion(shift);
            self.doc.cursor = to;
            return KeyStep::Done;
        }
        if let Some(m) = motion_of(name) {
            self.start_motion(shift);
            return KeyStep::Move(m);
        }
        if same(name, "DeleteToLineStart") {
            self.delete_to_line_start();
            return KeyStep::Done;
        }
        if enter {
            let mut items: Vec<Item> = Vec::new();
            assert(items_v(items@) =~= Seq::empty());
            self.doc.insert_string("\n", &mut items);
            proof {
                reveal_strlit("\n");
                assert("\n"@ =~= seq!['\n']);
            }
            assert(items_v(items@) =~= typed(b.doc, seq!['\n']).1);
            proof {
                lemma_typed(b.doc, seq!['\n']);
                lemma_edit_settles(b, typed(b.doc, seq!['\n']).0, typed(b.doc, seq!['\n']).1);
            }
            self.record(items);
            return KeyStep::Done;
        }
        if same(name, "Backspace") {
            let mut items: Vec<Item> = Vec::new();
            assert(items_v(items@) =~= Seq::empty());
            self.doc.backspace(&mut items);
            assert(items_v(items@) =~= backspaced(b.doc).1);
            proof {
                lemma_backspaced(b.doc);
                lemma_edit_settles(b, backspaced(b.doc).0, backspaced(b.doc).1);
            }
            self.record(items);
            return KeyStep::Done;
        }
        if same(name, "Delete") {
            return self.delete_forward();
        }
        KeyStep::Done
    }
}

/// What is typed of a command is all that stands before the caret, where that starts with a
/// slash and holds no white space behind it; anything else is no command.
pub proof fn law_command_starts_with_a_slash(before: Seq<char>)
    ensures
        before.len() == 0 || before[0] != '/' ==> command_prefix(before).len() == 0,
        before.len() > 0 && before[0] == '/' && (forall|i: int| 1 <= i < before.len() ==> !white_space(#[trigger] before[i]))
            ==> command_prefix(before) == before,
        (exists|i: int| 1 <= i < before.len() && white_space(#[trigger] before[i])) ==> command_prefix(before).len() == 0,
{
}

/// Replacing everything leaves the text with every occurrence replaced, and tells how many
/// there were; a read-only text and one without an occurrence stay as they are.
pub proof fn law_replacing_all(b: BoxV, query: Seq<char>, repl: Seq<char>, case_sensitive: bool)
    requires
        doc_wf(b.doc),
    ensures
        ({
            let text = join(b.doc.lines, '\n');
            let flags = hit_flags(text, query, case_sensitive);
            let n = query.len() as int;
            let k = replacements(text, flags, n, 0);
            let (r, count) = all_replaced(b, query, repl, case_sensitive);
            &&& b.read_only || n == 0 || k == 0 ==> r == b && count == 0
            &&& !b.read_only && n > 0 && 0 < k < 0x1_0000_0000 ==> {
                &&& count == k
                &&& r.doc.lines == pieces(replaced(text, flags, n, repl, 0))
                &&& r.doc.cursor == (Pos { line: 0, col: 0 })
            }
        }),
{
    let text = join(b.doc.lines, '\n');
    let flags = hit_flags(text, query, case_sensitive);
    let n = query.len() as int;
    law_rewriting_replaces_text(b.doc, replaced(text, flags, n, repl, 0));
}

} // verus!

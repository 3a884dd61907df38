//! Undo and redo: the changes that led to a document's state, and a version of
//! every state.

use vstd::prelude::*;

use crate::input::doc::{
    all_fit, behind, doc_wf, items_v, law_reverse_undoes, lemma_behind, lemma_flat_kept, lemma_pieces_flat,
    lemma_reversed_twice, pieces, replayed, reversed, stepped, up_to, valid, Cursor, Doc, DocV, Item, ItemV, Pos, SelV,
    Selection,
};
use crate::text::texts;

verus! {

/// Default cap on retained undo steps. The host can override it per editor via
/// [`History::set_undo_limit`].
pub const DEFAULT_UNDO_LIMIT: usize = 500;

/// The history of a document.
#[verifier::ext_equal]
pub ghost struct HistoryV {
    /// Changes that can be undone, the latest last.
    pub undo: Seq<Seq<ItemV>>,
    /// Changes that can be redone, the next last, each as what undid it.
    pub redo: Seq<Seq<ItemV>>,
    /// The version of the state before each change.
    pub undo_marks: Seq<u64>,
    pub redo_marks: Seq<u64>,
    pub cur_mark: u64,
    pub next_mark: u64,
    /// Whether versions have come round: a version may then be given again.
    pub wrapped: bool,
    /// How many changes are kept; 0 is no limit.
    pub limit: usize,
}

/// Every change has a version, and until versions come round the next one is above
/// all that are in use.
pub open spec fn history_wf(h: HistoryV) -> bool {
    &&& h.undo.len() == h.undo_marks.len()
    &&& h.redo.len() == h.redo_marks.len()
    &&& h.wrapped || (h.cur_mark < h.next_mark && below(h.undo_marks, h.next_mark) && below(
        h.redo_marks,
        h.next_mark,
    ))
}

/// Whether all versions are below one.
pub open spec fn below(marks: Seq<u64>, next: u64) -> bool {
    forall|i: int| 0 <= i < marks.len() ==> #[trigger] marks[i] < next
}

/// The latest changes that a limit leaves.
pub open spec fn capped(h: HistoryV) -> HistoryV {
    if h.limit != 0 && h.undo.len() > h.limit {
        HistoryV {
            undo: h.undo.skip(h.undo.len() - h.limit),
            undo_marks: h.undo_marks.skip(h.undo.len() - h.limit),
            ..h
        }
    } else {
        h
    }
}

/// The version after a version.
pub open spec fn next_version(m: u64) -> u64 {
    if m == u64::MAX {
        0
    } else {
        (m + 1) as u64
    }
}

/// With a change recorded: it has a version of its own, and nothing is left to redo.
pub open spec fn recorded(h: HistoryV, its: Seq<ItemV>) -> HistoryV {
    capped(
        HistoryV {
            undo: h.undo.push(its),
            undo_marks: h.undo_marks.push(h.cur_mark),
            cur_mark: h.next_mark,
            next_mark: next_version(h.next_mark),
            wrapped: h.wrapped || h.next_mark == u64::MAX,
            redo: Seq::empty(),
            redo_marks: Seq::empty(),
            ..h
        },
    )
}

/// With the latest change undone.
pub open spec fn undone(h: HistoryV) -> HistoryV {
    if h.undo.len() == 0 {
        h
    } else {
        HistoryV {
            undo: h.undo.drop_last(),
            undo_marks: h.undo_marks.drop_last(),
            redo: h.redo.push(reversed(h.undo.last())),
            redo_marks: h.redo_marks.push(h.cur_mark),
            cur_mark: h.undo_marks.last(),
            ..h
        }
    }
}

/// With the latest undone change redone.
pub open spec fn redone(h: HistoryV) -> HistoryV {
    if h.redo.len() == 0 {
        h
    } else {
        HistoryV {
            redo: h.redo.drop_last(),
            redo_marks: h.redo_marks.drop_last(),
            undo: h.undo.push(reversed(h.redo.last())),
            undo_marks: h.undo_marks.push(h.cur_mark),
            cur_mark: h.redo_marks.last(),
            ..h
        }
    }
}

/// A fresh history: nothing to undo, and a version of its own.
pub open spec fn restarted(h: HistoryV) -> HistoryV {
    HistoryV {
        undo: Seq::empty(),
        redo: Seq::empty(),
        undo_marks: Seq::empty(),
        redo_marks: Seq::empty(),
        cur_mark: h.next_mark,
        next_mark: next_version(h.next_mark),
        wrapped: h.wrapped || h.next_mark == u64::MAX,
        ..h
    }
}

// ---------------------------------------------------------------------------
// What can be undone
// ---------------------------------------------------------------------------

/// Whether the changes of a stack can be taken back one after the other, the last
/// first, starting from these lines.
pub open spec fn chain(ls: Seq<Seq<char>>, stack: Seq<Seq<ItemV>>) -> bool
    decreases stack.len(),
{
    if stack.len() == 0 {
        true
    } else {
        all_fit(ls, reversed(stack.last()), 0) && chain(
            replayed(ls, reversed(stack.last()), 0),
            stack.drop_last(),
        )
    }
}

/// Whether a history belongs to these lines: all of it can be undone, and all that
/// was undone can be redone.
pub open spec fn sound(h: HistoryV, ls: Seq<Seq<char>>) -> bool {
    chain(ls, h.undo) && chain(ls, h.redo)
}

proof fn lemma_chain_skip(ls: Seq<Seq<char>>, stack: Seq<Seq<ItemV>>, k: int)
    requires
        chain(ls, stack),
        0 <= k <= stack.len(),
    ensures
        chain(ls, stack.skip(k)),
    decreases stack.len(),
{
    let t = stack.skip(k);
    if t.len() > 0 {
        assert(t.last() == stack.last());
        assert(t.drop_last() =~= stack.drop_last().skip(k));
        lemma_chain_skip(replayed(ls, reversed(stack.last()), 0), stack.drop_last(), k);
    }
}

/// Recording a change keeps a history sound, whatever led to it.
pub proof fn law_recording_is_sound(h: HistoryV, before: Seq<Seq<char>>, its: Seq<ItemV>)
    requires
        sound(h, before),
        all_fit(before, its, 0),
    ensures
        sound(recorded(h, its), replayed(before, its, 0)),
{
    let ls = replayed(before, its, 0);
    law_reverse_undoes(before, its);
    let stack = h.undo.push(its);
    assert(stack.drop_last() =~= h.undo);
    assert(chain(ls, stack));
    if h.limit != 0 && stack.len() > h.limit {
        lemma_chain_skip(ls, stack, stack.len() - h.limit);
    }
}

/// Dropping the oldest changes keeps a history sound.
pub proof fn law_capping_is_sound(h: HistoryV, ls: Seq<Seq<char>>, limit: usize)
    requires
        sound(h, ls),
    ensures
        sound(capped(HistoryV { limit, ..h }), ls),
{
    if limit != 0 && h.undo.len() > limit {
        lemma_chain_skip(ls, h.undo, h.undo.len() - limit);
    }
}

/// Undoing keeps a history sound.
pub proof fn law_undoing_is_sound(h: HistoryV, ls: Seq<Seq<char>>)
    requires
        sound(h, ls),
        h.undo.len() > 0,
    ensures
        sound(undone(h), replayed(ls, reversed(h.undo.last()), 0)),
{
    lemma_take_back(ls, h.undo, h.redo);
}

/// Redoing keeps a history sound.
pub proof fn law_redoing_is_sound(h: HistoryV, ls: Seq<Seq<char>>)
    requires
        sound(h, ls),
        h.redo.len() > 0,
    ensures
        sound(redone(h), replayed(ls, reversed(h.redo.last()), 0)),
{
    lemma_take_back(ls, h.redo, h.undo);
}

/// Taking back the last change of one stack and putting what did it on the other.
proof fn lemma_take_back(ls: Seq<Seq<char>>, from: Seq<Seq<ItemV>>, to: Seq<Seq<ItemV>>)
    requires
        chain(ls, from),
        chain(ls, to),
        from.len() > 0,
    ensures
        chain(replayed(ls, reversed(from.last()), 0), from.drop_last()),
        chain(replayed(ls, reversed(from.last()), 0), to.push(reversed(from.last()))),
{
    let back = reversed(from.last());
    let there = replayed(ls, back, 0);
    law_reverse_undoes(ls, back);
    lemma_reversed_twice(from.last());
    let t = to.push(back);
    assert(t.drop_last() =~= to);
}

/// Undoing a change and redoing it leaves the text and the history as they were.
pub proof fn law_redo_undoes_undo(h: HistoryV, ls: Seq<Seq<char>>)
    requires
        sound(h, ls),
        history_wf(h),
        h.undo.len() > 0,
    ensures
        ({
            let back = reversed(h.undo.last());
            let there = replayed(ls, back, 0);
            &&& redone(undone(h)) == h
            &&& undone(h).redo.len() > 0
            &&& replayed(there, reversed(undone(h).redo.last()), 0) == ls
        }),
{
    let back = reversed(h.undo.last());
    law_reverse_undoes(ls, back);
    lemma_reversed_twice(h.undo.last());
    let u = undone(h);
    assert(u.redo.last() == back);
    let r = redone(u);
    assert(u.redo.drop_last() =~= h.redo);
    assert(u.redo_marks.drop_last() =~= h.redo_marks);
    assert(r.undo =~= h.undo);
    assert(r.undo_marks =~= h.undo_marks);
    assert(r =~= h);
}

/// Undoing the change just recorded gives the text and the version from before it.
pub proof fn law_undo_restores(h: HistoryV, before: Seq<Seq<char>>, its: Seq<ItemV>)
    requires
        history_wf(h),
        all_fit(before, its, 0),
    ensures
        ({
            let r = recorded(h, its);
            &&& r.undo.len() > 0
            &&& r.undo.last() == its
            &&& replayed(replayed(before, its, 0), reversed(r.undo.last()), 0) == before
            &&& undone(r).cur_mark == h.cur_mark
        }),
{
    law_reverse_undoes(before, its);
}

/// A change has a version that differs from the one before it and from every
/// version that undo can go back to, as long as versions have not come round.
pub proof fn law_edits_change_the_version(h: HistoryV, its: Seq<ItemV>)
    requires
        history_wf(h),
        !h.wrapped,
    ensures
        recorded(h, its).cur_mark != h.cur_mark,
        !recorded(h, its).undo_marks.contains(recorded(h, its).cur_mark),
        history_wf(recorded(h, its)),
{
    let r = recorded(h, its);
    let all = h.undo_marks.push(h.cur_mark);
    assert(below(all, h.next_mark));
    assert(below(r.undo_marks, h.next_mark));
}

/// No more changes are kept than the limit says.
pub proof fn law_history_is_bounded(h: HistoryV, its: Seq<ItemV>)
    requires
        h.limit > 0,
    ensures
        recorded(h, its).undo.len() <= h.limit,
{
}

// ---------------------------------------------------------------------------
// Applying changes
// ---------------------------------------------------------------------------

/// Whether a step stays within the lines.
pub open spec fn step_fits(ls: Seq<Seq<char>>, it: ItemV) -> bool {
    valid(ls, it.start) && (it.insert || (valid(ls, it.end) && up_to(it.start, it.end)))
}

/// Whether the steps from the `i`-th on stay within the lines.
pub open spec fn applies(ls: Seq<Seq<char>>, its: Seq<ItemV>, i: int) -> bool
    decreases its.len() - i,
{
    if i < 0 || i >= its.len() {
        true
    } else {
        step_fits(ls, its[i]) && applies(stepped(ls, its[i]), its, i + 1)
    }
}

/// Steps that fit stay within the lines.
pub proof fn lemma_fit_applies(ls: Seq<Seq<char>>, its: Seq<ItemV>, i: int)
    requires
        all_fit(ls, its, i),
    ensures
        applies(ls, its, i),
    decreases its.len() - i,
{
    if 0 <= i < its.len() {
        lemma_fit_applies(stepped(ls, its[i]), its, i + 1);
    }
}

/// Where the caret is after the first `n` steps.
pub open spec fn carried(its: Seq<ItemV>, c: Pos, n: int) -> Pos {
    if n <= 0 || n > its.len() {
        c
    } else if its[n - 1].insert {
        behind(its[n - 1].start, pieces(its[n - 1].text))
    } else {
        its[n - 1].start
    }
}

/// A document with a change applied: the caret goes where the last step ends.
pub open spec fn applied(d: DocV, its: Seq<ItemV>) -> DocV {
    DocV { lines: replayed(d.lines, its, 0), cursor: carried(its, d.cursor, its.len() as int), ..d }
}

/// All of a sound document but that the anchor lies in it.
pub open spec fn text_wf(d: DocV) -> bool {
    doc_wf(DocV { sel: SelV::Nothing, ..d })
}

/// The change that undoes a change.
pub fn reverse(v: &Vec<Item>) -> (r: Vec<Item>)
    ensures
        items_v(r@) == reversed(items_v(v@)),
{
    let ghost its = items_v(v@);
    let ghost want = reversed(its);
    let mut out: Vec<Item> = Vec::new();
    let n: usize = v.len();
    let mut i: usize = 0;
    while i < n
        invariant
            i <= n == v@.len(),
            its == items_v(v@),
            want == reversed(its),
            items_v(out@) == want.take(i as int),
        decreases n - i,
    {
        let ghost before = items_v(out@);
        let k: usize = n - 1 - i;
        let it = Item { start: v[k].start, end: v[k].end, text: v[k].text.clone(), insert: !v[k].insert };
        out.push(it);
        assert(its[k as int] == v@[k as int]@);
        assert(it@ == want[i as int]);
        assert(items_v(out@) =~= before.push(it@));
        i = i + 1;
        assert(items_v(out@) =~= want.take(i as int));
    }
    assert(want.take(i as int) =~= want);
    out
}

impl Doc {
    /// Take one step.
    fn apply_item(&mut self, it: &Item)
        requires
            text_wf(old(self)@),
            step_fits(old(self)@.lines, it@),
        ensures
            final(self)@.lines == stepped(old(self)@.lines, it@),
            final(self)@.cursor == (if it@.insert {
                behind(it@.start, pieces(it@.text))
            } else {
                it@.start
            }),
            final(self).sel == old(self).sel,
            text_wf(final(self)@),
    {
        let ghost d = self@;
        proof {
            lemma_pieces_flat(it@.text);
            if it@.insert {
                lemma_behind(d.lines, it@.start, pieces(it@.text));
                lemma_flat_kept(d.lines, it@.start, it@.start, pieces(it@.text));
            } else {
                lemma_flat_kept(d.lines, it@.start, it@.end, pieces(it@.text));
                crate::input::doc::law_put_undoes_cut(d.lines, it@.start, it@.end);
            }
        }
        let sel = self.sel;
        let mut spare: Vec<Item> = Vec::new();
        if it.insert {
            self.sel = Selection::Nothing;
            self.cursor = it.start;
            self.insert_string(it.text.as_str(), &mut spare);
            proof {
                if it@.text.len() == 0 {
                    crate::input::doc::lemma_pieces_of_flat(it@.text);
                    assert(it@.text =~= Seq::empty());
                    let ps = pieces(it@.text);
                    let l = d.lines[it@.start.line];
                    assert(l.take(it@.start.col) + ps[0] + l.skip(it@.start.col) =~= l);
                    assert(stepped(d.lines, it@) =~= d.lines);
                }
            }
        } else {
            self.sel = Selection::Normal(it.end);
            self.cursor = it.start;
            self.delete_selection(&mut spare);
        }
        self.sel = sel;
    }

    fn has_place(&self, c: Cursor) -> (r: bool)
        ensures
            r == valid(self@.lines, c@),
    {
        c.line < self.lines.len() && c.col <= self.line_len(c.line)
    }

    fn fits(&self, it: &Item) -> (r: bool)
        ensures
            r == step_fits(self@.lines, it@),
    {
        self.has_place(it.start) && (it.insert || (self.has_place(it.end) && (it.start.line < it.end.line || (
        it.start.line == it.end.line && it.start.col <= it.end.col))))
    }

    /// A document of the same lines.
    fn copy(&self) -> (r: Doc)
        requires
            text_wf(self@),
        ensures
            r@ == (DocV { sel: SelV::Nothing, ..self@ }),
    {
        let mut lines: Vec<String> = Vec::new();
        let n: usize = self.lines.len();
        let ghost ls = self@.lines;
        let mut i: usize = 0;
        while i < n
            invariant
                i <= n == self.lines@.len(),
                ls == self@.lines,
                texts(lines@) == ls.take(i as int),
            decreases n - i,
        {
            let ghost before = texts(lines@);
            lines.push(self.lines[i].clone());
            assert(texts(lines@) =~= before.push(ls[i as int]));
            i = i + 1;
            assert(texts(lines@) =~= ls.take(i as int));
        }
        assert(ls.take(n as int) =~= ls);
        Doc { lines, cursor: self.cursor, sel: Selection::Nothing }
    }

    /// Whether the steps of a change stay within the text.
    pub fn change_applies(&self, its: &Vec<Item>) -> (r: bool)
        requires
            text_wf(self@),
        ensures
            r == applies(self@.lines, items_v(its@), 0),
    {
        let ghost v = items_v(its@);
        let n: usize = its.len();
        if n <= 1 {
            reveal_with_fuel(applies, 3);
            assert(n == 1 ==> v[0] == its@[0]@);
            return n == 0 || self.fits(&its[0]);
        }
        let mut d = self.copy();
        let mut i: usize = 0;
        while i < n
            invariant
                i <= n == its@.len(),
                v == items_v(its@),
                text_wf(d@),
                applies(self@.lines, v, 0) == applies(d@.lines, v, i as int),
            decreases n - i,
        {
            assert(v[i as int] == its@[i as int]@);
            if !d.fits(&its[i]) {
                return false;
            }
            d.apply_item(&its[i]);
            i = i + 1;
        }
        true
    }

    /// Apply a change. The selection stays where it is.
    pub fn apply_change(&mut self, its: &Vec<Item>)
        requires
            text_wf(old(self)@),
            applies(old(self)@.lines, items_v(its@), 0),
        ensures
            final(self)@ == applied(old(self)@, items_v(its@)),
            text_wf(final(self)@),
    {
        let ghost d = self@;
        let ghost v = items_v(its@);
        let mut i: usize = 0;
        while i < its.len()
            invariant
                i <= its@.len(),
                v == items_v(its@),
                text_wf(self@),
                self.sel@ == d.sel,
                applies(self@.lines, v, i as int),
                replayed(self@.lines, v, i as int) == replayed(d.lines, v, 0),
                self@.cursor == carried(v, d.cursor, i as int),
            decreases its@.len() - i,
        {
            assert(v[i as int] == its@[i as int]@);
            self.apply_item(&its[i]);
            i = i + 1;
        }
        assert(self@ =~= applied(d, v));
    }
}

// ---------------------------------------------------------------------------
// The history
// ---------------------------------------------------------------------------

/// The changes of a stack.
pub open spec fn stack_v(v: Seq<Vec<Item>>) -> Seq<Seq<ItemV>> {
    Seq::new(v.len(), |i: int| items_v(v[i]@))
}

/// Undo/redo stacks: each edit pushes to `undo` and clears `redo`; undo moves the
/// change to `redo` (and back) so it can be replayed.
pub struct History {
    undo: Vec<Vec<Item>>,
    redo: Vec<Vec<Item>>,
    /// Version marks parallel to the undo/redo stacks: a monotonic id identifying
    /// the document *state*, which undo/redo restore. The host records the current
    /// one at save and compares it to detect unsaved changes.
    undo_marks: Vec<u64>,
    redo_marks: Vec<u64>,
    cur_mark: u64,
    next_mark: u64,
    wrapped: Ghost<bool>,
    /// Cap on retained undo steps; the oldest are dropped past it. 0 = unlimited.
    undo_limit: usize,
}

impl View for History {
    type V = HistoryV;

    closed spec fn view(&self) -> HistoryV {
        HistoryV {
            undo: stack_v(self.undo@),
            redo: stack_v(self.redo@),
            undo_marks: self.undo_marks@,
            redo_marks: self.redo_marks@,
            cur_mark: self.cur_mark,
            next_mark: self.next_mark,
            wrapped: self.wrapped@,
            limit: self.undo_limit,
        }
    }
}

fn bump_mark(m: u64) -> (r: u64)
    ensures
        r == next_version(m),
{
    if m == u64::MAX {
        0
    } else {
        m + 1
    }
}

impl History {
    /// Every change has a version (see [`history_wf`]).
    pub open spec fn wf(&self) -> bool {
        history_wf(self@)
    }

    pub fn new() -> (r: Self)
        ensures
            r.wf(),
            r@ == (HistoryV {
                undo: Seq::empty(),
                redo: Seq::empty(),
                undo_marks: Seq::empty(),
                redo_marks: Seq::empty(),
                cur_mark: 0,
                next_mark: 1,
                wrapped: false,
                limit: DEFAULT_UNDO_LIMIT,
            }),
    {
        let h = History {
            undo: Vec::new(),
            redo: Vec::new(),
            undo_marks: Vec::new(),
            redo_marks: Vec::new(),
            cur_mark: 0,
            next_mark: 1,
            wrapped: Ghost(false),
            undo_limit: DEFAULT_UNDO_LIMIT,
        };
        assert(h@.undo =~= Seq::empty());
        assert(h@.redo =~= Seq::empty());
        h
    }

    fn trim(&mut self)
        requires
            old(self).wf(),
        ensures
            final(self)@ == capped(old(self)@),
            final(self).wf(),
    {
        if self.undo_limit != 0 && self.undo.len() > self.undo_limit {
            let excess: usize = self.undo.len() - self.undo_limit;
            let tail = self.undo.split_off(excess);
            self.undo = tail;
            let marks = self.undo_marks.split_off(excess);
            self.undo_marks = marks;
            assert(self@.undo =~= old(self)@.undo.skip(excess as int));
            assert(self@.undo_marks =~= old(self)@.undo_marks.skip(excess as int));
            assert(self@ =~= capped(old(self)@));
        }
    }

    /// Record a new undoable edit: push the change and advance the version mark to a
    /// fresh value (the prior state's mark is remembered so undo can restore it).
    /// Clears the redo branch — a new edit makes redo unreachable.
    pub fn push_change(&mut self, items: Vec<Item>)
        requires
            old(self).wf(),
        ensures
            final(self)@ == recorded(old(self)@, items_v(items@)),
            final(self).wf(),
    {
        let ghost h = self@;
        self.undo.push(items);
        self.undo_marks.push(self.cur_mark);
        self.cur_mark = self.next_mark;
        proof {
            self.wrapped@ = self.wrapped@ || self.next_mark == u64::MAX;
        }
        self.next_mark = bump_mark(self.next_mark);
        self.redo = Vec::new();
        self.redo_marks = Vec::new();
        assert(self@.undo =~= h.undo.push(items_v(items@)));
        assert(self@.redo =~= Seq::empty());
        self.trim();
    }

    /// Set the undo-history cap (0 = unlimited). Trims the existing stack at once if
    /// the new limit is smaller than what's already retained.
    pub fn set_undo_limit(&mut self, limit: usize)
        requires
            old(self).wf(),
        ensures
            final(self)@ == capped(HistoryV { limit, ..old(self)@ }),
            final(self).wf(),
    {
        self.undo_limit = limit;
        self.trim();
    }

    /// The current document-state version. The host compares this to the value
    /// captured at save to detect unsaved changes — undoing back to the saved state
    /// restores its mark, so the buffer reads clean again.
    pub fn edit_serial(&self) -> (r: u64)
        ensures
            r == self@.cur_mark,
    {
        self.cur_mark
    }

    /// Forget all changes: a programmatic reset isn't an undoable edit. The new
    /// state has a version of its own.
    pub fn restart(&mut self)
        ensures
            final(self)@ == restarted(old(self)@),
            final(self).wf(),
    {
        self.undo = Vec::new();
        self.redo = Vec::new();
        self.undo_marks = Vec::new();
        self.redo_marks = Vec::new();
        self.cur_mark = self.next_mark;
        proof {
            self.wrapped@ = self.wrapped@ || self.next_mark == u64::MAX;
        }
        self.next_mark = bump_mark(self.next_mark);
        assert(self@ =~= restarted(old(self)@));
    }

    /// Whether there is an edit to undo and its steps lie in the text.
    pub fn can_undo(&self, doc: &Doc) -> (r: bool)
        requires
            self.wf(),
            text_wf(doc@),
        ensures
            r == (self@.undo.len() > 0 && applies(doc@.lines, reversed(self@.undo.last()), 0)),
    {
        let n: usize = self.undo.len();
        if n == 0 {
            return false;
        }
        assert(self@.undo.last() == items_v(self.undo@[n - 1]@));
        let back = reverse(&self.undo[n - 1]);
        doc.change_applies(&back)
    }

    /// Whether there is an undone edit and its steps lie in the text.
    pub fn can_redo(&self, doc: &Doc) -> (r: bool)
        requires
            self.wf(),
            text_wf(doc@),
        ensures
            r == (self@.redo.len() > 0 && applies(doc@.lines, reversed(self@.redo.last()), 0)),
    {
        let n: usize = self.redo.len();
        if n == 0 {
            return false;
        }
        assert(self@.redo.last() == items_v(self.redo@[n - 1]@));
        let again = reverse(&self.redo[n - 1]);
        doc.change_applies(&again)
    }

    /// Undo the most recent edit (moves it to the redo stack). Returns whether there
    /// was one.
    pub fn undo(&mut self, doc: &mut Doc) -> (r: bool)
        requires
            old(self).wf(),
            text_wf(old(doc)@),
            old(self)@.undo.len() > 0 ==> applies(old(doc)@.lines, reversed(old(self)@.undo.last()), 0),
        ensures
            final(self).wf(),
            r == (old(self)@.undo.len() > 0),
            final(self)@ == undone(old(self)@),
            final(doc)@ == (if r {
                applied(old(doc)@, reversed(old(self)@.undo.last()))
            } else {
                old(doc)@
            }),
            text_wf(final(doc)@),
    {
        let ghost h = self@;
        match self.undo.pop() {
            None => false,
            Some(change) => {
                assert(h.undo.last() == items_v(change@));
                let back = reverse(&change);
                doc.apply_change(&back);
                self.redo.push(back);
                self.redo_marks.push(self.cur_mark);
                self.cur_mark = match self.undo_marks.pop() {
                    Some(m) => m,
                    None => 0,
                };
                assert(self@.undo =~= h.undo.drop_last());
                assert(self@.redo =~= h.redo.push(reversed(h.undo.last())));
                assert(self@ =~= undone(h));
                true
            },
        }
    }

    /// Redo the most recently undone edit. Returns whether there was one.
    pub fn redo(&mut self, doc: &mut Doc) -> (r: bool)
        requires
            old(self).wf(),
            text_wf(old(doc)@),
            old(self)@.redo.len() > 0 ==> applies(old(doc)@.lines, reversed(old(self)@.redo.last()), 0),
        ensures
            final(self).wf(),
            r == (old(self)@.redo.len() > 0),
            final(self)@ == redone(old(self)@),
            final(doc)@ == (if r {
                applied(old(doc)@, reversed(old(self)@.redo.last()))
            } else {
                old(doc)@
            }),
            text_wf(final(doc)@),
    {
        let ghost h = self@;
        match self.redo.pop() {
            None => false,
            Some(change) => {
                assert(h.redo.last() == items_v(change@));
                let again = reverse(&change);
                doc.apply_change(&again);
                self.undo.push(again);
                self.undo_marks.push(self.cur_mark);
                self.cur_mark = match self.redo_marks.pop() {
                    Some(m) => m,
                    None => 0,
                };
                assert(self@.redo =~= h.redo.drop_last());
                assert(self@.undo =~= h.undo.push(reversed(h.redo.last())));
                assert(self@ =~= redone(h));
                true
            },
        }
    }
}

/// The latest changes are kept: all of them without a limit, and as many as the limit
/// otherwise; the oldest go first.
pub proof fn law_latest_changes_are_kept(h: HistoryV, its: Seq<ItemV>, i: int)
    requires
        history_wf(h),
    ensures
        ({
            let r = recorded(h, its);
            let all = h.undo.push(its);
            &&& h.limit == 0 || all.len() <= h.limit ==> r.undo == all
            &&& h.limit > 0 && all.len() > h.limit ==> r.undo.len() == h.limit
            &&& 1 <= i <= r.undo.len() ==> r.undo[r.undo.len() - i] == all[all.len() - i]
            &&& r.redo.len() == 0
            &&& r.limit == h.limit
        }),
{
}

/// Undoing goes back to the version the change was made from, and redoing to the one it
/// made; neither makes a new one.
pub proof fn law_versions_come_back(h: HistoryV, its: Seq<ItemV>)
    requires
        history_wf(h),
    ensures
        ({
            let r = recorded(h, its);
            &&& undone(r).cur_mark == h.cur_mark
            &&& redone(undone(r)).cur_mark == r.cur_mark
            &&& undone(r).next_mark == r.next_mark
            &&& undone(r).undo == r.undo.drop_last()
        }),
{
}

/// A fresh history has nothing to undo or redo, and a version of its own.
pub proof fn law_restarting_forgets(h: HistoryV)
    requires
        history_wf(h),
        !h.wrapped,
    ensures
        restarted(h).undo.len() == 0,
        restarted(h).redo.len() == 0,
        restarted(h).cur_mark != h.cur_mark,
        !h.undo_marks.contains(restarted(h).cur_mark),
        restarted(h).limit == h.limit,
{
}

} // verus!

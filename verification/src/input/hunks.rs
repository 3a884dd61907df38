//! Git-diff blocks in the gutter of the text box: which block a line belongs to,
//! the peek at one, and reverting one.

use vstd::prelude::*;

use crate::input::doc::{Cursor, Pos};
use crate::input::edit::{settled, BoxV, InputBox, Peek, PeekV};
use crate::input::lines::{spliced, splice_box};
use crate::text::{same, split, split_str, texts};

verus! {

/// A changed block: the lines that it replaces in the old text, and the lines that
/// stand there in the new one.
#[derive(Clone, Copy, PartialEq, Eq, Structural, Debug)]
pub struct Hunk {
    pub old_start: usize,
    pub old_len: usize,
    pub new_start: usize,
    pub new_len: usize,
}

/// A block as the gutter shows it.
#[derive(Clone, Copy, Debug)]
pub struct ShownHunk {
    pub hunk: Hunk,
    /// Already staged in the index.
    pub staged: bool,
    /// For a block whose change lives in the index while the buffer is back at HEAD:
    /// the lines of the index, by the first and the count.
    pub index_new: Option<(usize, usize)>,
}

/// The versions of the file that the text is compared with, and the blocks.
pub struct Diff {
    /// The HEAD and the index version of the file.
    pub head: Option<String>,
    pub index: Option<String>,
    /// The staged blocks, from HEAD to the index.
    pub index_hunks: Vec<Hunk>,
    /// The generation of the text that `shown` belongs to.
    pub generation: u64,
    pub shown: Vec<ShownHunk>,
}

/// The versions of the file that the text is compared with, and the blocks.
#[verifier::ext_equal]
pub ghost struct DiffV {
    pub head: Option<Seq<char>>,
    pub index: Option<Seq<char>>,
    pub index_hunks: Seq<Hunk>,
    pub generation: u64,
    pub shown: Seq<ShownHunk>,
}

/// A text, if there is one.
pub open spec fn text_v(s: Option<String>) -> Option<Seq<char>> {
    match s {
        Some(t) => Some(t@),
        None => None,
    }
}

impl View for Diff {
    type V = DiffV;

    open spec fn view(&self) -> DiffV {
        DiffV {
            head: text_v(self.head),
            index: text_v(self.index),
            index_hunks: self.index_hunks@,
            generation: self.generation,
            shown: self.shown@,
        }
    }
}

impl Diff {
    pub fn new() -> (r: Self)
        ensures
            r@ == (DiffV {
                head: None,
                index: None,
                index_hunks: Seq::empty(),
                generation: u64::MAX,
                shown: Seq::empty(),
            }),
    {
        Diff { head: None, index: None, index_hunks: Vec::new(), generation: u64::MAX, shown: Vec::new() }
    }
}

/// Whether both are there and equal, or neither is there.
pub fn same_text(a: &Option<String>, b: &Option<String>) -> (r: bool)
    ensures
        r == (text_v(*a) == text_v(*b)),
{
    match (a, b) {
        (Some(x), Some(y)) => same(x.as_str(), y.as_str()),
        (None, None) => true,
        _ => false,
    }
}

/// The text the gutter compares with: HEAD, or the index before the first commit (so
/// a freshly-added file still gets markers).
pub open spec fn base_of(d: DiffV) -> Option<Seq<char>> {
    if d.head is Some {
        d.head
    } else {
        d.index
    }
}

/// The lines from `start` on, at most `len` of them.
pub open spec fn stretch(ls: Seq<Seq<char>>, start: int, len: int) -> Seq<Seq<char>> {
    let n = ls.len() as int;
    let a = if start < n { start } else { n };
    let b = if start + len < n { start + len } else { n };
    ls.subrange(a, b)
}

/// The lines that a block replaces.
pub open spec fn old_lines(d: DiffV, h: Hunk) -> Seq<Seq<char>> {
    match base_of(d) {
        Some(t) => stretch(split(t, '\n'), h.old_start as int, h.old_len as int),
        None => Seq::empty(),
    }
}

/// The line that a pure deletion is shown at, in a text of `n` lines: the one below
/// it, or the last.
pub open spec fn boundary(h: Hunk, n: int) -> int {
    if h.new_start < n {
        h.new_start as int
    } else if n > 0 {
        n - 1
    } else {
        0
    }
}

/// Whether a line is one of a block's lines or next to them. A hover near a thin
/// marker (especially a deletion wedge) still lands.
pub open spec fn near(h: Hunk, line: int, n: int) -> bool {
    if h.new_len > 0 {
        h.new_start - 1 <= line <= h.new_start + h.new_len
    } else {
        boundary(h, n) - 1 <= line <= boundary(h, n) + 1
    }
}

/// The first block, from `i` on, that a line is near.
pub open spec fn hunk_near(d: DiffV, line: int, n: int, i: int) -> Option<int>
    decreases d.shown.len() - i,
{
    if i < 0 || i >= d.shown.len() {
        None
    } else if near(d.shown[i].hunk, line, n) {
        Some(i)
    } else {
        hunk_near(d, line, n, i + 1)
    }
}

/// The block that a line is near is one of the blocks, and no earlier one is near.
pub proof fn law_first_near_hunk(d: DiffV, line: int, n: int)
    ensures
        match hunk_near(d, line, n, 0) {
            Some(k) => 0 <= k < d.shown.len() && near(d.shown[k].hunk, line, n) && forall|j: int|
                0 <= j < k ==> !near(#[trigger] d.shown[j].hunk, line, n),
            None => forall|j: int| 0 <= j < d.shown.len() ==> !near(#[trigger] d.shown[j].hunk, line, n),
        },
{
    lemma_hunk_near(d, line, n, 0);
}

proof fn lemma_hunk_near(d: DiffV, line: int, n: int, i: int)
    requires
        0 <= i,
    ensures
        match hunk_near(d, line, n, i) {
            Some(k) => i <= k < d.shown.len() && near(d.shown[k].hunk, line, n) && forall|j: int|
                i <= j < k ==> !near(#[trigger] d.shown[j].hunk, line, n),
            None => forall|j: int| i <= j < d.shown.len() ==> !near(#[trigger] d.shown[j].hunk, line, n),
        },
    decreases d.shown.len() - i,
{
    if i < d.shown.len() && !near(d.shown[i].hunk, line, n) {
        lemma_hunk_near(d, line, n, i + 1);
    }
}

fn is_near(h: &Hunk, line: usize, n: usize) -> (r: bool)
    ensures
        r == near(*h, line as int, n as int),
{
    if h.new_len > 0 {
        if line >= h.new_start {
            line - h.new_start <= h.new_len
        } else {
            h.new_start - line <= 1
        }
    } else {
        let b: usize = if h.new_start < n {
            h.new_start
        } else if n > 0 {
            n - 1
        } else {
            0
        };
        if line >= b {
            line - b <= 1
        } else {
            b - line <= 1
        }
    }
}

/// The lines of `all` from `start` on, at most `len` of them, each taken for added or
/// not, put behind `out`.
fn append_stretch(out: &mut Vec<(bool, String)>, all: &Vec<String>, start: usize, len: usize, added: bool)
    ensures
        tagged(final(out)@) == tagged(old(out)@) + tag(stretch(texts(all@), start as int, len as int), added),
{
    let n: usize = all.len();
    let a: usize = if start < n {
        start
    } else {
        n
    };
    let b: usize = if len < n - a {
        a + len
    } else {
        n
    };
    let ghost ls = texts(all@);
    let ghost base = tagged(out@);
    let mut i: usize = a;
    assert(tagged(out@) =~= base + tag(ls.subrange(a as int, a as int), added));
    while i < b
        invariant
            a <= i <= b <= n == all@.len(),
            ls == texts(all@),
            tagged(out@) == base + tag(ls.subrange(a as int, i as int), added),
        decreases b - i,
    {
        let t = all[i].clone();
        let ghost before = tagged(out@);
        out.push((added, t));
        assert(tagged(out@) =~= before.push((added, ls[i as int])));
        i = i + 1;
        assert(tagged(out@) =~= base + tag(ls.subrange(a as int, i as int), added));
    }
    assert(stretch(ls, start as int, len as int) =~= ls.subrange(a as int, b as int));
}

/// Lines, each with whether it was added.
pub open spec fn tagged(v: Seq<(bool, String)>) -> Seq<(bool, Seq<char>)> {
    Seq::new(v.len(), |i: int| (v[i].0, v[i].1@))
}

/// Lines that were all added, or were all removed.
pub open spec fn tag(ls: Seq<Seq<char>>, added: bool) -> Seq<(bool, Seq<char>)> {
    Seq::new(ls.len(), |i: int| (added, ls[i]))
}

/// A block as a unified diff: the removed lines of the base, then the added lines.
/// Where the change lives only in the index, the added side comes from there.
pub open spec fn unified(b: BoxV, k: int) -> Seq<(bool, Seq<char>)> {
    let s = b.diff.shown[k];
    tag(old_lines(b.diff, s.hunk), false) + tag(
        match s.index_new {
            Some((start, len)) => match b.diff.index {
                Some(t) => stretch(split(t, '\n'), start as int, len as int),
                None => Seq::empty(),
            },
            None => stretch(b.doc.lines, s.hunk.new_start as int, s.hunk.new_len as int),
        },
        true,
    )
}

/// After the pointer moved to a line of the gutter or away from it, and whether
/// there is something to repaint.
pub open spec fn hovered(b: BoxV, line: Option<int>) -> (BoxV, bool) {
    let target = match line {
        Some(l) => hunk_near(b.diff, l, b.doc.lines.len() as int, 0),
        None => None,
    };
    match target {
        Some(k) => if b.peek is Some && b.peek->0.hunk == k {
            (b, false)
        } else if unified(b, k).len() == 0 {
            (BoxV { peek: None, ..b }, b.peek is Some)
        } else {
            (BoxV { peek: Some(PeekV { hunk: k, lines: unified(b, k) }), ..b }, true)
        },
        None => (BoxV { peek: None, ..b }, b.peek is Some),
    }
}

/// Hovering the same line again changes nothing and asks for no repaint.
pub proof fn law_hover_settles(b: BoxV, line: Option<int>)
    ensures
        ({
            let one = hovered(b, line).0;
            hovered(one, line) == (one, false)
        }),
{
    let one = hovered(b, line).0;
    assert(one.diff == b.diff && one.doc == b.doc);
    if let Some(l) = line {
        if let Some(k) = hunk_near(b.diff, l, b.doc.lines.len() as int, 0) {
            assert(unified(one, k) =~= unified(b, k));
        }
    }
    assert(hovered(one, line).0 =~= one);
}

/// A text with a block reverted to the base, as one undoable edit; a read-only text
/// stays as it is.
pub open spec fn reverted(b: BoxV, k: int) -> BoxV {
    if !(0 <= k < b.diff.shown.len()) || base_of(b.diff) is None {
        b
    } else {
        let h = b.diff.shown[k].hunk;
        let was = old_lines(b.diff, h);
        let n = b.doc.lines.len() as int;
        let first = if h.new_start < n { h.new_start as int } else { n - 1 };
        if h.new_len > 0 {
            let end = h.new_start + h.new_len - 1;
            splice_box(b, first, if end < n { end } else { n - 1 }, was, Pos { line: first, col: 0 }, None)
        } else if was.len() == 0 {
            b
        } else if h.new_start < n {
            splice_box(b, first, first, was.push(b.doc.lines[first]), Pos { line: first, col: 0 }, None)
        } else {
            splice_box(b, first, first, seq![b.doc.lines[first]] + was, Pos { line: first, col: 0 }, None)
        }
    }
}

/// Reverting a block puts the lines of the base where the block's lines stood, and
/// keeps every other line; a text of which nothing is left is an empty line.
#[verifier::spinoff_prover]
#[verifier::rlimit(40)]
pub proof fn law_revert_restores_base(b: BoxV, k: int)
    requires
        crate::input::edit::box_wf(b),
        !b.read_only,
        0 <= k < b.diff.shown.len(),
        base_of(b.diff) is Some,
        ({
            let h = b.diff.shown[k].hunk;
            &&& h.new_start + h.new_len <= b.doc.lines.len()
            &&& crate::input::doc::all_flat(old_lines(b.diff, h))
        }),
    ensures
        ({
            let h = b.diff.shown[k].hunk;
            let want = b.doc.lines.take(h.new_start as int) + old_lines(b.diff, h) + b.doc.lines.skip(
                h.new_start + h.new_len,
            );
            reverted(b, k).doc.lines == (if want.len() == 0 {
                seq![Seq::<char>::empty()]
            } else {
                want
            })
        }),
{
    let h = b.diff.shown[k].hunk;
    let was = old_lines(b.diff, h);
    let ls = b.doc.lines;
    let n = ls.len() as int;
    let first = if h.new_start < n { h.new_start as int } else { n - 1 };
    let c = Pos { line: first, col: 0 };
    let want = ls.take(h.new_start as int) + was + ls.skip(h.new_start + h.new_len);
    if h.new_len > 0 {
        crate::input::lines::law_splice_replaces_lines(b, first, h.new_start + h.new_len - 1, was, c, None);
        assert(ls.take(first) + was + ls.skip(h.new_start + h.new_len) =~= want);
    } else if was.len() == 0 {
        assert(want =~= ls);
    } else if h.new_start < n {
        let new = was.push(ls[first]);
        crate::input::lines::law_splice_replaces_lines(b, first, first, new, c, None);
        assert(spliced(ls, first, first, new) =~= want);
    } else {
        let new = seq![ls[first]] + was;
        crate::input::lines::law_splice_replaces_lines(b, first, first, new, c, None);
        assert(spliced(ls, first, first, new) =~= want);
    }
}

/// What the gutter shows beside a line.
#[derive(Clone, Copy, PartialEq, Eq, Structural, Debug)]
pub struct Marker {
    /// A bar: the line belongs to a block of new lines, or to one of changed lines.
    pub added: bool,
    pub modified: bool,
    /// A wedge: lines were deleted above the line, or below it at the end of the text.
    pub deleted_above: bool,
    pub deleted_below: bool,
    /// The bar and the wedges are hollow: what they show is staged.
    pub staged: bool,
    pub staged_deletion: bool,
}

/// Whether a block holds a line.
pub open spec fn holds_line(h: Hunk, line: int) -> bool {
    h.new_len > 0 && h.new_start <= line < h.new_start + h.new_len
}

/// Whether a block is a deletion that is shown above a line, in a text of `n` lines.
pub open spec fn cut_above(h: Hunk, line: int, n: int) -> bool {
    h.new_len == 0 && h.new_start == line && line < n
}

/// Whether a block is a deletion that is shown below a line: it sat behind the end.
pub open spec fn cut_below(h: Hunk, line: int, n: int) -> bool {
    h.new_len == 0 && h.new_start >= n && line == n - 1
}

/// Whether one of the first `m` blocks is of a kind.
pub open spec fn some_shown(shown: Seq<ShownHunk>, m: int, kind: spec_fn(ShownHunk) -> bool) -> bool {
    exists|k: int| 0 <= k < m && kind(#[trigger] shown[k])
}

/// What the gutter shows beside a line of a text of `n` lines, by the first `m`
/// blocks.
pub open spec fn marker(shown: Seq<ShownHunk>, m: int, line: int, n: int) -> Marker {
    Marker {
        added: some_shown(shown, m, |s: ShownHunk| holds_line(s.hunk, line) && s.hunk.old_len == 0),
        modified: some_shown(shown, m, |s: ShownHunk| holds_line(s.hunk, line) && s.hunk.old_len > 0),
        deleted_above: some_shown(shown, m, |s: ShownHunk| cut_above(s.hunk, line, n)),
        deleted_below: some_shown(shown, m, |s: ShownHunk| cut_below(s.hunk, line, n)),
        staged: some_shown(shown, m, |s: ShownHunk| holds_line(s.hunk, line) && s.staged),
        staged_deletion: some_shown(
            shown,
            m,
            |s: ShownHunk| (cut_above(s.hunk, line, n) || cut_below(s.hunk, line, n)) && s.staged,
        ),
    }
}

proof fn lemma_some_shown(shown: Seq<ShownHunk>, m: int, kind: spec_fn(ShownHunk) -> bool)
    requires
        0 <= m < shown.len(),
    ensures
        some_shown(shown, m + 1, kind) == (some_shown(shown, m, kind) || kind(shown[m])),
{
    if some_shown(shown, m, kind) {
        let k = choose|k: int| 0 <= k < m && kind(#[trigger] shown[k]);
        assert(kind(shown[k]));
    }
    if kind(shown[m]) {
        assert(kind(shown[m]));
    }
}

/// Every line of a block has a bar, and a block of no lines has a wedge at the line it
/// is shown at.
pub proof fn law_hunks_are_marked(shown: Seq<ShownHunk>, k: int, line: int, n: int)
    requires
        0 <= k < shown.len(),
        0 < n,
    ensures
        ({
            let h = shown[k].hunk;
            let m = marker(shown, shown.len() as int, line, n);
            &&& holds_line(h, line) ==> m.added || m.modified
            &&& h.new_len == 0 && line == boundary(h, n) ==> m.deleted_above || m.deleted_below
        }),
{
    let h = shown[k].hunk;
    let n1 = |s: ShownHunk| holds_line(s.hunk, line) && s.hunk.old_len == 0;
    let n2 = |s: ShownHunk| holds_line(s.hunk, line) && s.hunk.old_len > 0;
    let n3 = |s: ShownHunk| cut_above(s.hunk, line, n);
    let n4 = |s: ShownHunk| cut_below(s.hunk, line, n);
    assert(n1(shown[k]) ==> some_shown(shown, shown.len() as int, n1));
    assert(n2(shown[k]) ==> some_shown(shown, shown.len() as int, n2));
    assert(n3(shown[k]) ==> some_shown(shown, shown.len() as int, n3));
    assert(n4(shown[k]) ==> some_shown(shown, shown.len() as int, n4));
}

/// Whether two stretches of lines, by their first line and their length, overlap:
/// they share a line or, where one of them is the place of an insertion, it lies in
/// the other or at its edge.
pub open spec fn overlap(a: int, a_len: int, b: int, b_len: int) -> bool {
    if a_len > 0 && b_len > 0 {
        a < b + b_len && b < a + a_len
    } else {
        a <= b + b_len && b <= a + a_len
    }
}

/// Whether one of the first `m` staged blocks overlaps the lines of HEAD that a block
/// stands for.
pub open spec fn staged_within(index_hunks: Seq<Hunk>, m: int, h: Hunk) -> bool {
    exists|k: int|
        0 <= k < m && overlap(
            (#[trigger] index_hunks[k]).old_start as int,
            index_hunks[k].old_len as int,
            h.old_start as int,
            h.old_len as int,
        )
}

fn overlaps(a: usize, a_len: usize, b: usize, b_len: usize) -> (r: bool)
    ensures
        r == overlap(a as int, a_len as int, b as int, b_len as int),
{
    if a_len > 0 && b_len > 0 {
        (a < b || a - b < b_len) && (b < a || b - a < a_len)
    } else {
        (a < b || a - b <= b_len) && (b < a || b - a <= a_len)
    }
}

impl InputBox {
    /// Set the git HEAD and index versions of the file (both None clears the
    /// markers), with the staged blocks between them. Returns true when the versions
    /// actually changed — the host refreshes on a 1s poll, so an unchanged delivery is
    /// a no-op that must NOT drop the peek or force a recompute.
    pub fn set_diff(&mut self, head: Option<String>, index: Option<String>, index_hunks: Vec<Hunk>) -> (r: bool)
        ensures
            r == (text_v(head) != old(self)@.diff.head || text_v(index) != old(self)@.diff.index),
            final(self)@ == (if r {
                BoxV {
                    diff: DiffV {
                        head: text_v(head),
                        index: text_v(index),
                        index_hunks: if head is Some && index is Some { index_hunks@ } else { Seq::empty() },
                        generation: u64::MAX,
                        shown: old(self)@.diff.shown,
                    },
                    peek: None,
                    ..old(self)@
                }
            } else {
                old(self)@
            }),
    {
        if same_text(&self.diff.head, &head) && same_text(&self.diff.index, &index) {
            return false;
        }
        self.diff.index_hunks = if head.is_some() && index.is_some() {
            index_hunks
        } else {
            Vec::new()
        };
        self.diff.head = head;
        self.diff.index = index;
        self.diff.generation = u64::MAX; // force a recompute
        self.peek = None; // hunks may have shifted; drop any open peek
        true
    }

    /// Whether the blocks belong to another text than the current one.
    pub fn diff_is_stale(&self) -> (r: bool)
        ensures
            r == (self@.diff.generation != self@.edit_gen),
    {
        self.diff.generation != self.edit_gen
    }

    /// Take the blocks for the current text.
    pub fn show_hunks(&mut self, shown: Vec<ShownHunk>)
        ensures
            final(self)@ == (BoxV {
                diff: DiffV { shown: shown@, generation: old(self)@.edit_gen, ..old(self)@.diff },
                ..old(self)@
            }),
    {
        self.diff.shown = shown;
        self.diff.generation = self.edit_gen;
    }

    /// Whether hunk `hunk_i`'s change is already staged in the index (exact match).
    pub fn hunk_staged(&self, hunk_i: usize) -> (r: bool)
        ensures
            r == (hunk_i < self@.diff.shown.len() && self@.diff.shown[hunk_i as int].staged),
    {
        hunk_i < self.diff.shown.len() && self.diff.shown[hunk_i].staged
    }

    /// Whether ANY staged block overlaps hunk `hunk_i`'s HEAD range. True also for a
    /// partially staged region (staged, then edited further): `hunk_staged` is false
    /// there, but an Unstage would still drop the staged version, so the host offers
    /// both Stage (update) and Unstage (drop).
    pub fn hunk_has_staged(&self, hunk_i: usize) -> (r: bool)
        ensures
            r == (hunk_i < self@.diff.shown.len() && staged_within(
                self@.diff.index_hunks,
                self@.diff.index_hunks.len() as int,
                self@.diff.shown[hunk_i as int].hunk,
            )),
    {
        if hunk_i >= self.diff.shown.len() {
            return false;
        }
        let h = self.diff.shown[hunk_i].hunk;
        let n: usize = self.diff.index_hunks.len();
        let mut i: usize = 0;
        while i < n
            invariant
                i <= n == self.diff.index_hunks@.len(),
                hunk_i < self.diff.shown@.len(),
                h == self.diff.shown@[hunk_i as int].hunk,
                !staged_within(self.diff.index_hunks@, i as int, h),
            decreases n - i,
        {
            let t = self.diff.index_hunks[i];
            if overlaps(t.old_start, t.old_len, h.old_start, h.old_len) {
                assert(self.diff.index_hunks@[i as int] == t);
                return true;
            }
            i = i + 1;
        }
        false
    }

    /// What the gutter shows beside a line.
    pub fn marker_at(&self, line: usize) -> (r: Marker)
        ensures
            r == marker(
                self@.diff.shown,
                self@.diff.shown.len() as int,
                line as int,
                self@.doc.lines.len() as int,
            ),
    {
        let n: usize = self.doc.lines.len();
        let ghost shown = self.diff.shown@;
        let mut r = Marker {
            added: false,
            modified: false,
            deleted_above: false,
            deleted_below: false,
            staged: false,
            staged_deletion: false,
        };
        let mut i: usize = 0;
        while i < self.diff.shown.len()
            invariant
                i <= self.diff.shown@.len(),
                shown == self.diff.shown@,
                n == self@.doc.lines.len(),
                r == marker(shown, i as int, line as int, n as int),
            decreases self.diff.shown@.len() - i,
        {
            let s = self.diff.shown[i];
            let h = s.hunk;
            let inside = h.new_len > 0 && h.new_start <= line && line - h.new_start < h.new_len;
            let above = h.new_len == 0 && h.new_start == line && line < n;
            let below = h.new_len == 0 && h.new_start >= n && n > 0 && line == n - 1;
            proof {
                let (l, c, m) = (line as int, n as int, i as int);
                lemma_some_shown(shown, m, |s: ShownHunk| holds_line(s.hunk, l) && s.hunk.old_len == 0);
                lemma_some_shown(shown, m, |s: ShownHunk| holds_line(s.hunk, l) && s.hunk.old_len > 0);
                lemma_some_shown(shown, m, |s: ShownHunk| cut_above(s.hunk, l, c));
                lemma_some_shown(shown, m, |s: ShownHunk| cut_below(s.hunk, l, c));
                lemma_some_shown(shown, m, |s: ShownHunk| holds_line(s.hunk, l) && s.staged);
                lemma_some_shown(
                    shown,
                    m,
                    |s: ShownHunk| (cut_above(s.hunk, l, c) || cut_below(s.hunk, l, c)) && s.staged,
                );
            }
            r = Marker {
                added: r.added || (inside && h.old_len == 0),
                modified: r.modified || (inside && h.old_len > 0),
                deleted_above: r.deleted_above || above,
                deleted_below: r.deleted_below || below,
                staged: r.staged || (inside && s.staged),
                staged_deletion: r.staged_deletion || ((above || below) && s.staged),
            };
            i = i + 1;
        }
        r
    }

    /// Whether hunk `hunk_i` is staged-ONLY: the change lives in the index while the
    /// buffer is back at HEAD. Reverting the buffer is a no-op there, so the host's
    /// menu offers just Unstage.
    pub fn hunk_staged_only(&self, hunk_i: usize) -> (r: bool)
        ensures
            r == (hunk_i < self@.diff.shown.len() && self@.diff.shown[hunk_i as int].index_new is Some),
    {
        hunk_i < self.diff.shown.len() && self.diff.shown[hunk_i].index_new.is_some()
    }

    /// The block that a line is near, by its index.
    pub fn hunk_index_for_line(&self, line: usize) -> (r: Option<usize>)
        ensures
            match r {
                Some(k) => hunk_near(self@.diff, line as int, self@.doc.lines.len() as int, 0) == Some(k as int) && k
                    < self@.diff.shown.len(),
                None => hunk_near(self@.diff, line as int, self@.doc.lines.len() as int, 0) is None,
            },
    {
        let n: usize = self.doc.lines.len();
        let m: usize = self.diff.shown.len();
        let ghost d = self@.diff;
        let mut i: usize = 0;
        while i < m
            invariant
                i <= m == d.shown.len(),
                d == self@.diff,
                n == self@.doc.lines.len(),
                hunk_near(d, line as int, n as int, 0) == hunk_near(d, line as int, n as int, i as int),
            decreases m - i,
        {
            if is_near(&self.diff.shown[i].hunk, line, n) {
                return Some(i);
            }
            i = i + 1;
        }
        None
    }

    /// The hunk a click targets, by the line under it; None when the click isn't in
    /// the gutter lane or no hunk is there. Drives the gutter-click Stage/Revert menu.
    pub fn hunk_at(&self, over_gutter: bool, line: Option<usize>) -> (r: Option<usize>)
        ensures
            match r {
                Some(k) => over_gutter && line is Some && hunk_near(
                    self@.diff,
                    line->0 as int,
                    self@.doc.lines.len() as int,
                    0,
                ) == Some(k as int) && k < self@.diff.shown.len(),
                None => !over_gutter || line is None || hunk_near(
                    self@.diff,
                    line->0 as int,
                    self@.doc.lines.len() as int,
                    0,
                ) is None,
            },
    {
        if !over_gutter {
            return None;
        }
        match line {
            Some(l) => self.hunk_index_for_line(l),
            None => None,
        }
    }

    /// The lines that a block replaces.
    fn base_lines(&self, h: &Hunk) -> (r: Vec<(bool, String)>)
        ensures
            tagged(r@) == tag(old_lines(self@.diff, *h), false),
    {
        let mut out: Vec<(bool, String)> = Vec::new();
        assert(tagged(out@) =~= Seq::empty());
        let base = if self.diff.head.is_some() {
            &self.diff.head
        } else {
            &self.diff.index
        };
        if let Some(t) = base {
            let all = split_str(t.as_str(), '\n');
            append_stretch(&mut out, &all, h.old_start, h.old_len, false);
        }
        assert(tagged(out@) =~= tag(old_lines(self@.diff, *h), false));
        out
    }

    fn unified_lines(&self, k: usize) -> (r: Vec<(bool, String)>)
        requires
            k < self@.diff.shown.len(),
        ensures
            tagged(r@) == unified(self@, k as int),
    {
        let s = self.diff.shown[k];
        let mut out = self.base_lines(&s.hunk);
        match s.index_new {
            Some((start, len)) => {
                if let Some(t) = &self.diff.index {
                    let all = split_str(t.as_str(), '\n');
                    append_stretch(&mut out, &all, start, len, true);
                }
            },
            None => {
                append_stretch(&mut out, &self.doc.lines, s.hunk.new_start, s.hunk.new_len, true);
            },
        }
        assert(tagged(out@) =~= unified(self@, k as int));
        out
    }

    /// The pointer moved, over a line of the gutter or not: show the diff-peek tooltip
    /// when hovering a gutter marker, else hide it. Returns true when the tooltip
    /// changed, so the host repaints.
    pub fn hover(&mut self, over_gutter: bool, line: Option<usize>) -> (r: bool)
        ensures
            ({
                let at = match line {
                    Some(l) => if over_gutter {
                        Some(l as int)
                    } else {
                        None
                    },
                    None => None,
                };
                final(self)@ == hovered(old(self)@, at).0 && r == hovered(old(self)@, at).1
            }),
    {
        let ghost b = self@;
        match self.hunk_at(over_gutter, line) {
            Some(k) => {
                // Already showing this hunk: keep the card fixed where it first opened
                // (no cursor-follow) and skip the repaint.
                if let Some(p) = &self.peek {
                    if p.hunk == k {
                        return false;
                    }
                }
                let lines = self.unified_lines(k);
                if lines.len() == 0 {
                    let had = self.peek.is_some();
                    self.peek = None;
                    return had;
                }
                let p = Peek { hunk: k, lines };
                assert(p@ =~= PeekV { hunk: k as int, lines: unified(b, k as int) });
                self.peek = Some(p);
                true
            },
            // Left every marker: hide the tooltip (repaint once to clear it).
            None => {
                let had = self.peek.is_some();
                self.peek = None;
                had
            },
        }
    }

    /// Revert hunk `hunk_i` to its git-base (HEAD) content, as one undoable edit
    /// (marks the buffer dirty; the base is unchanged so the marker clears on the
    /// next recompute).
    pub fn revert_hunk(&mut self, hunk_i: usize)
        requires
            old(self).wf(),
        ensures
            final(self)@ == reverted(old(self)@, hunk_i as int),
            final(self).wf(),
            settled(old(self)@) ==> settled(final(self)@),
            old(self)@.read_only ==> final(self)@ == old(self)@,
    {
        if hunk_i >= self.diff.shown.len() || (self.diff.head.is_none() && self.diff.index.is_none()) {
            return;
        }
        let ghost b = self@;
        let h = self.diff.shown[hunk_i].hunk;
        let was = self.base_lines(&h);
        let ghost gone = old_lines(b.diff, h);
        let ghost plain = Seq::new(was@.len(), |i: int| was@[i].1@);
        proof {
            assert(tagged(was@).len() == gone.len());
            assert forall|i: int| 0 <= i < plain.len() implies plain[i] == gone[i] by {
                assert(tagged(was@)[i] == tag(gone, false)[i]);
            }
            assert(plain =~= gone);
        }
        let n: usize = self.doc.lines.len();
        let first: usize = if h.new_start < n {
            h.new_start
        } else {
            n - 1
        };
        let caret = Cursor { line: first, col: 0 };
        if h.new_len > 0 {
            // Modified/added span: replace the current lines with the base lines
            // (none for a pure addition → deletes the added lines).
            let last: usize = if h.new_start < n && h.new_len - 1 < n - h.new_start {
                h.new_start + (h.new_len - 1)
            } else {
                n - 1
            };
            let repl = untagged(was, None, None);
            assert(texts(repl@) =~= gone);
            self.splice_lines(first, last, &repl, caret, None);
        } else if was.len() > 0 {
            // Pure deletion: re-insert the removed base lines at the boundary.
            let here = self.doc.line_text(first);
            if h.new_start < n {
                // keep the line it sat above
                let repl = untagged(was, None, Some(here));
                assert(texts(repl@) =~= gone.push(b.doc.lines[first as int]));
                self.splice_lines(first, first, &repl, caret, None);
            } else {
                let repl = untagged(was, Some(here), None);
                assert(texts(repl@) =~= seq![b.doc.lines[first as int]] + gone);
                self.splice_lines(first, first, &repl, caret, None);
            }
        }
    }

    /// What staging hunk `hunk_i` starts from: the index, the text, and the lines of
    /// the text to take over, by the first and the count. None when the file isn't in
    /// the index or there is no such hunk.
    pub fn stage_hunk_content(&self, hunk_i: usize) -> (r: Option<(String, String, (usize, usize))>)
        ensures
            match r {
                Some((index, text, (start, len))) => {
                    &&& hunk_i < self@.diff.shown.len()
                    &&& self@.diff.index == Some(index@)
                    &&& text@ == crate::text::join(self@.doc.lines, '\n')
                    &&& start == self@.diff.shown[hunk_i as int].hunk.new_start
                    &&& len == self@.diff.shown[hunk_i as int].hunk.new_len
                },
                None => hunk_i >= self@.diff.shown.len() || self@.diff.index is None,
            },
    {
        if hunk_i >= self.diff.shown.len() {
            return None;
        }
        let h = self.diff.shown[hunk_i].hunk;
        match &self.diff.index {
            Some(t) => Some((t.clone(), self.doc.text(), (h.new_start, h.new_len))),
            None => None,
        }
    }

    /// What unstaging hunk `hunk_i` starts from: HEAD, the index, and the lines of
    /// HEAD to bring back, by the first and the count. None when there is no commit
    /// yet, the file isn't in the index, or there is no such hunk.
    pub fn unstage_hunk_content(&self, hunk_i: usize) -> (r: Option<(String, String, (usize, usize))>)
        ensures
            match r {
                Some((head, index, (start, len))) => {
                    &&& hunk_i < self@.diff.shown.len()
                    &&& self@.diff.head == Some(head@)
                    &&& self@.diff.index == Some(index@)
                    &&& start == self@.diff.shown[hunk_i as int].hunk.old_start
                    &&& len == self@.diff.shown[hunk_i as int].hunk.old_len
                },
                None => hunk_i >= self@.diff.shown.len() || self@.diff.head is None || self@.diff.index is None,
            },
    {
        if hunk_i >= self.diff.shown.len() {
            return None;
        }
        let h = self.diff.shown[hunk_i].hunk;
        match (&self.diff.head, &self.diff.index) {
            (Some(a), Some(b)) => Some((a.clone(), b.clone(), (h.old_start, h.old_len))),
            _ => None,
        }
    }
}

/// The lines alone, between a line to stand first and a line to stand last.
fn untagged(v: Vec<(bool, String)>, first: Option<String>, last: Option<String>) -> (r: Vec<String>)
    ensures
        texts(r@) == (match first {
            Some(f) => seq![f@],
            None => Seq::empty(),
        }) + Seq::new(v@.len(), |i: int| v@[i].1@) + (match last {
            Some(l) => seq![l@],
            None => Seq::empty(),
        }),
{
    let mut out: Vec<String> = Vec::new();
    let ghost head: Seq<Seq<char>> = match text_v(first) {
        Some(t) => seq![t],
        None => Seq::empty(),
    };
    let ghost all = Seq::new(v@.len(), |i: int| v@[i].1@);
    if let Some(f) = first {
        out.push(f);
    }
    assert(texts(out@) =~= head + all.take(0));
    let n: usize = v.len();
    let mut i: usize = 0;
    while i < n
        invariant
            i <= n == v@.len(),
            all == Seq::new(v@.len(), |i: int| v@[i].1@),
            texts(out@) == head + all.take(i as int),
        decreases n - i,
    {
        let t = v[i].1.clone();
        let ghost before = texts(out@);
        out.push(t);
        assert(texts(out@) =~= before.push(all[i as int]));
        i = i + 1;
        assert(texts(out@) =~= head + all.take(i as int));
    }
    assert(all.take(n as int) =~= all);
    let ghost before = texts(out@);
    if let Some(l) = last {
        let ghost t = l@;
        out.push(l);
        assert(texts(out@) =~= before.push(t));
        assert(texts(out@) =~= head + all + seq![t]);
    } else {
        assert(texts(out@) =~= head + all + Seq::<Seq<char>>::empty());
    }
    out
}

/// The text is compared with HEAD, and with the index only where there is no HEAD.
pub proof fn law_head_is_the_base(d: DiffV)
    ensures
        d.head is Some ==> base_of(d) == d.head,
        d.head is None ==> base_of(d) == d.index,
{
}

/// A block holds the lines it puts in. It is reached from these and from one line above and
/// below; a deletion, which holds none, from the line it is shown at and its neighbours.
pub proof fn law_blocks_are_reached_from_their_lines(h: Hunk, line: int, n: int)
    requires
        n > 0,
    ensures
        h.new_len > 0 ==> (near(h, line, n) <==> h.new_start - 1 <= line && line <= h.new_start + h.new_len),
        h.new_len == 0 && h.new_start < n ==> (near(h, line, n) <==> h.new_start - 1 <= line && line <= h.new_start + 1),
        h.new_len == 0 && h.new_start >= n ==> (near(h, line, n) <==> n - 2 <= line && line <= n),
{
}

/// A block is told by the lines it took out, and then the lines it put in.
pub proof fn law_block_shows_removed_then_added(b: BoxV, k: int, base: Seq<char>, i: int)
    requires
        0 <= k < b.diff.shown.len(),
        base_of(b.diff) == Some(base),
        b.diff.shown[k].index_new is None,
        b.diff.shown[k].hunk.old_start + b.diff.shown[k].hunk.old_len <= split(base, '\n').len(),
        b.diff.shown[k].hunk.new_start + b.diff.shown[k].hunk.new_len <= b.doc.lines.len(),
    ensures
        ({
            let h = b.diff.shown[k].hunk;
            let u = unified(b, k);
            &&& u.len() == h.old_len + h.new_len
            &&& 0 <= i < h.old_len ==> u[i] == (false, split(base, '\n')[h.old_start + i])
            &&& 0 <= i < h.new_len ==> u[h.old_len + i] == (true, b.doc.lines[h.new_start + i])
        }),
{
}

/// Hovering a line near a block shows the first such block, and hovering any other line
/// shows none.
pub proof fn law_hover_shows_the_block(b: BoxV, line: int, k: int)
    requires
        0 <= k < b.diff.shown.len(),
        near(b.diff.shown[k].hunk, line, b.doc.lines.len() as int),
        forall|j: int| 0 <= j < k ==> !near(#[trigger] b.diff.shown[j].hunk, line, b.doc.lines.len() as int),
        unified(b, k).len() > 0,
        b.peek is None,
    ensures
        ({
            let (r, repaint) = hovered(b, Some(line));
            &&& repaint
            &&& r.peek is Some && r.peek->0.hunk == k && r.peek->0.lines == unified(b, k)
            &&& r.doc == b.doc && r.diff == b.diff && r.hist == b.hist
            &&& hovered(r, None).0.peek is None && hovered(r, None).1
        }),
{
    law_first_near_hunk(b.diff, line, b.doc.lines.len() as int);
}

/// Beside a line stands a bar for added lines where a block that took nothing out put it in,
/// one for changed lines where the block took lines out as well, and a wedge where lines were
/// only taken out. What is staged is hollow.
pub proof fn law_marker_tells_the_change(shown: Seq<ShownHunk>, line: int, n: int, k: int)
    requires
        0 <= k < shown.len(),
    ensures
        ({
            let m = marker(shown, shown.len() as int, line, n);
            let h = shown[k].hunk;
            let inside = h.new_start <= line && line < h.new_start + h.new_len;
            &&& inside && h.old_len == 0 ==> m.added
            &&& inside && h.old_len > 0 ==> m.modified
            &&& h.new_len == 0 && h.new_start == line && line < n ==> m.deleted_above
            &&& h.new_len == 0 && h.new_start >= n && line == n - 1 ==> m.deleted_below
            &&& inside && shown[k].staged ==> m.staged
            &&& h.new_len == 0 && h.new_start == line && line < n && shown[k].staged ==> m.staged_deletion
        }),
        ({
            let m = marker(shown, shown.len() as int, line, n);
            &&& m.added ==> exists|j: int|
                0 <= j < shown.len() && (#[trigger] shown[j]).hunk.old_len == 0 && shown[j].hunk.new_start <= line && line
                    < shown[j].hunk.new_start + shown[j].hunk.new_len
            &&& m.modified ==> exists|j: int|
                0 <= j < shown.len() && (#[trigger] shown[j]).hunk.old_len > 0 && shown[j].hunk.new_start <= line && line
                    < shown[j].hunk.new_start + shown[j].hunk.new_len
            &&& m.staged ==> exists|j: int|
                0 <= j < shown.len() && (#[trigger] shown[j]).staged && shown[j].hunk.new_start <= line && line
                    < shown[j].hunk.new_start + shown[j].hunk.new_len
            &&& m.deleted_above || m.deleted_below ==> exists|j: int|
                0 <= j < shown.len() && (#[trigger] shown[j]).hunk.new_len == 0
        }),
{
    let h = shown[k].hunk;
    if h.new_start <= line && line < h.new_start + h.new_len {
        assert(holds_line(shown[k].hunk, line));
    }
}

/// Two stretches of lines overlap where they share a line; the place of an insertion has no
/// lines, and overlaps what it lies in or at the edge of.
pub proof fn law_stretches_overlap_where_they_share(a: int, a_len: int, b: int, b_len: int, x: int)
    requires
        a_len >= 0,
        b_len >= 0,
    ensures
        a <= x < a + a_len && b <= x < b + b_len ==> overlap(a, a_len, b, b_len),
        a_len > 0 && b_len > 0 && overlap(a, a_len, b, b_len) ==> exists|y: int|
            a <= y && y < a + a_len && b <= y && #[trigger] within(y, b, b_len),
        a_len == 0 ==> (overlap(a, a_len, b, b_len) <==> b <= a && a <= b + b_len),
        b_len == 0 ==> (overlap(a, a_len, b, b_len) <==> a <= b && b <= a + a_len),
        overlap(a, a_len, b, b_len) == overlap(b, b_len, a, a_len),
{
    if a_len > 0 && b_len > 0 && overlap(a, a_len, b, b_len) {
        let y = if a < b { b } else { a };
        assert(within(y, b, b_len));
    }
}

/// Whether a line lies in a stretch.
pub open spec fn within(y: int, b: int, b_len: int) -> bool {
    b <= y < b + b_len
}

} // verus!

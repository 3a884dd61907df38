//! The gutter of the text box: breakpoint dots and the debugger's line.

use vstd::prelude::*;

use crate::input::edit::{BoxV, InputBox};

verus! {

/// What the gutter shows beside the line numbers.
pub struct Gutter {
    /// Whether there is a gutter.
    pub shown: bool,
    /// Debugger breakpoint lines (0-based), ascending.
    pub breakpoints: Vec<usize>,
    /// Whether the gutter reserves a breakpoint-dot column left of the line numbers
    /// (only when debugging is enabled — otherwise the gutter stays at its plain
    /// line-number width).
    pub bp_column: bool,
    /// The debugger's current execution line (0-based).
    pub exec_line: Option<usize>,
}

/// What the gutter shows beside the line numbers.
#[verifier::ext_equal]
pub ghost struct GutterV {
    pub shown: bool,
    pub breakpoints: Seq<usize>,
    pub bp_column: bool,
    pub exec_line: Option<usize>,
}

impl View for Gutter {
    type V = GutterV;

    open spec fn view(&self) -> GutterV {
        GutterV {
            shown: self.shown,
            breakpoints: self.breakpoints@,
            bp_column: self.bp_column,
            exec_line: self.exec_line,
        }
    }
}

impl Gutter {
    pub fn new() -> (r: Self)
        ensures
            r@ == (GutterV { shown: false, breakpoints: Seq::empty(), bp_column: false, exec_line: None }),
    {
        Gutter { shown: false, breakpoints: Vec::new(), bp_column: false, exec_line: None }
    }
}

/// Whether lines ascend, none twice.
pub open spec fn ascending(s: Seq<usize>) -> bool {
    forall|i: int, j: int| 0 <= i < j < s.len() ==> #[trigger] s[i] < #[trigger] s[j]
}

/// Where a line stands or would stand among ascending lines, from `i` on.
pub open spec fn place(s: Seq<usize>, line: usize, i: int) -> int
    decreases s.len() - i,
{
    if 0 <= i < s.len() && s[i] < line {
        place(s, line, i + 1)
    } else {
        i
    }
}

/// Ascending lines with one line put in, if it is not there.
pub open spec fn marked(s: Seq<usize>, line: usize) -> Seq<usize> {
    let p = place(s, line, 0);
    if p < s.len() && s[p] == line {
        s
    } else {
        s.insert(p, line)
    }
}

/// Ascending lines with one line taken out or put in.
pub open spec fn toggled(s: Seq<usize>, line: usize) -> Seq<usize> {
    let p = place(s, line, 0);
    if p < s.len() && s[p] == line {
        s.remove(p)
    } else {
        s.insert(p, line)
    }
}

/// The first `n` of some lines, ascending and each once.
pub open spec fn all_marked(lines: Seq<u32>, n: int) -> Seq<usize>
    decreases n,
{
    if n <= 0 || n > lines.len() {
        Seq::empty()
    } else {
        marked(all_marked(lines, n - 1), lines[n - 1] as usize)
    }
}

proof fn lemma_place(s: Seq<usize>, line: usize, i: int)
    requires
        ascending(s),
        0 <= i <= s.len(),
        forall|k: int| 0 <= k < i ==> #[trigger] s[k] < line,
    ensures
        i <= place(s, line, i) <= s.len(),
        forall|k: int| 0 <= k < place(s, line, i) ==> #[trigger] s[k] < line,
        forall|k: int| place(s, line, i) <= k < s.len() ==> #[trigger] s[k] >= line,
    decreases s.len() - i,
{
    if i < s.len() && s[i] < line {
        lemma_place(s, line, i + 1);
    }
}

/// Putting a line in keeps lines ascending, and they hold it and what they held.
pub proof fn lemma_marked(s: Seq<usize>, line: usize)
    requires
        ascending(s),
    ensures
        ascending(marked(s, line)),
        forall|x: usize| #[trigger] marked(s, line).contains(x) <==> x == line || s.contains(x),
{
    lemma_place(s, line, 0);
    let p = place(s, line, 0);
    let m = marked(s, line);
    if p < s.len() && s[p] == line {
        assert(s.contains(line));
    } else {
        lemma_inserted(s, p, line);
    }
}

proof fn lemma_inserted(s: Seq<usize>, p: int, line: usize)
    requires
        ascending(s),
        0 <= p <= s.len(),
        forall|k: int| 0 <= k < p ==> #[trigger] s[k] < line,
        forall|k: int| p <= k < s.len() ==> #[trigger] s[k] > line,
    ensures
        ascending(s.insert(p, line)),
        forall|x: usize| #[trigger] s.insert(p, line).contains(x) <==> x == line || s.contains(x),
{
    let m = s.insert(p, line);
    assert forall|x: usize| #[trigger] m.contains(x) <==> x == line || s.contains(x) by {
        if m.contains(x) {
            let k = m.index_of(x);
            if k < p {
                assert(s[k] == x);
            } else if k > p {
                assert(s[k - 1] == x);
            }
        }
        if x == line {
            assert(m[p] == x);
        }
        if s.contains(x) {
            let k = s.index_of(x);
            if k < p {
                assert(m[k] == x);
            } else {
                assert(m[k + 1] == x);
            }
        }
    }
}

/// Toggling a breakpoint keeps the lines in order, and changes that line alone.
pub proof fn law_toggle_changes_one_line(s: Seq<usize>, line: usize)
    requires
        ascending(s),
    ensures
        ascending(toggled(s, line)),
        forall|x: usize| #[trigger]
            toggled(s, line).contains(x) <==> (if x == line {
                !s.contains(x)
            } else {
                s.contains(x)
            }),
{
    lemma_place(s, line, 0);
    let p = place(s, line, 0);
    let m = toggled(s, line);
    if p < s.len() && s[p] == line {
        assert(s.contains(line));
        assert forall|x: usize| #[trigger] m.contains(x) <==> x != line && s.contains(x) by {
            if m.contains(x) {
                let k = m.index_of(x);
                if k < p {
                    assert(s[k] == x);
                } else {
                    assert(s[k + 1] == x);
                }
            }
            if x != line && s.contains(x) {
                let k = s.index_of(x);
                if k < p {
                    assert(m[k] == x);
                } else {
                    assert(m[k - 1] == x);
                }
            }
        }
    } else {
        assert(!s.contains(line)) by {
            if s.contains(line) {
                let k = s.index_of(line);
                assert(k >= p);
                assert(s[p] <= s[k]);
            }
        }
        lemma_inserted(s, p, line);
    }
}

proof fn lemma_place_is(s: Seq<usize>, line: usize, p: int)
    requires
        ascending(s),
        0 <= p <= s.len(),
        forall|k: int| 0 <= k < p ==> #[trigger] s[k] < line,
        p < s.len() ==> s[p] >= line,
    ensures
        place(s, line, 0) == p,
{
    lemma_place(s, line, 0);
    let q = place(s, line, 0);
    if q < p {
        assert(s[q] < line);
    }
    if p < q {
        assert(s[p] < line);
    }
}

/// Toggling a breakpoint twice changes nothing.
pub proof fn law_toggle_breakpoint_twice(s: Seq<usize>, line: usize)
    requires
        ascending(s),
    ensures
        toggled(toggled(s, line), line) == s,
{
    lemma_place(s, line, 0);
    let p = place(s, line, 0);
    let m = toggled(s, line);
    law_toggle_changes_one_line(s, line);
    if p < s.len() && s[p] == line {
        assert(forall|k: int| p <= k < m.len() ==> #[trigger] m[k] == s[k + 1]);
        lemma_place_is(m, line, p);
        assert(m.insert(p, line) =~= s);
    } else {
        lemma_place_is(m, line, p);
        assert(m.remove(p) =~= s);
    }
}

/// The breakpoint set holds the given lines and no others, in order.
pub proof fn law_breakpoints_are_the_lines(lines: Seq<u32>)
    ensures
        ascending(all_marked(lines, lines.len() as int)),
        forall|x: u32| #[trigger]
            lines.contains(x) <==> all_marked(lines, lines.len() as int).contains(x as usize),
        forall|x: usize| #[trigger] all_marked(lines, lines.len() as int).contains(x) ==> x <= u32::MAX,
{
    lemma_all_marked(lines, lines.len() as int);
    assert(lines.take(lines.len() as int) =~= lines);
    let m = all_marked(lines, lines.len() as int);
    assert forall|x: u32| #[trigger] lines.contains(x) <==> m.contains(x as usize) by {
        if lines.contains(x) {
            let k = lines.index_of(x);
            assert(held(lines, lines.len() as int, x as usize));
        }
        if m.contains(x as usize) {
            let k = choose|k: int| 0 <= k < lines.len() && #[trigger] lines[k] as usize == x as usize;
            assert(lines[k] == x);
        }
    }
}

spec fn held(lines: Seq<u32>, n: int, x: usize) -> bool {
    exists|k: int| 0 <= k < n && #[trigger] lines[k] as usize == x
}

proof fn lemma_all_marked(lines: Seq<u32>, n: int)
    requires
        0 <= n <= lines.len(),
    ensures
        ascending(all_marked(lines, n)),
        forall|x: usize| #[trigger] all_marked(lines, n).contains(x) <==> held(lines, n, x),
    decreases n,
{
    if n > 0 {
        lemma_all_marked(lines, n - 1);
        let s = all_marked(lines, n - 1);
        let l = lines[n - 1] as usize;
        lemma_marked(s, l);
        assert forall|x: usize| #[trigger] all_marked(lines, n).contains(x) <==> held(lines, n, x) by {
            if x == l {
                assert(lines[n - 1] as usize == x);
            }
            if s.contains(x) {
                let k = choose|k: int| 0 <= k < n - 1 && #[trigger] lines[k] as usize == x;
                assert(lines[k] as usize == x);
            }
            if held(lines, n, x) {
                let k = choose|k: int| 0 <= k < n && #[trigger] lines[k] as usize == x;
                if k < n - 1 {
                    assert(held(lines, n - 1, x));
                }
            }
        }
    }
}

/// Where a line stands or would stand.
fn find_place(v: &Vec<usize>, line: usize) -> (r: usize)
    requires
        ascending(v@),
    ensures
        r == place(v@, line, 0),
        r <= v@.len(),
{
    let n: usize = v.len();
    let mut i: usize = 0;
    while i < n && v[i] < line
        invariant
            i <= n == v@.len(),
            place(v@, line, 0) == place(v@, line, i as int),
        decreases n - i,
    {
        i = i + 1;
    }
    i
}

impl InputBox {
    /// Draw a line-number gutter (code-editor mode).
    pub fn set_gutter(&mut self, on: bool)
        ensures
            final(self)@ == (BoxV { gutter: GutterV { shown: on, ..old(self)@.gutter }, ..old(self)@ }),
    {
        self.gutter.shown = on;
    }

    /// Toggle a breakpoint on a 0-based line.
    pub fn toggle_breakpoint(&mut self, line: usize)
        requires
            ascending(old(self)@.gutter.breakpoints),
        ensures
            final(self)@ == (BoxV {
                gutter: GutterV {
                    breakpoints: toggled(old(self)@.gutter.breakpoints, line),
                    ..old(self)@.gutter
                },
                ..old(self)@
            }),
            ascending(final(self)@.gutter.breakpoints),
    {
        proof {
            law_toggle_changes_one_line(self@.gutter.breakpoints, line);
        }
        let p: usize = find_place(&self.gutter.breakpoints, line);
        if p < self.gutter.breakpoints.len() && self.gutter.breakpoints[p] == line {
            self.gutter.breakpoints.remove(p);
        } else {
            self.gutter.breakpoints.insert(p, line);
        }
    }

    /// Replace the breakpoint set (0-based lines).
    pub fn set_breakpoints(&mut self, lines: &Vec<u32>)
        ensures
            final(self)@ == (BoxV {
                gutter: GutterV {
                    breakpoints: all_marked(lines@, lines@.len() as int),
                    ..old(self)@.gutter
                },
                ..old(self)@
            }),
            ascending(final(self)@.gutter.breakpoints),
    {
        let mut v: Vec<usize> = Vec::new();
        let n: usize = lines.len();
        let mut i: usize = 0;
        assert(v@ =~= all_marked(lines@, 0));
        while i < n
            invariant
                i <= n == lines@.len(),
                v@ == all_marked(lines@, i as int),
                ascending(v@),
            decreases n - i,
        {
            let l: usize = lines[i] as usize;
            proof {
                lemma_marked(v@, l);
            }
            let p: usize = find_place(&v, l);
            if !(p < v.len() && v[p] == l) {
                v.insert(p, l);
            }
            i = i + 1;
        }
        self.gutter.breakpoints = v;
    }

    /// Current breakpoint lines (0-based), ascending, in the 32 bits that the host
    /// counts lines in.
    pub fn breakpoints(&self) -> (r: Vec<u32>)
        ensures
            r@.len() == self@.gutter.breakpoints.len(),
            forall|i: int| 0 <= i < r@.len() ==> #[trigger] r@[i] == self@.gutter.breakpoints[i] as u32,
    {
        let mut out: Vec<u32> = Vec::new();
        let n: usize = self.gutter.breakpoints.len();
        let mut i: usize = 0;
        while i < n
            invariant
                i <= n == self@.gutter.breakpoints.len(),
                out@.len() == i,
                forall|k: int| 0 <= k < i ==> #[trigger] out@[k] == self@.gutter.breakpoints[k] as u32,
            decreases n - i,
        {
            out.push(#[verifier::truncate] (self.gutter.breakpoints[i] as u32));
            i = i + 1;
        }
        out
    }

    /// Whether there is a breakpoint on a 0-based line.
    pub fn has_breakpoint(&self, line: usize) -> (r: bool)
        requires
            ascending(self@.gutter.breakpoints),
        ensures
            r == self@.gutter.breakpoints.contains(line),
    {
        let p: usize = find_place(&self.gutter.breakpoints, line);
        let ghost s = self@.gutter.breakpoints;
        let r = p < self.gutter.breakpoints.len() && self.gutter.breakpoints[p] == line;
        proof {
            lemma_place(s, line, 0);
            if !r && s.contains(line) {
                let k = s.index_of(line);
                assert(s[p as int] <= s[k]);
            }
        }
        r
    }

    /// Reserve the breakpoint-dot column in the gutter. Off = plain line-number gutter
    /// at its usual width.
    pub fn set_bp_gutter(&mut self, on: bool)
        ensures
            final(self)@ == (BoxV { gutter: GutterV { bp_column: on, ..old(self)@.gutter }, ..old(self)@ }),
    {
        self.gutter.bp_column = on;
    }

    /// Highlight a 0-based execution line (the debugger's current line), or clear it.
    pub fn set_exec_line(&mut self, line: Option<usize>)
        ensures
            final(self)@ == (BoxV { gutter: GutterV { exec_line: line, ..old(self)@.gutter }, ..old(self)@ }),
    {
        self.gutter.exec_line = line;
    }

    /// The content moved under the pointer: the hover position is stale.
    pub fn scrolled(&mut self)
        ensures
            final(self)@ == (BoxV { peek: None, ..old(self)@ }),
    {
        self.peek = None;
    }
}

} // verus!

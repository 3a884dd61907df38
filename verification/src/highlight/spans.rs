//! Captures of a syntax tree, clipped onto the lines of the text.

use vstd::prelude::*;

use crate::highlight::colors::{color_at, color_for};
use crate::syntax::Rgb;
use crate::text::{chars, split};
use crate::utf8::{
    law_size_counts_bytes, lemma_offset_concat, lemma_offset_mono, lemma_offset_prefix, offset, size, width, width_of,
};

verus! {

/// A range of bytes.
#[derive(Clone, Copy, PartialEq, Eq, Structural, Debug)]
pub struct Bytes {
    pub start: usize,
    pub end: usize,
}

/// One highlighted logical line: byte-range spans into that line's text. Ranges are
/// relative to the line start and never include the trailing `\n`.
pub struct LineSpans {
    pub spans: Vec<(Bytes, Rgb)>,
}

/// A stretch of the text, by bytes, with the index of its color.
#[derive(Clone, Copy, PartialEq, Eq, Structural, Debug)]
pub struct Paint {
    pub color: usize,
    pub start: usize,
    pub end: usize,
}

/// The byte offset of each logical line's start among the first `k` characters.
pub open spec fn line_starts(s: Seq<char>, k: int) -> Seq<int>
    decreases k,
{
    if k <= 0 || k > s.len() {
        seq![0int]
    } else if s[k - 1] == '\n' {
        line_starts(s, k - 1).push(offset(s, k) as int)
    } else {
        line_starts(s, k - 1)
    }
}

/// Line starts ascend, from 0 on, each behind the line ending before it.
pub open spec fn starts_wf(starts: Seq<int>, size: int) -> bool {
    &&& starts.len() > 0
    &&& starts[0] == 0
    &&& forall|i: int, j: int| 0 <= i < j < starts.len() ==> #[trigger] starts[i] < #[trigger] starts[j]
    &&& starts.last() <= size
}

proof fn lemma_line_starts(s: Seq<char>, k: int)
    requires
        0 <= k <= s.len(),
    ensures
        starts_wf(line_starts(s, k), offset(s, k) as int),
    decreases k,
{
    if k > 0 {
        lemma_line_starts(s, k - 1);
        assert(offset(s, k) == offset(s, k - 1) + width(s[k - 1]));
    }
}

/// There is a start for every line of the text, and a line ends where the next one
/// starts, but for the line ending.
pub proof fn law_one_start_a_line(s: Seq<char>)
    ensures
        line_starts(s, s.len() as int).len() == split(s, '\n').len(),
        starts_wf(line_starts(s, s.len() as int), size(s) as int),
{
    lemma_line_starts(s, s.len() as int);
    lemma_count(s);
    lemma_starts_count(s, s.len() as int);
    assert(s.take(s.len() as int) =~= s);
}

/// How many line endings a text holds.
pub open spec fn breaks(s: Seq<char>) -> nat
    decreases s.len(),
{
    if s.len() == 0 {
        0
    } else {
        breaks(s.drop_last()) + if s.last() == '\n' { 1nat } else { 0 }
    }
}

proof fn lemma_starts_count(s: Seq<char>, k: int)
    requires
        0 <= k <= s.len(),
    ensures
        line_starts(s, k).len() == breaks(s.take(k)) + 1,
    decreases k,
{
    if k > 0 {
        lemma_starts_count(s, k - 1);
        assert(s.take(k).drop_last() =~= s.take(k - 1));
    } else {
        assert(s.take(0) =~= Seq::empty());
    }
}

proof fn lemma_breaks_concat(a: Seq<char>, b: Seq<char>)
    ensures
        breaks(a + b) == breaks(a) + breaks(b),
    decreases b.len(),
{
    if b.len() > 0 {
        lemma_breaks_concat(a, b.drop_last());
        assert((a + b).drop_last() =~= a + b.drop_last());
    } else {
        assert(a + b =~= a);
    }
}

proof fn lemma_no_breaks(s: Seq<char>)
    requires
        forall|i: int| 0 <= i < s.len() ==> #[trigger] s[i] != '\n',
    ensures
        breaks(s) == 0,
    decreases s.len(),
{
    if s.len() > 0 {
        lemma_no_breaks(s.drop_last());
    }
}

proof fn lemma_count(s: Seq<char>)
    ensures
        split(s, '\n').len() == breaks(s) + 1,
    decreases s.len(),
{
    let p = crate::text::not_char('\n');
    crate::text::lemma_run_is(s, p);
    let n = crate::text::run(s, p) as int;
    let head = s.take(n);
    assert forall|i: int| 0 <= i < head.len() implies #[trigger] head[i] != '\n' by {
        assert(p(s[i]));
    }
    lemma_no_breaks(head);
    if n >= s.len() {
        assert(head =~= s);
    } else {
        let rest = s.skip(n + 1);
        lemma_count(rest);
        assert(!p(s[n]));
        let nl = seq!['\n'];
        assert(s =~= head + nl + rest);
        lemma_breaks_concat(head + nl, rest);
        lemma_breaks_concat(head, nl);
        assert(nl.drop_last() =~= Seq::empty());
        assert(breaks(nl) == 1) by {
            reveal_with_fuel(breaks, 2);
        }
    }
}

/// Byte offset of each logical line start (line 0 begins at 0); the implicit end of
/// the last line is the end of the text.
pub fn build_line_starts(text: &str) -> (r: Vec<usize>)
    ensures
        r@.len() == line_starts(text@, text@.len() as int).len(),
        forall|i: int| 0 <= i < r@.len() ==> #[trigger] r@[i] == line_starts(text@, text@.len() as int)[i],
        starts_wf(line_starts(text@, text@.len() as int), size(text@) as int),
{
    let v = chars(text);
    let bytes = text.as_bytes();
    let all: usize = bytes.len();
    let n: usize = v.len();
    let mut out: Vec<usize> = Vec::new();
    out.push(0);
    let mut at: usize = 0;
    let mut i: usize = 0;
    proof {
        law_size_counts_bytes(text@);
    }
    while i < n
        invariant
            i <= n == v@.len(),
            v@ == text@,
            at == offset(v@, i as int),
            offset(v@, n as int) == all,
            out@.len() == line_starts(v@, i as int).len(),
            forall|k: int| 0 <= k < out@.len() ==> #[trigger] out@[k] == line_starts(v@, i as int)[k],
        decreases n - i,
    {
        proof {
            lemma_offset_mono(v@, i + 1, n as int);
        }
        at = at + width_of(v[i]);
        if v[i] == '\n' {
            out.push(at);
        }
        i = i + 1;
    }
    proof {
        lemma_line_starts(text@, n as int);
    }
    out
}

/// Where the content of a line ends: before its line ending.
pub open spec fn content_end(starts: Seq<int>, size: int, l: int) -> int {
    if l + 1 < starts.len() {
        starts[l + 1] - 1
    } else {
        size
    }
}

proof fn lemma_starts_prefix(a: Seq<char>, b: Seq<char>, k: int)
    requires
        0 <= k <= a.len(),
    ensures
        line_starts(a + b, k) == line_starts(a, k),
    decreases k,
{
    if k > 0 {
        lemma_starts_prefix(a, b, k - 1);
        lemma_offset_prefix(a + b, a, k);
    }
}

/// The starts of a text behind another one are shifted by its size.
proof fn lemma_starts_concat(a: Seq<char>, b: Seq<char>, k: int)
    requires
        0 <= k <= b.len(),
    ensures
        ({
            let tail = line_starts(b, k);
            line_starts(a + b, a.len() + k) == line_starts(a, a.len() as int) + Seq::new(
                (tail.len() - 1) as nat,
                |i: int| tail[i + 1] + size(a),
            )
        }),
    decreases k,
{
    let s = a + b;
    let tail = line_starts(b, k);
    lemma_line_starts(b, k);
    let shifted = Seq::new((tail.len() - 1) as nat, |i: int| tail[i + 1] + size(a));
    if k > 0 {
        lemma_starts_concat(a, b, k - 1);
        lemma_line_starts(b, k - 1);
        lemma_offset_concat(a, b, k);
        assert(s[a.len() + k - 1] == b[k - 1]);
        let before = line_starts(b, k - 1);
        let was = Seq::new((before.len() - 1) as nat, |i: int| before[i + 1] + size(a));
        if b[k - 1] == '\n' {
            assert(shifted =~= was.push(offset(s, a.len() + k) as int));
            assert(line_starts(s, a.len() + k) =~= line_starts(a, a.len() as int) + shifted);
        } else {
            assert(shifted =~= was);
        }
    } else {
        lemma_starts_prefix(a, b, a.len() as int);
        assert(shifted =~= Seq::empty());
        assert(line_starts(a, a.len() as int) + shifted =~= line_starts(a, a.len() as int));
    }
}

proof fn lemma_one_start(s: Seq<char>, k: int)
    requires
        0 <= k <= s.len(),
        forall|i: int| 0 <= i < k ==> #[trigger] s[i] != '\n',
    ensures
        line_starts(s, k) == seq![0int],
    decreases k,
{
    if k > 0 {
        lemma_one_start(s, k - 1);
    }
}

/// The content of a line is as long as the line.
pub proof fn law_content_is_the_line(s: Seq<char>, l: int)
    requires
        0 <= l < split(s, '\n').len(),
    ensures
        ({
            let starts = line_starts(s, s.len() as int);
            content_end(starts, size(s) as int, l) - starts[l] == size(split(s, '\n')[l])
        }),
    decreases s.len(),
{
    let p = crate::text::not_char('\n');
    crate::text::lemma_run_is(s, p);
    let n = crate::text::run(s, p) as int;
    let starts = line_starts(s, s.len() as int);
    assert forall|i: int| 0 <= i < n implies #[trigger] s[i] != '\n' by {
        assert(p(s[i]));
    }
    if n >= s.len() {
        lemma_one_start(s, s.len() as int);
    } else {
        assert(!p(s[n]));
        let head = s.take(n);
        let a = s.take(n + 1);
        let rest = s.skip(n + 1);
        assert(s =~= a + rest);
        lemma_starts_concat(a, rest, rest.len() as int);
        lemma_one_start(a, n);
        assert(a[n] == '\n');
        assert(line_starts(a, a.len() as int) =~= seq![0int, size(a) as int]);
        lemma_offset_prefix(s, head, n);
        lemma_offset_prefix(a, head, n);
        assert(size(a) == size(head) + 1);
        lemma_line_starts(rest, rest.len() as int);
        lemma_offset_concat(a, rest, rest.len() as int);
        law_one_start_a_line(s);
        law_one_start_a_line(rest);
        let tail = line_starts(rest, rest.len() as int);
        assert(forall|i: int| 1 <= i < starts.len() ==> #[trigger] starts[i] == tail[i - 1] + size(a));
        if l > 0 {
            law_content_is_the_line(rest, l - 1);
            assert(split(s, '\n')[l] == split(rest, '\n')[l - 1]);
        } else {
            assert(split(s, '\n')[0] == head);
        }
    }
}

/// The part of a stretch that lies on a line, counted from the line's start.
pub open spec fn on_line(p: Paint, starts: Seq<int>, size: int, l: int) -> Option<(int, int)> {
    let ls = starts[l];
    let ce = content_end(starts, size, l);
    let s = if p.start > ls { p.start as int } else { ls };
    let e = if p.end < ce { p.end as int } else { ce };
    if s < e {
        Some((s - ls, e - ls))
    } else {
        None
    }
}

/// The spans of a line from the first `n` stretches, in their order: where two
/// overlap, the later one is to win.
pub open spec fn spans_of(
    paints: Seq<Paint>,
    n: int,
    starts: Seq<int>,
    size: int,
    dark: bool,
    l: int,
) -> Seq<(int, int, Rgb)>
    decreases n,
{
    if n <= 0 || n > paints.len() {
        Seq::empty()
    } else {
        let before = spans_of(paints, n - 1, starts, size, dark, l);
        let p = paints[n - 1];
        match on_line(p, starts, size, l) {
            Some((s, e)) => before.push((s, e, color_at(p.color as int, dark))),
            None => before,
        }
    }
}

/// The spans of a line.
pub open spec fn spans_v(v: Seq<(Bytes, Rgb)>) -> Seq<(int, int, Rgb)> {
    Seq::new(v.len(), |i: int| (v[i].0.start as int, v[i].0.end as int, v[i].1))
}

/// Every span of a line is not empty and lies in the line.
pub proof fn law_spans_lie_in_line(paints: Seq<Paint>, n: int, starts: Seq<int>, size: int, dark: bool, l: int)
    requires
        starts_wf(starts, size),
        0 <= l < starts.len(),
        0 <= n <= paints.len(),
    ensures
        forall|i: int|
            0 <= i < spans_of(paints, n, starts, size, dark, l).len() ==> {
                let s = #[trigger] spans_of(paints, n, starts, size, dark, l)[i];
                0 <= s.0 < s.1 <= content_end(starts, size, l) - starts[l]
            },
    decreases n,
{
    if n > 0 {
        law_spans_lie_in_line(paints, n - 1, starts, size, dark, l);
        let before = spans_of(paints, n - 1, starts, size, dark, l);
        let now = spans_of(paints, n, starts, size, dark, l);
        assert forall|i: int| 0 <= i < now.len() implies ({
            let s = #[trigger] now[i];
            0 <= s.0 < s.1 <= content_end(starts, size, l) - starts[l]
        }) by {
            if i < before.len() {
                assert(now[i] == before[i]);
            }
        }
    }
}

/// The line that a byte offset lies on: the last one that starts at or before it.
fn line_at(starts: &Vec<usize>, at: usize, Ghost(size): Ghost<int>) -> (r: usize)
    requires
        starts_wf(ints(starts@), size),
    ensures
        r < starts@.len(),
        starts@[r as int] <= at,
        r + 1 < starts@.len() ==> starts@[r + 1] > at,
{
    let ghost sv = ints(starts@);
    assert(sv[0] == starts@[0]);
    let mut lo: usize = 0;
    let mut hi: usize = starts.len();
    while hi - lo > 1
        invariant
            lo < hi <= starts@.len(),
            starts@[lo as int] <= at,
            hi < starts@.len() ==> starts@[hi as int] > at,
        decreases hi - lo,
    {
        let mid: usize = lo + (hi - lo) / 2;
        if starts[mid] <= at {
            lo = mid;
        } else {
            hi = mid;
        }
    }
    lo
}

/// Numbers of the machine as integers.
pub open spec fn ints(v: Seq<usize>) -> Seq<int> {
    Seq::new(v.len(), |i: int| v[i] as int)
}

/// Clip each stretch onto the logical lines it touches. Later stretches (more
/// specific patterns, and later trees) overwrite earlier ones in any overlap, since
/// the caller applies the spans in order.
pub fn clip(text: &str, paints: &Vec<Paint>, dark: bool) -> (r: Vec<LineSpans>)
    ensures
        ({
            let starts = line_starts(text@, text@.len() as int);
            &&& r@.len() == starts.len()
            &&& forall|l: int|
                0 <= l < r@.len() ==> #[trigger] spans_v(r@[l].spans@) == spans_of(
                    paints@,
                    paints@.len() as int,
                    starts,
                    size(text@) as int,
                    dark,
                    l,
                )
        }),
{
    let starts = build_line_starts(text);
    let bytes = text.as_bytes();
    let all: usize = bytes.len();
    let ghost sv = line_starts(text@, text@.len() as int);
    proof {
        law_size_counts_bytes(text@);
        assert(ints(starts@) =~= sv);
    }
    let n_lines: usize = starts.len();
    let mut out: Vec<LineSpans> = Vec::new();
    let mut j: usize = 0;
    while j < n_lines
        invariant
            j <= n_lines,
            out@.len() == j,
            forall|l: int| 0 <= l < j ==> #[trigger] spans_v(out@[l].spans@) == Seq::<(int, int, Rgb)>::empty(),
        decreases n_lines - j,
    {
        let s = LineSpans { spans: Vec::new() };
        assert(spans_v(s.spans@) =~= Seq::<(int, int, Rgb)>::empty());
        out.push(s);
        j = j + 1;
    }
    let n: usize = paints.len();
    let mut i: usize = 0;
    while i < n
        invariant
            i <= n == paints@.len(),
            n_lines == starts@.len() == out@.len(),
            sv == ints(starts@),
            starts_wf(sv, all as int),
            forall|l: int|
                0 <= l < n_lines ==> #[trigger] spans_v(out@[l].spans@) == spans_of(
                    paints@,
                    i as int,
                    sv,
                    all as int,
                    dark,
                    l,
                ),
        decreases n - i,
    {
        clip_one(&mut out, &starts, all, paints[i], dark, Ghost(paints@), Ghost(i as int));
        i = i + 1;
    }
    out
}

/// Clip one stretch onto the lines it touches.
fn clip_one(
    out: &mut Vec<LineSpans>,
    starts: &Vec<usize>,
    all: usize,
    p: Paint,
    dark: bool,
    Ghost(paints): Ghost<Seq<Paint>>,
    Ghost(i): Ghost<int>,
)
    requires
        starts_wf(ints(starts@), all as int),
        0 <= i < paints.len(),
        paints[i] == p,
        old(out)@.len() == starts@.len(),
        forall|l: int|
            0 <= l < starts@.len() ==> #[trigger] spans_v(old(out)@[l].spans@) == spans_of(
                paints,
                i,
                ints(starts@),
                all as int,
                dark,
                l,
            ),
    ensures
        final(out)@.len() == starts@.len(),
        forall|l: int|
            0 <= l < starts@.len() ==> #[trigger] spans_v(final(out)@[l].spans@) == spans_of(
                paints,
                i + 1,
                ints(starts@),
                all as int,
                dark,
                l,
            ),
{
    let ghost sv = ints(starts@);
    let n_lines: usize = starts.len();
    let first: usize = line_at(starts, p.start, Ghost(all as int));
    let color = color_for(p.color, dark);
    let mut line: usize = first;
    while line < n_lines && starts[line] < p.end
        invariant
            first <= line <= n_lines == starts@.len() == out@.len(),
            first < n_lines,
            sv == ints(starts@),
            starts_wf(sv, all as int),
            color == color_at(p.color as int, dark),
            0 <= i < paints.len(),
            paints[i] == p,
            forall|l: int|
                first <= l < line ==> #[trigger] spans_v(out@[l].spans@) == spans_of(
                    paints,
                    i + 1,
                    sv,
                    all as int,
                    dark,
                    l,
                ),
            forall|l: int|
                0 <= l < first || line <= l < n_lines ==> #[trigger] spans_v(out@[l].spans@) == spans_of(
                    paints,
                    i,
                    sv,
                    all as int,
                    dark,
                    l,
                ),
        decreases n_lines - line,
    {
        let ls: usize = starts[line];
        assert(sv[line as int] == ls);
        assert(line + 1 < n_lines ==> sv[line + 1] == starts@[line + 1]);
        let ce: usize = if line + 1 < n_lines {
            starts[line + 1] - 1
        } else {
            all
        };
        let s: usize = if p.start > ls {
            p.start
        } else {
            ls
        };
        let e: usize = if p.end < ce {
            p.end
        } else {
            ce
        };
        let ghost before = out@;
        if s < e {
            let ghost was = spans_v(out@[line as int].spans@);
            out[line].spans.push((Bytes { start: s - ls, end: e - ls }, color));
            assert(spans_v(out@[line as int].spans@) =~= was.push((s - ls, e - ls, color)));
        }
        assert(forall|l: int| 0 <= l < n_lines && l != line ==> #[trigger] out@[l] == before[l]);
        line = line + 1;
    }
    assert forall|l: int| 0 <= l < starts@.len() implies #[trigger] spans_v(out@[l].spans@) == spans_of(
        paints,
        i + 1,
        sv,
        all as int,
        dark,
        l,
    ) by {
        if l < first {
            assert(sv[l + 1] <= sv[first as int]);
            assert(sv[first as int] == starts@[first as int]);
            assert(on_line(p, sv, all as int, l) is None);
        } else if l >= line {
            assert(sv[line as int] <= sv[l]);
            assert(sv[line as int] == starts@[line as int]);
            assert(on_line(p, sv, all as int, l) is None);
        }
    }
}

/// Whether a span of a line covers the byte `x` of the text in a color.
pub open spec fn covers(s: (int, int, Rgb), line_start: int, x: int, color: Rgb) -> bool {
    s.0 <= x - line_start < s.1 && s.2 == color
}

/// Every byte of a line that a stretch covers has a span in the color of the stretch.
pub proof fn law_covered_bytes_are_colored(
    paints: Seq<Paint>,
    n: int,
    starts: Seq<int>,
    size: int,
    dark: bool,
    l: int,
    k: int,
    x: int,
)
    requires
        0 <= k < n <= paints.len(),
        paints[k].start <= x < paints[k].end,
        starts[l] <= x < content_end(starts, size, l),
    ensures
        exists|i: int|
            0 <= i < spans_of(paints, n, starts, size, dark, l).len() && covers(
                #[trigger] spans_of(paints, n, starts, size, dark, l)[i],
                starts[l],
                x,
                color_at(paints[k].color as int, dark),
            ),
    decreases n,
{
    let now = spans_of(paints, n, starts, size, dark, l);
    let before = spans_of(paints, n - 1, starts, size, dark, l);
    let color = color_at(paints[k].color as int, dark);
    if k < n - 1 {
        law_covered_bytes_are_colored(paints, n - 1, starts, size, dark, l, k, x);
        let i = choose|i: int| 0 <= i < before.len() && covers(#[trigger] before[i], starts[l], x, color);
        assert(now[i] == before[i]);
    } else {
        assert(covers(now[before.len() as int], starts[l], x, color));
    }
}

/// Every span of a line has the color of a stretch that covers all of it.
pub proof fn law_spans_come_from_stretches(
    paints: Seq<Paint>,
    n: int,
    starts: Seq<int>,
    size: int,
    dark: bool,
    l: int,
    i: int,
)
    requires
        0 <= n <= paints.len(),
        0 <= i < spans_of(paints, n, starts, size, dark, l).len(),
    ensures
        ({
            let s = spans_of(paints, n, starts, size, dark, l)[i];
            exists|k: int|
                0 <= k < n && (#[trigger] paints[k]).start <= starts[l] + s.0 && starts[l] + s.1 <= paints[k].end && s.2
                    == color_at(paints[k].color as int, dark)
        }),
    decreases n,
{
    if n > 0 {
        let before = spans_of(paints, n - 1, starts, size, dark, l);
        if i < before.len() {
            law_spans_come_from_stretches(paints, n - 1, starts, size, dark, l, i);
            let s = before[i];
            let k = choose|k: int|
                0 <= k < n - 1 && (#[trigger] paints[k]).start <= starts[l] + s.0 && starts[l] + s.1 <= paints[k].end && s.2
                    == color_at(paints[k].color as int, dark);
            assert(paints[k].start <= starts[l] + s.0);
        } else {
            let p = paints[n - 1];
            assert(p.start <= starts[l] + spans_of(paints, n, starts, size, dark, l)[i].0);
        }
    }
}

} // verus!

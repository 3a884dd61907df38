//! Pure text-editing operations for the code editor, working on a line vector.
//!
//! Columns are CHARACTER offsets within a line. Lines hold no '\n'.

use vstd::prelude::*;
use vstd::string::StringExecFns;

use crate::text::{
    alphanumeric, ascii_lower, chars, from_range, is_digit, is_whitespace, lower, lowercase, ascii_digit, run, slice,
    split, split_str, starts_with, texts, to_ascii_lower, trim, trim_end, trim_start, trimmed_len, vec_starts_with,
    white_space, ws, ws_run, lemma_run, lemma_run_is,
};

verus! {

/// Indentation unit (spaces). Tabs are inserted as spaces.
pub const INDENT: &'static str = "    ";

/// The width of one level of indentation.
pub const INDENT_LEN: usize = 4;

/// One level of indentation.
pub open spec fn indent_unit() -> Seq<char> {
    seq![' ', ' ', ' ', ' ']
}

/// Split a document into owned lines (no trailing '\n').
pub fn to_lines(text: &str) -> (r: Vec<String>)
    ensures
        texts(r@) == split(text@, '\n'),
        r@.len() > 0,
{
    proof {
        crate::text::law_join_split(text@, '\n');
    }
    let r = split_str(text, '\n');
    assert(texts(r@).len() == r@.len());
    r
}

/// A space or a tab.
pub open spec fn blank() -> spec_fn(char) -> bool {
    |c: char| c == ' ' || c == '\t'
}

/// The leading spaces and tabs of a line.
pub open spec fn leading(line: Seq<char>) -> Seq<char> {
    line.take(run(line, blank()) as int)
}

fn blank_run(v: &Vec<char>) -> (n: usize)
    ensures
        n <= v@.len(),
        n == run(v@, blank()),
{
    let mut i: usize = 0;
    while i < v.len() && (v[i] == ' ' || v[i] == '\t')
        invariant
            i <= v@.len(),
            forall|k: int| 0 <= k < i ==> blank()(#[trigger] v@[k]),
        decreases v@.len() - i,
    {
        i = i + 1;
    }
    proof {
        lemma_run(v@, blank(), i as nat);
    }
    i
}

/// Leading whitespace (spaces/tabs) of a line.
pub fn leading_ws(line: &str) -> (r: String)
    ensures
        r@ == leading(line@),
{
    let v = chars(line);
    let n: usize = blank_run(&v);
    from_range(&v, 0, n)
}

/// Whether what stands before the caret, trailing white space aside, ends in `{`.
pub open spec fn opens_block(line: Seq<char>, caret_col: int) -> bool {
    let before = trim_end(line.take(if caret_col < line.len() { caret_col } else { line.len() as int }));
    before.len() > 0 && before.last() == '{'
}

/// The newline-plus-indent string to insert for auto-indent on Enter: carries the
/// current line's indentation, plus one extra level if the caret follows an
/// opening brace. `caret_col` is a character offset into `line`.
pub fn auto_indent(line: &str, caret_col: usize) -> (r: String)
    ensures
        r@ == seq!['\n'] + leading(line@) + (if opens_block(line@, caret_col as int) {
            indent_unit()
        } else {
            Seq::empty()
        }),
{
    let ws = leading_ws(line);
    let v = chars(line);
    let n: usize = if caret_col < v.len() { caret_col } else { v.len() };
    let before = slice(&v, 0, n);
    let m: usize = trimmed_len(&before);
    let opens = m > 0 && before[m - 1] == '{';
    let mut s = String::new();
    s.push('\n');
    s.append(ws.as_str());
    if opens {
        s.append(INDENT);
        proof {
            reveal_strlit("    ");
            assert(INDENT@ =~= indent_unit());
        }
    }
    s
}

/// A line one level deeper. An empty line stays as it is unless it is the only one.
pub open spec fn indented(line: Seq<char>, only: bool) -> Seq<char> {
    if line.len() > 0 || only {
        indent_unit() + line
    } else {
        line
    }
}

/// `lines` with `f` applied to the lines `l0..=l1`.
pub open spec fn on_lines(
    lines: Seq<Seq<char>>,
    l0: int,
    l1: int,
    f: spec_fn(Seq<char>) -> Seq<char>,
) -> Seq<Seq<char>> {
    Seq::new(lines.len(), |i: int| if l0 <= i <= l1 { f(lines[i]) } else { lines[i] })
}

/// Indent lines `l0..=l1` by one level, in place. The caller passes only the
/// affected slice, so no whole-document copy happens.
pub fn indent(lines: &mut [String], l0: usize, l1: usize)
    requires
        old(lines)@.len() > 0 || l0 > 0,
    ensures
        texts(final(lines)@) == on_lines(
            texts(old(lines)@),
            l0 as int,
            l1 as int,
            |s: Seq<char>| indented(s, l0 == l1),
        ),
{
    let n: usize = lines.len();
    let ghost before = texts(lines@);
    let ghost f = |s: Seq<char>| indented(s, l0 == l1);
    let mut i: usize = l0;
    while i < n && i <= l1
        invariant
            n == lines@.len() == before.len(),
            l0 <= i,
            f == |s: Seq<char>| indented(s, l0 == l1),
            forall|k: int| 0 <= k < n ==> #[trigger] lines@[k]@ == if l0 <= k < i && k <= l1 { f(before[k]) } else { before[k] },
        decreases n - i,
    {
        if !lines[i].as_str().is_empty() || l0 == l1 {
            let mut s = INDENT.to_owned();
            s.append(lines[i].as_str());
            proof {
                reveal_strlit("    ");
                assert(INDENT@ =~= indent_unit());
            }
            lines[i] = s;
        }
        i = i + 1;
    }
    assert(texts(lines@) =~= on_lines(before, l0 as int, l1 as int, f));
}


/// A space.
pub open spec fn space() -> spec_fn(char) -> bool {
    |c: char| c == ' '
}

/// A line up to one level shallower: without its leading tab, or else without
/// as many of its leading spaces as one level has.
pub open spec fn outdented(line: Seq<char>) -> Seq<char> {
    if line.len() > 0 && line[0] == '\t' {
        line.skip(1)
    } else if run(line, space()) < INDENT_LEN {
        line.skip(run(line, space()) as int)
    } else {
        line.skip(INDENT_LEN as int)
    }
}

fn outdent_line(line: &str) -> (r: String)
    ensures
        r@ == outdented(line@),
{
    let v = chars(line);
    let n: usize = v.len();
    if n > 0 && v[0] == '\t' {
        return from_range(&v, 1, n);
    }
    let mut k: usize = 0;
    while k < n && k < INDENT_LEN && v[k] == ' '
        invariant
            k <= n == v@.len(),
            k <= INDENT_LEN,
            forall|j: int| 0 <= j < k ==> space()(#[trigger] v@[j]),
        decreases n - k,
    {
        k = k + 1;
    }
    proof {
        lemma_run_is(v@, space());
        if k < INDENT_LEN {
            lemma_run(v@, space(), k as nat);
        } else if run(v@, space()) < k {
            assert(space()(v@[run(v@, space()) as int]));
        }
    }
    from_range(&v, k, n)
}

/// Remove up to one indent level (4 spaces, or a leading tab) from `l0..=l1`, in place.
pub fn outdent(lines: &mut [String], l0: usize, l1: usize)
    requires
        old(lines)@.len() > 0 || l0 > 0,
    ensures
        texts(final(lines)@) == on_lines(
            texts(old(lines)@),
            l0 as int,
            l1 as int,
            |s: Seq<char>| outdented(s),
        ),
{
    let n: usize = lines.len();
    let ghost before = texts(lines@);
    let mut i: usize = l0;
    while i < n && i <= l1
        invariant
            n == lines@.len() == before.len(),
            l0 <= i,
            forall|k: int| 0 <= k < n ==> #[trigger] lines@[k]@ == if l0 <= k < i && k <= l1 { outdented(before[k]) } else { before[k] },
        decreases n - i,
    {
        let r = outdent_line(lines[i].as_str());
        lines[i] = r;
        i = i + 1;
    }
    assert(texts(lines@) =~= on_lines(before, l0 as int, l1 as int, |s: Seq<char>| outdented(s)));
}

// ---------------------------------------------------------------------------
// Line comments
// ---------------------------------------------------------------------------

/// A line that holds more than white space.
pub open spec fn inked(line: Seq<char>) -> bool {
    trim(line).len() > 0
}

/// A line whose first ink is `mark`.
pub open spec fn marked(line: Seq<char>, mark: Seq<char>) -> bool {
    starts_with(trim_start(line), mark)
}

/// Some line of `l0..=l1` has ink, and every one that has starts with the comment mark.
pub open spec fn all_commented(lines: Seq<Seq<char>>, l0: int, l1: int, prefix: Seq<char>) -> bool {
    &&& exists|i: int| 0 <= i < lines.len() && l0 <= i <= l1 && inked(#[trigger] lines[i])
    &&& forall|i: int|
        0 <= i < lines.len() && l0 <= i <= l1 && inked(#[trigger] lines[i]) ==> marked(
            lines[i],
            trim_end(prefix),
        )
}

/// A line without its comment mark: the whole prefix where it stands, else the
/// prefix without its trailing white space.
pub open spec fn uncommented(line: Seq<char>, prefix: Seq<char>) -> Seq<char> {
    let body = trim_start(line);
    if starts_with(body, prefix) {
        leading(line) + body.skip(prefix.len() as int)
    } else if starts_with(body, trim_end(prefix)) {
        leading(line) + body.skip(trim_end(prefix).len() as int)
    } else {
        leading(line) + body
    }
}

/// A line with the comment prefix put in at column `at`, or at its end if it is shorter.
pub open spec fn commented(line: Seq<char>, prefix: Seq<char>, at: int) -> Seq<char> {
    let k = if at < line.len() { at } else { line.len() as int };
    line.take(k) + prefix + line.skip(k)
}

/// The shallowest indentation among the inked lines of `l0..=l1`, if there is one.
pub open spec fn shallowest(lines: Seq<Seq<char>>, l0: int, l1: int) -> Option<int>
    decreases lines.len(),
{
    if lines.len() == 0 {
        None
    } else {
        let i = lines.len() - 1;
        let rest = shallowest(lines.drop_last(), l0, l1);
        if l0 <= i <= l1 && inked(lines[i]) {
            let d = leading(lines[i]).len() as int;
            match rest {
                Some(m) if m < d => Some(m),
                _ => Some(d),
            }
        } else {
            rest
        }
    }
}

/// What toggling the comment on the lines `l0..=l1` makes of `lines`.
pub open spec fn toggled(lines: Seq<Seq<char>>, l0: int, l1: int, prefix: Seq<char>) -> Seq<Seq<char>> {
    if all_commented(lines, l0, l1, prefix) {
        on_lines(lines, l0, l1, |s: Seq<char>| if inked(s) { uncommented(s, prefix) } else { s })
    } else {
        let at = match shallowest(lines, l0, l1) {
            Some(m) => m,
            None => 0,
        };
        on_lines(lines, l0, l1, |s: Seq<char>| if inked(s) { commented(s, prefix, at) } else { s })
    }
}

fn has_ink(v: &Vec<char>) -> (r: bool)
    ensures
        r == inked(v@),
{
    let n: usize = ws_run(v);
    let len: usize = v.len();
    let w = slice(v, n, len);
    let m: usize = trimmed_len(&w);
    assert(trim(v@) == w@.take(m as int));
    m > 0
}

fn is_marked(v: &Vec<char>, mark: &Vec<char>) -> (r: bool)
    ensures
        r == marked(v@, mark@),
{
    let n: usize = ws_run(v);
    let len: usize = v.len();
    let body = slice(v, n, len);
    vec_starts_with(&body, mark)
}

fn uncomment_line(v: &Vec<char>, prefix: &Vec<char>, mark: &Vec<char>) -> (r: String)
    requires
        mark@ == trim_end(prefix@),
    ensures
        r@ == uncommented(v@, prefix@),
{
    let k: usize = blank_run(v);
    let mut out = from_range(v, 0, k);
    let n: usize = ws_run(v);
    let len: usize = v.len();
    let body = slice(v, n, len);
    let skip: usize = if vec_starts_with(&body, prefix) {
        prefix.len()
    } else if vec_starts_with(&body, mark) {
        mark.len()
    } else {
        0
    };
    let rest = from_range(&body, skip, body.len());
    out.append(rest.as_str());
    out
}

fn comment_line(v: &Vec<char>, prefix: &str, at: usize) -> (r: String)
    ensures
        r@ == commented(v@, prefix@, at as int),
{
    let len: usize = v.len();
    let k: usize = if at < len { at } else { len };
    let mut out = from_range(v, 0, k);
    out.append(prefix);
    let rest = from_range(v, k, len);
    out.append(rest.as_str());
    out
}

/// Toggle a line comment (`prefix`, e.g. "// ") on `l0..=l1`, in place. If every
/// non-blank line is already commented, uncomment; otherwise comment all (at the
/// minimum indentation so they stay aligned).
pub fn toggle_comment(lines: &mut [String], l0: usize, l1: usize, prefix: &str)
    requires
        old(lines)@.len() > 0 || l0 > 0,
    ensures
        texts(final(lines)@) == toggled(texts(old(lines)@), l0 as int, l1 as int, prefix@),
{
    let n: usize = lines.len();
    let ghost before = texts(lines@);
    let pv = chars(prefix);
    let pm: usize = trimmed_len(&pv);
    let mark = slice(&pv, 0, pm);
    // Which lines have ink, whether one has, whether each is marked, how deep they are.
    let mut any = false;
    let mut all = true;
    let mut at: Option<usize> = None;
    let mut i: usize = 0;
    while i < n
        invariant
            n == lines@.len() == before.len(),
            before == texts(lines@),
            i <= n,
            mark@ == trim_end(prefix@),
            any == exists|k: int| 0 <= k < i && l0 <= k <= l1 && inked(#[trigger] before[k]),
            all == forall|k: int|
                0 <= k < i && l0 <= k <= l1 && inked(#[trigger] before[k]) ==> marked(
                    before[k],
                    trim_end(prefix@),
                ),
            match at {
                Some(m) => shallowest(before.take(i as int), l0 as int, l1 as int) == Some(m as int),
                None => shallowest(before.take(i as int), l0 as int, l1 as int) is None,
            },
        decreases n - i,
    {
        let v = chars(lines[i].as_str());
        assert(before[i as int] == v@);
        assert(before.take(i as int + 1).drop_last() =~= before.take(i as int));
        if l0 <= i && i <= l1 && has_ink(&v) {
            any = true;
            if !is_marked(&v, &mark) {
                all = false;
            }
            let d: usize = blank_run(&v);
            at = match at {
                Some(m) => if m < d { Some(m) } else { Some(d) },
                None => Some(d),
            };
        }
        i = i + 1;
    }
    assert(before.take(n as int) =~= before);
    let uncomment = any && all;
    let depth: usize = match at {
        Some(m) => m,
        None => 0,
    };
    assert(uncomment == all_commented(before, l0 as int, l1 as int, prefix@));
    let mut j: usize = 0;
    while j < n
        invariant
            n == lines@.len() == before.len(),
            j <= n,
            pv@ == prefix@,
            mark@ == trim_end(prefix@),
            forall|k: int|
                0 <= k < n ==> #[trigger] lines@[k]@ == if k < j && l0 <= k <= l1 && inked(before[k]) {
                    if uncomment { uncommented(before[k], prefix@) } else { commented(before[k], prefix@, depth as int) }
                } else {
                    before[k]
                },
        decreases n - j,
    {
        let v = chars(lines[j].as_str());
        if l0 <= j && j <= l1 && has_ink(&v) {
            let r = if uncomment { uncomment_line(&v, &pv, &mark) } else { comment_line(&v, prefix, depth) };
            lines[j] = r;
        }
        j = j + 1;
    }
    assert(texts(lines@) =~= toggled(before, l0 as int, l1 as int, prefix@));
}

// ---------------------------------------------------------------------------
// Moving and copying lines
// ---------------------------------------------------------------------------

/// `s` with the elements `i` and `j` exchanged.
pub open spec fn swapped<T>(s: Seq<T>, i: int, j: int) -> Seq<T> {
    s.update(i, s[j]).update(j, s[i])
}

fn swap_lines(lines: &mut [String], i: usize, j: usize)
    requires
        i < old(lines)@.len(),
        j < old(lines)@.len(),
    ensures
        final(lines)@ == swapped(old(lines)@, i as int, j as int),
{
    let a = lines[i].clone();
    let b = lines[j].clone();
    lines[i] = b;
    lines[j] = a;
}

/// Swap line `line` with the one above it, in place. No-op at the top.
pub fn move_up(lines: &mut [String], line: usize)
    ensures
        final(lines)@ == if 0 < line < old(lines)@.len() {
            swapped(old(lines)@, line as int, line - 1)
        } else {
            old(lines)@
        },
{
    if line > 0 && line < lines.len() {
        swap_lines(lines, line, line - 1);
    }
}

/// Swap line `line` with the one below it, in place. No-op at the bottom.
pub fn move_down(lines: &mut [String], line: usize)
    ensures
        final(lines)@ == if line + 1 < old(lines)@.len() {
            swapped(old(lines)@, line as int, line + 1)
        } else {
            old(lines)@
        },
{
    if line < lines.len() && line + 1 < lines.len() {
        swap_lines(lines, line, line + 1);
    }
}

/// `s` with a copy of `l0..=l1` put directly below it.
pub open spec fn duplicated<T>(s: Seq<T>, l0: int, l1: int) -> Seq<T> {
    s.take(l1 + 1) + s.subrange(l0, l1 + 1) + s.skip(l1 + 1)
}

/// Duplicate lines `l0..=l1` in place (the copy is inserted directly below).
pub fn duplicate(lines: &mut Vec<String>, l0: usize, l1: usize)
    requires
        old(lines)@.len() > 0,
        l0 <= l1 + 1,
        l0 <= old(lines)@.len(),
    ensures
        final(lines)@ == duplicated(
            old(lines)@,
            l0 as int,
            if l1 < old(lines)@.len() { l1 as int } else { old(lines)@.len() - 1 },
        ),
{
    let n: usize = lines.len();
    let last: usize = if l1 < n { l1 } else { n - 1 };
    let ghost before = lines@;
    let mut out: Vec<String> = Vec::new();
    let mut i: usize = 0;
    while i <= last
        invariant
            i <= last + 1 <= n,
            n == before.len(),
            lines@ == before,
            out@ == before.take(i as int),
        decreases last + 1 - i,
    {
        out.push(lines[i].clone());
        i = i + 1;
    }
    let mut j: usize = l0;
    while j <= last
        invariant
            l0 <= j <= last + 1 <= n,
            n == before.len(),
            lines@ == before,
            out@ == before.take(last + 1) + before.subrange(l0 as int, j as int),
        decreases last + 1 - j,
    {
        out.push(lines[j].clone());
        j = j + 1;
        assert(out@ =~= before.take(last + 1) + before.subrange(l0 as int, j as int));
    }
    let mut k: usize = last + 1;
    while k < n
        invariant
            last + 1 <= k <= n,
            n == before.len(),
            l0 <= last + 1,
            lines@ == before,
            out@ == before.take(last + 1) + before.subrange(l0 as int, last + 1) + before.subrange(
                last + 1,
                k as int,
            ),
        decreases n - k,
    {
        out.push(lines[k].clone());
        k = k + 1;
        assert(out@ =~= before.take(last + 1) + before.subrange(l0 as int, last + 1)
            + before.subrange(last + 1, k as int));
    }
    assert(out@ =~= duplicated(before, l0 as int, last as int));
    *lines = out;
}


// ---------------------------------------------------------------------------
// Finding and replacing
// ---------------------------------------------------------------------------

/// Whether two characters match: equal, or, where case is ignored, equal up to
/// ASCII case or with the same lower case.
pub open spec fn char_match(a: char, b: char, case_sensitive: bool) -> bool {
    if case_sensitive {
        a == b
    } else {
        ascii_lower(a) == ascii_lower(b) || lowercase(a) == lowercase(b)
    }
}

/// Whether `ned` matches `hay` at offset `i`.
pub open spec fn hit(hay: Seq<char>, ned: Seq<char>, i: int, case_sensitive: bool) -> bool {
    &&& 0 <= i
    &&& i + ned.len() <= hay.len()
    &&& forall|k: int| #![trigger ned[k]] 0 <= k < ned.len() ==> char_match(hay[i + k], ned[k], case_sensitive)
}

fn chars_match(a: char, b: char, case_sensitive: bool) -> (r: bool)
    ensures
        r == char_match(a, b, case_sensitive),
{
    if case_sensitive {
        a == b
    } else if to_ascii_lower(a) == to_ascii_lower(b) {
        true
    } else {
        let x = lower(a);
        let y = lower(b);
        same_chars(&x, &y)
    }
}

fn same_chars(x: &Vec<char>, y: &Vec<char>) -> (r: bool)
    ensures
        r == (x@ == y@),
{
    if x.len() != y.len() {
        return false;
    }
    let mut i: usize = 0;
    while i < x.len()
        invariant
            i <= x@.len() == y@.len(),
            forall|k: int| 0 <= k < i ==> x@[k] == y@[k],
        decreases x@.len() - i,
    {
        if x[i] != y[i] {
            return false;
        }
        i = i + 1;
    }
    assert(x@ =~= y@);
    true
}

fn hits_at(hay: &Vec<char>, ned: &Vec<char>, i: usize, case_sensitive: bool) -> (r: bool)
    requires
        i <= hay@.len(),
    ensures
        r == hit(hay@, ned@, i as int, case_sensitive),
{
    let total: usize = hay.len();
    if ned.len() > total - i {
        return false;
    }
    let mut k: usize = 0;
    while k < ned.len()
        invariant
            k <= ned@.len(),
            i + ned@.len() <= hay@.len() == total,
            forall|j: int| #![trigger ned@[j]] 0 <= j < k ==> char_match(hay@[i + j], ned@[j], case_sensitive),
        decreases ned@.len() - k,
    {
        if !chars_match(hay[i + k], ned[k], case_sensitive) {
            assert(!char_match(hay@[i + k], ned@[k as int], case_sensitive));
            return false;
        }
        k = k + 1;
    }
    true
}

/// Where `query` matches in `text`: one flag for each offset up to the end.
pub fn hits(text: &Vec<char>, query: &Vec<char>, case_sensitive: bool) -> (r: Vec<bool>)
    ensures
        r@.len() == text@.len() + 1,
        forall|i: int| 0 <= i <= text@.len() ==> #[trigger] r@[i] == hit(text@, query@, i, case_sensitive),
{
    let mut out: Vec<bool> = Vec::new();
    let mut i: usize = 0;
    while i < text.len()
        invariant
            i <= text@.len(),
            out@.len() == i,
            forall|k: int| 0 <= k < i ==> #[trigger] out@[k] == hit(text@, query@, k, case_sensitive),
        decreases text@.len() - i,
    {
        out.push(hits_at(text, query, i, case_sensitive));
        i = i + 1;
    }
    out.push(hits_at(text, query, i, case_sensitive));
    out
}

/// `p` is the first offset below `n` that the search from `start` meets: forward
/// it takes `start..n` and then `0..start`, backward `0..start` from above and
/// then `start..n` from above.
pub open spec fn first_met(flags: Seq<bool>, start: int, forward: bool, p: int) -> bool {
    &&& 0 <= p < flags.len()
    &&& flags[p]
    &&& if forward {
        if p >= start {
            forall|k: int| start <= k < p ==> !#[trigger] flags[k]
        } else {
            forall|k: int| 0 <= k < p || start <= k < flags.len() ==> !#[trigger] flags[k]
        }
    } else if p < start {
        forall|k: int| p < k < start && k < flags.len() ==> !#[trigger] flags[k]
    } else {
        forall|k: int| 0 <= k < start && k < flags.len() || p < k < flags.len() ==> !#[trigger] flags[k]
    }
}

fn first_in(flags: &Vec<bool>, from: usize, to: usize) -> (r: Option<usize>)
    requires
        from <= to <= flags@.len(),
    ensures
        match r {
            Some(p) => from <= p < to && flags@[p as int] && forall|k: int| from <= k < p ==> !#[trigger] flags@[k],
            None => forall|k: int| from <= k < to ==> !#[trigger] flags@[k],
        },
{
    let mut i: usize = from;
    while i < to
        invariant
            from <= i <= to <= flags@.len(),
            forall|k: int| from <= k < i ==> !#[trigger] flags@[k],
        decreases to - i,
    {
        if flags[i] {
            return Some(i);
        }
        i = i + 1;
    }
    None
}

fn last_in(flags: &Vec<bool>, from: usize, to: usize) -> (r: Option<usize>)
    requires
        from <= to <= flags@.len(),
    ensures
        match r {
            Some(p) => from <= p < to && flags@[p as int] && forall|k: int| p < k < to ==> !#[trigger] flags@[k],
            None => forall|k: int| from <= k < to ==> !#[trigger] flags@[k],
        },
{
    let mut i: usize = to;
    while i > from
        invariant
            from <= i <= to <= flags@.len(),
            forall|k: int| i <= k < to ==> !#[trigger] flags@[k],
        decreases i - from,
    {
        if flags[i - 1] {
            return Some(i - 1);
        }
        i = i - 1;
    }
    None
}

/// The first set flag that a search from `start` meets, wrapping around.
pub fn search(flags: &Vec<bool>, start: usize, forward: bool) -> (r: Option<usize>)
    ensures
        match r {
            Some(p) => first_met(flags@, start as int, forward, p as int),
            None => forall|k: int| 0 <= k < flags@.len() ==> !#[trigger] flags@[k],
        },
{
    let n: usize = flags.len();
    let s: usize = if start < n { start } else { n };
    if forward {
        match first_in(flags, s, n) {
            Some(p) => Some(p),
            None => first_in(flags, 0, s),
        }
    } else {
        match last_in(flags, 0, s) {
            Some(p) => Some(p),
            None => last_in(flags, s, n),
        }
    }
}

/// The offsets at which `ned` matches, as flags up to the last offset it fits at.
pub open spec fn hit_flags(hay: Seq<char>, ned: Seq<char>, case_sensitive: bool) -> Seq<bool> {
    Seq::new((hay.len() + 1) as nat, |i: int| hit(hay, ned, i, case_sensitive))
}

/// Find `query` in `text` starting from character offset `from` (the search wraps
/// around). Returns the matched character range [start, end). Empty query → None.
pub fn find(text: &str, query: &str, from: usize, forward: bool, case_sensitive: bool) -> (r: Option<(usize, usize)>)
    ensures
        match r {
            Some((a, b)) => {
                &&& query@.len() > 0
                &&& b == a + query@.len()
                &&& first_met(hit_flags(text@, query@, case_sensitive), from as int, forward, a as int)
            },
            None => query@.len() == 0 || forall|i: int| !#[trigger] hit(text@, query@, i, case_sensitive),
        },
{
    let hay = chars(text);
    let ned = chars(query);
    if ned.len() == 0 {
        return None;
    }
    let total: usize = hay.len();
    let flags = hits(&hay, &ned, case_sensitive);
    assert(flags@ =~= hit_flags(text@, query@, case_sensitive));
    match search(&flags, from, forward) {
        Some(p) => {
            assert(hit(text@, query@, p as int, case_sensitive));
            assert(p + ned@.len() <= total);
            Some((p, p + ned.len()))
        },
        None => {
            assert forall|i: int| !#[trigger] hit(text@, query@, i, case_sensitive) by {
                if 0 <= i <= text@.len() {
                    assert(!flags@[i]);
                }
            }
            None
        },
    }
}

/// `hay` from `i` on with every flagged stretch of `n` characters replaced, taken
/// from the left and without overlap.
pub open spec fn replaced(hay: Seq<char>, flags: Seq<bool>, n: int, repl: Seq<char>, i: int) -> Seq<char>
    decreases hay.len() - i,
{
    if i < 0 || i >= hay.len() {
        Seq::empty()
    } else if n > 0 && flags[i] && i + n <= hay.len() {
        repl + replaced(hay, flags, n, repl, i + n)
    } else {
        seq![hay[i]] + replaced(hay, flags, n, repl, i + 1)
    }
}

/// How many stretches `replaced` replaces.
pub open spec fn replacements(hay: Seq<char>, flags: Seq<bool>, n: int, i: int) -> nat
    decreases hay.len() - i,
{
    if i < 0 || i >= hay.len() {
        0
    } else if n > 0 && flags[i] && i + n <= hay.len() {
        1 + replacements(hay, flags, n, i + n)
    } else {
        replacements(hay, flags, n, i + 1)
    }
}

/// Replaces every flagged stretch of `n` characters of `hay`; counts modulo 2^32.
pub fn replace_hits(hay: &Vec<char>, flags: &Vec<bool>, n: usize, repl: &str) -> (r: (String, u32))
    requires
        n > 0,
        flags@.len() >= hay@.len(),
        forall|i: int| 0 <= i < hay@.len() && #[trigger] flags@[i] ==> i + n <= hay@.len(),
    ensures
        r.0@ == replaced(hay@, flags@, n as int, repl@, 0),
        r.1 == replacements(hay@, flags@, n as int, 0) % 0x1_0000_0000,
{
    let mut out = String::new();
    let mut i: usize = 0;
    let mut count: u32 = 0;
    let ghost mut seen: nat = 0;
    while i < hay.len()
        invariant
            i <= hay@.len(),
            n > 0,
            flags@.len() >= hay@.len(),
            forall|i: int| 0 <= i < hay@.len() && #[trigger] flags@[i] ==> i + n <= hay@.len(),
            out@ + replaced(hay@, flags@, n as int, repl@, i as int) == replaced(hay@, flags@, n as int, repl@, 0),
            seen + replacements(hay@, flags@, n as int, i as int) == replacements(hay@, flags@, n as int, 0),
            count == seen % 0x1_0000_0000,
        decreases hay@.len() - i,
    {
        let ghost before = out@;
        if flags[i] {
            out.append(repl);
            proof {
                assert(before + (repl@ + replaced(hay@, flags@, n as int, repl@, i + n)) =~= out@ + replaced(
                    hay@,
                    flags@,
                    n as int,
                    repl@,
                    i + n,
                ));
                seen = seen + 1;
            }
            i = i + n;
            count = count.wrapping_add(1);
        } else {
            out.push(hay[i]);
            proof {
                assert(before + (seq![hay@[i as int]] + replaced(hay@, flags@, n as int, repl@, i + 1)) =~= out@
                    + replaced(hay@, flags@, n as int, repl@, i + 1));
            }
            i = i + 1;
        }
    }
    assert(out@ + Seq::<char>::empty() =~= out@);
    (out, count)
}

/// Replace every occurrence of `query` with `repl`. Returns (new text, count).
/// The count is kept modulo 2^32.
pub fn replace_all(text: &str, query: &str, repl: &str, case_sensitive: bool) -> (r: (String, u32))
    ensures
        query@.len() == 0 ==> r.0@ == text@ && r.1 == 0,
        query@.len() > 0 ==> r.0@ == replaced(
            text@,
            hit_flags(text@, query@, case_sensitive),
            query@.len() as int,
            repl@,
            0,
        ),
        query@.len() > 0 ==> r.1 == replacements(
            text@,
            hit_flags(text@, query@, case_sensitive),
            query@.len() as int,
            0,
        ) % 0x1_0000_0000,
{
    let ned = chars(query);
    if ned.len() == 0 {
        return (text.to_owned(), 0);
    }
    let hay = chars(text);
    let flags = hits(&hay, &ned, case_sensitive);
    assert(flags@ =~= hit_flags(text@, query@, case_sensitive));
    let n: usize = ned.len();
    replace_hits(&hay, &flags, n, repl)
}

// ---------------------------------------------------------------------------
// Words
// ---------------------------------------------------------------------------

/// Whether the character at `i` is part of a code word: an identifier character
/// (alphanumeric or `_`), or a `.` between two ASCII digits.
pub open spec fn word_char(s: Seq<char>, i: int) -> bool {
    ||| alphanumeric(s[i])
    ||| s[i] == '_'
    ||| s[i] == '.' && i > 0 && ascii_digit(s[i - 1]) && i + 1 < s.len() && ascii_digit(s[i + 1])
}

/// Whether the character at `chars[i]` is part of a code "word": identifier chars
/// (alphanumeric or `_`), plus `.` ONLY when between two digits (so a float literal
/// like `1.0f` stays one word while `foo.bar` splits at the dot).
pub fn word_char_at(chars: &Vec<char>, i: usize) -> (r: bool)
    requires
        i < chars@.len(),
    ensures
        r == word_char(chars@, i as int),
        r ==> !white_space(chars@[i as int]),
{
    let c = chars[i];
    if c.is_alphanumeric() || c == '_' {
        return true;
    }
    if c == '.' {
        let n: usize = chars.len();
        let prev_digit = i > 0 && is_digit(chars[i - 1]);
        let next_digit = i < n - 1 && is_digit(chars[i + 1]);
        return prev_digit && next_digit;
    }
    false
}

/// The character classes that word motion goes by.
#[derive(Clone, Copy, PartialEq, Eq, Structural, Debug)]
pub struct CharClass {
    /// Part of a code word.
    pub word: bool,
    /// White space.
    pub space: bool,
}

/// The classes of the characters of a line.
pub open spec fn classes(s: Seq<char>) -> Seq<CharClass> {
    Seq::new(s.len(), |i: int| CharClass { word: word_char(s, i), space: white_space(s[i]) })
}

/// The classes of the characters of a line.
pub fn classify(line: &str) -> (r: Vec<CharClass>)
    ensures
        r@ == classes(line@),
        disjoint(r@),
{
    let v = chars(line);
    let mut out: Vec<CharClass> = Vec::new();
    let mut i: usize = 0;
    while i < v.len()
        invariant
            i <= v@.len(),
            v@ == line@,
            out@ == classes(line@).take(i as int),
            disjoint(out@),
        decreases v@.len() - i,
    {
        let word = word_char_at(&v, i);
        let space = is_whitespace(v[i]);
        out.push(CharClass { word, space });
        i = i + 1;
        assert(out@ =~= classes(line@).take(i as int));
    }
    assert(classes(line@).take(i as int) =~= classes(line@));
    out
}

/// Where the stretch of characters that satisfy `p` and ends at `i` begins.
pub open spec fn back(cs: Seq<CharClass>, p: spec_fn(CharClass) -> bool, i: int) -> int
    decreases i,
{
    if 0 < i <= cs.len() && p(cs[i - 1]) {
        back(cs, p, i - 1)
    } else {
        i
    }
}

/// Where the stretch of characters that satisfy `p` and begins at `i` ends.
pub open spec fn fore(cs: Seq<CharClass>, p: spec_fn(CharClass) -> bool, i: int) -> int
    decreases cs.len() - i,
{
    if 0 <= i < cs.len() && p(cs[i]) {
        fore(cs, p, i + 1)
    } else {
        i
    }
}

/// White space.
pub open spec fn spaces() -> spec_fn(CharClass) -> bool {
    |c: CharClass| c.space
}

/// Of the same kind as `k`: word characters, or else punctuation.
pub open spec fn kin(k: CharClass) -> spec_fn(CharClass) -> bool {
    if k.word {
        |c: CharClass| c.word
    } else {
        |c: CharClass| !c.word && !c.space
    }
}

/// Of the same token as `k`: word characters, else white space, else punctuation.
pub open spec fn token_kin(k: CharClass) -> spec_fn(CharClass) -> bool {
    if k.word {
        |c: CharClass| c.word
    } else if k.space {
        |c: CharClass| c.space
    } else {
        |c: CharClass| !c.word && !c.space
    }
}

/// The previous word start: white space is skipped, then a run of one kind.
pub open spec fn left_of(cs: Seq<CharClass>, col: int) -> int {
    let i = back(cs, spaces(), if col < cs.len() { col } else { cs.len() as int });
    if i <= 0 {
        0
    } else {
        back(cs, kin(cs[i - 1]), i)
    }
}

/// The next word end: white space is skipped, then a run of one kind.
pub open spec fn right_of(cs: Seq<CharClass>, col: int) -> int {
    let i = fore(cs, spaces(), if col < cs.len() { col } else { cs.len() as int });
    if i >= cs.len() {
        cs.len() as int
    } else {
        fore(cs, kin(cs[i]), i)
    }
}

/// The token at `col`, or the last one where `col` lies past the end.
pub open spec fn token_at(cs: Seq<CharClass>, col: int) -> (int, int) {
    if cs.len() == 0 {
        (0, 0)
    } else {
        let i = if col < cs.len() { col } else { cs.len() - 1 };
        let p = token_kin(cs[i]);
        (back(cs, p, i), fore(cs, p, i + 1))
    }
}

fn is_kin(k: CharClass, c: CharClass) -> (r: bool)
    ensures
        r == kin(k)(c),
{
    if k.word {
        c.word
    } else {
        !c.word && !c.space
    }
}

fn is_token_kin(k: CharClass, c: CharClass) -> (r: bool)
    ensures
        r == token_kin(k)(c),
{
    if k.word {
        c.word
    } else if k.space {
        c.space
    } else {
        !c.word && !c.space
    }
}

/// The column of the previous word start, by the classes of the line's characters.
pub fn left_in(cs: &Vec<CharClass>, col: usize) -> (r: usize)
    ensures
        r == left_of(cs@, col as int),
        r <= cs@.len(),
{
    let n: usize = cs.len();
    let mut i: usize = if col < n { col } else { n };
    let ghost i0 = i;
    while i > 0 && cs[i - 1].space
        invariant
            i <= i0 <= n == cs@.len(),
            back(cs@, spaces(), i as int) == back(cs@, spaces(), i0 as int),
        decreases i,
    {
        i = i - 1;
    }
    if i == 0 {
        return 0;
    }
    let k = cs[i - 1];
    let ghost i1 = i;
    while i > 0 && is_kin(k, cs[i - 1])
        invariant
            i <= i1 <= n == cs@.len(),
            back(cs@, kin(k), i as int) == back(cs@, kin(k), i1 as int),
        decreases i,
    {
        i = i - 1;
    }
    i
}

/// The column of the next word end, by the classes of the line's characters.
pub fn right_in(cs: &Vec<CharClass>, col: usize) -> (r: usize)
    ensures
        r == right_of(cs@, col as int),
        r <= cs@.len(),
{
    let n: usize = cs.len();
    let mut i: usize = if col < n { col } else { n };
    let ghost i0 = i;
    while i < n && cs[i].space
        invariant
            i0 <= i <= n == cs@.len(),
            fore(cs@, spaces(), i as int) == fore(cs@, spaces(), i0 as int),
        decreases n - i,
    {
        i = i + 1;
    }
    if i >= n {
        return n;
    }
    let k = cs[i];
    let ghost i1 = i;
    while i < n && is_kin(k, cs[i])
        invariant
            i1 <= i <= n == cs@.len(),
            fore(cs@, kin(k), i as int) == fore(cs@, kin(k), i1 as int),
        decreases n - i,
    {
        i = i + 1;
    }
    i
}

/// The columns of the token at `col`, by the classes of the line's characters.
pub fn token_in(cs: &Vec<CharClass>, col: usize) -> (r: (usize, usize))
    ensures
        (r.0 as int, r.1 as int) == token_at(cs@, col as int),
        r.0 <= r.1 <= cs@.len(),
{
    let n: usize = cs.len();
    if n == 0 {
        return (0, 0);
    }
    let i: usize = if col < n { col } else { n - 1 };
    let k = cs[i];
    let mut s: usize = i;
    while s > 0 && is_token_kin(k, cs[s - 1])
        invariant
            s <= i < n == cs@.len(),
            back(cs@, token_kin(k), s as int) == back(cs@, token_kin(k), i as int),
        decreases s,
    {
        s = s - 1;
    }
    let mut e: usize = i + 1;
    while e < n && is_token_kin(k, cs[e])
        invariant
            i + 1 <= e <= n == cs@.len(),
            fore(cs@, token_kin(k), e as int) == fore(cs@, token_kin(k), i + 1),
        decreases n - e,
    {
        e = e + 1;
    }
    (s, e)
}

/// Character column to the LEFT of `col` at the previous word start (skips trailing
/// whitespace, then a run of word chars or a run of punctuation).
pub fn word_left(line: &str, col: usize) -> (r: usize)
    ensures
        r == left_of(classes(line@), col as int),
        r <= line@.len(),
{
    let cs = classify(line);
    left_in(&cs, col)
}

/// Character column to the RIGHT of `col` at the next word end (skips leading
/// whitespace, then a run of word chars or a run of punctuation).
pub fn word_right(line: &str, col: usize) -> (r: usize)
    ensures
        r == right_of(classes(line@), col as int),
        r <= line@.len(),
{
    let cs = classify(line);
    right_in(&cs, col)
}

/// The character range [start, end) of the token at column `col` (for double-click
/// selection), using the same code-aware classes: a run of word chars, of
/// whitespace, or of punctuation.
pub fn word_at(line: &str, col: usize) -> (r: (usize, usize))
    ensures
        (r.0 as int, r.1 as int) == token_at(classes(line@), col as int),
        r.0 <= r.1 <= line@.len(),
        tokens_part(classes(line@), col as int),
{
    let cs = classify(line);
    proof {
        law_tokens_part_the_line(cs@, col as int);
    }
    token_in(&cs, col)
}


// ---------------------------------------------------------------------------
// Laws
// ---------------------------------------------------------------------------

/// Outdenting undoes indenting, line by line and over any range of lines.
pub proof fn law_outdent_undoes_indent(lines: Seq<Seq<char>>, l0: int, l1: int, only: bool)
    ensures
        on_lines(
            on_lines(lines, l0, l1, |s: Seq<char>| indented(s, only)),
            l0,
            l1,
            |s: Seq<char>| outdented(s),
        ) == lines,
{
    assert forall|s: Seq<char>| #[trigger] outdented(indented(s, only)) == s by {
        let t = indented(s, only);
        lemma_run_is(t, space());
        if s.len() > 0 || only {
            assert(t == indent_unit() + s);
            let r = run(t, space());
            if r < 4 {
                assert(t[r as int] == ' ');
                assert(space()(t[r as int]));
            }
            assert(t.skip(4) =~= s);
        } else {
            assert(t.skip(0) =~= s);
        }
    }
    assert(on_lines(
        on_lines(lines, l0, l1, |s: Seq<char>| indented(s, only)),
        l0,
        l1,
        |s: Seq<char>| outdented(s),
    ) =~= lines);
}

/// Moving a line up and then the one above it down restores the order.
pub proof fn law_move_down_undoes_move_up<T>(s: Seq<T>, line: int)
    requires
        0 < line < s.len(),
    ensures
        swapped(swapped(s, line, line - 1), line - 1, line) == s,
{
    assert(swapped(swapped(s, line, line - 1), line - 1, line) =~= s);
}

/// Deleting the copy that `duplicate` put below a block restores the document.
pub proof fn law_duplicate_then_delete<T>(s: Seq<T>, l0: int, l1: int)
    requires
        0 <= l0 <= l1 < s.len(),
    ensures
        ({
            let d = duplicated(s, l0, l1);
            let n = l1 + 1 - l0;
            d.take(l1 + 1) + d.skip(l1 + 1 + n) == s && d.subrange(l1 + 1, l1 + 1 + n) == s.subrange(l0, l1 + 1)
        }),
{
    let d = duplicated(s, l0, l1);
    let n = l1 + 1 - l0;
    assert(d.take(l1 + 1) + d.skip(l1 + 1 + n) =~= s);
    assert(d.subrange(l1 + 1, l1 + 1 + n) =~= s.subrange(l0, l1 + 1));
}

pub proof fn lemma_shallowest(lines: Seq<Seq<char>>, l0: int, l1: int)
    ensures
        match shallowest(lines, l0, l1) {
            Some(m) => {
                &&& 0 <= m
                &&& forall|i: int|
                    0 <= i < lines.len() && l0 <= i <= l1 && inked(#[trigger] lines[i]) ==> m <= leading(lines[i]).len()
            },
            None => forall|i: int| 0 <= i < lines.len() && l0 <= i <= l1 ==> !inked(#[trigger] lines[i]),
        },
    decreases lines.len(),
{
    if lines.len() > 0 {
        let rest = lines.drop_last();
        lemma_shallowest(rest, l0, l1);
        assert forall|i: int| 0 <= i < lines.len() - 1 implies #[trigger] lines[i] == rest[i] by {}
        let m = shallowest(lines, l0, l1);
        assert forall|i: int|
            0 <= i < lines.len() && l0 <= i <= l1 && inked(#[trigger] lines[i]) implies m is Some && m->0
            <= leading(lines[i]).len() by {
            if i < lines.len() - 1 {
                assert(inked(rest[i]));
            }
        }
    }
}

/// A line commented at a column inside its indentation: its ink starts with the
/// prefix, and uncommenting it restores it.
proof fn lemma_comment_line(line: Seq<char>, prefix: Seq<char>, at: int)
    requires
        prefix.len() > 0,
        !white_space(prefix[0]),
        0 <= at <= leading(line).len(),
    ensures
        inked(commented(line, prefix, at)),
        marked(commented(line, prefix, at), trim_end(prefix)),
        uncommented(commented(line, prefix, at), prefix) == line,
{
    let t = commented(line, prefix, at);
    lemma_run_is(line, blank());
    assert(t =~= line.take(at) + prefix + line.skip(at));
    assert(t[at] == prefix[0]);
    assert forall|k: int| 0 <= k < at implies ws()(#[trigger] t[k]) && blank()(t[k]) by {
        assert(t[k] == line[k]);
        assert(blank()(line[k]));
    }
    assert(!ws()(t[at]));
    assert(!blank()(t[at]));
    lemma_run(t, ws(), at as nat);
    lemma_run(t, blank(), at as nat);
    let body = trim_start(t);
    assert(body =~= prefix + line.skip(at));
    assert(body[0] == prefix[0]);
    // The body keeps its first character when its end is trimmed.
    let n = crate::text::run_back(body, ws());
    lemma_back_stops(body);
    assert(trim(t).len() > 0);
    // The trimmed prefix is a prefix of the prefix.
    lemma_back_len(prefix);
    let mark = trim_end(prefix);
    assert(body.take(mark.len() as int) =~= mark);
    assert(body.take(prefix.len() as int) =~= prefix);
    assert(leading(t) =~= line.take(at));
    assert(body.skip(prefix.len() as int) =~= line.skip(at));
    assert(uncommented(t, prefix) =~= line);
}

proof fn lemma_back_len(s: Seq<char>)
    ensures
        crate::text::run_back(s, ws()) <= s.len(),
    decreases s.len(),
{
    if s.len() > 0 {
        lemma_back_len(s.drop_last());
    }
}

proof fn lemma_back_stops(s: Seq<char>)
    requires
        s.len() > 0,
        !white_space(s[0]),
    ensures
        crate::text::run_back(s, ws()) < s.len(),
    decreases s.len(),
{
    if s.len() > 1 {
        assert(s.drop_last()[0] == s[0]);
        lemma_back_stops(s.drop_last());
    } else {
        assert(!ws()(s.last()));
    }
}

/// Toggling a comment on lines that were not all commented, and toggling it again,
/// restores them, where the prefix does not start with white space.
pub proof fn law_toggle_comment_twice(lines: Seq<Seq<char>>, l0: int, l1: int, prefix: Seq<char>)
    requires
        prefix.len() > 0,
        !white_space(prefix[0]),
        !all_commented(lines, l0, l1, prefix),
    ensures
        toggled(toggled(lines, l0, l1, prefix), l0, l1, prefix) == lines,
{
    let once = toggled(lines, l0, l1, prefix);
    let at = match shallowest(lines, l0, l1) {
        Some(m) => m,
        None => 0,
    };
    lemma_shallowest(lines, l0, l1);
    assert forall|i: int| 0 <= i < lines.len() && l0 <= i <= l1 && inked(#[trigger] lines[i]) implies {
        &&& once[i] == commented(lines[i], prefix, at)
        &&& inked(once[i])
        &&& marked(once[i], trim_end(prefix))
        &&& uncommented(once[i], prefix) == lines[i]
    } by {
        lemma_comment_line(lines[i], prefix, at);
    }
    assert forall|i: int| 0 <= i < lines.len() && !(l0 <= i <= l1 && inked(lines[i])) implies #[trigger] once[i]
        == lines[i] by {}
    if exists|i: int| 0 <= i < lines.len() && l0 <= i <= l1 && inked(#[trigger] lines[i]) {
        let w = choose|i: int| 0 <= i < lines.len() && l0 <= i <= l1 && inked(#[trigger] lines[i]);
        assert(inked(once[w]));
        assert forall|i: int| 0 <= i < once.len() && l0 <= i <= l1 && inked(#[trigger] once[i]) implies marked(
            once[i],
            trim_end(prefix),
        ) by {
            assert(inked(lines[i]));
        }
        assert(all_commented(once, l0, l1, prefix));
        assert forall|i: int| 0 <= i < lines.len() implies #[trigger] toggled(once, l0, l1, prefix)[i] == lines[i] by {
            if l0 <= i <= l1 && inked(lines[i]) {
                assert(inked(once[i]));
            }
        }
        assert(toggled(once, l0, l1, prefix) =~= lines);
    } else {
        assert(once =~= lines);
        assert(toggled(once, l0, l1, prefix) =~= lines);
    }
}

/// Replacing a query by itself, case respected, leaves the text as it is.
pub proof fn law_replace_by_itself(text: Seq<char>, query: Seq<char>)
    requires
        query.len() > 0,
    ensures
        replaced(text, hit_flags(text, query, true), query.len() as int, query, 0) == text,
{
    lemma_replace_by_itself(text, query, 0);
    assert(text.skip(0) =~= text);
}

proof fn lemma_replace_by_itself(text: Seq<char>, query: Seq<char>, i: int)
    requires
        query.len() > 0,
        0 <= i <= text.len(),
    ensures
        replaced(text, hit_flags(text, query, true), query.len() as int, query, i) == text.skip(i),
    decreases text.len() - i,
{
    let flags = hit_flags(text, query, true);
    if i < text.len() {
        if flags[i] {
            assert forall|k: int| 0 <= k < query.len() implies text[i + k] == #[trigger] query[k] by {
                assert(char_match(text[i + k], query[k], true));
            }
            lemma_replace_by_itself(text, query, i + query.len());
            assert(text.skip(i) =~= query + text.skip(i + query.len()));
        } else {
            lemma_replace_by_itself(text, query, i + 1);
            assert(text.skip(i) =~= seq![text[i]] + text.skip(i + 1));
        }
    } else {
        assert(text.skip(i) =~= Seq::<char>::empty());
    }
}

proof fn lemma_back_le(cs: Seq<CharClass>, p: spec_fn(CharClass) -> bool, i: int)
    requires
        0 <= i <= cs.len(),
    ensures
        0 <= back(cs, p, i) <= i,
        i > 0 && p(cs[i - 1]) ==> back(cs, p, i) < i,
    decreases i,
{
    if i > 0 && p(cs[i - 1]) {
        lemma_back_le(cs, p, i - 1);
    }
}

proof fn lemma_fore_ge(cs: Seq<CharClass>, p: spec_fn(CharClass) -> bool, i: int)
    requires
        0 <= i <= cs.len(),
    ensures
        i <= fore(cs, p, i) <= cs.len(),
        i < cs.len() && p(cs[i]) ==> i < fore(cs, p, i),
    decreases cs.len() - i,
{
    if i < cs.len() && p(cs[i]) {
        lemma_fore_ge(cs, p, i + 1);
    }
}

/// Word motion makes progress: leftwards from every column but the first,
/// rightwards from every column but the last; a token holds the column it is
/// asked for.
pub proof fn law_word_motion_progress(cs: Seq<CharClass>, col: int)
    requires
        0 <= col <= cs.len(),
    ensures
        0 <= left_of(cs, col) <= col,
        col > 0 ==> left_of(cs, col) < col,
        col <= right_of(cs, col) <= cs.len(),
        col < cs.len() ==> col < right_of(cs, col),
        col < cs.len() ==> token_at(cs, col).0 <= col < token_at(cs, col).1 <= cs.len(),
{
    lemma_back_le(cs, spaces(), col);
    let i = back(cs, spaces(), col);
    if i > 0 {
        lemma_back_stop(cs, spaces(), col);
        lemma_back_le(cs, kin(cs[i - 1]), i);
        assert(kin(cs[i - 1])(cs[i - 1]));
    }
    lemma_fore_ge(cs, spaces(), col);
    let j = fore(cs, spaces(), col);
    if j < cs.len() {
        lemma_fore_stop(cs, spaces(), col);
        lemma_fore_ge(cs, kin(cs[j]), j);
        assert(kin(cs[j])(cs[j]));
    }
    if col < cs.len() {
        lemma_back_le(cs, token_kin(cs[col]), col);
        lemma_fore_ge(cs, token_kin(cs[col]), col + 1);
    }
}

/// What ends a stretch before a column and what it is made of.
pub proof fn lemma_back_facts(cs: Seq<CharClass>, p: spec_fn(CharClass) -> bool, i: int)
    requires
        0 <= i <= cs.len(),
    ensures
        0 <= back(cs, p, i) <= i,
        back(cs, p, i) > 0 ==> !p(cs[back(cs, p, i) - 1]),
        forall|k: int| back(cs, p, i) <= k < i ==> p(#[trigger] cs[k]),
{
    lemma_back_le(cs, p, i);
    lemma_back_stop(cs, p, i);
    lemma_back_holds(cs, p, i);
}

/// What ends a stretch behind a column and what it is made of.
pub proof fn lemma_fore_facts(cs: Seq<CharClass>, p: spec_fn(CharClass) -> bool, i: int)
    requires
        0 <= i <= cs.len(),
    ensures
        i <= fore(cs, p, i) <= cs.len(),
        fore(cs, p, i) < cs.len() ==> !p(cs[fore(cs, p, i)]),
        forall|k: int| i <= k < fore(cs, p, i) ==> p(#[trigger] cs[k]),
{
    lemma_fore_ge(cs, p, i);
    lemma_fore_stop(cs, p, i);
    lemma_fore_holds(cs, p, i);
}

proof fn lemma_back_stop(cs: Seq<CharClass>, p: spec_fn(CharClass) -> bool, i: int)
    requires
        0 <= i <= cs.len(),
    ensures
        back(cs, p, i) > 0 ==> !p(cs[back(cs, p, i) - 1]),
    decreases i,
{
    if i > 0 && p(cs[i - 1]) {
        lemma_back_stop(cs, p, i - 1);
    }
}

proof fn lemma_fore_stop(cs: Seq<CharClass>, p: spec_fn(CharClass) -> bool, i: int)
    requires
        0 <= i <= cs.len(),
    ensures
        fore(cs, p, i) < cs.len() ==> !p(cs[fore(cs, p, i)]),
    decreases cs.len() - i,
{
    if i < cs.len() && p(cs[i]) {
        lemma_fore_stop(cs, p, i + 1);
    }
}

proof fn lemma_back_holds(cs: Seq<CharClass>, p: spec_fn(CharClass) -> bool, i: int)
    requires
        0 <= i <= cs.len(),
    ensures
        forall|k: int| back(cs, p, i) <= k < i ==> p(#[trigger] cs[k]),
    decreases i,
{
    if i > 0 && p(cs[i - 1]) {
        lemma_back_holds(cs, p, i - 1);
    }
}

proof fn lemma_fore_holds(cs: Seq<CharClass>, p: spec_fn(CharClass) -> bool, i: int)
    requires
        0 <= i <= cs.len(),
    ensures
        forall|k: int| i <= k < fore(cs, p, i) ==> p(#[trigger] cs[k]),
    decreases cs.len() - i,
{
    if i < cs.len() && p(cs[i]) {
        lemma_fore_holds(cs, p, i + 1);
    }
}

proof fn lemma_back_is(cs: Seq<CharClass>, p: spec_fn(CharClass) -> bool, i: int, s: int)
    requires
        0 <= s <= i <= cs.len(),
        forall|k: int| s <= k < i ==> p(#[trigger] cs[k]),
        s > 0 ==> !p(cs[s - 1]),
    ensures
        back(cs, p, i) == s,
    decreases i,
{
    if s < i {
        lemma_back_is(cs, p, i - 1, s);
    }
}

proof fn lemma_fore_is(cs: Seq<CharClass>, p: spec_fn(CharClass) -> bool, i: int, e: int)
    requires
        0 <= i <= e <= cs.len(),
        forall|k: int| i <= k < e ==> p(#[trigger] cs[k]),
        e < cs.len() ==> !p(cs[e]),
    ensures
        fore(cs, p, i) == e,
    decreases cs.len() - i,
{
    if i < e {
        lemma_fore_is(cs, p, i + 1, e);
    }
}

/// Whether no character is both a word character and white space. [`classify`] gives
/// such classes for every line.
pub open spec fn disjoint(cs: Seq<CharClass>) -> bool {
    forall|i: int| 0 <= i < cs.len() ==> !((#[trigger] cs[i]).word && cs[i].space)
}

/// Whether the token at a column is one of the parts of a line: it holds the column (or
/// the last character, past the end), every column of it has the same token, the next
/// token begins where it ends, and the one before ends where it begins. An empty line
/// has the empty token.
pub open spec fn tokens_part(cs: Seq<CharClass>, col: int) -> bool {
    let (s, e) = token_at(cs, col);
    let n = cs.len() as int;
    &&& n == 0 ==> (s, e) == (0int, 0int)
    &&& n > 0 ==> 0 <= s <= (if col < n { col } else { n - 1 }) < e <= n
    &&& forall|j: int| s <= j < e ==> #[trigger] token_at(cs, j) == (s, e)
    &&& e < n ==> token_at(cs, e).0 == e
    &&& s > 0 ==> token_at(cs, s - 1).1 == s
}

/// The tokens part a line.
pub proof fn law_tokens_part_the_line(cs: Seq<CharClass>, col: int)
    requires
        0 <= col,
        disjoint(cs),
    ensures
        tokens_part(cs, col),
{
    let n = cs.len() as int;
    if n > 0 {
        let i = if col < n { col } else { n - 1 };
        let p = token_kin(cs[i]);
        let (s, e) = token_at(cs, col);
        lemma_back_le(cs, p, i);
        lemma_back_stop(cs, p, i);
        lemma_back_holds(cs, p, i);
        lemma_fore_ge(cs, p, i + 1);
        lemma_fore_stop(cs, p, i + 1);
        lemma_fore_holds(cs, p, i + 1);
        assert(p(cs[i]));
        assert forall|j: int| s <= j < e implies #[trigger] token_at(cs, j) == (s, e) by {
            assert(p(cs[j]));
            assert(!(cs[j].word && cs[j].space));
            assert(token_kin(cs[j]) == p);
            lemma_back_is(cs, p, j, s);
            lemma_fore_is(cs, p, j + 1, e);
        }
        if e < n {
            assert(!(cs[e].word && cs[e].space));
            assert(!(cs[e - 1].word && cs[e - 1].space));
            assert(p(cs[e - 1]) && !p(cs[e]));
            lemma_back_is(cs, token_kin(cs[e]), e, e);
        }
        if s > 0 {
            assert(!(cs[s].word && cs[s].space));
            assert(!(cs[s - 1].word && cs[s - 1].space));
            assert(p(cs[s]) && !p(cs[s - 1]));
            lemma_fore_is(cs, token_kin(cs[s - 1]), s, s);
        }
    }
}

/// Where case counts, a text matches where it stands letter for letter.
proof fn lemma_exact_hit(text: Seq<char>, query: Seq<char>, i: int)
    ensures
        hit(text, query, i, true) == (0 <= i && i + query.len() <= text.len() && text.subrange(i, i + query.len())
            == query),
{
    if 0 <= i && i + query.len() <= text.len() {
        let t = text.subrange(i, i + query.len());
        if hit(text, query, i, true) {
            assert forall|k: int| 0 <= k < query.len() implies t[k] == query[k] by {
                assert(char_match(text[i + k], query[k], true));
            }
            assert(t =~= query);
        } else if t == query {
            assert forall|k: int| #![trigger query[k]] 0 <= k < query.len() implies char_match(
                text[i + k],
                query[k],
                true,
            ) by {
                assert(t[k] == query[k]);
            }
        }
    }
}

proof fn lemma_replacing(text: Seq<char>, query: Seq<char>, repl: Seq<char>, case_sensitive: bool, i: int)
    requires
        query.len() > 0,
        0 <= i <= text.len(),
    ensures
        ({
            let n = query.len() as int;
            let flags = hit_flags(text, query, case_sensitive);
            let c = replacements(text, flags, n, i) as int;
            let out = replaced(text, flags, n, repl, i);
            &&& c == 0 ==> out == text.skip(i)
            &&& c == 0 <==> forall|k: int| i <= k < text.len() ==> !#[trigger] hit(text, query, k, case_sensitive)
            &&& out.len() + c * n == text.len() - i + c * repl.len()
            &&& c <= text.len() - i
        }),
    decreases text.len() - i,
{
    let n = query.len() as int;
    let flags = hit_flags(text, query, case_sensitive);
    let c = replacements(text, flags, n, i) as int;
    let out = replaced(text, flags, n, repl, i);
    if i < text.len() {
        assert(flags[i] == hit(text, query, i, case_sensitive));
        if flags[i] {
            lemma_replacing(text, query, repl, case_sensitive, i + n);
            let r = repl.len() as int;
            let d = c - 1;
            assert(c * n == d * n + n) by (nonlinear_arith)
                requires
                    d == c - 1,
            ;
            assert(c * r == d * r + r) by (nonlinear_arith)
                requires
                    d == c - 1,
            ;
        } else {
            lemma_replacing(text, query, repl, case_sensitive, i + 1);
            if c == 0 {
                assert(text.skip(i) =~= seq![text[i]] + text.skip(i + 1));
            }
        }
    } else {
        assert(text.skip(i) =~= Seq::<char>::empty());
        assert(0 * n == 0 && 0 * (repl.len() as int) == 0);
    }
}

/// What replacing every occurrence counts: nothing exactly where a search finds
/// nothing, and the text then stays as it is; otherwise the text's length changes by
/// that of the two texts, once for each. Where case counts, an occurrence is the
/// query letter for letter. The count is exact in 32 bits for a text whose
/// characters can be counted in them.
pub proof fn law_replacing_counts(text: Seq<char>, query: Seq<char>, repl: Seq<char>, case_sensitive: bool)
    requires
        query.len() > 0,
    ensures
        ({
            let n = query.len() as int;
            let flags = hit_flags(text, query, case_sensitive);
            let c = replacements(text, flags, n, 0) as int;
            let out = replaced(text, flags, n, repl, 0);
            &&& c == 0 <==> forall|i: int| !#[trigger] hit(text, query, i, case_sensitive)
            &&& c == 0 ==> out == text
            &&& out.len() + c * n == text.len() + c * repl.len()
            &&& text.len() <= u32::MAX ==> c % 0x1_0000_0000 == c
            &&& case_sensitive ==> forall|i: int| #[trigger]
                hit(text, query, i, true) == (0 <= i && i + n <= text.len() && text.subrange(i, i + n) == query)
        }),
{
    lemma_replacing(text, query, repl, case_sensitive, 0);
    assert(text.skip(0) =~= text);
    if case_sensitive {
        assert forall|i: int| #[trigger]
            hit(text, query, i, true) == (0 <= i && i + query.len() <= text.len() && text.subrange(i, i + query.len())
                == query) by {
            lemma_exact_hit(text, query, i);
        }
    }
}

// ---------------------------------------------------------------------------
// What the operations make of a text
// ---------------------------------------------------------------------------

/// The indentation of a line is what stands before its first character that is neither a
/// blank nor a tab.
pub proof fn law_indentation_is_what_leads(lead: Seq<char>, rest: Seq<char>)
    requires
        forall|i: int| 0 <= i < lead.len() ==> (#[trigger] lead[i] == ' ' || lead[i] == '\t'),
        rest.len() > 0 ==> rest[0] != ' ' && rest[0] != '\t',
    ensures
        leading(lead + rest) == lead,
{
    let s = lead + rest;
    assert forall|i: int| 0 <= i < lead.len() implies blank()(#[trigger] s[i]) by {
        assert(s[i] == lead[i]);
    }
    if rest.len() > 0 {
        assert(s[lead.len() as int] == rest[0]);
    }
    lemma_run(s, blank(), lead.len());
    assert(s.take(lead.len() as int) =~= lead);
}

/// A block opens before the caret exactly where the last character before it that is no
/// white space is an opening brace.
pub proof fn law_block_opens_at_a_brace(before: Seq<char>, c: char, gap: Seq<char>, behind: Seq<char>)
    requires
        !white_space(c),
        forall|i: int| 0 <= i < gap.len() ==> white_space(#[trigger] gap[i]),
    ensures
        opens_block(before + seq![c] + gap + behind, (before.len() + 1 + gap.len()) as int) == (c == '{'),
        !opens_block(gap + behind, gap.len() as int),
{
    let n = (before.len() + 1 + gap.len()) as int;
    let line = before + seq![c] + gap + behind;
    let s = before + seq![c] + gap;
    assert(line.take(n) =~= s);
    assert forall|i: int| s.len() - gap.len() <= i < s.len() implies ws()(#[trigger] s[i]) by {
        assert(s[i] == gap[i - before.len() - 1]);
    }
    assert(s[before.len() as int] == c);
    crate::text::lemma_run_back(s, ws(), gap.len());
    assert(trim_end(s) =~= before + seq![c]);
    let t = gap + behind;
    assert(t.take(gap.len() as int) =~= gap);
    assert forall|i: int| 0 <= i < gap.len() implies ws()(#[trigger] gap[i]) by {}
    crate::text::lemma_run_back(gap, ws(), gap.len());
    assert(trim_end(gap).len() == 0);
}

/// Uncommenting a line takes the mark out from behind its indentation, with the blank
/// behind it if there is one, and leaves the rest.
pub proof fn law_uncommenting_takes_the_mark_out(lead: Seq<char>, rest: Seq<char>)
    requires
        forall|i: int| 0 <= i < lead.len() ==> (#[trigger] lead[i] == ' ' || lead[i] == '\t'),
    ensures
        uncommented(lead + "// "@ + rest, "// "@) == lead + rest,
        (rest.len() == 0 || rest[0] != ' ') ==> uncommented(lead + "//"@ + rest, "// "@) == lead + rest,
{
    reveal_strlit("// ");
    reveal_strlit("//");
    let prefix = "// "@;
    let mark = "//"@;
    assert(!ws()(prefix[1]) && ws()(prefix[2])) by {
        assert(prefix[1] == '/' && prefix[2] == ' ');
    }
    crate::text::lemma_run_back(prefix, ws(), 1);
    assert(trim_end(prefix) =~= mark);
    lemma_uncommented(lead, prefix, rest);
    lemma_uncommented(lead, mark, rest);
    let t = lead + mark + rest;
    if rest.len() == 0 || rest[0] != ' ' {
        let body = trim_start(t);
        assert(body == mark + rest);
        if starts_with(body, prefix) {
            assert(body.take(3)[2] == ' ');
        }
        assert(body.take(2) =~= mark);
        assert(body.skip(2) =~= rest);
    }
    let u = lead + prefix + rest;
    assert(trim_start(u).take(3) =~= prefix);
    assert(trim_start(u).skip(3) =~= rest);
}

proof fn lemma_uncommented(lead: Seq<char>, mark: Seq<char>, rest: Seq<char>)
    requires
        forall|i: int| 0 <= i < lead.len() ==> (#[trigger] lead[i] == ' ' || lead[i] == '\t'),
        mark.len() > 0,
        mark[0] == '/',
    ensures
        leading(lead + mark + rest) == lead,
        trim_start(lead + mark + rest) == mark + rest,
{
    let t = lead + mark + rest;
    assert(t =~= lead + (mark + rest));
    law_indentation_is_what_leads(lead, mark + rest);
    assert forall|i: int| 0 <= i < lead.len() implies ws()(#[trigger] t[i]) by {
        assert(t[i] == lead[i]);
    }
    assert(t[lead.len() as int] == '/');
    assert(!ws()(t[lead.len() as int]));
    lemma_run(t, ws(), lead.len());
    assert(t.skip(lead.len() as int) =~= mark + rest);
}

/// A text occurs where it stands, letter for letter, when case counts; where case does
/// not count it occurs also where it does so when it counts.
pub proof fn law_occurrences(hay: Seq<char>, ned: Seq<char>, i: int)
    requires
        0 <= i,
        i + ned.len() <= hay.len(),
    ensures
        hit(hay, ned, i, true) <==> hay.subrange(i, i + ned.len()) == ned,
        hit(hay, ned, i, true) ==> hit(hay, ned, i, false),
{
    let s = hay.subrange(i, i + ned.len());
    if hit(hay, ned, i, true) {
        assert forall|k: int| 0 <= k < ned.len() implies s[k] == ned[k] by {
            assert(char_match(hay[i + k], ned[k], true));
        }
        assert(s =~= ned);
        assert forall|k: int| #![trigger ned[k]] 0 <= k < ned.len() implies char_match(hay[i + k], ned[k], false) by {
            assert(char_match(hay[i + k], ned[k], true));
        }
    }
    if s == ned {
        assert forall|k: int| #![trigger ned[k]] 0 <= k < ned.len() implies char_match(hay[i + k], ned[k], true) by {
            assert(s[k] == hay[i + k]);
        }
    }
}

/// A search forward finds the first occurrence at or behind its start, and from the
/// beginning only if there is none; a search backward the last one before its start, and
/// from the end only if there is none.
pub proof fn law_search_finds_the_nearest(flags: Seq<bool>, start: int, p: int, q: int)
    requires
        0 <= q < flags.len(),
        flags[q],
    ensures
        first_met(flags, start, true, p) ==> {
            &&& flags[p]
            &&& q >= start ==> start <= p <= q
            &&& p < start ==> p <= q < start
        },
        first_met(flags, start, false, p) ==> {
            &&& flags[p]
            &&& q < start ==> q <= p < start
            &&& p >= start ==> start <= q <= p
        },
{
}

/// Replacing leaves what stands before the first occurrence, puts the replacement in its
/// place and goes on behind it; without an occurrence the text stays.
pub proof fn law_replacing_goes_on_behind(hay: Seq<char>, flags: Seq<bool>, n: int, repl: Seq<char>, i: int, k: int)
    requires
        n > 0,
        0 <= i <= k <= hay.len(),
        flags.len() >= hay.len(),
        forall|j: int| i <= j < k ==> !(#[trigger] flags[j]),
        k < hay.len() ==> flags[k] && k + n <= hay.len(),
    ensures
        replaced(hay, flags, n, repl, i) == hay.subrange(i, k) + (if k < hay.len() {
            repl + replaced(hay, flags, n, repl, k + n)
        } else {
            Seq::empty()
        }),
        replacements(hay, flags, n, i) == (if k < hay.len() {
            1 + replacements(hay, flags, n, k + n)
        } else {
            0nat
        }),
    decreases k - i,
{
    if i < k {
        law_replacing_goes_on_behind(hay, flags, n, repl, i + 1, k);
        assert(!flags[i]);
        assert(seq![hay[i]] + hay.subrange(i + 1, k) =~= hay.subrange(i, k));
        assert(replaced(hay, flags, n, repl, i) =~= hay.subrange(i, k) + (if k < hay.len() {
            repl + replaced(hay, flags, n, repl, k + n)
        } else {
            Seq::empty()
        }));
    } else {
        assert(hay.subrange(i, k) =~= Seq::empty());
        if k < hay.len() {
            assert(Seq::<char>::empty() + (repl + replaced(hay, flags, n, repl, k + n)) =~= repl + replaced(
                hay,
                flags,
                n,
                repl,
                k + n,
            ));
        }
    }
}

/// Letters, numbers and underscores are of words, and a dot is between two digits only;
/// white space is of no word.
pub proof fn law_words_are_identifiers_and_numbers(s: Seq<char>, i: int)
    requires
        0 <= i < s.len(),
    ensures
        classes(s).len() == s.len(),
        classes(s)[i].space == white_space(s[i]),
        alphanumeric(s[i]) || s[i] == '_' ==> classes(s)[i].word,
        s[i] == '.' && !alphanumeric('.') ==> (classes(s)[i].word <==> 0 < i < s.len() - 1 && ascii_digit(s[i - 1])
            && ascii_digit(s[i + 1])),
        !alphanumeric(s[i]) && s[i] != '_' && s[i] != '.' ==> !classes(s)[i].word,
{
}

} // verus!

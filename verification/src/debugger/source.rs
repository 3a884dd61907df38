//! Source locations: from what the runtime's debug information records to lines
//! of files the developer has.

use vstd::prelude::*;

use crate::text::{
    alphanumeric, chars, from_range, is_digit, ascii_digit, lemma_run_back, lemma_run_back_holds, run_back, same, split,
    split_str, texts,
};

verus! {

/// A point of a method that begins a source line.
#[derive(Clone, Copy, PartialEq, Eq, Structural, Debug)]
pub struct SeqPoint {
    pub il_offset: i32,
    pub line: i32,
    /// Compiler-generated code without a line of its own.
    pub hidden: bool,
}

/// The debug information of a method.
pub struct DebugInfo {
    pub sources: Vec<String>,
    pub seq_points: Vec<SeqPoint>,
}

/// A point that can tell the line of the code at `il`.
pub open spec fn covers(p: SeqPoint, il: i32) -> bool {
    !p.hidden && p.il_offset <= il
}

/// The point that tells the line at `il`: of those at or before it the last one
/// with the highest offset.
pub open spec fn nearest(ps: Seq<SeqPoint>, il: i32) -> Option<SeqPoint>
    decreases ps.len(),
{
    if ps.len() == 0 {
        None
    } else {
        let rest = nearest(ps.drop_last(), il);
        let p = ps.last();
        if covers(p, il) && (rest is None || rest->0.il_offset <= p.il_offset) {
            Some(p)
        } else {
            rest
        }
    }
}

/// The first of the texts, and the empty text where there is none.
pub open spec fn first_or_empty(v: Seq<String>) -> Seq<char> {
    if v.len() > 0 {
        v[0]@
    } else {
        Seq::empty()
    }
}

/// The source file and line of the code at `il`: the nearest point at or before it
/// that is not hidden.
pub fn il_to_source(info: &DebugInfo, il: i32) -> (r: Option<(String, i32)>)
    ensures
        match r {
            Some((src, line)) => {
                &&& nearest(info.seq_points@, il) is Some
                &&& line == nearest(info.seq_points@, il)->0.line
                &&& src@ == first_or_empty(info.sources@)
            },
            None => nearest(info.seq_points@, il) is None,
        },
{
    let ghost ps = info.seq_points@;
    let mut best: Option<SeqPoint> = None;
    let mut i: usize = 0;
    while i < info.seq_points.len()
        invariant
            i <= ps.len(),
            ps == info.seq_points@,
            best == nearest(ps.take(i as int), il),
        decreases ps.len() - i,
    {
        let p = info.seq_points[i];
        assert(ps.take(i as int + 1).drop_last() =~= ps.take(i as int));
        if !p.hidden && p.il_offset <= il {
            best = match best {
                Some(b) => if b.il_offset <= p.il_offset { Some(p) } else { Some(b) },
                None => Some(p),
            };
        }
        i = i + 1;
    }
    assert(ps.take(i as int) =~= ps);
    match best {
        Some(p) => {
            let src = if info.sources.len() > 0 { info.sources[0].clone() } else { String::new() };
            Some((src, p.line))
        },
        None => None,
    }
}

/// The nearest point is one of the method's, covers the offset, and no other that
/// covers it lies closer.
pub proof fn law_nearest_is_closest(ps: Seq<SeqPoint>, il: i32)
    ensures
        match nearest(ps, il) {
            Some(p) => {
                &&& ps.contains(p) && covers(p, il)
                &&& forall|i: int| 0 <= i < ps.len() && covers(#[trigger] ps[i], il) ==> ps[i].il_offset <= p.il_offset
            },
            None => forall|i: int| 0 <= i < ps.len() ==> !covers(#[trigger] ps[i], il),
        },
    decreases ps.len(),
{
    if ps.len() > 0 {
        let rest = ps.drop_last();
        law_nearest_is_closest(rest, il);
        match nearest(ps, il) {
            Some(p) => {
                if rest.contains(p) {
                    let k = choose|k: int| 0 <= k < rest.len() && rest[k] == p;
                    assert(ps[k] == p);
                } else {
                    assert(ps[ps.len() - 1] == p);
                }
                assert forall|i: int| 0 <= i < ps.len() && covers(#[trigger] ps[i], il) implies ps[i].il_offset
                    <= p.il_offset by {
                    if i < rest.len() {
                        assert(rest[i] == ps[i]);
                    }
                }
            },
            None => {
                assert forall|i: int| 0 <= i < ps.len() implies !covers(#[trigger] ps[i], il) by {
                    if i < rest.len() {
                        assert(rest[i] == ps[i]);
                    }
                }
            },
        }
    }
}

// ---------------------------------------------------------------------------
// Paths
// ---------------------------------------------------------------------------

/// Every character but a path separator.
pub open spec fn not_sep() -> spec_fn(char) -> bool {
    |c: char| c != '/' && c != '\\'
}

/// What follows the last separator of a path.
pub open spec fn base_of(path: Seq<char>) -> Seq<char> {
    path.skip(path.len() - run_back(path, not_sep()))
}

/// The file name of a path.
pub fn basename(path: &str) -> (r: String)
    ensures
        r@ == base_of(path@),
{
    let v = chars(path);
    let n: usize = v.len();
    let mut i: usize = n;
    while i > 0 && v[i - 1] != '/' && v[i - 1] != '\\'
        invariant
            i <= n == v@.len(),
            forall|k: int| i <= k < v@.len() ==> not_sep()(#[trigger] v@[k]),
        decreases i,
    {
        i = i - 1;
    }
    proof {
        lemma_run_back(v@, not_sep(), (n - i) as nat);
    }
    from_range(&v, i, n)
}

/// A file name is its own file name.
pub proof fn law_base_of_base(path: Seq<char>)
    ensures
        base_of(base_of(path)) == base_of(path),
{
    let b = base_of(path);
    lemma_run_back_holds(path, not_sep());
    assert forall|k: int| 0 <= k < b.len() implies not_sep()(#[trigger] b[k]) by {
        assert(b[k] == path[path.len() - run_back(path, not_sep()) + k]);
    }
    lemma_run_back(b, not_sep(), b.len());
    assert(b.skip(0) =~= b);
}

/// A path with `/` for every separator.
pub open spec fn slashed(path: Seq<char>) -> Seq<char> {
    Seq::new(path.len(), |i: int| if path[i] == '\\' { '/' } else { path[i] })
}

/// The parts of a path.
pub open spec fn path_parts(path: Seq<char>) -> Seq<Seq<char>> {
    split(slashed(path), '/')
}

fn parts_of(path: &str) -> (r: Vec<String>)
    ensures
        texts(r@) == path_parts(path@),
{
    let v = chars(path);
    let mut s = String::new();
    let mut i: usize = 0;
    while i < v.len()
        invariant
            i <= v@.len(),
            v@ == path@,
            s@ == slashed(path@).take(i as int),
        decreases v@.len() - i,
    {
        if v[i] == '\\' {
            s.push('/');
        } else {
            s.push(v[i]);
        }
        i = i + 1;
        assert(s@ =~= slashed(path@).take(i as int));
    }
    assert(slashed(path@).take(i as int) =~= slashed(path@));
    split_str(s.as_str(), '/')
}

/// How many parts two paths share at their ends.
pub open spec fn shared_tail(a: Seq<Seq<char>>, b: Seq<Seq<char>>) -> nat
    decreases a.len(),
{
    if a.len() > 0 && b.len() > 0 && a.last() == b.last() {
        1 + shared_tail(a.drop_last(), b.drop_last())
    } else {
        0
    }
}

fn count_shared(a: &Vec<String>, b: &Vec<String>) -> (r: usize)
    ensures
        r == shared_tail(texts(a@), texts(b@)),
{
    let ghost x = texts(a@);
    let ghost y = texts(b@);
    let n: usize = a.len();
    let m: usize = b.len();
    let mut k: usize = 0;
    assert(x.take(n as int) =~= x);
    assert(y.take(m as int) =~= y);
    while k < n && k < m && same(a[n - 1 - k].as_str(), b[m - 1 - k].as_str())
        invariant
            k <= n == a@.len(),
            k <= m == b@.len(),
            x == texts(a@),
            y == texts(b@),
            shared_tail(x, y) == k + shared_tail(x.take(n - k), y.take(m - k)),
        decreases n - k,
    {
        assert(x.take(n - k).drop_last() =~= x.take(n - k - 1));
        assert(y.take(m - k).drop_last() =~= y.take(m - k - 1));
        k = k + 1;
    }
    k
}

/// The score of a project file for a recorded path: what their ends share.
pub open spec fn score(files: Seq<(String, String)>, path: Seq<char>, i: int) -> nat {
    shared_tail(path_parts(path), path_parts(files[i].0@))
}

/// A project file that has the file name of a recorded path.
pub open spec fn namesake(files: Seq<(String, String)>, path: Seq<char>, i: int) -> bool {
    0 <= i < files.len() && files[i].1@ == base_of(path)
}

/// The first namesake that shares the most with a recorded path.
pub open spec fn best_namesake(files: Seq<(String, String)>, path: Seq<char>, i: int) -> bool {
    &&& namesake(files, path, i)
    &&& forall|k: int| #[trigger] namesake(files, path, k) ==> score(files, path, k) <= score(files, path, i)
    &&& forall|k: int| #[trigger] namesake(files, path, k) && k < i ==> score(files, path, k) < score(files, path, i)
}

/// Map a source path from the target's debug info to a local project file. Debug
/// info records the path as compiled — the local editor's absolute path (which
/// `exists` as-is), or a remote build machine's path (which does not). We match by
/// basename, disambiguating same-named files by the longest common path suffix, so
/// the developer's local checkout of the same project resolves regardless of where
/// it ran. Falls back to the recorded path when nothing matches. `files` are the
/// project's files as (absolute path, file name).
pub fn resolve_local(files: &Vec<(String, String)>, dbg_path: &str, exists: bool) -> (r: String)
    ensures
        dbg_path@.len() == 0 || exists ==> r@ == dbg_path@,
        dbg_path@.len() > 0 && !exists ==> (if exists|i: int| #[trigger] namesake(files@, dbg_path@, i) {
            exists|i: int| #[trigger] best_namesake(files@, dbg_path@, i) && r@ == files@[i].0@
        } else {
            r@ == dbg_path@
        }),
{
    if dbg_path.is_empty() || exists {
        return dbg_path.to_owned();
    }
    let base = basename(dbg_path);
    let want = parts_of(dbg_path);
    let ghost path = dbg_path@;
    let ghost fs = files@;
    let mut best: Option<(usize, usize)> = None;
    let mut i: usize = 0;
    while i < files.len()
        invariant
            i <= files@.len(),
            fs == files@,
            path == dbg_path@,
            base@ == base_of(path),
            texts(want@) == path_parts(path),
            match best {
                Some((s, b)) => {
                    &&& b < i
                    &&& namesake(fs, path, b as int)
                    &&& s == score(fs, path, b as int)
                    &&& forall|k: int| #[trigger] namesake(fs, path, k) && k < i ==> score(fs, path, k) <= s
                    &&& forall|k: int| #[trigger] namesake(fs, path, k) && k < b ==> score(fs, path, k) < s
                },
                None => forall|k: int| k < i ==> !#[trigger] namesake(fs, path, k),
            },
        decreases files@.len() - i,
    {
        if same(files[i].1.as_str(), base.as_str()) {
            let have = parts_of(files[i].0.as_str());
            let s: usize = count_shared(&want, &have);
            assert(s == score(fs, path, i as int));
            assert(namesake(fs, path, i as int));
            let better = match best {
                Some((t, _)) => s > t,
                None => true,
            };
            if better {
                best = Some((s, i));
            }
        }
        i = i + 1;
    }
    match best {
        Some((_, b)) => {
            assert(best_namesake(fs, path, b as int));
            files[b].0.clone()
        },
        None => dbg_path.to_owned(),
    }
}

// ---------------------------------------------------------------------------
// Identifiers under the pointer
// ---------------------------------------------------------------------------

/// A character of an identifier.
pub open spec fn ident_char(c: char) -> bool {
    alphanumeric(c) || c == '_'
}

/// Which characters of a line belong to identifiers.
pub open spec fn ident_flags(line: Seq<char>) -> Seq<bool> {
    Seq::new(line.len(), |i: int| ident_char(line[i]))
}

/// Which characters of a line belong to identifiers.
pub fn flag_idents(line: &str) -> (r: Vec<bool>)
    ensures
        r@ == ident_flags(line@),
{
    let v = chars(line);
    let mut out: Vec<bool> = Vec::new();
    let mut i: usize = 0;
    while i < v.len()
        invariant
            i <= v@.len(),
            v@ == line@,
            out@ == ident_flags(line@).take(i as int),
        decreases v@.len() - i,
    {
        let c = v[i];
        out.push(c.is_alphanumeric() || c == '_');
        i = i + 1;
        assert(out@ =~= ident_flags(line@).take(i as int));
    }
    assert(ident_flags(line@).take(i as int) =~= ident_flags(line@));
    out
}

/// `a..b` is the whole stretch of flagged positions around `col`.
pub open spec fn stretch(flags: Seq<bool>, col: int, a: int, b: int) -> bool {
    &&& 0 <= a <= col < b <= flags.len()
    &&& forall|k: int| a <= k < b ==> #[trigger] flags[k]
    &&& a > 0 ==> !flags[a - 1]
    &&& b < flags.len() ==> !flags[b]
}

/// The identifier covering column `col` of a line whose identifier characters are
/// flagged: the whole stretch, unless it starts with a digit.
pub fn ident_in(line: &str, flags: &Vec<bool>, col: usize) -> (r: Option<String>)
    requires
        flags@.len() == line@.len(),
    ensures
        match r {
            Some(w) => exists|a: int, b: int| #[trigger]
                stretch(flags@, col as int, a, b) && !ascii_digit(line@[a]) && w@ == line@.subrange(a, b),
            None => col >= line@.len() || !flags@[col as int] || exists|a: int, b: int| #[trigger]
                stretch(flags@, col as int, a, b) && ascii_digit(line@[a]),
        },
{
    let v = chars(line);
    let n: usize = v.len();
    if col >= n || !flags[col] {
        return None;
    }
    let mut a: usize = col;
    while a > 0 && flags[a - 1]
        invariant
            a <= col < n == flags@.len(),
            forall|k: int| a <= k <= col ==> #[trigger] flags@[k],
        decreases a,
    {
        a = a - 1;
    }
    let mut b: usize = col + 1;
    while b < n && flags[b]
        invariant
            a <= col < b <= n == flags@.len(),
            forall|k: int| a <= k < b ==> #[trigger] flags@[k],
        decreases n - b,
    {
        b = b + 1;
    }
    assert(stretch(flags@, col as int, a as int, b as int));
    if is_digit(v[a]) {
        return None;
    }
    Some(from_range(&v, a, b))
}

/// The C# identifier covering character column `col` in `line`, if any.
pub fn word_at(line: &str, col: usize) -> (r: Option<String>)
    ensures
        match r {
            Some(w) => exists|a: int, b: int| #[trigger]
                stretch(ident_flags(line@), col as int, a, b) && !ascii_digit(line@[a]) && w@ == line@.subrange(a, b),
            None => col >= line@.len() || !ident_char(line@[col as int]) || exists|a: int, b: int| #[trigger]
                stretch(ident_flags(line@), col as int, a, b) && ascii_digit(line@[a]),
        },
{
    let flags = flag_idents(line);
    ident_in(line, &flags, col)
}

/// There is one stretch around a column.
pub proof fn law_stretch_is_unique(flags: Seq<bool>, col: int, a: int, b: int, c: int, d: int)
    requires
        stretch(flags, col, a, b),
        stretch(flags, col, c, d),
    ensures
        a == c && b == d,
{
    if a < c {
        assert(flags[c - 1]);
    }
    if c < a {
        assert(flags[a - 1]);
    }
    if b < d {
        assert(flags[b]);
    }
    if d < b {
        assert(flags[d]);
    }
}

// ---------------------------------------------------------------------------
// Breakpoint arguments
// ---------------------------------------------------------------------------

/// Where the last colon of a text stands.
pub open spec fn last_colon(s: Seq<char>) -> Option<int>
    decreases s.len(),
{
    if s.len() == 0 {
        None
    } else if s.last() == ':' {
        Some(s.len() - 1)
    } else {
        last_colon(s.drop_last())
    }
}

/// A breakpoint argument `file.cs:line`: what stands before the last colon, and the
/// number after it.
pub open spec fn breakpoint_arg(arg: Seq<char>) -> Option<(Seq<char>, int)> {
    match last_colon(arg) {
        Some(i) => match crate::text::int_of(arg.skip(i + 1)) {
            Some(n) if i32::MIN <= n <= i32::MAX => Some((arg.take(i), n)),
            _ => None,
        },
        None => None,
    }
}

/// Parse a breakpoint argument `file.cs:line`.
pub fn parse_breakpoint(arg: &str) -> (r: Option<(String, i32)>)
    ensures
        match r {
            Some((f, n)) => breakpoint_arg(arg@) == Some((f@, n as int)),
            None => breakpoint_arg(arg@) is None,
        },
{
    let v = chars(arg);
    let n: usize = v.len();
    let mut i: usize = n;
    assert(v@.take(n as int) =~= v@);
    while i > 0 && v[i - 1] != ':'
        invariant
            i <= n == v@.len(),
            last_colon(v@) == last_colon(v@.take(i as int)),
        decreases i,
    {
        assert(v@.take(i as int).drop_last() =~= v@.take(i - 1));
        i = i - 1;
    }
    if i == 0 {
        return None;
    }
    let digits = crate::text::slice(&v, i, n);
    assert(digits@ =~= arg@.skip(i as int));
    match crate::text::parse_i64(&digits) {
        Some(k) => if -2147483648 <= k && k <= 2147483647 {
            let f = from_range(&v, 0, i - 1);
            assert(f@ =~= arg@.take(i - 1));
            Some((f, k as i32))
        } else {
            None
        },
        None => None,
    }
}

/// The line of the code at an offset is that of a point at or before it that has a line of
/// its own; none such lies closer, and of several at one offset the last counts.
pub proof fn law_line_is_that_of_the_nearest_point(ps: Seq<SeqPoint>, il: i32)
    ensures
        nearest(ps, il) is None ==> forall|k: int| 0 <= k < ps.len() ==> (#[trigger] ps[k]).hidden || ps[k].il_offset > il,
        nearest(ps, il) is Some ==> exists|i: int|
            0 <= i < ps.len() && Some(#[trigger] ps[i]) == nearest(ps, il) && !ps[i].hidden && ps[i].il_offset <= il && (
            forall|k: int|
                0 <= k < ps.len() && !(#[trigger] ps[k]).hidden && ps[k].il_offset <= il ==> ps[k].il_offset
                    < ps[i].il_offset || (ps[k].il_offset == ps[i].il_offset && k <= i)),
    decreases ps.len(),
{
    if ps.len() > 0 {
        let rest = ps.drop_last();
        law_line_is_that_of_the_nearest_point(rest, il);
        let p = ps.last();
        if covers(p, il) && (nearest(rest, il) is None || nearest(rest, il)->0.il_offset <= p.il_offset) {
            assert(Some(ps[ps.len() - 1]) == nearest(ps, il));
            assert forall|k: int| 0 <= k < ps.len() && !(#[trigger] ps[k]).hidden && ps[k].il_offset <= il implies ps[k].il_offset
                < p.il_offset || (ps[k].il_offset == p.il_offset && k <= ps.len() - 1) by {
                if k < rest.len() {
                    assert(rest[k] == ps[k]);
                }
            }
        } else {
            if nearest(rest, il) is Some {
                let i = choose|i: int|
                    0 <= i < rest.len() && Some(#[trigger] rest[i]) == nearest(rest, il) && !rest[i].hidden
                        && rest[i].il_offset <= il && (forall|k: int|
                        0 <= k < rest.len() && !(#[trigger] rest[k]).hidden && rest[k].il_offset <= il ==> rest[k].il_offset
                            < rest[i].il_offset || (rest[k].il_offset == rest[i].il_offset && k <= i));
                assert(ps[i] == rest[i]);
                assert forall|k: int| 0 <= k < ps.len() && !(#[trigger] ps[k]).hidden && ps[k].il_offset <= il implies ps[k].il_offset
                    < ps[i].il_offset || (ps[k].il_offset == ps[i].il_offset && k <= i) by {
                    if k < rest.len() {
                        assert(rest[k] == ps[k]);
                    }
                }
            } else {
                assert forall|k: int| 0 <= k < ps.len() implies (#[trigger] ps[k]).hidden || ps[k].il_offset > il by {
                    if k < rest.len() {
                        assert(rest[k] == ps[k]);
                    }
                }
            }
        }
    }
}

/// A file's name is what stands behind the last separator of its path, and the whole path
/// where there is none.
pub proof fn law_name_stands_behind_the_last_separator(path: Seq<char>, i: int)
    requires
        -1 <= i < path.len(),
        i >= 0 ==> path[i] == '/' || path[i] == '\\',
        forall|k: int| i < k < path.len() ==> (#[trigger] path[k]) != '/' && path[k] != '\\',
    ensures
        base_of(path) == path.skip(i + 1),
{
    lemma_run_back(path, not_sep(), (path.len() - i - 1) as nat);
}

/// Both separators part a path alike, and no other character does.
pub proof fn law_separators_are_alike(path: Seq<char>, i: int)
    requires
        0 <= i < path.len(),
    ensures
        slashed(path).len() == path.len(),
        slashed(path)[i] == '/' <==> path[i] == '/' || path[i] == '\\',
        path[i] != '\\' ==> slashed(path)[i] == path[i],
{
}

/// What two paths share at their ends are the parts that are equal, counted from the last
/// until two differ or one path has no more.
pub proof fn law_shared_parts_are_the_last(a: Seq<Seq<char>>, b: Seq<Seq<char>>, i: int)
    ensures
        ({
            let n = shared_tail(a, b) as int;
            &&& n <= a.len() && n <= b.len()
            &&& 1 <= i <= n ==> a[a.len() - i] == b[b.len() - i]
            &&& n < a.len() && n < b.len() ==> a[a.len() - n - 1] != b[b.len() - n - 1]
        }),
    decreases a.len(),
{
    if a.len() > 0 && b.len() > 0 && a.last() == b.last() {
        law_shared_parts_are_the_last(a.drop_last(), b.drop_last(), i - 1);
    }
}

/// A breakpoint argument is parted at its last colon: the file stands before it and the
/// line, a number of 32 bits, behind it.
pub proof fn law_argument_is_parted_at_the_last_colon(arg: Seq<char>, i: int)
    requires
        -1 <= i < arg.len(),
        i >= 0 ==> arg[i] == ':',
        forall|k: int| i < k < arg.len() ==> #[trigger] arg[k] != ':',
    ensures
        i == -1 ==> breakpoint_arg(arg) is None,
        i >= 0 ==> match crate::text::int_of(arg.skip(i + 1)) {
            Some(n) => if -0x8000_0000 <= n <= 0x7fff_ffff {
                breakpoint_arg(arg) == Some((arg.take(i), n))
            } else {
                breakpoint_arg(arg) is None
            },
            None => breakpoint_arg(arg) is None,
        },
{
    lemma_last_colon(arg, i);
}

proof fn lemma_last_colon(s: Seq<char>, i: int)
    requires
        -1 <= i < s.len(),
        i >= 0 ==> s[i] == ':',
        forall|k: int| i < k < s.len() ==> #[trigger] s[k] != ':',
    ensures
        last_colon(s) == (if i >= 0 {
            Some(i)
        } else {
            None
        }),
    decreases s.len(),
{
    if s.len() > 0 && s.last() != ':' {
        assert(i < s.len() - 1);
        lemma_last_colon(s.drop_last(), i);
    } else if s.len() > 0 {
        assert(i == s.len() - 1);
    }
}

} // verus!

//! The breakpoint store shared with the editor: a JSON object whose `files` hold a
//! path and its 0-based lines.

use vstd::prelude::*;

use crate::debugger::source::{base_of, basename};
use crate::json::{self, as_array, as_i64, as_str, at, elems, nested, obj1, obj2, text, tidy, Json, JsonV};
use crate::text::before;

verus! {

/// The 1-based line of a 0-based line of the store, which counts in 32 bits.
pub open spec fn stored_line(n: i64) -> i32 {
    let k = n as i32;
    if k == i32::MAX {
        i32::MIN
    } else {
        (k + 1) as i32
    }
}

fn line_of(n: i64) -> (r: i32)
    ensures
        r == stored_line(n),
{
    let k: i32 = #[verifier::truncate] (n as i32);
    if k == i32::MAX {
        i32::MIN
    } else {
        k + 1
    }
}

/// The breakpoints of the first `n` lines of a file.
pub open spec fn line_pairs(base: Seq<char>, lines: Seq<JsonV>, n: int) -> Seq<(Seq<char>, i32)>
    decreases n,
{
    if n <= 0 || n > lines.len() {
        Seq::empty()
    } else {
        match as_i64(lines[n - 1]) {
            Some(k) => line_pairs(base, lines, n - 1).push((base, stored_line(k))),
            None => line_pairs(base, lines, n - 1),
        }
    }
}

/// The breakpoints of one file of the store.
pub open spec fn file_breakpoints(e: JsonV) -> Seq<(Seq<char>, i32)> {
    match (as_str(at(e, "path"@)), as_array(at(e, "lines"@))) {
        (Some(p), Some(ls)) => line_pairs(base_of(p), ls, ls.len() as int),
        _ => Seq::empty(),
    }
}

/// The breakpoints of the first `n` files of the store.
pub open spec fn files_breakpoints(files: Seq<JsonV>, n: int) -> Seq<(Seq<char>, i32)>
    decreases n,
{
    if n <= 0 || n > files.len() {
        Seq::empty()
    } else {
        files_breakpoints(files, n - 1) + file_breakpoints(files[n - 1])
    }
}

/// The breakpoints of the store.
pub open spec fn stored(v: JsonV) -> Seq<(Seq<char>, i32)> {
    match as_array(at(v, "files"@)) {
        Some(files) => files_breakpoints(files, files.len() as int),
        None => Seq::empty(),
    }
}

/// The pairs of a sequence of breakpoints.
pub open spec fn bp_pairs(v: Seq<(String, i32)>) -> Seq<(Seq<char>, i32)> {
    Seq::new(v.len(), |i: int| (v[i].0@, v[i].1))
}

fn push_file(out: &mut Vec<(String, i32)>, e: &Json)
    ensures
        bp_pairs(final(out)@) == bp_pairs(old(out)@) + file_breakpoints(e@),
{
    let ghost head = bp_pairs(out@);
    let path = e.str_at("path");
    let lines = e.copy_at("lines");
    if let Some(p) = path {
        let base = basename(p);
        if let Some(v) = lines.array() {
            let ghost ls = elems(v@);
            let mut i: usize = 0;
            assert(bp_pairs(out@) =~= head + line_pairs(base@, ls, 0));
            while i < v.len()
                invariant
                    i <= v@.len(),
                    ls == elems(v@),
                    bp_pairs(out@) == head + line_pairs(base@, ls, i as int),
                decreases v@.len() - i,
            {
                let ghost before = bp_pairs(out@);
                assert(ls[i as int] == v@[i as int]@);
                if let Some(k) = v[i].integer() {
                    let ln: i32 = line_of(k);
                    out.push((base.clone(), ln));
                    assert(bp_pairs(out@) =~= before.push((base@, ln)));
                }
                i = i + 1;
                assert(bp_pairs(out@) =~= head + line_pairs(base@, ls, i as int));
            }
            return;
        }
    }
    assert(bp_pairs(out@) =~= head + file_breakpoints(e@));
}

/// The breakpoints of the store as (basename, 1-based line) pairs.
pub fn breakpoints_of(v: &Json) -> (r: Vec<(String, i32)>)
    ensures
        bp_pairs(r@) == stored(v@),
{
    let mut out: Vec<(String, i32)> = Vec::new();
    let files = v.copy_at("files");
    if let Some(fs) = files.array() {
        let ghost all = elems(fs@);
        let mut i: usize = 0;
        assert(bp_pairs(out@) =~= files_breakpoints(all, 0));
        while i < fs.len()
            invariant
                i <= fs@.len(),
                all == elems(fs@),
                bp_pairs(out@) == files_breakpoints(all, i as int),
            decreases fs@.len() - i,
        {
            assert(all[i as int] == fs@[i as int]@);
            push_file(&mut out, &fs[i]);
            i = i + 1;
        }
    } else {
        assert(bp_pairs(out@) =~= Seq::empty());
    }
    out
}

/// Read the shared breakpoint store's text as (basename, 1-based line) pairs.
/// Returns `None` on unreadable text so a transient error can't wipe live
/// breakpoints.
pub fn load_breakpoints(store: &str) -> (r: Option<Vec<(String, i32)>>)
    ensures
        match r {
            Some(v) => json::read(store@) is Some && bp_pairs(v@) == stored(json::read(store@)->0),
            None => json::read(store@) is None,
        },
{
    match json::parse(store) {
        Some(v) => Some(breakpoints_of(&v)),
        None => None,
    }
}

// ---------------------------------------------------------------------------
// Writing
// ---------------------------------------------------------------------------

/// The files of the store, and none where there is no store.
pub open spec fn files_of(store: Option<JsonV>) -> Seq<JsonV> {
    match store {
        Some(v) => match as_array(at(v, "files"@)) {
            Some(fs) => fs,
            None => Seq::empty(),
        },
        None => Seq::empty(),
    }
}

/// The first `n` files but the one at `path`.
pub open spec fn other_files(files: Seq<JsonV>, path: Seq<char>, n: int) -> Seq<JsonV>
    decreases n,
{
    if n <= 0 || n > files.len() {
        Seq::empty()
    } else if as_str(at(files[n - 1], "path"@)) == Some(path) {
        other_files(files, path, n - 1)
    } else {
        other_files(files, path, n - 1).push(files[n - 1])
    }
}

/// A file of the store.
pub open spec fn file_entry(path: Seq<char>, lines: Seq<i64>) -> JsonV {
    JsonV::Object(
        seq![
            ("lines"@, JsonV::Array(Seq::new(lines.len(), |i: int| JsonV::Int(lines[i])))),
            ("path"@, JsonV::Str(path)),
        ],
    )
}

/// The store with the lines of one file replaced: the other files stay as they are
/// and a file without lines is left out.
pub open spec fn updated(store: Option<JsonV>, path: Seq<char>, lines: Seq<i64>) -> JsonV {
    let others = other_files(files_of(store), path, files_of(store).len() as int);
    JsonV::Object(
        seq![
            (
                "files"@,
                JsonV::Array(if lines.len() > 0 { others.push(file_entry(path, lines)) } else { others }),
            ),
        ],
    )
}

/// The store's value with the lines of one file replaced.
pub fn update_store(store: Option<&Json>, path: &str, lines: &Vec<i64>) -> (r: Json)
    ensures
        r@ == updated(match store {
            Some(v) => Some(v@),
            None => None,
        }, path@, lines@),
{
    let mut out: Vec<Json> = Vec::new();
    let ghost fs = files_of(match store {
        Some(v) => Some(v@),
        None => None,
    });
    let files = match store {
        Some(v) => v.copy_at("files"),
        None => Json::Null,
    };
    assert(elems(out@) =~= Seq::empty());
    if let Some(v) = files.array() {
        let mut i: usize = 0;
        while i < v.len()
            invariant
                i <= v@.len(),
                fs == elems(v@),
                elems(out@) == other_files(fs, path@, i as int),
            decreases v@.len() - i,
        {
            let ghost before = elems(out@);
            assert(fs[i as int] == v@[i as int]@);
            if !v[i].is_at("path", path) {
                let c = v[i].copy();
                out.push(c);
                assert(elems(out@) =~= before.push(c@));
            }
            i = i + 1;
        }
    }
    if lines.len() > 0 {
        let ghost others = elems(out@);
        let mut ls: Vec<Json> = Vec::new();
        let mut i: usize = 0;
        while i < lines.len()
            invariant
                i <= lines@.len(),
                elems(ls@) == Seq::new(i as nat, |k: int| JsonV::Int(lines@[k])),
            decreases lines@.len() - i,
        {
            let ghost before = elems(ls@);
            ls.push(Json::Int(lines[i]));
            assert(elems(ls@) =~= before.push(JsonV::Int(lines@[i as int])));
            i = i + 1;
            assert(elems(ls@) =~= Seq::new(i as nat, |k: int| JsonV::Int(lines@[k])));
        }
        proof {
            Json::lemma_array(ls);
        }
        let e = obj2("lines", Json::Array(ls), "path", text(path));
        assert(e@->Object_0 =~= file_entry(path@, lines@)->Object_0);
        out.push(e);
        assert(elems(out@) =~= others.push(file_entry(path@, lines@)));
    }
    proof {
        Json::lemma_array(out);
    }
    let r = obj1("files", Json::Array(out));
    assert(r@->Object_0 =~= updated(match store {
        Some(v) => Some(v@),
        None => None,
    }, path@, lines@)->Object_0);
    r
}

/// The store's text with the lines of one file replaced; a store that is missing
/// or unreadable starts out empty. What is written over a tidy store is read back
/// (see [`law_written_lines_are_read`] for what that says of breakpoints).
pub fn store_text(store: Option<&str>, path: &str, lines: &Vec<i64>) -> (r: String)
    ensures
        r@ == json::printed(
            updated(match store {
                Some(s) => json::read(s@),
                None => None,
            }, path@, lines@),
        ),
        ({
            let was = match store {
                Some(s) => json::read(s@),
                None => None,
            };
            (was matches Some(v) ==> tidy(v) && nested(v, json::DEEPEST as int)) ==> json::read(r@) == Some(
                updated(was, path@, lines@),
            )
        }),
{
    proof {
        let was = match store {
            Some(s) => json::read(s@),
            None => None,
        };
        if was matches Some(v) ==> tidy(v) && nested(v, json::DEEPEST as int) {
            law_updating_keeps_the_store_tidy(was, path@, lines@);
        }
    }
    let old = match store {
        Some(s) => json::parse(s),
        None => None,
    };
    let v = match &old {
        Some(v) => update_store(Some(v), path, lines),
        None => update_store(None, path, lines),
    };
    json::print(&v)
}

proof fn lemma_entry(path: Seq<char>, lines: Seq<i64>)
    ensures
        at(file_entry(path, lines), "path"@) == JsonV::Str(path),
        at(file_entry(path, lines), "lines"@) == JsonV::Array(
            Seq::new(lines.len(), |i: int| JsonV::Int(lines[i])),
        ),
        tidy(file_entry(path, lines)),
        nested(file_entry(path, lines), 2),
{
    let o = file_entry(path, lines)->Object_0;
    reveal_strlit("path");
    reveal_strlit("lines");
    assert("path"@.len() != "lines"@.len());
    assert(o.skip(1)[0] == o[1]);
    assert(json::member(o, "path"@) == json::member(o.skip(1), "path"@));
    assert(before("lines"@, "path"@)) by {
        assert("lines"@[0] == 'l' && "path"@[0] == 'p');
    }
    let ls = o[0].1->Array_0;
    assert forall|i: int| 0 <= i < ls.len() implies tidy(#[trigger] ls[i]) && nested(ls[i], 0) by {
        assert(ls[i] == JsonV::Int(lines[i]));
    }
    assert(tidy(o[0].1));
    assert(tidy(o[1].1));
    assert(nested(o[0].1, 1));
    assert(nested(o[1].1, 1));
}

proof fn lemma_member_nested(o: Seq<(Seq<char>, JsonV)>, key: Seq<char>, n: int)
    requires
        forall|i: int| 0 <= i < o.len() ==> tidy((#[trigger] o[i]).1) && nested(o[i].1, n),
    ensures
        json::member(o, key) matches Some(v) ==> tidy(v) && nested(v, n),
    decreases o.len(),
{
    if o.len() > 0 {
        assert(tidy(o[0].1) && nested(o[0].1, n));
        let t = o.skip(1);
        assert forall|i: int| 0 <= i < t.len() implies tidy((#[trigger] t[i]).1) && nested(t[i].1, n) by {
            assert(t[i] == o[i + 1]);
        }
        lemma_member_nested(t, key, n);
    }
}

proof fn lemma_others_nested(files: Seq<JsonV>, path: Seq<char>, n: int, depth: int)
    requires
        0 <= n <= files.len(),
        forall|i: int| 0 <= i < files.len() ==> tidy(#[trigger] files[i]) && nested(files[i], depth),
    ensures
        forall|i: int|
            0 <= i < other_files(files, path, n).len() ==> tidy(#[trigger] other_files(files, path, n)[i]) && nested(
                other_files(files, path, n)[i],
                depth,
            ),
    decreases n,
{
    if n > 0 {
        lemma_others_nested(files, path, n - 1, depth);
        let was = other_files(files, path, n - 1);
        let now = other_files(files, path, n);
        assert forall|i: int| 0 <= i < now.len() implies tidy(#[trigger] now[i]) && nested(now[i], depth) by {
            if i < was.len() {
                assert(now[i] == was[i]);
            } else {
                assert(now[i] == files[n - 1]);
            }
        }
    }
}

proof fn lemma_deeper(j: JsonV, n: int, m: int)
    requires
        nested(j, n),
        n <= m,
    ensures
        nested(j, m),
    decreases j,
{
    match j {
        JsonV::Array(v) => {
            assert forall|i: int| 0 <= i < v.len() implies nested(#[trigger] v[i], m - 1) by {
                lemma_deeper(v[i], n - 1, m - 1);
            }
        },
        JsonV::Object(v) => {
            assert forall|i: int| 0 <= i < v.len() implies nested((#[trigger] v[i]).1, m - 1) by {
                lemma_deeper(v[i].1, n - 1, m - 1);
            }
        },
        _ => {},
    }
}

/// A tidy store stays tidy, and nests no deeper.
pub proof fn law_updating_keeps_the_store_tidy(store: Option<JsonV>, path: Seq<char>, lines: Seq<i64>)
    requires
        store matches Some(v) ==> tidy(v) && nested(v, json::DEEPEST as int),
    ensures
        tidy(updated(store, path, lines)),
        nested(updated(store, path, lines), json::DEEPEST as int),
{
    let d = json::DEEPEST as int;
    let fs = files_of(store);
    if let Some(JsonV::Object(o)) = store {
        lemma_member_nested(o, "files"@, d - 1);
    }
    assert forall|i: int| 0 <= i < fs.len() implies tidy(#[trigger] fs[i]) && nested(fs[i], d - 2) by {
        let files = at(store->0, "files"@);
        assert(files == JsonV::Array(fs));
        assert(tidy(files) && nested(files, d - 1));
    }
    let others = other_files(fs, path, fs.len() as int);
    lemma_others_nested(fs, path, fs.len() as int, d - 2);
    lemma_entry(path, lines);
    lemma_deeper(file_entry(path, lines), 2, d - 2);
    let u = updated(store, path, lines);
    let all = u->Object_0[0].1->Array_0;
    assert forall|i: int| 0 <= i < all.len() implies tidy(#[trigger] all[i]) && nested(all[i], d - 2) by {
        if i < others.len() {
            assert(all[i] == others[i]);
        } else {
            assert(all[i] == file_entry(path, lines));
        }
    }
    assert(tidy(u->Object_0[0].1));
    assert(nested(u->Object_0[0].1, d - 1));
}

/// Writing a file's lines leaves the other files of the store alone.
pub proof fn law_other_files_are_kept(store: Option<JsonV>, path: Seq<char>, lines: Seq<i64>)
    ensures
        other_files(files_of(Some(updated(store, path, lines))), path, files_of(Some(updated(store, path, lines))).len() as int)
            == other_files(files_of(store), path, files_of(store).len() as int),
{
    let fs = files_of(store);
    let others = other_files(fs, path, fs.len() as int);
    let u = updated(store, path, lines);
    assert(at(u, "files"@) == u->Object_0[0].1);
    let now = files_of(Some(u));
    lemma_others_again(fs, path, fs.len() as int);
    if lines.len() > 0 {
        let e = file_entry(path, lines);
        assert(now =~= others.push(e));
        lemma_entry(path, lines);
        lemma_others_prefix(others, e, path, others.len() as int);
    } else {
        assert(now =~= others);
    }
}

proof fn lemma_others_prefix(a: Seq<JsonV>, e: JsonV, path: Seq<char>, n: int)
    requires
        0 <= n <= a.len(),
    ensures
        other_files(a.push(e), path, n) == other_files(a, path, n),
    decreases n,
{
    if n > 0 {
        lemma_others_prefix(a, e, path, n - 1);
        assert(a.push(e)[n - 1] == a[n - 1]);
    }
}

proof fn lemma_others_again(a: Seq<JsonV>, path: Seq<char>, n: int)
    requires
        0 <= n <= a.len(),
    ensures
        ({
            let o = other_files(a, path, n);
            other_files(o, path, o.len() as int) == o
        }),
    decreases n,
{
    if n > 0 {
        lemma_others_again(a, path, n - 1);
        let o = other_files(a, path, n - 1);
        if as_str(at(a[n - 1], "path"@)) != Some(path) {
            lemma_others_prefix(o, a[n - 1], path, o.len() as int);
        }
    }
}

/// A line written to the store is read back, up to the largest that 32 bits count.
pub proof fn law_lines_read_back(line: i32)
    requires
        line > i32::MIN,
    ensures
        stored_line((line - 1) as i64) == line,
{
}


proof fn lemma_line_pairs(base: Seq<char>, lines: Seq<i64>, n: int)
    requires
        0 <= n <= lines.len(),
    ensures
        line_pairs(base, Seq::new(lines.len(), |i: int| JsonV::Int(lines[i])), n) == Seq::new(
            n as nat,
            |i: int| (base, stored_line(lines[i])),
        ),
    decreases n,
{
    let ls = Seq::new(lines.len(), |i: int| JsonV::Int(lines[i]));
    if n > 0 {
        lemma_line_pairs(base, lines, n - 1);
    }
    assert(line_pairs(base, ls, n) =~= Seq::new(n as nat, |i: int| (base, stored_line(lines[i]))));
}

proof fn lemma_files_prefix(a: Seq<JsonV>, e: JsonV, n: int)
    requires
        0 <= n <= a.len(),
    ensures
        files_breakpoints(a.push(e), n) == files_breakpoints(a, n),
    decreases n,
{
    if n > 0 {
        lemma_files_prefix(a, e, n - 1);
        assert(a.push(e)[n - 1] == a[n - 1]);
    }
}

/// What is read from the store after a file's lines were written: the breakpoints
/// of the other files, and then one for each line written.
pub proof fn law_written_lines_are_read(store: Option<JsonV>, path: Seq<char>, lines: Seq<i64>)
    ensures
        ({
            let others = other_files(files_of(store), path, files_of(store).len() as int);
            stored(updated(store, path, lines)) == files_breakpoints(others, others.len() as int) + Seq::new(
                lines.len(),
                |i: int| (base_of(path), stored_line(lines[i])),
            )
        }),
{
    let others = other_files(files_of(store), path, files_of(store).len() as int);
    let u = updated(store, path, lines);
    assert(at(u, "files"@) == u->Object_0[0].1);
    let want = Seq::new(lines.len(), |i: int| (base_of(path), stored_line(lines[i])));
    if lines.len() > 0 {
        let e = file_entry(path, lines);
        lemma_entry(path, lines);
        lemma_line_pairs(base_of(path), lines, lines.len() as int);
        lemma_files_prefix(others, e, others.len() as int);
        assert(others.push(e)[others.len() as int] == e);
        assert(file_breakpoints(e) == want);
        assert(others.push(e).len() == others.len() + 1);
    } else {
        assert(want =~= Seq::empty());
        assert(stored(u) =~= files_breakpoints(others, others.len() as int) + want);
    }
}

/// Lines are stored from 0 and shown from 1.
pub proof fn law_stored_lines_count_from_zero(n: i64)
    requires
        0 <= n < i32::MAX,
    ensures
        stored_line(n) == n + 1,
{
}

/// What the store says of a file's breakpoints: the file's name and a line of it.
pub open spec fn notes(e: JsonV, j: int, file: Seq<char>, line: i32) -> bool {
    &&& at(e, "path"@) is Str && file == base_of(at(e, "path"@)->Str_0)
    &&& at(e, "lines"@) is Array && 0 <= j < at(e, "lines"@)->Array_0.len()
    &&& at(e, "lines"@)->Array_0[j] is Int && line == stored_line(at(e, "lines"@)->Array_0[j]->Int_0)
}

proof fn lemma_pairs_of_lines(base: Seq<char>, lines: Seq<JsonV>, n: int, p: (Seq<char>, i32))
    requires
        0 <= n <= lines.len(),
    ensures
        line_pairs(base, lines, n).contains(p) <==> p.0 == base && exists|j: int|
            0 <= j < n && #[trigger] lines[j] is Int && p.1 == stored_line(lines[j]->Int_0),
    decreases n,
{
    if n > 0 {
        lemma_pairs_of_lines(base, lines, n - 1, p);
        let s = line_pairs(base, lines, n - 1);
        match as_i64(lines[n - 1]) {
            Some(k) => {
                let q = (base, stored_line(k));
                assert(s.push(q)[s.len() as int] == q);
                if s.contains(p) {
                    let i = choose|i: int| 0 <= i < s.len() && s[i] == p;
                    assert(s.push(q)[i] == p);
                }
                if s.push(q).contains(p) {
                    let i = choose|i: int| 0 <= i < s.push(q).len() && s.push(q)[i] == p;
                    if i < s.len() {
                        assert(s[i] == p);
                    } else {
                        assert(lines[n - 1] is Int);
                    }
                }
            },
            None => {},
        }
    }
}

proof fn lemma_file_breakpoints(e: JsonV, p: (Seq<char>, i32))
    ensures
        file_breakpoints(e).contains(p) <==> exists|j: int| #[trigger] notes(e, j, p.0, p.1),
{
    match (as_str(at(e, "path"@)), as_array(at(e, "lines"@))) {
        (Some(path), Some(ls)) => {
            lemma_pairs_of_lines(base_of(path), ls, ls.len() as int, p);
            if file_breakpoints(e).contains(p) {
                let j = choose|j: int| 0 <= j < ls.len() && #[trigger] ls[j] is Int && p.1 == stored_line(ls[j]->Int_0);
                assert(notes(e, j, p.0, p.1));
            }
            if exists|j: int| #[trigger] notes(e, j, p.0, p.1) {
                let j = choose|j: int| #[trigger] notes(e, j, p.0, p.1);
                assert(ls[j] is Int);
            }
        },
        _ => {},
    }
}

/// The breakpoints that are read from a store are exactly those it notes: a line of the list
/// of a file of its `files`.
pub proof fn law_noted_breakpoints_are_read(files: Seq<JsonV>, n: int, p: (Seq<char>, i32))
    requires
        0 <= n <= files.len(),
    ensures
        files_breakpoints(files, n).contains(p) <==> exists|i: int, j: int|
            0 <= i < n && #[trigger] notes(files[i], j, p.0, p.1),
    decreases n,
{
    if n > 0 {
        law_noted_breakpoints_are_read(files, n - 1, p);
        lemma_file_breakpoints(files[n - 1], p);
        let a = files_breakpoints(files, n - 1);
        let b = file_breakpoints(files[n - 1]);
        if a.contains(p) {
            let i = choose|i: int| 0 <= i < a.len() && a[i] == p;
            assert((a + b)[i] == p);
        }
        if b.contains(p) {
            let i = choose|i: int| 0 <= i < b.len() && b[i] == p;
            assert((a + b)[a.len() + i] == p);
        }
        if (a + b).contains(p) {
            let i = choose|i: int| 0 <= i < (a + b).len() && (a + b)[i] == p;
            if i < a.len() {
                assert(a[i] == p);
            } else {
                assert(b[i - a.len()] == p);
                let j = choose|j: int| #[trigger] notes(files[n - 1], j, p.0, p.1);
                assert(notes(files[n - 1], j, p.0, p.1));
            }
        }
    }
}

/// A store without a list of files notes nothing.
pub proof fn law_store_without_files_is_empty(v: JsonV)
    ensures
        !(at(v, "files"@) is Array) ==> stored(v).len() == 0,
        at(v, "files"@) is Array ==> stored(v) == files_breakpoints(
            at(v, "files"@)->Array_0,
            at(v, "files"@)->Array_0.len() as int,
        ),
{
}

proof fn lemma_other_files(files: Seq<JsonV>, path: Seq<char>, n: int, e: JsonV)
    requires
        0 <= n <= files.len(),
    ensures
        other_files(files, path, n).contains(e) <==> files.take(n).contains(e) && at(e, "path"@) != JsonV::Str(path),
    decreases n,
{
    if n > 0 {
        lemma_other_files(files, path, n - 1, e);
        let s = other_files(files, path, n - 1);
        let f = files[n - 1];
        assert(files.take(n) =~= files.take(n - 1).push(f));
        assert(s.push(f)[s.len() as int] == f);
        assert(files.take(n - 1).push(f)[n - 1] == f);
        if s.contains(e) {
            let i = choose|i: int| 0 <= i < s.len() && s[i] == e;
            assert(s.push(f)[i] == e);
        }
        if s.push(f).contains(e) {
            let i = choose|i: int| 0 <= i < s.push(f).len() && s.push(f)[i] == e;
            if i < s.len() {
                assert(s[i] == e);
            }
        }
        if files.take(n - 1).contains(e) {
            let before = files.take(n - 1);
            let i = choose|i: int| 0 <= i < before.len() && before[i] == e;
            assert(files.take(n)[i] == e);
        }
        if files.take(n).contains(e) {
            let i = choose|i: int| 0 <= i < n && files.take(n)[i] == e;
            if i < n - 1 {
                assert(files.take(n - 1)[i] == e);
            }
        }
    } else {
        assert(files.take(0).len() == 0);
    }
}

/// Writing a file's lines keeps the entries of every other file and drops what was noted of
/// this one. The new entry holds its path and its lines as they are; a file without lines
/// has none.
pub proof fn law_writing_replaces_one_file(store: Option<JsonV>, path: Seq<char>, lines: Seq<i64>, e: JsonV)
    ensures
        ({
            let new = at(updated(store, path, lines), "files"@)->Array_0;
            &&& at(updated(store, path, lines), "files"@) is Array
            &&& at(e, "path"@) != JsonV::Str(path) ==> (new.contains(e) <==> files_of(store).contains(e))
            &&& at(e, "path"@) == JsonV::Str(path) && lines.len() == 0 ==> !new.contains(e)
            &&& lines.len() > 0 ==> {
                &&& new.len() > 0
                &&& at(new.last(), "path"@) == JsonV::Str(path)
                &&& at(new.last(), "lines"@) is Array
                &&& at(new.last(), "lines"@)->Array_0.len() == lines.len()
                &&& forall|i: int|
                    0 <= i < lines.len() ==> #[trigger] at(new.last(), "lines"@)->Array_0[i] == JsonV::Int(lines[i])
                &&& forall|k: int| 0 <= k < new.len() - 1 ==> at(#[trigger] new[k], "path"@) != JsonV::Str(path)
            }
        }),
{
    reveal_strlit("lines");
    reveal_strlit("path");
    assert("lines"@.len() == 5 && "path"@.len() == 4);
    reveal_with_fuel(crate::json::member, 3);
    let files = files_of(store);
    let n = files.len() as int;
    let others = other_files(files, path, n);
    assert(files.take(n) =~= files);
    lemma_other_files(files, path, n, e);
    let entry = file_entry(path, lines);
    assert(at(entry, "path"@) == JsonV::Str(path));
    let new = at(updated(store, path, lines), "files"@)->Array_0;
    if lines.len() > 0 {
        assert(new == others.push(entry));
        if others.contains(e) {
            let i = choose|i: int| 0 <= i < others.len() && others[i] == e;
            assert(new[i] == e);
        }
        if new.contains(e) {
            let i = choose|i: int| 0 <= i < new.len() && new[i] == e;
            if i < others.len() {
                assert(others[i] == e);
            }
        }
        assert forall|k: int| 0 <= k < new.len() - 1 implies at(#[trigger] new[k], "path"@) != JsonV::Str(path) by {
            assert(new[k] == others[k]);
            lemma_other_files(files, path, n, others[k]);
            assert(others.contains(others[k]));
        }
    }
}

} // verus!

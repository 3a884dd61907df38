//! What a stop shows, from what the runtime tells of its threads, frames and objects.

use vstd::prelude::*;

use crate::debugger::session::{
    stack_line, stack_row, thread_row, threads_v, Frame, Stop, ThreadInfo, ThreadV, STACK_CAP,
};
use crate::debugger::source::base_of;
use crate::debugger::vars::{
    field_names_at, in_scope, instance_fields, instance_positions, live_positions, local_rows, named_rows, names_at,
    push_field_rows, vars_v, Field, Local, RtValue, Var, VarV, MAX_BASES,
};
use crate::text::{decimal, decimal_int, texts};

verus! {

// ---------------------------------------------------------------------------
// Threads
// ---------------------------------------------------------------------------

/// A frame of a thread: the name of its method, and where it is in the sources, if
/// that is known.
pub struct FrameInfo {
    pub frame: Frame,
    pub method: String,
    pub place: Option<(String, i32)>,
}

/// A thread as the runtime reports it, its innermost frame first.
pub struct RawThread {
    pub id: u32,
    pub name: String,
    pub frames: Vec<FrameInfo>,
}

/// Whether a frame has a line.
pub open spec fn located(f: FrameInfo) -> bool {
    match f.place {
        Some((_, line)) => line > 0,
        None => false,
    }
}

/// The first frame from `i` on that has a line, and the count of the frames where
/// there is none.
pub open spec fn top_frame(fs: Seq<FrameInfo>, i: int) -> int
    decreases fs.len() - i,
{
    if i < 0 || i >= fs.len() {
        fs.len() as int
    } else if located(fs[i]) {
        i
    } else {
        top_frame(fs, i + 1)
    }
}

/// The label of a thread whose frame is at a line.
pub open spec fn thread_label(t: RawThread, f: FrameInfo) -> ThreadV {
    ThreadV {
        id: t.id,
        name: if t.name@.len() == 0 {
            "Thread "@ + decimal(t.id as nat)
        } else {
            t.name@
        },
        location: f.method@ + "  "@ + base_of(place_of(f).0) + ":"@ + decimal_int(place_of(f).1 as int),
    }
}

/// Those of the first `n` threads that run managed code.
pub open spec fn managed(ts: Seq<RawThread>, n: int) -> Seq<ThreadV>
    decreases n,
{
    if n <= 0 || n > ts.len() {
        Seq::empty()
    } else {
        let t = ts[n - 1];
        let k = top_frame(t.frames@, 0);
        if k < t.frames@.len() {
            managed(ts, n - 1).push(thread_label(t, t.frames@[k]))
        } else {
            managed(ts, n - 1)
        }
    }
}

fn find_located(fs: &Vec<FrameInfo>) -> (r: usize)
    ensures
        r == top_frame(fs@, 0),
        r < fs@.len() ==> located(fs@[r as int]),
        r <= fs@.len(),
{
    let n: usize = fs.len();
    let mut i: usize = 0;
    while i < n
        invariant
            i <= n == fs@.len(),
            top_frame(fs@, 0) == top_frame(fs@, i as int),
        decreases n - i,
    {
        if let Some((_, line)) = &fs[i].place {
            if *line > 0 {
                return i;
            }
        }
        i = i + 1;
    }
    n
}

/// Enumerate the managed threads (those with a resolvable source frame) for the
/// threads strip, labelling each with its name and topmost source location.
pub fn collect_threads(raw: &Vec<RawThread>) -> (r: Vec<ThreadInfo>)
    ensures
        threads_v(r@) == managed(raw@, raw@.len() as int),
{
    let mut out: Vec<ThreadInfo> = Vec::new();
    let n: usize = raw.len();
    let mut i: usize = 0;
    assert(threads_v(out@) =~= Seq::empty());
    while i < n
        invariant
            i <= n == raw@.len(),
            threads_v(out@) == managed(raw@, i as int),
        decreases n - i,
    {
        let ghost before = threads_v(out@);
        let t = &raw[i];
        let k: usize = find_located(&t.frames);
        if k < t.frames.len() {
            if let Some((src, line)) = &t.frames[k].place {
                let row = thread_row(t.id, t.name.as_str(), t.frames[k].method.as_str(), src.as_str(), *line);
                out.push(row);
                assert(threads_v(out@) =~= before.push(row@));
            }
        }
        i = i + 1;
    }
    out
}

/// Every listed thread is one that was reported, and a thread without a managed frame
/// is not listed.
pub proof fn law_native_threads_are_left_out(ts: Seq<RawThread>, n: int)
    requires
        0 <= n <= ts.len(),
    ensures
        managed(ts, n).len() <= n,
        forall|i: int|
            0 <= i < managed(ts, n).len() ==> exists|k: int|
                0 <= k < n && top_frame(ts[k].frames@, 0) < ts[k].frames@.len() && (#[trigger] managed(ts, n)[i]).id
                    == (#[trigger] ts[k]).id,
        (forall|k: int| 0 <= k < n ==> top_frame((#[trigger] ts[k]).frames@, 0) >= ts[k].frames@.len()) ==> managed(
            ts,
            n,
        ).len() == 0,
    decreases n,
{
    if n > 0 {
        law_native_threads_are_left_out(ts, n - 1);
        let m = managed(ts, n - 1);
        let now = managed(ts, n);
        assert forall|i: int| 0 <= i < now.len() implies exists|k: int|
            0 <= k < n && top_frame(ts[k].frames@, 0) < ts[k].frames@.len() && (#[trigger] now[i]).id == (
            #[trigger] ts[k]).id by {
            if i < m.len() {
                assert(now[i] == m[i]);
                let k = choose|k: int|
                    0 <= k < n - 1 && top_frame(ts[k].frames@, 0) < ts[k].frames@.len() && m[i].id == (
                    #[trigger] ts[k]).id;
                assert(ts[k].id == now[i].id);
            } else {
                assert(ts[n - 1].id == now[i].id);
            }
        }
    }
}

// ---------------------------------------------------------------------------
// A stop
// ---------------------------------------------------------------------------

/// The variables of a frame.
pub struct FrameVars {
    pub locals: Vec<Var>,
    pub members: Vec<Var>,
    pub this_label: String,
}

/// Where a frame is: nowhere, if it is not known.
pub open spec fn place_of(f: FrameInfo) -> (Seq<char>, i32) {
    match f.place {
        Some((src, line)) => (src@, line),
        None => (Seq::empty(), 0),
    }
}

/// How many frames of a stack are listed.
pub open spec fn listed(fs: Seq<FrameInfo>) -> int {
    if fs.len() < STACK_CAP {
        fs.len() as int
    } else {
        STACK_CAP as int
    }
}

/// The lines of a call stack.
pub open spec fn stack_lines(fs: Seq<FrameInfo>) -> Seq<Seq<char>> {
    Seq::new(
        listed(fs) as nat,
        |i: int| stack_line(i as nat, fs[i].method@, place_of(fs[i]).0, place_of(fs[i]).1),
    )
}

/// What a stop shows: the call stack, its innermost frame's variables, and where that
/// is. A thread without frames shows nothing.
pub fn dump(frames: &Vec<FrameInfo>, vars: FrameVars) -> (r: Stop)
    ensures
        texts(r.stack@) == stack_lines(frames@),
        r.frames@ == Seq::new(frames@.len(), |i: int| frames@[i].frame),
        (r.file@, r.line) == (if frames@.len() > 0 {
            place_of(frames@[0])
        } else {
            (Seq::empty(), 0i32)
        }),
        vars_v(r.locals@) == (if frames@.len() > 0 {
            vars_v(vars.locals@)
        } else {
            Seq::empty()
        }),
        vars_v(r.members@) == (if frames@.len() > 0 {
            vars_v(vars.members@)
        } else {
            Seq::empty()
        }),
        r.this_label@ == (if frames@.len() > 0 {
            vars.this_label@
        } else {
            Seq::empty()
        }),
{
    let n: usize = frames.len();
    let mut stack: Vec<String> = Vec::new();
    let mut all: Vec<Frame> = Vec::new();
    let mut i: usize = 0;
    assert(texts(stack@) =~= stack_lines(frames@).take(0));
    while i < n
        invariant
            i <= n == frames@.len(),
            texts(stack@) == stack_lines(frames@).take(if i < listed(frames@) {
                i as int
            } else {
                listed(frames@)
            }),
            all@ == Seq::new(i as nat, |k: int| frames@[k].frame),
        decreases n - i,
    {
        let f = &frames[i];
        if i < STACK_CAP {
            let ghost before = texts(stack@);
            let row = match &f.place {
                Some((src, line)) => stack_row(i, f.method.as_str(), src.as_str(), *line),
                None => stack_row(i, f.method.as_str(), "", 0),
            };
            proof {
                reveal_strlit("");
                assert(""@ =~= Seq::<char>::empty());
            }
            stack.push(row);
            assert(texts(stack@) =~= before.push(row@));
            assert(row@ == stack_lines(frames@)[i as int]);
        }
        all.push(f.frame);
        i = i + 1;
        assert(all@ =~= Seq::new(i as nat, |k: int| frames@[k].frame));
        assert(texts(stack@) =~= stack_lines(frames@).take(if i < listed(frames@) {
            i as int
        } else {
            listed(frames@)
        }));
    }
    assert(stack_lines(frames@).take(listed(frames@)) =~= stack_lines(frames@));
    if n == 0 {
        let none: Vec<Var> = Vec::new();
        let nothing: Vec<Var> = Vec::new();
        assert(vars_v(none@) =~= Seq::empty());
        assert(vars_v(nothing@) =~= Seq::empty());
        return Stop {
            stack,
            frames: all,
            locals: none,
            members: nothing,
            this_label: String::new(),
            file: String::new(),
            line: 0,
        };
    }
    let (file, line) = match &frames[0].place {
        Some((src, line)) => (src.clone(), *line),
        None => (String::new(), 0),
    };
    Stop {
        stack,
        frames: all,
        locals: vars.locals,
        members: vars.members,
        this_label: vars.this_label,
        file,
        line,
    }
}

/// A stack is listed up to a limit, and every listed line starts with its number.
pub proof fn law_stack_is_capped(fs: Seq<FrameInfo>, i: int)
    ensures
        stack_lines(fs).len() <= STACK_CAP,
        stack_lines(fs).len() <= fs.len(),
        fs.len() <= STACK_CAP ==> stack_lines(fs).len() == fs.len(),
        0 <= i < stack_lines(fs).len() ==> stack_lines(fs)[i].take(1 + decimal(i as nat).len() as int) == "#"@
            + decimal(i as nat),
{
    if 0 <= i < stack_lines(fs).len() {
        reveal_strlit("#");
        let head = "#"@ + decimal(i as nat);
        let line = stack_lines(fs)[i];
        assert(line.take(head.len() as int) =~= head);
    }
}

// ---------------------------------------------------------------------------
// Variables
// ---------------------------------------------------------------------------

/// The rows of the locals that live at an offset, given their values in order.
pub fn frame_locals(ls: &Vec<Local>, il: i32, values: &Vec<RtValue>) -> (r: Vec<Var>)
    ensures
        ({
            let at = live_positions(ls@, il, ls@.len() as int);
            let names = Seq::new(at.len(), |i: int| ls@[at[i]].name@);
            vars_v(r@) == named_rows(names, values@)
        }),
{
    let at = in_scope(ls, il);
    proof {
        let p = live_positions(ls@, il, ls@.len() as int);
        assert(Seq::new(at@.len(), |i: int| at@[i] as int).len() == p.len());
        assert forall|i: int| 0 <= i < at@.len() implies p[i] == at@[i] by {
            assert(Seq::new(at@.len(), |i: int| at@[i] as int)[i] == at@[i] as int);
        }
        assert(names_at(ls@, at@) =~= Seq::new(p.len(), |i: int| ls@[p[i]].name@));
    }
    local_rows(ls, &at, values)
}

/// A type of an object's hierarchy: its own fields, and the values of those that
/// belong to an instance. Both are empty where they could not be read.
pub struct Level {
    pub fields: Vec<Field>,
    pub values: Vec<RtValue>,
}

/// The rows of the instance fields of one type.
pub open spec fn level_rows(l: Level) -> Seq<VarV> {
    let at = instance_positions(l.fields@, l.fields@.len() as int);
    named_rows(Seq::new(at.len(), |i: int| l.fields@[at[i]].name@), l.values@)
}

/// The rows of the first `n` types.
pub open spec fn levels_rows(ls: Seq<Level>, n: int) -> Seq<VarV>
    decreases n,
{
    if n <= 0 || n > ls.len() {
        Seq::empty()
    } else {
        levels_rows(ls, n - 1) + level_rows(ls[n - 1])
    }
}

/// How many types of a hierarchy are shown.
pub open spec fn shown_levels(ls: Seq<Level>) -> int {
    if ls.len() < MAX_BASES {
        ls.len() as int
    } else {
        MAX_BASES as int
    }
}

/// The instance fields of an object as variable rows. Walk the type hierarchy so
/// inherited (base-class) fields show too: derived fields come first, then those of
/// each base class.
pub fn fetch_object_fields(levels: &Vec<Level>) -> (r: Vec<Var>)
    ensures
        vars_v(r@) == levels_rows(levels@, shown_levels(levels@)),
{
    let n: usize = if levels.len() < MAX_BASES {
        levels.len()
    } else {
        MAX_BASES
    };
    let mut out: Vec<Var> = Vec::new();
    let mut i: usize = 0;
    assert(vars_v(out@) =~= Seq::empty());
    while i < n
        invariant
            i <= n <= levels@.len(),
            vars_v(out@) == levels_rows(levels@, i as int),
        decreases n - i,
    {
        let l = &levels[i];
        let at = instance_fields(&l.fields);
        proof {
            let p = instance_positions(l.fields@, l.fields@.len() as int);
            assert(Seq::new(at@.len(), |i: int| at@[i] as int).len() == p.len());
            assert forall|i: int| 0 <= i < at@.len() implies p[i] == at@[i] by {
                assert(Seq::new(at@.len(), |i: int| at@[i] as int)[i] == at@[i] as int);
            }
            assert(field_names_at(l.fields@, at@) =~= Seq::new(p.len(), |i: int| l.fields@[p[i]].name@));
        }
        push_field_rows(&mut out, &l.fields, &at, &l.values);
        i = i + 1;
    }
    out
}

/// Derived fields come before inherited ones: the rows of a type and its bases start
/// with the rows of the type alone.
pub proof fn law_derived_fields_come_first(ls: Seq<Level>, n: int)
    requires
        1 <= n <= ls.len(),
    ensures
        levels_rows(ls, n).len() >= level_rows(ls[0]).len(),
        levels_rows(ls, n).take(level_rows(ls[0]).len() as int) == level_rows(ls[0]),
    decreases n,
{
    let first = level_rows(ls[0]);
    if n == 1 {
        assert(levels_rows(ls, 0) =~= Seq::empty());
        assert(levels_rows(ls, 1) =~= first);
        assert(first.take(first.len() as int) =~= first);
    } else {
        law_derived_fields_come_first(ls, n - 1);
        let before = levels_rows(ls, n - 1);
        let now = levels_rows(ls, n);
        assert(now.take(first.len() as int) =~= before.take(first.len() as int));
    }
}

/// A frame has a line where its place is known and counts from 1.
pub proof fn law_top_frame_is_the_first_with_a_line(fs: Seq<FrameInfo>, i: int)
    requires
        0 <= i <= fs.len(),
    ensures
        i <= top_frame(fs, i) <= fs.len(),
        top_frame(fs, i) < fs.len() ==> (fs[top_frame(fs, i)].place matches Some(p) && p.1 > 0),
        forall|k: int| i <= k < top_frame(fs, i) ==> !((#[trigger] fs[k]).place matches Some(p) && p.1 > 0),
    decreases fs.len() - i,
{
    if i < fs.len() && !located(fs[i]) {
        law_top_frame_is_the_first_with_a_line(fs, i + 1);
    }
}

/// A thread that runs managed code is listed after those before it, by its id and its name,
/// or its number where it has none, and by the method, file and line it is at.
pub proof fn law_threads_are_listed_in_order(ts: Seq<RawThread>, n: int, k: int)
    requires
        0 < n <= ts.len(),
        0 <= k < ts[n - 1].frames@.len(),
        k == top_frame(ts[n - 1].frames@, 0),
    ensures
        ({
            let t = ts[n - 1];
            let f = t.frames@[k];
            let row = managed(ts, n).last();
            &&& managed(ts, n).len() == managed(ts, n - 1).len() + 1
            &&& managed(ts, n).drop_last() == managed(ts, n - 1)
            &&& row.id == t.id
            &&& t.name@.len() > 0 ==> row.name == t.name@
            &&& t.name@.len() == 0 ==> row.name == "Thread "@ + decimal(t.id as nat)
            &&& match f.place {
                Some((src, line)) => row.location == f.method@ + "  "@ + base_of(src@) + ":"@ + decimal_int(line as int),
                None => false,
            }
        }),
{
    law_top_frame_is_the_first_with_a_line(ts[n - 1].frames@, 0);
    assert(managed(ts, n).drop_last() =~= managed(ts, n - 1));
}

/// A frame is listed by its number, its method, and its file and line where it has a line.
pub proof fn law_frames_are_listed_by_their_place(fs: Seq<FrameInfo>, i: int)
    requires
        0 <= i < fs.len(),
        i < STACK_CAP,
    ensures
        ({
            let row = stack_lines(fs)[i];
            let head = "#"@ + decimal(i as nat) + " "@ + fs[i].method@ + "  "@;
            &&& i < stack_lines(fs).len()
            &&& match fs[i].place {
                Some((src, line)) => row == (if line > 0 {
                    head + (base_of(src@) + ":"@ + decimal_int(line as int))
                } else {
                    head
                }),
                None => row == head,
            }
        }),
{
    let head = "#"@ + decimal(i as nat) + " "@ + fs[i].method@ + "  "@;
    assert(head + Seq::<char>::empty() =~= head);
}

} // verus!

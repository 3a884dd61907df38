//! A session with one debugged target: its breakpoints, where it is stopped, and
//! what the window shows of it.
//!
//! [`Session`] takes commands of the user and events of the target, and returns
//! the requests to make of the target, in order. What a request brings back is
//! handed in again.

use std::collections::HashMap;

use vstd::prelude::*;
use vstd::string::StringExecFns;

use crate::debugger::source::{base_of, basename, law_base_of_base};
use crate::debugger::store::bp_pairs;
use crate::debugger::vars::{kids_v, vars_v, Expand, Var, VarV};
use crate::text::{
    decimal, decimal_int, join2, join3, law_sorting_keeps_the_texts, same, show_i64, show_u64, sorted_unique, texts,
};

verus! {

broadcast use vstd::std_specs::hash::group_hash_axioms;

// ---------------------------------------------------------------------------
// What is shown
// ---------------------------------------------------------------------------

/// An attachable endpoint: this project's editor, or a discovered player.
#[derive(Clone)]
pub struct Target {
    pub ip: String,
    pub port: u16,
    pub label: String,
}

/// An attachable endpoint.
#[verifier::ext_equal]
pub struct TargetV {
    pub ip: Seq<char>,
    pub port: u16,
    pub label: Seq<char>,
}

impl View for Target {
    type V = TargetV;

    open spec fn view(&self) -> TargetV {
        TargetV { ip: self.ip@, port: self.port, label: self.label@ }
    }
}

/// A call-stack frame of the target.
#[derive(Clone, Copy, PartialEq, Eq, Structural, Debug)]
pub struct Frame {
    pub id: u32,
    pub method: u32,
    pub il_offset: i32,
}

/// A managed thread shown in the Threads strip (name + where it is stopped).
#[derive(Clone)]
pub struct ThreadInfo {
    pub id: u32,
    pub name: String,
    pub location: String,
}

/// A managed thread.
#[verifier::ext_equal]
pub struct ThreadV {
    pub id: u32,
    pub name: Seq<char>,
    pub location: Seq<char>,
}

impl View for ThreadInfo {
    type V = ThreadV;

    open spec fn view(&self) -> ThreadV {
        ThreadV { id: self.id, name: self.name@, location: self.location@ }
    }
}

/// The threads of a sequence.
pub open spec fn threads_v(v: Seq<ThreadInfo>) -> Seq<ThreadV> {
    Seq::new(v.len(), |i: int| v[i]@)
}

/// A label for a thread: its name, or its number where it has none, and where it is.
pub fn thread_row(id: u32, raw_name: &str, method: &str, source: &str, line: i32) -> (r: ThreadInfo)
    ensures
        r@ == (ThreadV {
            id,
            name: if raw_name@.len() == 0 { "Thread "@ + decimal(id as nat) } else { raw_name@ },
            location: method@ + "  "@ + base_of(source@) + ":"@ + decimal_int(line as int),
        }),
{
    let name = if raw_name.is_empty() {
        let d = show_u64(id as u64);
        join2("Thread ", d.as_str())
    } else {
        raw_name.to_owned()
    };
    let base = basename(source);
    let d = show_i64(line as i64);
    let mut location = join3(method, "  ", base.as_str());
    location.append(":");
    location.append(d.as_str());
    ThreadInfo { id, name, location }
}

/// A line of the call stack: the frame's number, its method, and where it is if known.
pub open spec fn stack_line(i: nat, method: Seq<char>, source: Seq<char>, line: i32) -> Seq<char> {
    "#"@ + decimal(i) + " "@ + method + "  "@ + (if line > 0 {
        base_of(source) + ":"@ + decimal_int(line as int)
    } else {
        Seq::empty()
    })
}

/// A line of the call stack.
pub fn stack_row(i: usize, method: &str, source: &str, line: i32) -> (r: String)
    ensures
        r@ == stack_line(i as nat, method@, source@, line),
{
    let d = show_u64(i as u64);
    let mut out = join3("#", d.as_str(), " ");
    out.append(method);
    out.append("  ");
    if line > 0 {
        let base = basename(source);
        out.append(base.as_str());
        out.append(":");
        let n = show_i64(line as i64);
        out.append(n.as_str());
    }
    assert(out@ =~= stack_line(i as nat, method@, source@, line));
    out
}

/// The most frames of a stack that are listed.
pub const STACK_CAP: usize = 20;

/// What a stop shows: the stack, its frames, the variables of the innermost one,
/// and where that is.
pub struct Stop {
    pub stack: Vec<String>,
    pub frames: Vec<Frame>,
    pub locals: Vec<Var>,
    pub members: Vec<Var>,
    pub this_label: String,
    pub file: String,
    pub line: i32,
}

/// What a frame shows: its variables and where it is.
pub struct FrameView {
    pub locals: Vec<Var>,
    pub members: Vec<Var>,
    pub this_label: String,
    pub file: String,
    pub line: i32,
}

/// A discovered player.
#[derive(Clone)]
pub struct Player {
    pub guid: u32,
    pub ip: String,
    pub port: u16,
    pub project: String,
    pub label: String,
}

/// A discovered player.
#[verifier::ext_equal]
pub struct PlayerV {
    pub guid: u32,
    pub ip: Seq<char>,
    pub port: u16,
    pub project: Seq<char>,
    pub label: Seq<char>,
}

impl View for Player {
    type V = PlayerV;

    open spec fn view(&self) -> PlayerV {
        PlayerV {
            guid: self.guid,
            ip: self.ip@,
            port: self.port,
            project: self.project@,
            label: self.label@,
        }
    }
}

/// The players of a sequence.
pub open spec fn players_v(v: Seq<Player>) -> Seq<PlayerV> {
    Seq::new(v.len(), |i: int| v[i]@)
}

/// Rendered debugger state.
#[derive(Clone)]
pub struct UiState {
    /// An error / special message (shown only when not normally attached).
    pub status: String,
    /// Whether the connection is established.
    pub attached: bool,
    /// Runtime/protocol version detail.
    pub version: String,
    pub stopped: bool,
    /// Absolute path of the source file the shown frame is in.
    pub cur_file: String,
    /// 1-based current line, or 0 if unknown.
    pub cur_line: i32,
    /// Managed threads at the current stop (only populated while stopped).
    pub threads: Vec<ThreadInfo>,
    /// The thread whose stack/variables are shown.
    pub cur_thread: u32,
    pub stack: Vec<String>,
    /// Which call-stack frame's variables are shown (0 = innermost).
    pub cur_frame: usize,
    pub locals: Vec<Var>,
    pub members: Vec<Var>,
    pub this_label: String,
    /// Lazily-fetched children of expandable values, keyed by object id.
    pub children: HashMap<u32, Vec<Var>>,
    /// Bumps on every new stop / frame switch so stale expand state can be dropped.
    pub generation: u64,
    /// 1-based breakpoint lines in the currently-displayed file.
    pub bp_lines: Vec<i32>,
    /// All breakpoints across files (display file, 1-based line).
    pub all_bps: Vec<(String, i32)>,
    pub log: Vec<String>,
    /// Debuggable players found by discovery.
    pub players: Vec<Player>,
    /// Label of the target we're currently attached to.
    pub cur_target: String,
}

/// Rendered debugger state.
#[verifier::ext_equal]
pub struct UiV {
    pub status: Seq<char>,
    pub attached: bool,
    pub version: Seq<char>,
    pub stopped: bool,
    pub cur_file: Seq<char>,
    pub cur_line: i32,
    pub threads: Seq<ThreadV>,
    pub cur_thread: u32,
    pub stack: Seq<Seq<char>>,
    pub cur_frame: usize,
    pub locals: Seq<VarV>,
    pub members: Seq<VarV>,
    pub this_label: Seq<char>,
    pub children: Map<u32, Seq<VarV>>,
    pub generation: u64,
    pub bp_lines: Seq<i32>,
    pub all_bps: Seq<(Seq<char>, i32)>,
    pub log: Seq<Seq<char>>,
    pub players: Seq<PlayerV>,
    pub cur_target: Seq<char>,
}

impl View for UiState {
    type V = UiV;

    open spec fn view(&self) -> UiV {
        UiV {
            status: self.status@,
            attached: self.attached,
            version: self.version@,
            stopped: self.stopped,
            cur_file: self.cur_file@,
            cur_line: self.cur_line,
            threads: threads_v(self.threads@),
            cur_thread: self.cur_thread,
            stack: texts(self.stack@),
            cur_frame: self.cur_frame,
            locals: vars_v(self.locals@),
            members: vars_v(self.members@),
            this_label: self.this_label@,
            children: kids_v(self.children@),
            generation: self.generation,
            bp_lines: self.bp_lines@,
            all_bps: bp_pairs(self.all_bps@),
            log: texts(self.log@),
            players: players_v(self.players@),
            cur_target: self.cur_target@,
        }
    }
}

/// The most log lines that are kept.
pub const LOG_CAP: usize = 8;

/// A log with a line more, of which the last ones are kept.
pub open spec fn logged(log: Seq<Seq<char>>, msg: Seq<char>) -> Seq<Seq<char>> {
    let l = log.push(msg);
    if l.len() > LOG_CAP {
        l.skip(l.len() - LOG_CAP)
    } else {
        l
    }
}

/// The generation after `g`.
pub open spec fn next_gen(g: u64) -> u64 {
    if g == u64::MAX {
        0
    } else {
        (g + 1) as u64
    }
}

/// While the target runs nothing of a stop is shown.
pub open spec fn run_shown(u: UiV) -> UiV {
    UiV {
        stopped: false,
        threads: Seq::empty(),
        cur_thread: 0,
        cur_frame: 0,
        stack: Seq::empty(),
        locals: Seq::empty(),
        members: Seq::empty(),
        this_label: Seq::empty(),
        children: Map::empty(),
        ..u
    }
}

/// The innermost frame of a thread is shown.
pub open spec fn stop_shown(u: UiV, thread: u32, s: Stop) -> UiV {
    UiV {
        cur_thread: thread,
        cur_frame: 0,
        cur_file: s.file@,
        cur_line: s.line,
        stack: texts(s.stack@),
        locals: vars_v(s.locals@),
        members: vars_v(s.members@),
        this_label: s.this_label@,
        children: Map::empty(),
        generation: next_gen(u.generation),
        ..u
    }
}

/// Another frame of the stack is shown.
pub open spec fn frame_shown(u: UiV, idx: usize, f: FrameView) -> UiV {
    UiV {
        cur_frame: idx,
        cur_file: f.file@,
        cur_line: f.line,
        locals: vars_v(f.locals@),
        members: vars_v(f.members@),
        this_label: f.this_label@,
        children: Map::empty(),
        generation: next_gen(u.generation),
        ..u
    }
}

fn bumped(g: u64) -> (r: u64)
    ensures
        r == next_gen(g),
{
    if g == u64::MAX {
        0
    } else {
        g + 1
    }
}

fn no_children() -> (r: HashMap<u32, Vec<Var>>)
    ensures
        kids_v(r@) == Map::<u32, Seq<VarV>>::empty(),
{
    let r: HashMap<u32, Vec<Var>> = HashMap::new();
    assert(kids_v(r@) =~= Map::<u32, Seq<VarV>>::empty());
    r
}

impl UiState {
    /// Before anything is attached.
    pub fn new() -> (r: Self)
        ensures
            r@ == (UiV {
                status: Seq::empty(),
                attached: false,
                version: Seq::empty(),
                stopped: false,
                cur_file: Seq::empty(),
                cur_line: 0,
                threads: Seq::empty(),
                cur_thread: 0,
                stack: Seq::empty(),
                cur_frame: 0,
                locals: Seq::empty(),
                members: Seq::empty(),
                this_label: Seq::empty(),
                children: Map::empty(),
                generation: 0,
                bp_lines: Seq::empty(),
                all_bps: Seq::empty(),
                log: Seq::empty(),
                players: Seq::empty(),
                cur_target: Seq::empty(),
            }),
    {
        let r = UiState {
            status: String::new(),
            attached: false,
            version: String::new(),
            stopped: false,
            cur_file: String::new(),
            cur_line: 0,
            threads: Vec::new(),
            cur_thread: 0,
            stack: Vec::new(),
            cur_frame: 0,
            locals: Vec::new(),
            members: Vec::new(),
            this_label: String::new(),
            children: no_children(),
            generation: 0,
            bp_lines: Vec::new(),
            all_bps: Vec::new(),
            log: Vec::new(),
            players: Vec::new(),
            cur_target: String::new(),
        };
        assert(r@.threads =~= Seq::empty());
        assert(r@.stack =~= Seq::empty());
        assert(r@.locals =~= Seq::empty());
        assert(r@.members =~= Seq::empty());
        assert(r@.all_bps =~= Seq::empty());
        assert(r@.log =~= Seq::empty());
        assert(r@.players =~= Seq::empty());
        r
    }

    /// Adds a line to the log, of which the last few are kept.
    pub fn push_log(&mut self, msg: &str)
        ensures
            final(self)@ == (UiV { log: logged(old(self)@.log, msg@), ..old(self)@ }),
    {
        let ghost before = texts(self.log@);
        self.log.push(msg.to_owned());
        assert(texts(self.log@) =~= before.push(msg@));
        let n: usize = self.log.len();
        if n > LOG_CAP {
            let from: usize = n - LOG_CAP;
            let mut kept: Vec<String> = Vec::new();
            let mut i: usize = from;
            while i < n
                invariant
                    from <= i <= n == self.log@.len(),
                    texts(kept@) == texts(self.log@).subrange(from as int, i as int),
                decreases n - i,
            {
                let ghost k = texts(kept@);
                kept.push(self.log[i].clone());
                assert(texts(kept@) =~= k.push(texts(self.log@)[i as int]));
                i = i + 1;
                assert(texts(kept@) =~= texts(self.log@).subrange(from as int, i as int));
            }
            assert(texts(kept@) =~= texts(self.log@).skip(from as int));
            self.log = kept;
        }
        assert(self@ =~= (UiV { log: logged(old(self)@.log, msg@), ..old(self)@ }));
    }

    fn show_running(&mut self)
        ensures
            final(self)@ == run_shown(old(self)@),
    {
        self.stopped = false;
        self.threads = Vec::new();
        self.cur_thread = 0;
        self.cur_frame = 0;
        self.stack = Vec::new();
        self.locals = Vec::new();
        self.members = Vec::new();
        self.this_label = String::new();
        self.children = no_children();
        assert(self@.threads =~= Seq::empty());
        assert(self@.stack =~= Seq::empty());
        assert(self@.locals =~= Seq::empty());
        assert(self@.members =~= Seq::empty());
        assert(self@ =~= run_shown(old(self)@));
    }

    fn show_stop(&mut self, thread: u32, s: Stop)
        ensures
            final(self)@ == stop_shown(old(self)@, thread, s),
            final(self).locals == s.locals,
            final(self).members == s.members,
            final(self).stack == s.stack,
            final(self).cur_file == s.file,
            final(self).cur_line == s.line,
    {
        self.cur_thread = thread;
        self.cur_frame = 0;
        self.cur_file = s.file;
        self.cur_line = s.line;
        self.stack = s.stack;
        self.locals = s.locals;
        self.members = s.members;
        self.this_label = s.this_label;
        self.children = no_children();
        self.generation = bumped(self.generation);
    }

    fn show_frame(&mut self, idx: usize, f: FrameView)
        ensures
            final(self)@ == frame_shown(old(self)@, idx, f),
            final(self).locals == f.locals,
            final(self).members == f.members,
            final(self).cur_file == f.file,
            final(self).cur_line == f.line,
    {
        self.cur_frame = idx;
        self.cur_file = f.file;
        self.cur_line = f.line;
        self.locals = f.locals;
        self.members = f.members;
        self.this_label = f.this_label;
        self.children = no_children();
        self.generation = bumped(self.generation);
    }

    /// The children of a value have been fetched.
    pub fn set_children(&mut self, id: u32, kids: Vec<Var>)
        ensures
            final(self)@ == (UiV { children: old(self)@.children.insert(id, vars_v(kids@)), ..old(self)@ }),
    {
        self.children.insert(id, kids);
        assert(kids_v(self.children@) =~= old(self)@.children.insert(id, vars_v(kids@)));
    }

    /// A connection to a target is being made.
    pub fn connecting(&mut self, label: &str)
        ensures
            final(self)@ == (UiV {
                attached: false,
                stopped: false,
                status: "Connecting to "@ + label@ + "…"@,
                ..old(self)@
            }),
    {
        self.attached = false;
        self.stopped = false;
        self.status = join3("Connecting to ", label, "…");
    }

    /// A connection to a target could not be made.
    pub fn connect_failed(&mut self, label: &str, error: &str)
        ensures
            final(self)@ == (UiV { status: label@ + ": connect failed: "@ + error@, ..old(self)@ }),
    {
        self.status = join3(label, ": connect failed: ", error);
    }

    /// The set of discovered players changed.
    pub fn set_players(&mut self, players: Vec<Player>)
        ensures
            final(self)@ == (UiV { players: players_v(players@), ..old(self)@ }),
    {
        self.players = players;
    }
}


// ---------------------------------------------------------------------------
// Breakpoints
// ---------------------------------------------------------------------------

/// A breakpoint: where it is wanted, and the target's request for it once armed.
pub struct Bp {
    pub file: String,
    pub line: i32,
    pub armed: bool,
    pub req: Option<i32>,
}

/// A breakpoint.
#[verifier::ext_equal]
pub struct BpV {
    pub file: Seq<char>,
    pub line: i32,
    pub armed: bool,
    pub req: Option<i32>,
}

impl View for Bp {
    type V = BpV;

    open spec fn view(&self) -> BpV {
        BpV { file: self.file@, line: self.line, armed: self.armed, req: self.req }
    }
}

/// The breakpoints of a sequence.
pub open spec fn bps_v(v: Seq<Bp>) -> Seq<BpV> {
    Seq::new(v.len(), |i: int| v[i]@)
}

/// A breakpoint that is not armed.
pub open spec fn unarmed(file: Seq<char>, line: i32) -> BpV {
    BpV { file, line, armed: false, req: None }
}

/// Breakpoints that are not armed, one for each pair.
pub open spec fn seeded(pairs: Seq<(Seq<char>, i32)>) -> Seq<BpV> {
    Seq::new(pairs.len(), |i: int| unarmed(pairs[i].0, pairs[i].1))
}

/// The lines of the first `n` breakpoints that lie in a file named `base`.
pub open spec fn lines_in(bps: Seq<BpV>, base: Seq<char>, n: int) -> Seq<i32>
    decreases n,
{
    if n <= 0 || n > bps.len() {
        Seq::empty()
    } else if base_of(bps[n - 1].file) == base {
        lines_in(bps, base, n - 1).push(bps[n - 1].line)
    } else {
        lines_in(bps, base, n - 1)
    }
}

/// The first breakpoint from the `i`-th on at a line of a file named `base`, and
/// the number of breakpoints where there is none.
pub open spec fn bp_at(bps: Seq<BpV>, base: Seq<char>, line: i32, i: int) -> int
    decreases bps.len() - i,
{
    if i < 0 || i >= bps.len() {
        bps.len() as int
    } else if base_of(bps[i].file) == base && bps[i].line == line {
        i
    } else {
        bp_at(bps, base, line, i + 1)
    }
}

/// Whether a breakpoint is wanted at exactly this file and line.
pub open spec fn wanted(pairs: Seq<(Seq<char>, i32)>, file: Seq<char>, line: i32) -> bool {
    exists|i: int| 0 <= i < pairs.len() && #[trigger] pairs[i] == (file, line)
}

/// Whether there is a breakpoint at exactly this file and line.
pub open spec fn present(bps: Seq<BpV>, file: Seq<char>, line: i32) -> bool {
    exists|i: int| 0 <= i < bps.len() && (#[trigger] bps[i]).file == file && bps[i].line == line
}

/// The first `n` breakpoints that are still wanted, as they are.
pub open spec fn kept(bps: Seq<BpV>, pairs: Seq<(Seq<char>, i32)>, n: int) -> Seq<BpV>
    decreases n,
{
    if n <= 0 || n > bps.len() {
        Seq::empty()
    } else if wanted(pairs, bps[n - 1].file, bps[n - 1].line) {
        kept(bps, pairs, n - 1).push(bps[n - 1])
    } else {
        kept(bps, pairs, n - 1)
    }
}

/// The requests of the first `n` breakpoints that are no longer wanted.
pub open spec fn dropped(bps: Seq<BpV>, pairs: Seq<(Seq<char>, i32)>, n: int) -> Seq<ActV>
    decreases n,
{
    if n <= 0 || n > bps.len() {
        Seq::empty()
    } else if !wanted(pairs, bps[n - 1].file, bps[n - 1].line) && bps[n - 1].req is Some {
        dropped(bps, pairs, n - 1).push(ActV::ClearBreakpoint(bps[n - 1].req->0))
    } else {
        dropped(bps, pairs, n - 1)
    }
}

/// The breakpoints with those of the first `n` pairs added that are not there yet.
pub open spec fn added(bps: Seq<BpV>, pairs: Seq<(Seq<char>, i32)>, n: int) -> Seq<BpV>
    decreases n,
{
    if n <= 0 || n > pairs.len() {
        bps
    } else {
        let b = added(bps, pairs, n - 1);
        if present(b, pairs[n - 1].0, pairs[n - 1].1) {
            b
        } else {
            b.push(unarmed(pairs[n - 1].0, pairs[n - 1].1))
        }
    }
}

/// Requests to arm the breakpoints from the `from`-th to the `n`-th.
pub open spec fn arm_range(from: int, n: int) -> Seq<ActV> {
    Seq::new((if n > from { n - from } else { 0 }) as nat, |i: int| ActV::ArmLoaded(from + i))
}

/// The requests of the first `n` breakpoints that have one.
pub open spec fn requests(bps: Seq<BpV>, n: int) -> Seq<ActV>
    decreases n,
{
    if n <= 0 || n > bps.len() {
        Seq::empty()
    } else if bps[n - 1].req is Some {
        requests(bps, n - 1).push(ActV::ClearBreakpoint(bps[n - 1].req->0))
    } else {
        requests(bps, n - 1)
    }
}

/// Requests to arm those of the first `n` breakpoints that are not, on a freshly
/// loaded type.
pub open spec fn arm_on_type(bps: Seq<BpV>, ty: u32, n: int) -> Seq<ActV>
    decreases n,
{
    if n <= 0 || n > bps.len() {
        Seq::empty()
    } else if !bps[n - 1].armed {
        arm_on_type(bps, ty, n - 1).push(ActV::ArmType(n - 1, ty))
    } else {
        arm_on_type(bps, ty, n - 1)
    }
}

/// Requests to arm those of the first `n` breakpoints that are not, on the types
/// already loaded.
pub open spec fn arm_loaded_v(bps: Seq<BpV>, n: int) -> Seq<ActV>
    decreases n,
{
    if n <= 0 || n > bps.len() {
        Seq::empty()
    } else if !bps[n - 1].armed {
        arm_loaded_v(bps, n - 1).push(ActV::ArmLoaded(n - 1))
    } else {
        arm_loaded_v(bps, n - 1)
    }
}

/// The files that hold breakpoints, each once, in order.
pub open spec fn watched_files(bps: Seq<BpV>) -> Seq<Seq<char>> {
    crate::text::sorted_set(Seq::new(bps.len(), |i: int| bps[i].file), bps.len() as int)
}

// ---------------------------------------------------------------------------
// Commands, events and requests
// ---------------------------------------------------------------------------

/// How far a step goes.
#[derive(Clone, Copy, PartialEq, Eq, Structural, Debug)]
pub enum Depth {
    Into,
    Over,
    Out,
}

/// A command of the user.
pub enum Cmd {
    Resume,
    StepOver,
    StepInto,
    StepOut,
    /// Toggle a breakpoint at a 1-based source line in the currently-viewed file.
    ToggleBp(i32),
    /// The displayed file changed.
    View(String),
    /// Break into a running program and inspect the current state.
    Pause,
    /// Inspect a different (managed) thread's stack and variables.
    SelectThread(u32),
    /// Inspect a different call-stack frame (0 = innermost).
    SelectFrame(usize),
    /// Lazily fetch the children (fields or elements) of an expandable value.
    ExpandVar(Expand),
    /// Attach to a different target (the editor, or a discovered player).
    SelectTarget(Target),
}

/// A command of the user.
pub enum CmdV {
    Resume,
    StepOver,
    StepInto,
    StepOut,
    ToggleBp(i32),
    View(Seq<char>),
    Pause,
    SelectThread(u32),
    SelectFrame(usize),
    ExpandVar(Expand),
    SelectTarget(TargetV),
}

impl View for Cmd {
    type V = CmdV;

    open spec fn view(&self) -> CmdV {
        match *self {
            Cmd::Resume => CmdV::Resume,
            Cmd::StepOver => CmdV::StepOver,
            Cmd::StepInto => CmdV::StepInto,
            Cmd::StepOut => CmdV::StepOut,
            Cmd::ToggleBp(n) => CmdV::ToggleBp(n),
            Cmd::View(s) => CmdV::View(s@),
            Cmd::Pause => CmdV::Pause,
            Cmd::SelectThread(t) => CmdV::SelectThread(t),
            Cmd::SelectFrame(i) => CmdV::SelectFrame(i),
            Cmd::ExpandVar(e) => CmdV::ExpandVar(e),
            Cmd::SelectTarget(t) => CmdV::SelectTarget(t@),
        }
    }
}

/// The target a command asks to attach to, if it does: the only command that
/// matters while nothing is attached.
pub fn wait_for_target(cmd: Cmd) -> (r: Option<Target>)
    ensures
        match r {
            Some(t) => cmd@ == CmdV::SelectTarget(t@),
            None => !(cmd@ is SelectTarget),
        },
{
    match cmd {
        Cmd::SelectTarget(t) => Some(t),
        _ => None,
    }
}

/// Why a thread is inspected.
#[derive(Clone, Copy, PartialEq, Eq, Structural, Debug)]
pub enum Why {
    /// The user paused the program.
    Pause,
    /// A breakpoint was hit, or a step ended.
    Hit { was_step: bool },
    /// The user chose the thread.
    Select,
}

/// Something to ask of the target, or of the window.
pub enum Act {
    /// Leave this target for another.
    Leave(Target),
    ClearBreakpoint(i32),
    ClearStep(i32),
    ClearWatch(i32),
    /// Watch for the types of these files; the reply is [`Session::watched`].
    Watch(Vec<String>),
    /// Arm the breakpoint on the types already loaded for its file; the reply is
    /// [`Session::armed`].
    ArmLoaded(usize),
    /// Arm the breakpoint on one type; the reply is [`Session::armed`].
    ArmType(usize, u32),
    /// Write the 0-based lines of a file to the store.
    Persist(String, Vec<i64>),
    /// Suspend the program; the reply is [`Session::suspended`].
    Suspend,
    /// Look at a thread; the reply is [`Session::inspected`].
    Inspect(u32, Why),
    /// Look at a frame of a thread; the reply is [`Session::frame_inspected`].
    InspectFrame(usize, u32, Frame),
    /// Fetch a value's children; the reply is [`Session::fetched`].
    Fetch(Expand),
    /// Request a step; the reply is [`Session::stepping`].
    Step(u32, Depth),
    Resume,
    /// Bring the window forward.
    Focus,
    /// Close the window.
    Quit,
}

/// Something to ask for.
pub enum ActV {
    Leave(TargetV),
    ClearBreakpoint(i32),
    ClearStep(i32),
    ClearWatch(i32),
    Watch(Seq<Seq<char>>),
    ArmLoaded(int),
    ArmType(int, u32),
    Persist(Seq<char>, Seq<i64>),
    Suspend,
    Inspect(u32, Why),
    InspectFrame(int, u32, Frame),
    Fetch(Expand),
    Step(u32, Depth),
    Resume,
    Focus,
    Quit,
}

impl View for Act {
    type V = ActV;

    open spec fn view(&self) -> ActV {
        match *self {
            Act::Leave(t) => ActV::Leave(t@),
            Act::ClearBreakpoint(r) => ActV::ClearBreakpoint(r),
            Act::ClearStep(r) => ActV::ClearStep(r),
            Act::ClearWatch(r) => ActV::ClearWatch(r),
            Act::Watch(f) => ActV::Watch(texts(f@)),
            Act::ArmLoaded(i) => ActV::ArmLoaded(i as int),
            Act::ArmType(i, t) => ActV::ArmType(i as int, t),
            Act::Persist(p, l) => ActV::Persist(p@, l@),
            Act::Suspend => ActV::Suspend,
            Act::Inspect(t, w) => ActV::Inspect(t, w),
            Act::InspectFrame(i, t, f) => ActV::InspectFrame(i as int, t, f),
            Act::Fetch(e) => ActV::Fetch(e),
            Act::Step(t, d) => ActV::Step(t, d),
            Act::Resume => ActV::Resume,
            Act::Focus => ActV::Focus,
            Act::Quit => ActV::Quit,
        }
    }
}

/// The requests of a sequence.
pub open spec fn acts_v(v: Seq<Act>) -> Seq<ActV> {
    Seq::new(v.len(), |i: int| v[i]@)
}

/// An event of the target.
pub enum Event {
    /// A new play-mode domain; with the breakpoints of the store, if it is readable.
    DomainCreated(Option<Vec<(String, i32)>>),
    TypeLoaded(u32),
    /// A breakpoint was hit or a step ended, on this thread.
    Stopped(u32),
    Died,
    Other,
}

/// An event of the target.
pub enum EventV {
    DomainCreated(Option<Seq<(Seq<char>, i32)>>),
    TypeLoaded(u32),
    Stopped(u32),
    Died,
    Other,
}

impl View for Event {
    type V = EventV;

    open spec fn view(&self) -> EventV {
        match *self {
            Event::DomainCreated(f) => EventV::DomainCreated(
                match f {
                    Some(v) => Some(bp_pairs(v@)),
                    None => None,
                },
            ),
            Event::TypeLoaded(t) => EventV::TypeLoaded(t),
            Event::Stopped(t) => EventV::Stopped(t),
            Event::Died => EventV::Died,
            Event::Other => EventV::Other,
        }
    }
}

// ---------------------------------------------------------------------------
// The session
// ---------------------------------------------------------------------------

/// What a session knows.
#[verifier::ext_equal]
pub struct SessionV {
    pub ui: UiV,
    pub bps: Seq<BpV>,
    pub watch_req: Option<i32>,
    /// The stopped thread that is inspected, and 0 while the program runs.
    pub cur_thread: u32,
    pub frames: Seq<Frame>,
    pub step_req: Option<i32>,
    pub ui_view: Seq<char>,
}

/// A session after something happened, and what it asks for.
pub type StepV = (SessionV, Seq<ActV>);

/// The window shows the breakpoints: those of the viewed file, and all.
pub open spec fn synced(s: SessionV) -> SessionV {
    SessionV {
        ui: UiV {
            bp_lines: lines_in(s.bps, base_of(s.ui_view), s.bps.len() as int),
            all_bps: Seq::new(s.bps.len(), |i: int| (base_of(s.bps[i].file), s.bps[i].line)),
            ..s.ui
        },
        ..s
    }
}

/// The program runs on.
pub open spec fn running(s: SessionV) -> SessionV {
    SessionV { ui: run_shown(s.ui), cur_thread: 0, frames: Seq::empty(), ..s }
}

/// The lines of a file as the store counts them.
pub open spec fn store_lines(bps: Seq<BpV>, base: Seq<char>) -> Seq<i64> {
    let ls = lines_in(bps, base, bps.len() as int);
    Seq::new(ls.len(), |i: int| (ls[i] - 1) as i64)
}

/// After a breakpoint is toggled at a line of the viewed file.
pub open spec fn bp_toggled(s: SessionV, line: i32) -> StepV {
    let base = base_of(s.ui_view);
    if base.len() == 0 {
        (s, Seq::empty())
    } else {
        let p = bp_at(s.bps, base, line, 0);
        if p < s.bps.len() {
            let t = synced(SessionV { bps: s.bps.remove(p), ..s });
            let clear = match s.bps[p].req {
                Some(q) => seq![ActV::ClearBreakpoint(q)],
                None => Seq::empty(),
            };
            (t, clear.push(ActV::Persist(s.ui_view, store_lines(t.bps, base))))
        } else {
            let t = synced(SessionV { bps: s.bps.push(unarmed(base, line)), ..s });
            (t, seq![ActV::ArmLoaded(s.bps.len() as int), ActV::Persist(s.ui_view, store_lines(t.bps, base))])
        }
    }
}

/// After a step is asked for.
pub open spec fn stepped(s: SessionV, d: Depth) -> StepV {
    if s.cur_thread != 0 {
        (running(s), seq![ActV::Step(s.cur_thread, d), ActV::Resume])
    } else {
        (s, Seq::empty())
    }
}

/// After a command. Views and breakpoints can be changed at any time, the program
/// paused only while it runs, and all else done only while it is stopped.
pub open spec fn commanded(s: SessionV, c: CmdV) -> StepV {
    match c {
        CmdV::SelectTarget(t) => (s, seq![ActV::Leave(t)]),
        CmdV::View(f) => (synced(SessionV { ui_view: f, ..s }), Seq::empty()),
        CmdV::ToggleBp(line) => bp_toggled(s, line),
        CmdV::Pause => if s.cur_thread == 0 {
            (s, seq![ActV::Suspend])
        } else {
            (s, Seq::empty())
        },
        CmdV::SelectThread(t) => if s.cur_thread != 0 {
            (SessionV { cur_thread: t, ..s }, seq![ActV::Inspect(t, Why::Select)])
        } else {
            (s, Seq::empty())
        },
        CmdV::SelectFrame(i) => if s.cur_thread != 0 && i < s.frames.len() {
            (s, seq![ActV::InspectFrame(i as int, s.cur_thread, s.frames[i as int])])
        } else {
            (s, Seq::empty())
        },
        CmdV::ExpandVar(e) => if s.cur_thread != 0 {
            (s, seq![ActV::Fetch(e)])
        } else {
            (s, Seq::empty())
        },
        CmdV::Resume => if s.cur_thread != 0 {
            (running(s), seq![ActV::Resume])
        } else {
            (s, Seq::empty())
        },
        CmdV::StepOver => stepped(s, Depth::Over),
        CmdV::StepInto => stepped(s, Depth::Into),
        CmdV::StepOut => stepped(s, Depth::Out),
    }
}

/// What watching for types asks for: the old watch is given up, and the files that
/// hold breakpoints are watched, if there are any.
pub open spec fn rewatch_acts(watch: Option<i32>, bps: Seq<BpV>) -> Seq<ActV> {
    (match watch {
        Some(q) => seq![ActV::ClearWatch(q)],
        None => Seq::empty(),
    }) + (if bps.len() > 0 {
        seq![ActV::Watch(watched_files(bps))]
    } else {
        Seq::empty()
    })
}

/// After an event of the target.
pub open spec fn event_taken(s: SessionV, e: EventV) -> StepV {
    match e {
        EventV::DomainCreated(fresh) => {
            let bps = match fresh {
                Some(p) => seeded(p),
                None => Seq::new(s.bps.len(), |i: int| unarmed(s.bps[i].file, s.bps[i].line)),
            };
            (
                synced(SessionV { bps, watch_req: None, ..s }),
                requests(s.bps, s.bps.len() as int) + rewatch_acts(s.watch_req, bps),
            )
        },
        EventV::TypeLoaded(t) => (s, arm_on_type(s.bps, t, s.bps.len() as int)),
        EventV::Stopped(t) => (
            SessionV { step_req: None, cur_thread: t, ..s },
            (match s.step_req {
                Some(q) => seq![ActV::ClearStep(q)],
                None => Seq::empty(),
            }).push(ActV::Inspect(t, Why::Hit { was_step: s.step_req is Some })),
        ),
        EventV::Died => (
            SessionV { ui: UiV { attached: false, status: "target exited"@, ..s.ui }, ..s },
            seq![ActV::Quit],
        ),
        EventV::Other => (s, Seq::empty()),
    }
}

/// After a thread was looked at.
pub open spec fn inspected_v(s: SessionV, thread: u32, why: Why, stop: Stop, threads: Seq<ThreadV>) -> StepV {
    let u = stop_shown(s.ui, thread, stop);
    let t = SessionV {
        ui: if why is Select { u } else { UiV { stopped: true, threads, ..u } },
        cur_thread: thread,
        frames: stop.frames@,
        ui_view: stop.file@,
        ..s
    };
    (
        synced(t),
        match why {
            Why::Select => Seq::empty(),
            Why::Hit { was_step: true } => Seq::empty(),
            _ => seq![ActV::Focus],
        },
    )
}

/// After the store was edited elsewhere: breakpoints that are no longer wanted are
/// cleared, new ones are to be armed, and the others stay as they are.
pub open spec fn reconciled(s: SessionV, fresh: Seq<(Seq<char>, i32)>) -> StepV {
    let k = kept(s.bps, fresh, s.bps.len() as int);
    let a = added(k, fresh, fresh.len() as int);
    (
        synced(SessionV { bps: a, ..s }),
        dropped(s.bps, fresh, s.bps.len() as int) + arm_range(k.len() as int, a.len() as int),
    )
}

/// A session with a target.
pub struct Session {
    pub ui: UiState,
    bps: Vec<Bp>,
    watch_req: Option<i32>,
    cur_thread: u32,
    frames: Vec<Frame>,
    step_req: Option<i32>,
    ui_view: String,
}

impl View for Session {
    type V = SessionV;

    closed spec fn view(&self) -> SessionV {
        SessionV {
            ui: self.ui@,
            bps: bps_v(self.bps@),
            watch_req: self.watch_req,
            cur_thread: self.cur_thread,
            frames: self.frames@,
            step_req: self.step_req,
            ui_view: self.ui_view@,
        }
    }
}

fn push_act(v: &mut Vec<Act>, a: Act)
    ensures
        acts_v(final(v)@) == acts_v(old(v)@).push(a@),
{
    v.push(a);
    assert(acts_v(v@) =~= acts_v(old(v)@).push(a@));
}

fn no_acts() -> (r: Vec<Act>)
    ensures
        acts_v(r@) == Seq::<ActV>::empty(),
{
    let v: Vec<Act> = Vec::new();
    assert(acts_v(v@) =~= Seq::<ActV>::empty());
    v
}

fn one_act(a: Act) -> (r: Vec<Act>)
    ensures
        acts_v(r@) == seq![a@],
{
    let mut v = no_acts();
    push_act(&mut v, a);
    assert(acts_v(v@) =~= seq![a@]);
    v
}

fn new_bp(file: &str, line: i32) -> (r: Bp)
    ensures
        r@ == unarmed(file@, line),
{
    Bp { file: file.to_owned(), line, armed: false, req: None }
}

fn seed_bps(pairs: &Vec<(String, i32)>) -> (r: Vec<Bp>)
    ensures
        bps_v(r@) == seeded(bp_pairs(pairs@)),
{
    let mut out: Vec<Bp> = Vec::new();
    let mut i: usize = 0;
    while i < pairs.len()
        invariant
            i <= pairs@.len(),
            bps_v(out@) == seeded(bp_pairs(pairs@)).take(i as int),
        decreases pairs@.len() - i,
    {
        let ghost before = bps_v(out@);
        let b = new_bp(pairs[i].0.as_str(), pairs[i].1);
        out.push(b);
        assert(bps_v(out@) =~= before.push(b@));
        i = i + 1;
        assert(bps_v(out@) =~= seeded(bp_pairs(pairs@)).take(i as int));
    }
    assert(seeded(bp_pairs(pairs@)).take(i as int) =~= seeded(bp_pairs(pairs@)));
    out
}

fn is_wanted(pairs: &Vec<(String, i32)>, file: &str, line: i32) -> (r: bool)
    ensures
        r == wanted(bp_pairs(pairs@), file@, line),
{
    let ghost ps = bp_pairs(pairs@);
    let mut i: usize = 0;
    while i < pairs.len()
        invariant
            i <= pairs@.len(),
            ps == bp_pairs(pairs@),
            forall|k: int| 0 <= k < i ==> #[trigger] ps[k] != (file@, line),
        decreases pairs@.len() - i,
    {
        assert(ps[i as int] == (pairs@[i as int].0@, pairs@[i as int].1));
        if pairs[i].1 == line && same(pairs[i].0.as_str(), file) {
            return true;
        }
        i = i + 1;
    }
    false
}

impl Session {
    /// The window of the session.
    pub closed spec fn window(&self) -> UiState {
        self.ui
    }

    /// The lines of the breakpoints in files named `base`.
    fn lines_of(&self, base: &str) -> (r: Vec<i32>)
        ensures
            r@ == lines_in(self@.bps, base@, self@.bps.len() as int),
    {
        let ghost bs = self@.bps;
        let mut out: Vec<i32> = Vec::new();
        let mut i: usize = 0;
        while i < self.bps.len()
            invariant
                i <= self.bps@.len(),
                bs == bps_v(self.bps@),
                out@ == lines_in(bs, base@, i as int),
            decreases self.bps@.len() - i,
        {
            assert(bs[i as int] == self.bps@[i as int]@);
            let b = basename(self.bps[i].file.as_str());
            if same(b.as_str(), base) {
                out.push(self.bps[i].line);
            }
            i = i + 1;
        }
        out
    }

    fn stored_lines(&self, base: &str) -> (r: Vec<i64>)
        ensures
            r@ == store_lines(self@.bps, base@),
    {
        let ls = self.lines_of(base);
        let mut out: Vec<i64> = Vec::new();
        let mut i: usize = 0;
        while i < ls.len()
            invariant
                i <= ls@.len(),
                out@ == Seq::new(i as nat, |k: int| (ls@[k] - 1) as i64),
            decreases ls@.len() - i,
        {
            out.push(ls[i] as i64 - 1);
            i = i + 1;
            assert(out@ =~= Seq::new(i as nat, |k: int| (ls@[k] - 1) as i64));
        }
        out
    }

    /// Publish the breakpoints to the window: those of the viewed file, and all.
    fn sync_bps(&mut self)
        ensures
            final(self)@ == synced(old(self)@),
            final(self).ui == (UiState {
                bp_lines: final(self).ui.bp_lines,
                all_bps: final(self).ui.all_bps,
                ..old(self).ui
            }),
    {
        let base = basename(self.ui_view.as_str());
        let lines = self.lines_of(base.as_str());
        let ghost bs = self@.bps;
        let ghost want = Seq::new(bs.len(), |i: int| (base_of(bs[i].file), bs[i].line));
        let mut all: Vec<(String, i32)> = Vec::new();
        let mut i: usize = 0;
        while i < self.bps.len()
            invariant
                i <= self.bps@.len(),
                self@ == old(self)@,
                bs == bps_v(self.bps@),
                want == Seq::new(bs.len(), |i: int| (base_of(bs[i].file), bs[i].line)),
                bp_pairs(all@) == want.take(i as int),
            decreases self.bps@.len() - i,
        {
            let ghost before = bp_pairs(all@);
            let b = basename(self.bps[i].file.as_str());
            all.push((b, self.bps[i].line));
            assert(bp_pairs(all@) =~= before.push((b@, bs[i as int].line)));
            i = i + 1;
            assert(bp_pairs(all@) =~= want.take(i as int));
        }
        assert(want.take(i as int) =~= want);
        self.ui.bp_lines = lines;
        self.ui.all_bps = all;
        assert(self@ =~= synced(old(self)@));
    }

    /// A session with a target that was just attached: the breakpoints are seeded,
    /// their files watched, and each is to be armed on what is loaded already.
    pub fn attach(ui: UiState, seed: &Vec<(String, i32)>, label: &str, vm: &str, major: u32, minor: u32) -> (r: (
        Self,
        Vec<Act>,
    ))
        ensures
            ({
                let bps = seeded(bp_pairs(seed@));
                let u = UiV {
                    attached: true,
                    cur_target: label@,
                    status: Seq::empty(),
                    version: vm@ + " (protocol "@ + decimal(major as nat) + "."@ + decimal(minor as nat) + ")"@,
                    log: logged(
                        ui@.log,
                        "attached: "@ + label@ + " ("@ + decimal(seed@.len()) + " bp)"@,
                    ),
                    ..ui@
                };
                &&& r.0@ == synced(
                    SessionV {
                        ui: u,
                        bps,
                        watch_req: None,
                        cur_thread: 0,
                        frames: Seq::empty(),
                        step_req: None,
                        ui_view: Seq::empty(),
                    },
                )
                &&& acts_v(r.1@) == rewatch_acts(None, bps) + arm_loaded_v(bps, bps.len() as int)
            }),
    {
        let mut ui = ui;
        ui.attached = true;
        ui.cur_target = label.to_owned();
        ui.status = String::new();
        let a = show_u64(major as u64);
        let b = show_u64(minor as u64);
        let mut version = join3(vm, " (protocol ", a.as_str());
        version.append(".");
        version.append(b.as_str());
        version.append(")");
        ui.version = version;
        let n = show_u64(seed.len() as u64);
        let mut msg = join3("attached: ", label, " (");
        msg.append(n.as_str());
        msg.append(" bp)");
        ui.push_log(msg.as_str());
        let mut s = Session {
            ui,
            bps: seed_bps(seed),
            watch_req: None,
            cur_thread: 0,
            frames: Vec::new(),
            step_req: None,
            ui_view: String::new(),
        };
        let mut acts = s.rewatch();
        let ghost head = acts_v(acts@);
        let mut more = s.arm_loaded();
        let ghost tail = acts_v(more@);
        acts.append(&mut more);
        assert(acts_v(acts@) =~= head + tail);
        assert(s@.frames =~= Seq::empty());
        s.sync_bps();
        (s, acts)
    }

    /// (Re)subscribe to type loads for the files that currently hold breakpoints,
    /// giving up any previous subscription.
    fn rewatch(&mut self) -> (r: Vec<Act>)
        ensures
            final(self)@ == (SessionV { watch_req: None, ..old(self)@ }),
            acts_v(r@) == rewatch_acts(old(self)@.watch_req, old(self)@.bps),
    {
        let mut acts = no_acts();
        if let Some(q) = self.watch_req {
            push_act(&mut acts, Act::ClearWatch(q));
        }
        self.watch_req = None;
        let ghost bs = self@.bps;
        let ghost names = Seq::new(bs.len(), |i: int| bs[i].file);
        let mut files: Vec<String> = Vec::new();
        let mut i: usize = 0;
        while i < self.bps.len()
            invariant
                i <= self.bps@.len(),
                bs == bps_v(self.bps@),
                names == Seq::new(bs.len(), |i: int| bs[i].file),
                texts(files@) == names.take(i as int),
            decreases self.bps@.len() - i,
        {
            let ghost before = texts(files@);
            files.push(self.bps[i].file.clone());
            assert(texts(files@) =~= before.push(bs[i as int].file));
            i = i + 1;
            assert(texts(files@) =~= names.take(i as int));
        }
        assert(names.take(i as int) =~= names);
        assert(files@.len() == texts(files@).len());
        if self.bps.len() > 0 {
            let sorted = sorted_unique(&files);
            push_act(&mut acts, Act::Watch(sorted));
        }
        assert(acts_v(acts@) =~= rewatch_acts(old(self)@.watch_req, old(self)@.bps));
        acts
    }

    /// What arms every breakpoint that is not armed, on the types already loaded.
    pub fn arm_loaded(&self) -> (r: Vec<Act>)
        ensures
            acts_v(r@) == arm_loaded_v(self@.bps, self@.bps.len() as int),
    {
        let ghost bs = self@.bps;
        let mut acts = no_acts();
        let mut i: usize = 0;
        while i < self.bps.len()
            invariant
                i <= self.bps@.len(),
                bs == bps_v(self.bps@),
                acts_v(acts@) == arm_loaded_v(bs, i as int),
            decreases self.bps@.len() - i,
        {
            assert(bs[i as int] == self.bps@[i as int]@);
            if !self.bps[i].armed {
                push_act(&mut acts, Act::ArmLoaded(i));
            }
            i = i + 1;
        }
        acts
    }

    /// Try again to arm breakpoints, every half second while there are any that are
    /// not: a target attached mid-run may not answer type queries yet.
    pub fn retry(&self, elapsed_ms: u64) -> (r: Vec<Act>)
        ensures
            acts_v(r@) == if elapsed_ms >= RETRY_MS {
                arm_loaded_v(self@.bps, self@.bps.len() as int)
            } else {
                Seq::empty()
            },
    {
        if elapsed_ms >= RETRY_MS {
            self.arm_loaded()
        } else {
            no_acts()
        }
    }

    /// The file and line of a breakpoint that is to be armed.
    pub fn breakpoint(&self, pos: usize) -> (r: Option<(String, i32)>)
        ensures
            match r {
                Some((f, l)) => pos < self@.bps.len() && f@ == self@.bps[pos as int].file && l
                    == self@.bps[pos as int].line,
                None => pos >= self@.bps.len(),
            },
    {
        if pos < self.bps.len() {
            assert(self@.bps[pos as int] == self.bps@[pos as int]@);
            Some((self.bps[pos].file.clone(), self.bps[pos].line))
        } else {
            None
        }
    }

    /// A breakpoint was armed under a request of the target.
    pub fn armed(&mut self, pos: usize, req: i32)
        ensures
            final(self)@ == (if pos < old(self)@.bps.len() {
                SessionV {
                    bps: old(self)@.bps.update(
                        pos as int,
                        BpV { armed: true, req: Some(req), ..old(self)@.bps[pos as int] },
                    ),
                    ..old(self)@
                }
            } else {
                old(self)@
            }),
    {
        if pos < self.bps.len() {
            let b = Bp { file: self.bps[pos].file.clone(), line: self.bps[pos].line, armed: true, req: Some(req) };
            self.bps[pos] = b;
            assert(bps_v(self.bps@) =~= old(self)@.bps.update(
                pos as int,
                BpV { armed: true, req: Some(req), ..old(self)@.bps[pos as int] },
            ));
        }
    }

    /// The watch for type loads is in place.
    pub fn watched(&mut self, req: i32)
        ensures
            final(self)@ == (SessionV { watch_req: Some(req), ..old(self)@ }),
    {
        self.watch_req = Some(req);
    }

    /// A step is under way.
    pub fn stepping(&mut self, req: i32)
        ensures
            final(self)@ == (SessionV { step_req: Some(req), ..old(self)@ }),
    {
        self.step_req = Some(req);
    }

    fn run_on(&mut self)
        ensures
            final(self)@ == running(old(self)@),
    {
        self.ui.show_running();
        self.cur_thread = 0;
        self.frames = Vec::new();
        assert(self@ =~= running(old(self)@));
    }

    fn find_bp(&self, base: &str, line: i32) -> (r: usize)
        ensures
            r == bp_at(self@.bps, base@, line, 0),
            r <= self@.bps.len(),
    {
        let ghost bs = self@.bps;
        let mut i: usize = 0;
        while i < self.bps.len()
            invariant
                i <= self.bps@.len(),
                bs == bps_v(self.bps@),
                bp_at(bs, base@, line, 0) == bp_at(bs, base@, line, i as int),
            decreases self.bps@.len() - i,
        {
            assert(bs[i as int] == self.bps@[i as int]@);
            let b = basename(self.bps[i].file.as_str());
            if self.bps[i].line == line && same(b.as_str(), base) {
                return i;
            }
            i = i + 1;
        }
        i
    }

    fn toggle_bp(&mut self, line: i32) -> (r: Vec<Act>)
        ensures
            final(self)@ == bp_toggled(old(self)@, line).0,
            acts_v(r@) == bp_toggled(old(self)@, line).1,
    {
        let base = basename(self.ui_view.as_str());
        let mut acts = no_acts();
        if base.as_str().is_empty() {
            return acts;
        }
        let ghost bs = self@.bps;
        let p: usize = self.find_bp(base.as_str(), line);
        if p < self.bps.len() {
            assert(bs[p as int] == self.bps@[p as int]@);
            if let Some(q) = self.bps[p].req {
                push_act(&mut acts, Act::ClearBreakpoint(q));
            }
            let _ = self.bps.remove(p);
            assert(bps_v(self.bps@) =~= bs.remove(p as int));
        } else {
            push_act(&mut acts, Act::ArmLoaded(p));
            let b = new_bp(base.as_str(), line);
            self.bps.push(b);
            assert(bps_v(self.bps@) =~= bs.push(b@));
        }
        self.sync_bps();
        let lines = self.stored_lines(base.as_str());
        push_act(&mut acts, Act::Persist(self.ui_view.clone(), lines));
        assert(acts_v(acts@) =~= bp_toggled(old(self)@, line).1);
        acts
    }

    fn step(&mut self, depth: Depth) -> (r: Vec<Act>)
        ensures
            final(self)@ == stepped(old(self)@, depth).0,
            acts_v(r@) == stepped(old(self)@, depth).1,
    {
        if self.cur_thread == 0 {
            return no_acts();
        }
        let mut acts = one_act(Act::Step(self.cur_thread, depth));
        push_act(&mut acts, Act::Resume);
        self.run_on();
        assert(acts_v(acts@) =~= stepped(old(self)@, depth).1);
        acts
    }

    /// Take a command of the user.
    pub fn command(&mut self, cmd: Cmd) -> (r: Vec<Act>)
        ensures
            final(self)@ == commanded(old(self)@, cmd@).0,
            acts_v(r@) == commanded(old(self)@, cmd@).1,
    {
        match cmd {
            // Attach elsewhere: this connection is dropped.
            Cmd::SelectTarget(t) => one_act(Act::Leave(t)),
            // View + breakpoint edits work any time (even while running).
            Cmd::View(file) => {
                self.ui_view = file;
                self.sync_bps();
                no_acts()
            },
            Cmd::ToggleBp(line) => self.toggle_bp(line),
            Cmd::Pause => if self.cur_thread == 0 {
                one_act(Act::Suspend)
            } else {
                no_acts()
            },
            Cmd::SelectThread(t) => if self.cur_thread != 0 {
                self.cur_thread = t;
                one_act(Act::Inspect(t, Why::Select))
            } else {
                no_acts()
            },
            Cmd::SelectFrame(i) => if self.cur_thread != 0 && i < self.frames.len() {
                one_act(Act::InspectFrame(i, self.cur_thread, self.frames[i]))
            } else {
                no_acts()
            },
            Cmd::ExpandVar(e) => if self.cur_thread != 0 {
                one_act(Act::Fetch(e))
            } else {
                no_acts()
            },
            // Resume/step only make sense while stopped.
            Cmd::Resume => if self.cur_thread != 0 {
                self.run_on();
                one_act(Act::Resume)
            } else {
                no_acts()
            },
            Cmd::StepOver => self.step(Depth::Over),
            Cmd::StepInto => self.step(Depth::Into),
            Cmd::StepOut => self.step(Depth::Out),
        }
    }

    /// The program is suspended: `threads` are its threads with the line their
    /// innermost frame is at (0 where it is unknown). One with a known line is
    /// looked at, else the first; without any thread the program runs on.
    pub fn suspended(&self, threads: &Vec<(u32, i32)>) -> (r: Vec<Act>)
        ensures
            acts_v(r@) == (if picked(threads@, 0) != 0 {
                seq![ActV::Inspect(picked(threads@, 0), Why::Pause)]
            } else {
                seq![ActV::Resume]
            }),
    {
        let t: u32 = pick_thread(threads);
        if t != 0 {
            one_act(Act::Inspect(t, Why::Pause))
        } else {
            one_act(Act::Resume)
        }
    }

    /// A thread was looked at.
    pub fn inspected(&mut self, thread: u32, why: Why, stop: Stop, threads: Vec<ThreadInfo>) -> (r: Vec<Act>)
        ensures
            final(self)@ == inspected_v(old(self)@, thread, why, stop, threads_v(threads@)).0,
            acts_v(r@) == inspected_v(old(self)@, thread, why, stop, threads_v(threads@)).1,
            final(self).window().locals == stop.locals,
            final(self).window().members == stop.members,
            final(self).window().stack == stop.stack,
            final(self).window().cur_file == stop.file,
            final(self).window().cur_line == stop.line,
    {
        self.cur_thread = thread;
        self.ui_view = stop.file.clone();
        let mut frames: Vec<Frame> = Vec::new();
        let mut i: usize = 0;
        while i < stop.frames.len()
            invariant
                i <= stop.frames@.len(),
                frames@ == stop.frames@.take(i as int),
            decreases stop.frames@.len() - i,
        {
            frames.push(stop.frames[i]);
            i = i + 1;
            assert(frames@ =~= stop.frames@.take(i as int));
        }
        assert(stop.frames@.take(i as int) =~= stop.frames@);
        self.frames = frames;
        self.ui.show_stop(thread, stop);
        match why {
            Why::Select => {},
            _ => {
                self.ui.stopped = true;
                self.ui.threads = threads;
            },
        }
        self.sync_bps();
        match why {
            Why::Select => no_acts(),
            Why::Hit { was_step: true } => no_acts(),
            _ => one_act(Act::Focus),
        }
    }

    /// A frame of the stopped thread was looked at.
    pub fn frame_inspected(&mut self, idx: usize, f: FrameView)
        ensures
            final(self)@ == synced(
                SessionV { ui: frame_shown(old(self)@.ui, idx, f), ui_view: f.file@, ..old(self)@ },
            ),
            final(self).window().locals == f.locals,
            final(self).window().members == f.members,
            final(self).window().cur_file == f.file,
            final(self).window().cur_line == f.line,
    {
        self.ui_view = f.file.clone();
        self.ui.show_frame(idx, f);
        self.sync_bps();
    }

    /// The children of a value were fetched.
    pub fn fetched(&mut self, id: u32, kids: Vec<Var>)
        ensures
            final(self)@ == (SessionV {
                ui: UiV {
                    children: old(self)@.ui.children.insert(id, vars_v(kids@)),
                    ..old(self)@.ui
                },
                ..old(self)@
            }),
    {
        self.ui.set_children(id, kids);
    }

    /// Take an event of the target.
    pub fn event(&mut self, ev: Event) -> (r: Vec<Act>)
        ensures
            final(self)@ == event_taken(old(self)@, ev@).0,
            acts_v(r@) == event_taken(old(self)@, ev@).1,
    {
        match ev {
            Event::DomainCreated(fresh) => {
                // Fresh (play-mode) domain: give up the old requests (so they can't
                // linger as duplicates), re-sync breakpoints from the shared store,
                // then re-watch; they are armed as their types load.
                let ghost bs = self@.bps;
                let mut acts = no_acts();
                let mut bare: Vec<Bp> = Vec::new();
                let mut i: usize = 0;
                while i < self.bps.len()
                    invariant
                        i <= self.bps@.len(),
                        self@ == old(self)@,
                        bs == bps_v(self.bps@),
                        acts_v(acts@) == requests(bs, i as int),
                        bps_v(bare@) == Seq::new(i as nat, |k: int| unarmed(bs[k].file, bs[k].line)),
                    decreases self.bps@.len() - i,
                {
                    assert(bs[i as int] == self.bps@[i as int]@);
                    let ghost before = bps_v(bare@);
                    if let Some(q) = self.bps[i].req {
                        push_act(&mut acts, Act::ClearBreakpoint(q));
                    }
                    let b = new_bp(self.bps[i].file.as_str(), self.bps[i].line);
                    bare.push(b);
                    assert(bps_v(bare@) =~= before.push(b@));
                    i = i + 1;
                    assert(bps_v(bare@) =~= Seq::new(i as nat, |k: int| unarmed(bs[k].file, bs[k].line)));
                }
                self.bps = match &fresh {
                    Some(p) => seed_bps(p),
                    None => bare,
                };
                let ghost head = acts_v(acts@);
                let mut more = self.rewatch();
                let ghost tail = acts_v(more@);
                acts.append(&mut more);
                assert(acts_v(acts@) =~= head + tail);
                self.sync_bps();
                acts
            },
            Event::TypeLoaded(t) => {
                let ghost bs = self@.bps;
                let mut acts = no_acts();
                let mut i: usize = 0;
                while i < self.bps.len()
                    invariant
                        i <= self.bps@.len(),
                        self@ == old(self)@,
                        bs == bps_v(self.bps@),
                        acts_v(acts@) == arm_on_type(bs, t, i as int),
                    decreases self.bps@.len() - i,
                {
                    assert(bs[i as int] == self.bps@[i as int]@);
                    if !self.bps[i].armed {
                        push_act(&mut acts, Act::ArmType(i, t));
                    }
                    i = i + 1;
                }
                acts
            },
            Event::Stopped(t) => {
                // A landed step keeps focus where it is; a real breakpoint hit
                // surfaces the window (the user is over in the editor).
                let was_step = self.step_req.is_some();
                let mut acts = no_acts();
                if let Some(q) = self.step_req {
                    push_act(&mut acts, Act::ClearStep(q));
                }
                self.step_req = None;
                self.cur_thread = t;
                push_act(&mut acts, Act::Inspect(t, Why::Hit { was_step }));
                assert(acts_v(acts@) =~= event_taken(old(self)@, ev@).1);
                acts
            },
            Event::Died => {
                self.ui.attached = false;
                self.ui.status = "target exited".to_owned();
                one_act(Act::Quit)
            },
            Event::Other => no_acts(),
        }
    }

    /// The target went away.
    pub fn disconnected(&mut self, label: &str) -> (r: Vec<Act>)
        ensures
            final(self)@ == (SessionV {
                ui: UiV { attached: false, status: label@ + " disconnected"@, ..old(self)@.ui },
                ..old(self)@
            }),
            acts_v(r@) == seq![ActV::Quit],
    {
        self.ui.attached = false;
        self.ui.status = join2(label, " disconnected");
        one_act(Act::Quit)
    }

    /// Reconcile the live breakpoints with the shared store, edited elsewhere while
    /// we run: breakpoints dropped from the store are cleared and ones newly added
    /// are to be armed, leaving unchanged ones (and their armed state) intact.
    pub fn reconcile_breakpoints(&mut self, fresh: &Vec<(String, i32)>) -> (r: Vec<Act>)
        ensures
            final(self)@ == reconciled(old(self)@, bp_pairs(fresh@)).0,
            acts_v(r@) == reconciled(old(self)@, bp_pairs(fresh@)).1,
    {
        let ghost bs = self@.bps;
        let ghost fs = bp_pairs(fresh@);
        let mut acts = no_acts();
        let mut keep: Vec<Bp> = Vec::new();
        assert(bps_v(keep@) =~= Seq::empty());
        let mut i: usize = 0;
        while i < self.bps.len()
            invariant
                i <= self.bps@.len(),
                self@ == old(self)@,
                bs == bps_v(self.bps@),
                fs == bp_pairs(fresh@),
                acts_v(acts@) == dropped(bs, fs, i as int),
                bps_v(keep@) == kept(bs, fs, i as int),
            decreases self.bps@.len() - i,
        {
            assert(bs[i as int] == self.bps@[i as int]@);
            let ghost before = bps_v(keep@);
            if is_wanted(fresh, self.bps[i].file.as_str(), self.bps[i].line) {
                let b = Bp {
                    file: self.bps[i].file.clone(),
                    line: self.bps[i].line,
                    armed: self.bps[i].armed,
                    req: self.bps[i].req,
                };
                keep.push(b);
                assert(bps_v(keep@) =~= before.push(bs[i as int]));
            } else if let Some(q) = self.bps[i].req {
                push_act(&mut acts, Act::ClearBreakpoint(q));
            }
            i = i + 1;
        }
        self.bps = keep;
        let ghost k = self@.bps;
        let ghost head = acts_v(acts@);
        assert(head + arm_range(k.len() as int, k.len() as int) =~= head);
        let mut j: usize = 0;
        while j < fresh.len()
            invariant
                j <= fresh@.len(),
                fs == bp_pairs(fresh@),
                self@ == (SessionV { bps: self@.bps, ..old(self)@ }),
                self@.bps == added(k, fs, j as int),
                k.len() <= self@.bps.len(),
                acts_v(acts@) == head + arm_range(k.len() as int, self@.bps.len() as int),
            decreases fresh@.len() - j,
        {
            assert(fs[j as int] == (fresh@[j as int].0@, fresh@[j as int].1));
            let ghost b0 = self@.bps;
            if !self.has_bp(fresh[j].0.as_str(), fresh[j].1) {
                let n: usize = self.bps.len();
                let b = new_bp(fresh[j].0.as_str(), fresh[j].1);
                self.bps.push(b);
                assert(bps_v(self.bps@) =~= b0.push(b@));
                push_act(&mut acts, Act::ArmLoaded(n));
                assert(acts_v(acts@) =~= head + arm_range(k.len() as int, self@.bps.len() as int));
            }
            j = j + 1;
        }
        self.sync_bps();
        acts
    }

    fn has_bp(&self, file: &str, line: i32) -> (r: bool)
        ensures
            r == present(self@.bps, file@, line),
    {
        let ghost bs = self@.bps;
        let mut i: usize = 0;
        while i < self.bps.len()
            invariant
                i <= self.bps@.len(),
                bs == bps_v(self.bps@),
                forall|k: int| 0 <= k < i ==> !((#[trigger] bs[k]).file == file@ && bs[k].line == line),
            decreases self.bps@.len() - i,
        {
            assert(bs[i as int] == self.bps@[i as int]@);
            if self.bps[i].line == line && same(self.bps[i].file.as_str(), file) {
                return true;
            }
            i = i + 1;
        }
        false
    }
}

/// How long to wait before trying to arm breakpoints again, in milliseconds.
pub const RETRY_MS: u64 = 500;

/// The first thread from the `i`-th on with a known line, else the first, else 0.
pub open spec fn picked(threads: Seq<(u32, i32)>, i: int) -> u32
    decreases threads.len() - i,
{
    if i < 0 || i >= threads.len() {
        if threads.len() > 0 {
            threads[0].0
        } else {
            0
        }
    } else if threads[i].1 > 0 {
        threads[i].0
    } else {
        picked(threads, i + 1)
    }
}

fn pick_thread(threads: &Vec<(u32, i32)>) -> (r: u32)
    ensures
        r == picked(threads@, 0),
{
    let mut i: usize = 0;
    while i < threads.len()
        invariant
            i <= threads@.len(),
            picked(threads@, 0) == picked(threads@, i as int),
        decreases threads@.len() - i,
    {
        if threads[i].1 > 0 {
            return threads[i].0;
        }
        i = i + 1;
    }
    if threads.len() > 0 {
        threads[0].0
    } else {
        0
    }
}

/// Whether a batch of events leaves the target to be resumed: it was suspended for
/// the batch, and nothing in it stopped the program.
pub fn must_resume(suspended: bool, stopped_here: bool) -> (r: bool)
    ensures
        r == (suspended && !stopped_here),
{
    suspended && !stopped_here
}


/// The breakpoints to start with: those given, and where none are, those of the
/// store.
pub fn seed(given: Vec<(String, i32)>, store: Option<Vec<(String, i32)>>) -> (r: Vec<(String, i32)>)
    ensures
        given@.len() > 0 ==> r == given,
        given@.len() == 0 ==> match store {
            Some(s) => r == s,
            None => r@.len() == 0,
        },
{
    if given.len() > 0 {
        given
    } else {
        match store {
            Some(s) => s,
            None => Vec::new(),
        }
    }
}

/// The target to start with: this project's editor, whose address is looked up.
pub fn editor_target() -> (r: Target)
    ensures
        r@ == (TargetV { ip: Seq::empty(), port: 0, label: "Editor"@ }),
{
    Target { ip: String::new(), port: 0, label: "Editor".to_owned() }
}

/// A target with its address: the editor's is the one `found`, or this machine.
pub fn with_address(t: Target, found: Option<(String, u16)>) -> (r: Target)
    ensures
        r@ == (if t@.ip.len() > 0 {
            t@
        } else {
            match found {
                Some((ip, port)) => TargetV { ip: ip@, port, label: t@.label },
                None => TargetV { ip: "127.0.0.1"@, port: t@.port, label: t@.label },
            }
        }),
{
    if !t.ip.as_str().is_empty() {
        t
    } else {
        match found {
            Some((ip, port)) => Target { ip, port, label: t.label },
            None => Target { ip: "127.0.0.1".to_owned(), port: t.port, label: t.label },
        }
    }
}

/// The hexadecimal digits of a number.
pub open spec fn hex(n: nat) -> Seq<char>
    decreases n,
{
    if n < 16 {
        seq![hex_digit(n)]
    } else {
        hex(n / 16).push(hex_digit(n % 16))
    }
}

/// A hexadecimal digit.
pub open spec fn hex_digit(d: nat) -> char {
    if d < 10 {
        (('0' as int) + d) as char
    } else {
        (('a' as int) + d - 10) as char
    }
}

fn digit(d: u32) -> (r: char)
    requires
        d < 16,
    ensures
        r == hex_digit(d as nat),
{
    if d < 10 {
        (48 + d as u8) as char
    } else {
        (87 + d as u8) as char
    }
}

fn show_hex(n: u32) -> (r: String)
    ensures
        r@ == hex(n as nat),
    decreases n,
{
    let mut s = if n < 16 {
        String::new()
    } else {
        show_hex(n / 16)
    };
    s.push(digit(n % 16));
    assert(s@ =~= hex(n as nat));
    s
}

/// The log line of an armed breakpoint.
pub fn armed_note(method: &str, il: u32) -> (r: String)
    ensures
        r@ == "breakpoint: "@ + method@ + "+0x"@ + hex(il as nat),
{
    let h = show_hex(il);
    let mut s = join3("breakpoint: ", method, "+0x");
    s.append(h.as_str());
    s
}

// ---------------------------------------------------------------------------
// Laws
// ---------------------------------------------------------------------------

/// While the program runs, nothing that needs it stopped does anything.
pub proof fn law_running_ignores_stepping(s: SessionV, c: CmdV)
    requires
        s.cur_thread == 0,
        c is Resume || c is StepOver || c is StepInto || c is StepOut || c is SelectThread || c is SelectFrame
            || c is ExpandVar,
    ensures
        commanded(s, c) == (s, Seq::<ActV>::empty()),
{
}

/// While the program is stopped, pausing it does nothing.
pub proof fn law_stopped_ignores_pause(s: SessionV)
    requires
        s.cur_thread != 0,
    ensures
        commanded(s, CmdV::Pause) == (s, Seq::<ActV>::empty()),
{
}

/// Every step and every resumption is asked of a stopped thread, and leaves the
/// program running, with the resumption asked for last.
pub proof fn law_stepping_resumes(s: SessionV, c: CmdV)
    requires
        s.cur_thread != 0,
        c is Resume || c is StepOver || c is StepInto || c is StepOut,
    ensures
        commanded(s, c).0 == running(s),
        commanded(s, c).0.cur_thread == 0,
        commanded(s, c).1.len() > 0,
        commanded(s, c).1.last() == ActV::Resume,
{
}

proof fn lemma_bp_at(bps: Seq<BpV>, base: Seq<char>, line: i32, i: int)
    requires
        0 <= i <= bps.len(),
    ensures
        i <= bp_at(bps, base, line, i) <= bps.len(),
        forall|k: int|
            i <= k < bp_at(bps, base, line, i) ==> !(base_of((#[trigger] bps[k]).file) == base && bps[k].line == line),
        bp_at(bps, base, line, i) < bps.len() ==> base_of(bps[bp_at(bps, base, line, i)].file) == base && bps[bp_at(
            bps,
            base,
            line,
            i,
        )].line == line,
    decreases bps.len() - i,
{
    if i < bps.len() {
        lemma_bp_at(bps, base, line, i + 1);
    }
}

/// Toggling a breakpoint where there is none and toggling it again leaves the
/// breakpoints as they were.
pub proof fn law_toggle_twice(s: SessionV, line: i32)
    requires
        bp_at(s.bps, base_of(s.ui_view), line, 0) == s.bps.len(),
    ensures
        bp_toggled(bp_toggled(s, line).0, line).0.bps == s.bps,
{
    let base = base_of(s.ui_view);
    law_base_of_base(s.ui_view);
    if base.len() > 0 {
        let t = bp_toggled(s, line).0;
        lemma_bp_at(s.bps, base, line, 0);
        lemma_bp_at(t.bps, base, line, 0);
        let p = bp_at(t.bps, base, line, 0);
        assert(t.bps == s.bps.push(unarmed(base, line)));
        if p < s.bps.len() {
            assert(t.bps[p] == s.bps[p]);
        }
        assert(t.bps[s.bps.len() as int] == unarmed(base, line));
        assert(t.bps.remove(s.bps.len() as int) =~= s.bps);
    }
}

proof fn lemma_kept(bps: Seq<BpV>, pairs: Seq<(Seq<char>, i32)>, n: int, f: Seq<char>, l: i32)
    requires
        0 <= n <= bps.len(),
    ensures
        present(kept(bps, pairs, n), f, l) == (present(bps.take(n), f, l) && wanted(pairs, f, l)),
    decreases n,
{
    if n > 0 {
        lemma_kept(bps, pairs, n - 1, f, l);
        let b = bps[n - 1];
        let k0 = kept(bps, pairs, n - 1);
        let k1 = kept(bps, pairs, n);
        lemma_present_push(bps.take(n - 1), b, f, l);
        assert(bps.take(n) =~= bps.take(n - 1).push(b));
        lemma_present_push(k0, b, f, l);
    }
}

proof fn lemma_present_push(s: Seq<BpV>, b: BpV, f: Seq<char>, l: i32)
    ensures
        present(s.push(b), f, l) == (present(s, f, l) || (b.file == f && b.line == l)),
{
    let t = s.push(b);
    if present(s, f, l) {
        let i = choose|i: int| 0 <= i < s.len() && (#[trigger] s[i]).file == f && s[i].line == l;
        assert(t[i] == s[i]);
    }
    if b.file == f && b.line == l {
        assert(t[s.len() as int] == b);
    }
    if present(t, f, l) {
        let i = choose|i: int| 0 <= i < t.len() && (#[trigger] t[i]).file == f && t[i].line == l;
        if i < s.len() {
            assert(s[i] == t[i]);
        }
    }
}

proof fn lemma_added(bps: Seq<BpV>, pairs: Seq<(Seq<char>, i32)>, n: int, f: Seq<char>, l: i32)
    requires
        0 <= n <= pairs.len(),
    ensures
        present(added(bps, pairs, n), f, l) == (present(bps, f, l) || wanted(pairs.take(n), f, l)),
    decreases n,
{
    if n > 0 {
        lemma_added(bps, pairs, n - 1, f, l);
        let b = added(bps, pairs, n - 1);
        let p = pairs[n - 1];
        lemma_present_push(b, unarmed(p.0, p.1), f, l);
        let t = pairs.take(n);
        let u = pairs.take(n - 1);
        assert(t[n - 1] == p);
        if wanted(u, f, l) {
            let i = choose|i: int| 0 <= i < u.len() && #[trigger] u[i] == (f, l);
            assert(t[i] == u[i]);
        }
        if wanted(t, f, l) {
            let i = choose|i: int| 0 <= i < t.len() && #[trigger] t[i] == (f, l);
            if i < n - 1 {
                assert(u[i] == t[i]);
            }
        }
    }
}

/// After reconciling with the store there is a breakpoint exactly where the store
/// wants one.
pub proof fn law_reconcile_matches_store(s: SessionV, fresh: Seq<(Seq<char>, i32)>, f: Seq<char>, l: i32)
    ensures
        present(reconciled(s, fresh).0.bps, f, l) == wanted(fresh, f, l),
{
    let k = kept(s.bps, fresh, s.bps.len() as int);
    lemma_kept(s.bps, fresh, s.bps.len() as int, f, l);
    lemma_added(k, fresh, fresh.len() as int, f, l);
    assert(fresh.take(fresh.len() as int) =~= fresh);
    assert(s.bps.take(s.bps.len() as int) =~= s.bps);
}

proof fn lemma_kept_all(bps: Seq<BpV>, pairs: Seq<(Seq<char>, i32)>, n: int)
    requires
        0 <= n <= bps.len(),
        forall|i: int| 0 <= i < bps.len() ==> wanted(pairs, (#[trigger] bps[i]).file, bps[i].line),
    ensures
        kept(bps, pairs, n) == bps.take(n),
        dropped(bps, pairs, n) == Seq::<ActV>::empty(),
    decreases n,
{
    if n > 0 {
        lemma_kept_all(bps, pairs, n - 1);
        assert(bps.take(n) =~= bps.take(n - 1).push(bps[n - 1]));
    } else {
        assert(bps.take(0) =~= Seq::empty());
    }
}

proof fn lemma_added_none(bps: Seq<BpV>, pairs: Seq<(Seq<char>, i32)>, n: int)
    requires
        0 <= n <= pairs.len(),
        forall|i: int| 0 <= i < pairs.len() ==> present(bps, (#[trigger] pairs[i]).0, pairs[i].1),
    ensures
        added(bps, pairs, n) == bps,
    decreases n,
{
    if n > 0 {
        lemma_added_none(bps, pairs, n - 1);
    }
}

/// Reconciling with a store that wants the breakpoints there are changes none of
/// them, keeps what is armed, and asks for nothing.
pub proof fn law_reconcile_keeps_what_is_wanted(s: SessionV, fresh: Seq<(Seq<char>, i32)>)
    requires
        forall|i: int| 0 <= i < s.bps.len() ==> wanted(fresh, (#[trigger] s.bps[i]).file, s.bps[i].line),
        forall|i: int| 0 <= i < fresh.len() ==> present(s.bps, (#[trigger] fresh[i]).0, fresh[i].1),
    ensures
        reconciled(s, fresh).0.bps == s.bps,
        reconciled(s, fresh).1 == Seq::<ActV>::empty(),
{
    lemma_kept_all(s.bps, fresh, s.bps.len() as int);
    assert(s.bps.take(s.bps.len() as int) =~= s.bps);
    lemma_added_none(s.bps, fresh, fresh.len() as int);
    assert(reconciled(s, fresh).1 =~= Seq::<ActV>::empty());
}

/// Whatever the user does, the window goes on showing the breakpoints there are.
pub proof fn law_window_shows_breakpoints(s: SessionV, c: CmdV)
    requires
        synced(s) == s,
    ensures
        synced(commanded(s, c).0) == commanded(s, c).0,
{
    let t = commanded(s, c).0;
    assert(synced(s).ui.bp_lines == s.ui.bp_lines);
    assert(synced(s).ui.all_bps == s.ui.all_bps);
    assert(synced(t).ui.all_bps =~= t.ui.all_bps);
    assert(synced(t) =~= t);
}

/// What is shown of a window is what it holds: the view keeps the window's fields apart.
pub proof fn law_window_is_what_it_holds(u: UiState)
    ensures
        u@.status == u.status@ && u@.version == u.version@ && u@.this_label == u.this_label@,
        u@.cur_file == u.cur_file@ && u@.cur_target == u.cur_target@,
        u@.attached == u.attached && u@.stopped == u.stopped,
        u@.cur_line == u.cur_line && u@.cur_thread == u.cur_thread && u@.cur_frame == u.cur_frame,
        u@.locals.len() == u.locals@.len() && u@.members.len() == u.members@.len(),
        forall|i: int| 0 <= i < u.locals@.len() ==> #[trigger] u@.locals[i] == u.locals@[i]@,
        forall|i: int| 0 <= i < u.members@.len() ==> #[trigger] u@.members[i] == u.members@[i]@,
        u@.stack.len() == u.stack@.len() && u@.log.len() == u.log@.len(),
        forall|i: int| 0 <= i < u.stack@.len() ==> #[trigger] u@.stack[i] == u.stack@[i]@,
        forall|i: int| 0 <= i < u.log@.len() ==> #[trigger] u@.log[i] == u.log@[i]@,
        u@.bp_lines == u.bp_lines@,
{
}

/// The window of a session shows what the session says.
pub proof fn law_window_is_of_the_session(s: Session)
    ensures
        s@.ui == s.window()@,
{
}

/// After a thread was looked at, the window lists the locals of the stop as locals and
/// its members as members, row by row, with its stack and its place; the innermost frame
/// is on show, and nothing is expanded. The session is at that thread and its frames,
/// and views the stop's file. A stop that the user did not choose shows the threads and
/// that the program is stopped, and brings the window forward unless a step ended.
pub proof fn law_stop_is_shown(s: SessionV, thread: u32, why: Why, stop: Stop, threads: Seq<ThreadV>)
    ensures
        ({
            let (t, acts) = inspected_v(s, thread, why, stop, threads);
            let u = t.ui;
            &&& u.locals.len() == stop.locals@.len() && u.members.len() == stop.members@.len()
            &&& forall|i: int| 0 <= i < stop.locals@.len() ==> #[trigger] u.locals[i] == stop.locals@[i]@
            &&& forall|i: int| 0 <= i < stop.members@.len() ==> #[trigger] u.members[i] == stop.members@[i]@
            &&& u.stack.len() == stop.stack@.len()
            &&& forall|i: int| 0 <= i < stop.stack@.len() ==> #[trigger] u.stack[i] == stop.stack@[i]@
            &&& u.cur_file == stop.file@ && u.cur_line == stop.line && u.this_label == stop.this_label@
            &&& u.cur_thread == thread && u.cur_frame == 0 && u.children.dom().is_empty()
            &&& u.generation != s.ui.generation
            &&& t.cur_thread == thread && t.frames == stop.frames@ && t.ui_view == stop.file@
            &&& t.bps == s.bps && t.watch_req == s.watch_req && t.step_req == s.step_req
            &&& u.attached == s.ui.attached && u.status == s.ui.status && u.version == s.ui.version
            &&& u.log == s.ui.log && u.players == s.ui.players && u.cur_target == s.ui.cur_target
            &&& if why == Why::Select {
                u.stopped == s.ui.stopped && u.threads == s.ui.threads
            } else {
                u.stopped && u.threads == threads
            }
            &&& acts.len() == (if why == Why::Pause || why == (Why::Hit { was_step: false }) { 1int } else { 0 })
            &&& acts.len() == 1 ==> acts[0] == ActV::Focus
        }),
{
    let u = inspected_v(s, thread, why, stop, threads).0.ui;
    assert(u.children.dom() =~= Set::empty());
}

/// Showing another frame exchanges its variables and its place, and nothing else of the
/// stop: locals stay locals and members members.
pub proof fn law_frame_is_shown(u: UiV, idx: usize, f: FrameView)
    ensures
        ({
            let v = frame_shown(u, idx, f);
            &&& v.locals.len() == f.locals@.len() && v.members.len() == f.members@.len()
            &&& forall|i: int| 0 <= i < f.locals@.len() ==> #[trigger] v.locals[i] == f.locals@[i]@
            &&& forall|i: int| 0 <= i < f.members@.len() ==> #[trigger] v.members[i] == f.members@[i]@
            &&& v.cur_file == f.file@ && v.cur_line == f.line && v.this_label == f.this_label@
            &&& v.cur_frame == idx && v.cur_thread == u.cur_thread && v.children.dom().is_empty()
            &&& v.stack == u.stack && v.threads == u.threads && v.stopped == u.stopped
            &&& v.generation != u.generation
        }),
{
    assert(frame_shown(u, idx, f).children.dom() =~= Set::empty());
}

/// Once the program runs on, the window shows nothing of the stop; what else it shows,
/// the breakpoints among it, stays.
pub proof fn law_running_shows_no_stop(s: SessionV)
    ensures
        ({
            let t = running(s);
            let u = t.ui;
            &&& t.cur_thread == 0 && t.frames.len() == 0
            &&& !u.stopped && u.threads.len() == 0 && u.stack.len() == 0 && u.locals.len() == 0 && u.members.len() == 0
            &&& u.cur_thread == 0 && u.cur_frame == 0 && u.this_label.len() == 0 && u.children.dom().is_empty()
            &&& t.bps == s.bps && u.bp_lines == s.ui.bp_lines && u.all_bps == s.ui.all_bps
            &&& t.ui_view == s.ui_view && t.step_req == s.step_req && t.watch_req == s.watch_req
            &&& u.attached == s.ui.attached && u.log == s.ui.log && u.players == s.ui.players
            &&& u.cur_file == s.ui.cur_file && u.cur_target == s.ui.cur_target
        }),
{
    assert(running(s).ui.children.dom() =~= Set::empty());
}

/// Each command asks the target for what it is called: a step over, into or out of the
/// stopped thread's code and then to run, to run, to suspend, to look at the chosen
/// thread or frame, to fetch the value's children; another target is attached to by
/// leaving this one. Looking and pausing leave the program as it is.
pub proof fn law_commands_ask_for_what_they_say(
    s: SessionV,
    thread: u32,
    frame: usize,
    value: Expand,
    target: TargetV,
)
    ensures
        commanded(s, CmdV::SelectTarget(target)) == (s, seq![ActV::Leave(target)]),
        s.cur_thread == 0 ==> commanded(s, CmdV::Pause) == (s, seq![ActV::Suspend]),
        s.cur_thread != 0 ==> {
            &&& commanded(s, CmdV::StepOver).1 == seq![ActV::Step(s.cur_thread, Depth::Over), ActV::Resume]
            &&& commanded(s, CmdV::StepInto).1 == seq![ActV::Step(s.cur_thread, Depth::Into), ActV::Resume]
            &&& commanded(s, CmdV::StepOut).1 == seq![ActV::Step(s.cur_thread, Depth::Out), ActV::Resume]
            &&& commanded(s, CmdV::Resume).1 == seq![ActV::Resume]
            &&& commanded(s, CmdV::SelectThread(thread)) == (
                SessionV { cur_thread: thread, ..s },
                seq![ActV::Inspect(thread, Why::Select)],
            )
            &&& frame < s.frames.len() ==> commanded(s, CmdV::SelectFrame(frame)) == (
                s,
                seq![ActV::InspectFrame(frame as int, s.cur_thread, s.frames[frame as int])],
            )
            &&& frame >= s.frames.len() ==> commanded(s, CmdV::SelectFrame(frame)) == (s, Seq::<ActV>::empty())
            &&& commanded(s, CmdV::ExpandVar(value)) == (s, seq![ActV::Fetch(value)])
        },
{
}

proof fn lemma_lines_in(bps: Seq<BpV>, base: Seq<char>, n: int, l: i32)
    requires
        0 <= n <= bps.len(),
    ensures
        lines_in(bps, base, n).contains(l) == (exists|i: int|
            0 <= i < n && base_of((#[trigger] bps[i]).file) == base && bps[i].line == l),
    decreases n,
{
    if n > 0 {
        lemma_lines_in(bps, base, n - 1, l);
        let before = lines_in(bps, base, n - 1);
        let now = lines_in(bps, base, n);
        if base_of(bps[n - 1].file) == base {
            assert(now == before.push(bps[n - 1].line));
            assert(now[before.len() as int] == bps[n - 1].line);
            if before.contains(l) {
                let k = choose|k: int| 0 <= k < before.len() && before[k] == l;
                assert(now[k] == l);
            }
            if now.contains(l) && bps[n - 1].line != l {
                let k = choose|k: int| 0 <= k < now.len() && now[k] == l;
                assert(before[k] == l);
            }
        }
    }
}

/// The lines that the window marks are those of the breakpoints in files named as the
/// one on view, and the list holds every breakpoint with its line.
pub proof fn law_marked_lines_are_the_breakpoints(s: SessionV, l: i32)
    ensures
        synced(s).ui.bp_lines.contains(l) == (exists|i: int|
            0 <= i < s.bps.len() && base_of((#[trigger] s.bps[i]).file) == base_of(s.ui_view) && s.bps[i].line == l),
        synced(s).ui.all_bps.len() == s.bps.len(),
        forall|i: int|
            0 <= i < s.bps.len() ==> #[trigger] synced(s).ui.all_bps[i] == (base_of(s.bps[i].file), s.bps[i].line),
        synced(s) == (SessionV {
            ui: UiV { bp_lines: synced(s).ui.bp_lines, all_bps: synced(s).ui.all_bps, ..s.ui },
            ..s
        }),
{
    lemma_lines_in(s.bps, base_of(s.ui_view), s.bps.len() as int, l);
}

/// Toggling a line of the viewed file without a breakpoint adds one there, behind the
/// others, that is to be armed; toggling a line with one takes the first one there out
/// and gives up its request. The others stay as they are.
pub proof fn law_toggle_adds_or_takes_out(s: SessionV, line: i32)
    requires
        base_of(s.ui_view).len() > 0,
    ensures
        ({
            let (t, acts) = bp_toggled(s, line);
            let base = base_of(s.ui_view);
            if exists|i: int| 0 <= i < s.bps.len() && base_of((#[trigger] s.bps[i]).file) == base && s.bps[i].line == line {
                exists|p: int|
                    {
                        &&& 0 <= p < s.bps.len() && base_of((#[trigger] s.bps[p]).file) == base && s.bps[p].line == line
                        &&& forall|k: int|
                            0 <= k < p ==> !(base_of((#[trigger] s.bps[k]).file) == base && s.bps[k].line == line)
                        &&& t.bps == s.bps.remove(p)
                        &&& s.bps[p].req matches Some(q) ==> acts.len() == 2 && acts[0] == ActV::ClearBreakpoint(q)
                        &&& s.bps[p].req is None ==> acts.len() == 1
                    }
            } else {
                &&& t.bps.len() == s.bps.len() + 1 && t.bps.drop_last() == s.bps
                &&& t.bps.last().line == line && base_of(t.bps.last().file) == base
                &&& !t.bps.last().armed && t.bps.last().req is None
                &&& acts.len() == 2 && acts[0] == ActV::ArmLoaded(s.bps.len() as int)
            }
        }),
{
    let base = base_of(s.ui_view);
    law_base_of_base(s.ui_view);
    let p = bp_at(s.bps, base, line, 0);
    lemma_bp_at(s.bps, base, line, 0);
    let (t, acts) = bp_toggled(s, line);
    if p < s.bps.len() {
        assert(t.bps == s.bps.remove(p));
    } else {
        assert(t.bps.drop_last() =~= s.bps);
    }
}

/// What is stored after a toggle are the lines of the breakpoints in the viewed file,
/// counted from 0, under the file's path.
pub proof fn law_toggle_is_stored(s: SessionV, line: i32, l: i64)
    requires
        base_of(s.ui_view).len() > 0,
    ensures
        ({
            let (t, acts) = bp_toggled(s, line);
            &&& acts.len() > 0
            &&& acts.last() matches ActV::Persist(path, lines)
            &&& path == s.ui_view
            &&& lines.contains(l) == (exists|i: int|
                0 <= i < t.bps.len() && base_of((#[trigger] t.bps[i]).file) == base_of(s.ui_view) && t.bps[i].line - 1
                    == l)
        }),
{
    let (t, acts) = bp_toggled(s, line);
    let base = base_of(s.ui_view);
    let ls = lines_in(t.bps, base, t.bps.len() as int);
    let stored = store_lines(t.bps, base);
    if stored.contains(l) {
        let k = choose|k: int| 0 <= k < stored.len() && stored[k] == l;
        lemma_lines_in(t.bps, base, t.bps.len() as int, ls[k]);
        assert(ls.contains(ls[k]));
    }
    if exists|i: int| 0 <= i < t.bps.len() && base_of((#[trigger] t.bps[i]).file) == base && t.bps[i].line - 1 == l {
        let i = choose|i: int|
            0 <= i < t.bps.len() && base_of((#[trigger] t.bps[i]).file) == base && t.bps[i].line - 1 == l;
        lemma_lines_in(t.bps, base, t.bps.len() as int, t.bps[i].line);
        assert(ls.contains(t.bps[i].line));
        let k = choose|k: int| 0 <= k < ls.len() && ls[k] == t.bps[i].line;
        assert(stored[k] == l);
    }
}

/// A log gets its newest line at the end and keeps the lines before it, of which the
/// oldest go once there are more than it holds.
pub proof fn law_log_keeps_the_latest(log: Seq<Seq<char>>, msg: Seq<char>, k: int)
    requires
        log.len() <= LOG_CAP,
    ensures
        ({
            let l = logged(log, msg);
            &&& l.last() == msg
            &&& l.len() == (if log.len() < LOG_CAP { log.len() + 1 } else { LOG_CAP as nat })
            &&& 0 <= k < l.len() - 1 ==> l[k] == log[k + log.len() + 1 - l.len()]
        }),
{
}

/// A target that stops is looked at where it stopped, and its step is given up; one that
/// is gone closes the window. Other events change nothing.
pub proof fn law_events_are_followed(s: SessionV, thread: u32)
    ensures
        ({
            let (t, acts) = event_taken(s, EventV::Stopped(thread));
            &&& t == (SessionV { step_req: None, cur_thread: thread, ..s })
            &&& acts.last() == ActV::Inspect(thread, Why::Hit { was_step: s.step_req is Some })
            &&& s.step_req matches Some(q) ==> acts.len() == 2 && acts[0] == ActV::ClearStep(q)
            &&& s.step_req is None ==> acts.len() == 1
        }),
        ({
            let (t, acts) = event_taken(s, EventV::Died);
            &&& !t.ui.attached && t.ui.status == "target exited"@ && t.bps == s.bps
            &&& acts == seq![ActV::Quit]
        }),
        event_taken(s, EventV::Other) == (s, Seq::<ActV>::empty()),
{
}

proof fn lemma_requests(bps: Seq<BpV>, n: int, q: i32)
    requires
        0 <= n <= bps.len(),
    ensures
        requests(bps, n).contains(ActV::ClearBreakpoint(q)) == (exists|i: int|
            0 <= i < n && (#[trigger] bps[i]).req == Some(q)),
        forall|k: int| 0 <= k < requests(bps, n).len() ==> (#[trigger] requests(bps, n)[k]) is ClearBreakpoint,
    decreases n,
{
    if n > 0 {
        lemma_requests(bps, n - 1, q);
        let before = requests(bps, n - 1);
        let now = requests(bps, n);
        let a = ActV::ClearBreakpoint(q);
        if bps[n - 1].req is Some {
            assert(now[before.len() as int] == ActV::ClearBreakpoint(bps[n - 1].req->0));
            if before.contains(a) {
                let k = choose|k: int| 0 <= k < before.len() && before[k] == a;
                assert(now[k] == a);
            }
            if now.contains(a) && bps[n - 1].req != Some(q) {
                let k = choose|k: int| 0 <= k < now.len() && now[k] == a;
                assert(before[k] == a);
            }
        }
    }
}

/// In a fresh domain no breakpoint is armed: every request of the old one is given up,
/// and the breakpoints are those of the store, or where they were if the store cannot be
/// read.
pub proof fn law_fresh_domain_rearms(s: SessionV, fresh: Option<Seq<(Seq<char>, i32)>>, i: int, q: i32)
    ensures
        ({
            let (t, acts) = event_taken(s, EventV::DomainCreated(fresh));
            &&& t.bps.len() == (match fresh {
                Some(p) => p.len(),
                None => s.bps.len(),
            })
            &&& 0 <= i < t.bps.len() ==> {
                &&& !t.bps[i].armed && t.bps[i].req is None
                &&& (t.bps[i].file, t.bps[i].line) == (match fresh {
                    Some(p) => p[i],
                    None => (s.bps[i].file, s.bps[i].line),
                })
            }
            &&& acts.contains(ActV::ClearBreakpoint(q)) == (exists|k: int|
                0 <= k < s.bps.len() && (#[trigger] s.bps[k]).req == Some(q))
            &&& s.watch_req matches Some(w) ==> acts.contains(ActV::ClearWatch(w))
            &&& t.watch_req is None && t.cur_thread == s.cur_thread && t.step_req == s.step_req
        }),
{
    let (t, acts) = event_taken(s, EventV::DomainCreated(fresh));
    let head = requests(s.bps, s.bps.len() as int);
    let tail = rewatch_acts(s.watch_req, t.bps);
    let a = ActV::ClearBreakpoint(q);
    lemma_requests(s.bps, s.bps.len() as int, q);
    assert(acts == head + tail);
    if head.contains(a) {
        let k = choose|k: int| 0 <= k < head.len() && head[k] == a;
        assert(acts[k] == a);
    }
    if acts.contains(a) {
        let k = choose|k: int| 0 <= k < acts.len() && acts[k] == a;
        if k < head.len() {
            assert(head[k] == a);
        } else {
            assert(tail[k - head.len()] == a);
        }
    }
    if let Some(w) = s.watch_req {
        assert(tail[0] == ActV::ClearWatch(w));
        assert(acts[head.len() as int] == ActV::ClearWatch(w));
    }
}

proof fn lemma_arm_on_type(bps: Seq<BpV>, ty: u32, n: int, i: int)
    requires
        0 <= n <= bps.len(),
    ensures
        arm_on_type(bps, ty, n).contains(ActV::ArmType(i, ty)) == (0 <= i < n && !bps[i].armed),
        arm_loaded_v(bps, n).contains(ActV::ArmLoaded(i)) == (0 <= i < n && !bps[i].armed),
        forall|k: int|
            0 <= k < arm_on_type(bps, ty, n).len() ==> (#[trigger] arm_on_type(bps, ty, n)[k] matches ActV::ArmType(
                _,
                t,
            ) && t == ty),
    decreases n,
{
    if n > 0 {
        lemma_arm_on_type(bps, ty, n - 1, i);
        let x = arm_on_type(bps, ty, n - 1);
        let y = arm_on_type(bps, ty, n);
        let u = arm_loaded_v(bps, n - 1);
        let v = arm_loaded_v(bps, n);
        if !bps[n - 1].armed {
            assert(y[x.len() as int] == ActV::ArmType(n - 1, ty));
            assert(v[u.len() as int] == ActV::ArmLoaded(n - 1));
            if x.contains(ActV::ArmType(i, ty)) {
                let k = choose|k: int| 0 <= k < x.len() && x[k] == ActV::ArmType(i, ty);
                assert(y[k] == x[k]);
            }
            if u.contains(ActV::ArmLoaded(i)) {
                let k = choose|k: int| 0 <= k < u.len() && u[k] == ActV::ArmLoaded(i);
                assert(v[k] == u[k]);
            }
            if y.contains(ActV::ArmType(i, ty)) && i != n - 1 {
                let k = choose|k: int| 0 <= k < y.len() && y[k] == ActV::ArmType(i, ty);
                assert(x[k] == y[k]);
            }
            if v.contains(ActV::ArmLoaded(i)) && i != n - 1 {
                let k = choose|k: int| 0 <= k < v.len() && v[k] == ActV::ArmLoaded(i);
                assert(u[k] == v[k]);
            }
        }
    }
}

/// Exactly the breakpoints that are not armed are to be armed: on a type once it is
/// loaded, and on what is loaded already.
pub proof fn law_unarmed_breakpoints_are_armed(s: SessionV, ty: u32, i: int)
    ensures
        ({
            let (t, acts) = event_taken(s, EventV::TypeLoaded(ty));
            &&& t == s
            &&& acts.contains(ActV::ArmType(i, ty)) == (0 <= i < s.bps.len() && !s.bps[i].armed)
        }),
        arm_loaded_v(s.bps, s.bps.len() as int).contains(ActV::ArmLoaded(i)) == (0 <= i < s.bps.len()
            && !s.bps[i].armed),
{
    lemma_arm_on_type(s.bps, ty, s.bps.len() as int, i);
}

proof fn lemma_dropped(bps: Seq<BpV>, pairs: Seq<(Seq<char>, i32)>, n: int, q: i32)
    requires
        0 <= n <= bps.len(),
    ensures
        dropped(bps, pairs, n).contains(ActV::ClearBreakpoint(q)) == (exists|i: int|
            0 <= i < n && (#[trigger] bps[i]).req == Some(q) && !wanted(pairs, bps[i].file, bps[i].line)),
    decreases n,
{
    if n > 0 {
        lemma_dropped(bps, pairs, n - 1, q);
        let before = dropped(bps, pairs, n - 1);
        let now = dropped(bps, pairs, n);
        let a = ActV::ClearBreakpoint(q);
        if !wanted(pairs, bps[n - 1].file, bps[n - 1].line) && bps[n - 1].req is Some {
            assert(now[before.len() as int] == ActV::ClearBreakpoint(bps[n - 1].req->0));
            if before.contains(a) {
                let k = choose|k: int| 0 <= k < before.len() && before[k] == a;
                assert(now[k] == a);
            }
            if now.contains(a) && bps[n - 1].req != Some(q) {
                let k = choose|k: int| 0 <= k < now.len() && now[k] == a;
                assert(before[k] == a);
            }
        }
    }
}

/// Reconciling with the store gives up exactly the requests of the breakpoints that it
/// wants no more.
pub proof fn law_reconcile_gives_up_what_is_unwanted(s: SessionV, fresh: Seq<(Seq<char>, i32)>, q: i32)
    ensures
        reconciled(s, fresh).1.contains(ActV::ClearBreakpoint(q)) == (exists|i: int|
            0 <= i < s.bps.len() && (#[trigger] s.bps[i]).req == Some(q) && !wanted(
                fresh,
                s.bps[i].file,
                s.bps[i].line,
            )),
{
    let n = s.bps.len() as int;
    let head = dropped(s.bps, fresh, n);
    let k0 = kept(s.bps, fresh, n);
    let tail = arm_range(k0.len() as int, added(k0, fresh, fresh.len() as int).len() as int);
    let acts = reconciled(s, fresh).1;
    let a = ActV::ClearBreakpoint(q);
    lemma_dropped(s.bps, fresh, n, q);
    assert(acts == head + tail);
    if head.contains(a) {
        let k = choose|k: int| 0 <= k < head.len() && head[k] == a;
        assert(acts[k] == a);
    }
    if acts.contains(a) {
        let k = choose|k: int| 0 <= k < acts.len() && acts[k] == a;
        if k < head.len() {
            assert(head[k] == a);
        } else {
            assert(tail[k - head.len()] == a);
        }
    }
}

/// A suspended program is looked at in the first thread whose line is known; where none
/// is, in its first thread.
pub proof fn law_known_lines_are_looked_at_first(threads: Seq<(u32, i32)>, k: int)
    requires
        0 <= k < threads.len(),
    ensures
        threads[k].1 > 0 && (forall|j: int| 0 <= j < k ==> (#[trigger] threads[j]).1 <= 0) ==> picked(threads, 0)
            == threads[k].0,
        (forall|j: int| 0 <= j < threads.len() ==> (#[trigger] threads[j]).1 <= 0) ==> picked(threads, 0) == threads[0].0,
{
    if threads[k].1 > 0 && (forall|j: int| 0 <= j < k ==> (#[trigger] threads[j]).1 <= 0) {
        lemma_picked(threads, 0, k);
    }
    if forall|j: int| 0 <= j < threads.len() ==> (#[trigger] threads[j]).1 <= 0 {
        lemma_picked(threads, 0, threads.len() as int);
    }
}

proof fn lemma_picked(threads: Seq<(u32, i32)>, i: int, k: int)
    requires
        0 <= i <= k <= threads.len(),
        forall|j: int| 0 <= j < k ==> (#[trigger] threads[j]).1 <= 0,
    ensures
        picked(threads, i) == picked(threads, k),
    decreases k - i,
{
    if i < k {
        lemma_picked(threads, i + 1, k);
    }
}

/// What is shown anew has another generation than before: the next one.
pub proof fn law_generations_count_up(u: UiV, thread: u32, s: Stop, idx: usize, f: FrameView)
    ensures
        u.generation < u64::MAX ==> stop_shown(u, thread, s).generation == u.generation + 1,
        u.generation < u64::MAX ==> frame_shown(u, idx, f).generation == u.generation + 1,
        u.generation == u64::MAX ==> stop_shown(u, thread, s).generation == 0,
        run_shown(u).generation == u.generation,
{
}

/// The value of a hexadecimal digit.
pub open spec fn hex_value(c: char) -> int {
    if '0' <= c <= '9' {
        c as int - '0' as int
    } else {
        c as int - 'a' as int + 10
    }
}

/// An offset is shown in hexadecimal: its last digit is what is left of it by sixteen, the
/// digits before it are those of the sixteenth.
pub proof fn law_offsets_are_shown_in_hexadecimal(n: nat)
    ensures
        hex(n).len() > 0,
        hex_value(hex(n).last()) == n % 16,
        n < 16 ==> hex(n).len() == 1,
        n >= 16 ==> hex(n).drop_last() == hex(n / 16),
        '0' <= hex(n).last() <= '9' || 'a' <= hex(n).last() <= 'f',
{
    if n >= 16 {
        assert(hex(n).drop_last() =~= hex(n / 16));
    }
}

/// Reconciling with the store keeps every breakpoint that it still wants as it is. Exactly
/// those that it adds are to be armed; all others were there before.
pub proof fn law_reconcile_arms_what_is_new(s: SessionV, fresh: Seq<(Seq<char>, i32)>, i: int, j: int)
    ensures
        ({
            let (t, acts) = reconciled(s, fresh);
            &&& 0 <= i < s.bps.len() && wanted(fresh, s.bps[i].file, s.bps[i].line) ==> t.bps.contains(s.bps[i])
            &&& acts.contains(ActV::ArmLoaded(j)) ==> 0 <= j < t.bps.len() && !t.bps[j].armed && t.bps[j].req is None
            &&& 0 <= j < t.bps.len() && !acts.contains(ActV::ArmLoaded(j)) ==> s.bps.contains(t.bps[j])
        }),
{
    let n = s.bps.len() as int;
    let k = kept(s.bps, fresh, n);
    let a = added(k, fresh, fresh.len() as int);
    let (t, acts) = reconciled(s, fresh);
    let head = dropped(s.bps, fresh, n);
    let tail = arm_range(k.len() as int, a.len() as int);
    assert(acts == head + tail);
    lemma_kept_are_kept(s.bps, fresh, n, i);
    lemma_added_behind(k, fresh, fresh.len() as int);
    if 0 <= i < n && wanted(fresh, s.bps[i].file, s.bps[i].line) {
        let m = choose|m: int| 0 <= m < k.len() && k[m] == s.bps[i];
        assert(a[m] == k[m]);
    }
    if acts.contains(ActV::ArmLoaded(j)) {
        let m = choose|m: int| 0 <= m < acts.len() && acts[m] == ActV::ArmLoaded(j);
        lemma_dropped_clear(s.bps, fresh, n);
        if m < head.len() {
            assert(head[m] is ClearBreakpoint);
        } else {
            assert(tail[m - head.len()] == ActV::ArmLoaded(k.len() + (m - head.len())));
        }
    }
    if 0 <= j < t.bps.len() && !acts.contains(ActV::ArmLoaded(j)) {
        if j >= k.len() {
            let m = head.len() + (j - k.len());
            assert(acts[m] == tail[j - k.len()]);
        } else {
            assert(a[j] == k[j]);
            lemma_kept_were_there(s.bps, fresh, n, j);
        }
    }
}

proof fn lemma_kept_are_kept(bps: Seq<BpV>, pairs: Seq<(Seq<char>, i32)>, n: int, i: int)
    requires
        0 <= n <= bps.len(),
    ensures
        0 <= i < n && wanted(pairs, bps[i].file, bps[i].line) ==> kept(bps, pairs, n).contains(bps[i]),
    decreases n,
{
    if n > 0 && 0 <= i < n && wanted(pairs, bps[i].file, bps[i].line) {
        let was = kept(bps, pairs, n - 1);
        let now = kept(bps, pairs, n);
        if i < n - 1 {
            lemma_kept_are_kept(bps, pairs, n - 1, i);
            let m = choose|m: int| 0 <= m < was.len() && was[m] == bps[i];
            assert(now[m] == bps[i]);
        } else {
            assert(now[was.len() as int] == bps[i]);
        }
    }
}

proof fn lemma_kept_were_there(bps: Seq<BpV>, pairs: Seq<(Seq<char>, i32)>, n: int, j: int)
    requires
        0 <= n <= bps.len(),
        0 <= j < kept(bps, pairs, n).len(),
    ensures
        bps.contains(kept(bps, pairs, n)[j]),
    decreases n,
{
    if n > 0 {
        let was = kept(bps, pairs, n - 1);
        if j < was.len() {
            lemma_kept_were_there(bps, pairs, n - 1, j);
        } else {
            assert(bps.contains(bps[n - 1]));
        }
    }
}

proof fn lemma_added_behind(bps: Seq<BpV>, pairs: Seq<(Seq<char>, i32)>, n: int)
    requires
        0 <= n <= pairs.len(),
    ensures
        added(bps, pairs, n).len() >= bps.len(),
        forall|m: int| 0 <= m < bps.len() ==> #[trigger] added(bps, pairs, n)[m] == bps[m],
        forall|m: int|
            bps.len() <= m < added(bps, pairs, n).len() ==> !(#[trigger] added(bps, pairs, n)[m]).armed && added(
                bps,
                pairs,
                n,
            )[m].req is None,
    decreases n,
{
    if n > 0 {
        lemma_added_behind(bps, pairs, n - 1);
    }
}

proof fn lemma_dropped_clear(bps: Seq<BpV>, pairs: Seq<(Seq<char>, i32)>, n: int)
    requires
        0 <= n <= bps.len(),
    ensures
        forall|m: int| 0 <= m < dropped(bps, pairs, n).len() ==> #[trigger] dropped(bps, pairs, n)[m] is ClearBreakpoint,
    decreases n,
{
    if n > 0 {
        lemma_dropped_clear(bps, pairs, n - 1);
    }
}

/// The files of the breakpoints are watched, and no others; without a breakpoint nothing is.
/// What was watched before is given up.
pub proof fn law_files_of_breakpoints_are_watched(watch: Option<i32>, bps: Seq<BpV>, file: Seq<char>)
    ensures
        ({
            let acts = rewatch_acts(watch, bps);
            &&& watch matches Some(q) ==> acts.len() > 0 && acts[0] == ActV::ClearWatch(q)
            &&& bps.len() > 0 ==> acts.len() > 0 && (acts.last() matches ActV::Watch(files) && (files.contains(file)
                <==> exists|i: int| 0 <= i < bps.len() && (#[trigger] bps[i]).file == file))
            &&& bps.len() == 0 ==> forall|i: int| 0 <= i < acts.len() ==> !(#[trigger] acts[i] is Watch)
        }),
{
    let names = Seq::new(bps.len(), |i: int| bps[i].file);
    law_sorting_keeps_the_texts(names, bps.len() as int, file);
    if exists|i: int| 0 <= i < bps.len() && (#[trigger] bps[i]).file == file {
        let i = choose|i: int| 0 <= i < bps.len() && (#[trigger] bps[i]).file == file;
        assert(names[i] == file);
    }
    if exists|i: int| 0 <= i < bps.len() && #[trigger] names[i] == file {
        let i = choose|i: int| 0 <= i < bps.len() && #[trigger] names[i] == file;
        assert(bps[i].file == file);
    }
}

} // verus!

//! What the debugger's window decides each frame: which file the source pane
//! shows, what the toolbar and lists say, and which commands clicks and keys send.

use std::collections::HashSet;

use vstd::prelude::*;
use vstd::string::StringExecFns;

use crate::debugger::session::{editor_target, Cmd, CmdV, Player, PlayerV, Target, TargetV, UiState, UiV};
use crate::debugger::source::{base_of, basename, ident_char, ident_flags, stretch, word_at};
use crate::debugger::vars::{law_locals_come_before_members, lookup, lookup_var};
use crate::editorview::EditorView;
use crate::input::edit::{fresh_box, retexted, settled, BoxV};
use crate::input::gutter::{all_marked, GutterV};
use crate::input::history::{history_wf, text_wf};
use crate::input::keys::gone_to;
use crate::input::look::LookV;
use crate::text::{ascii_digit, decimal_int, join2, join3, same, show_i64};

verus! {

broadcast use vstd::std_specs::hash::group_hash_axioms;

// ---------------------------------------------------------------------------
// The source pane follows the target
// ---------------------------------------------------------------------------

/// Which file is shown, and where it is about to scroll.
pub struct Follow {
    /// The file the source pane shows (may differ from the stopped file).
    pub view_file: String,
    /// Last-seen generation; when it changes, `var_open` is dropped.
    pub last_gen: u64,
    pub scroll_to_cur: bool,
    /// A line to scroll the source to next frame (e.g. from a breakpoint-list click).
    pub goto: Option<i32>,
    /// Object ids the user has expanded in the variables inspector.
    pub var_open: HashSet<u32>,
}

/// Which file is shown, and where it is about to scroll.
#[verifier::ext_equal]
pub struct FollowV {
    pub view_file: Seq<char>,
    pub last_gen: u64,
    pub scroll_to_cur: bool,
    pub goto: Option<i32>,
    pub var_open: Set<u32>,
}

impl View for Follow {
    type V = FollowV;

    open spec fn view(&self) -> FollowV {
        FollowV {
            view_file: self.view_file@,
            last_gen: self.last_gen,
            scroll_to_cur: self.scroll_to_cur,
            goto: self.goto,
            var_open: self.var_open@,
        }
    }
}

/// At the start of a frame: a new generation drops what was expanded, and a new
/// stop turns the source to where the target is. `resolved` is the local file of
/// the target's location.
pub open spec fn caught_up(f: FollowV, u: UiV, resolved: Seq<char>) -> FollowV {
    let g = if u.generation == f.last_gen {
        f
    } else if u.stopped {
        FollowV {
            last_gen: u.generation,
            var_open: Set::empty(),
            view_file: resolved,
            scroll_to_cur: true,
            ..f
        }
    } else {
        FollowV { last_gen: u.generation, var_open: Set::empty(), ..f }
    };
    if g.view_file.len() == 0 {
        FollowV { view_file: resolved, ..g }
    } else {
        g
    }
}

/// The line to scroll to this frame, and what is left to do after it: a fresh
/// stop comes first, then a line that was asked for.
pub open spec fn scrolled(f: FollowV, u: UiV) -> (FollowV, Option<i32>) {
    if f.scroll_to_cur && u.stopped {
        (FollowV { scroll_to_cur: false, ..f }, Some(u.cur_line))
    } else {
        (FollowV { goto: None, ..f }, f.goto)
    }
}

impl Follow {
    pub fn new() -> (r: Self)
        ensures
            r@ == (FollowV {
                view_file: Seq::empty(),
                last_gen: 0,
                scroll_to_cur: false,
                goto: None,
                var_open: Set::empty(),
            }),
    {
        let f = Follow {
            view_file: String::new(),
            last_gen: 0,
            scroll_to_cur: false,
            goto: None,
            var_open: HashSet::new(),
        };
        assert(f@.var_open =~= Set::empty());
        f
    }

    /// Start a frame; returns the line to scroll the source to, if any.
    pub fn begin(&mut self, u: &UiState, resolved: &str) -> (r: Option<i32>)
        ensures
            final(self)@ == scrolled(caught_up(old(self)@, u@, resolved@), u@).0,
            r == scrolled(caught_up(old(self)@, u@, resolved@), u@).1,
    {
        if u.generation != self.last_gen {
            self.last_gen = u.generation;
            self.var_open = HashSet::new();
            assert(self.var_open@ =~= Set::empty());
            if u.stopped {
                self.view_file = resolved.to_owned();
                self.scroll_to_cur = true;
            }
        }
        if self.view_file.as_str().is_empty() {
            self.view_file = resolved.to_owned();
        }
        if self.scroll_to_cur && u.stopped {
            self.scroll_to_cur = false;
            Some(u.cur_line)
        } else {
            let g = self.goto;
            self.goto = None;
            g
        }
    }

    /// A file was chosen in the tree or the breakpoint list. Showing another file
    /// is reported to the session, and a jump also scrolls the source next frame.
    pub fn chosen(&mut self, new_view: Option<String>, goto: Option<i32>) -> (r: Option<Cmd>)
        ensures
            match new_view {
                None => *final(self) == *old(self) && r is None,
                Some(v) => if v@ != old(self)@.view_file {
                    &&& final(self)@ == (FollowV { view_file: v@, scroll_to_cur: false, goto, ..old(self)@ })
                    &&& r is Some
                    &&& r->0@ == CmdV::View(v@)
                } else {
                    &&& final(self)@ == (FollowV { goto, ..old(self)@ })
                    &&& r is None
                },
            },
    {
        match new_view {
            None => None,
            Some(v) => {
                self.goto = goto;
                if same(v.as_str(), self.view_file.as_str()) {
                    None
                } else {
                    self.view_file = v.clone();
                    self.scroll_to_cur = false;
                    Some(Cmd::View(v))
                }
            },
        }
    }
}

/// A stop always turns the source to the target's location, and scrolls to its
/// line, whatever was shown before.
pub proof fn law_stop_is_followed(f: FollowV, u: UiV, resolved: Seq<char>)
    requires
        u.stopped,
        u.generation != f.last_gen,
    ensures
        caught_up(f, u, resolved).view_file == resolved,
        scrolled(caught_up(f, u, resolved), u).1 == Some(u.cur_line),
        caught_up(f, u, resolved).var_open == Set::<u32>::empty(),
{
}

/// Without a new generation the source stays where it is, and nothing that was
/// expanded is dropped.
pub proof fn law_browsing_is_kept(f: FollowV, u: UiV, resolved: Seq<char>)
    requires
        u.generation == f.last_gen,
        f.view_file.len() > 0,
    ensures
        caught_up(f, u, resolved) == f,
        scrolled(caught_up(f, u, resolved), u).0.view_file == f.view_file,
        scrolled(caught_up(f, u, resolved), u).0.var_open == f.var_open,
{
}

// ---------------------------------------------------------------------------
// The toolbar
// ---------------------------------------------------------------------------

/// How the status is coloured.
#[derive(Clone, Copy, PartialEq, Eq, Structural, Debug)]
pub enum Tone {
    Waiting,
    Failed,
    Paused,
    Running,
}

/// What the toolbar says of the target.
pub fn status(u: &UiState) -> (r: (String, Tone))
    ensures
        !u@.attached && u@.status.len() == 0 ==> r.0@ == "Connecting…"@ && r.1 == Tone::Waiting,
        !u@.attached && u@.status.len() > 0 ==> r.0@ == u@.status && r.1 == Tone::Failed,
        u@.attached && u@.stopped ==> r.0@ == "Paused"@ && r.1 == Tone::Paused,
        u@.attached && !u@.stopped ==> r.0@ == "Running"@ && r.1 == Tone::Running,
{
    if !u.attached {
        if u.status.as_str().is_empty() {
            ("Connecting…".to_owned(), Tone::Waiting)
        } else {
            (u.status.clone(), Tone::Failed)
        }
    } else if u.stopped {
        ("Paused".to_owned(), Tone::Paused)
    } else {
        ("Running".to_owned(), Tone::Running)
    }
}

/// What the toolbar tells of an attached target on hover.
pub fn status_tip(u: &UiState) -> (r: Option<String>)
    ensures
        match r {
            Some(s) => u@.attached && s@ == (if u@.version.len() == 0 {
                "attached"@
            } else {
                "attached — "@ + u@.version
            }),
            None => !u@.attached,
        },
{
    if !u.attached {
        None
    } else if u.version.as_str().is_empty() {
        Some("attached".to_owned())
    } else {
        Some(join2("attached — ", u.version.as_str()))
    }
}

/// A file and line as the toolbar and the breakpoint list show them.
pub open spec fn place(file: Seq<char>, line: i32) -> Seq<char> {
    file + ":"@ + decimal_int(line as int)
}

/// A row of the breakpoint list.
pub fn place_row(file: &str, line: i32) -> (r: String)
    ensures
        r@ == place(file@, line),
{
    let n = show_i64(line as i64);
    join3(file, ":", n.as_str())
}

/// Where a stopped target is, as the toolbar shows it.
pub fn location(u: &UiState) -> (r: Option<String>)
    ensures
        match r {
            Some(s) => u@.stopped && u@.cur_file.len() > 0 && s@ == place(base_of(u@.cur_file), u@.cur_line),
            None => !u@.stopped || u@.cur_file.len() == 0,
        },
{
    if u.stopped && !u.cur_file.as_str().is_empty() {
        let b = basename(u.cur_file.as_str());
        Some(place_row(b.as_str(), u.cur_line))
    } else {
        None
    }
}

/// The label of the current target.
pub open spec fn current_target(u: UiV) -> Seq<char> {
    if u.cur_target.len() == 0 {
        "Editor"@
    } else {
        u.cur_target
    }
}

/// The label of the current target.
pub fn target_label(u: &UiState) -> (r: String)
    ensures
        r@ == current_target(u@),
{
    if u.cur_target.as_str().is_empty() {
        "Editor".to_owned()
    } else {
        u.cur_target.clone()
    }
}

/// How a player is named as a target.
pub open spec fn player_label(p: PlayerV) -> Seq<char> {
    p.label + " ("@ + p.ip + ")"@
}

/// How a player is listed.
pub open spec fn player_text(p: PlayerV) -> Seq<char> {
    if p.project.len() == 0 {
        player_label(p)
    } else {
        p.project + " · "@ + player_label(p)
    }
}

/// A player as a target.
pub open spec fn player_target(p: PlayerV) -> TargetV {
    TargetV { ip: p.ip, port: p.port, label: player_label(p) }
}

fn label_of(p: &Player) -> (r: String)
    ensures
        r@ == player_label(p@),
{
    let mut s = join3(p.label.as_str(), " (", p.ip.as_str());
    s.append(")");
    s
}

/// A row of the target picker: its text, and whether it is the current target.
pub fn player_row(u: &UiState, p: &Player) -> (r: (String, bool))
    ensures
        r.0@ == player_text(p@),
        r.1 == (current_target(u@) == player_label(p@)),
{
    let label = label_of(p);
    let cur = target_label(u);
    let selected = same(cur.as_str(), label.as_str());
    if p.project.as_str().is_empty() {
        (label, selected)
    } else {
        (join3(p.project.as_str(), " · ", label.as_str()), selected)
    }
}

/// A row of the threads strip.
pub fn thread_text(name: &str, location: &str) -> (r: String)
    ensures
        r@ == name@ + "  ·  "@ + location@,
{
    join3(name, "  ·  ", location)
}

/// Whether the threads strip is shown: only when the stop involves more than one
/// managed thread.
pub fn shows_threads(u: &UiState) -> (r: bool)
    ensures
        r == (u@.threads.len() > 1),
{
    u.threads.len() > 1
}

// ---------------------------------------------------------------------------
// Clicks and keys
// ---------------------------------------------------------------------------

/// The step buttons and their keys, in order.
#[derive(Clone, Copy, PartialEq, Eq, Structural, Debug)]
pub struct Controls {
    pub resume: bool,
    pub over: bool,
    pub into: bool,
    pub out: bool,
    pub pause: bool,
}

/// Which pane has keyboard focus. Focus follows the last click.
#[derive(Clone, Copy, PartialEq, Eq, Structural, Debug)]
pub enum Focus {
    Nothing,
    Tree,
    Source,
}

/// What the user did in the window this frame; lists are clicked by index.
pub struct Input {
    pub buttons: Controls,
    pub keys: Controls,
    /// The editor in the target picker.
    pub editor: bool,
    /// A player in the target picker.
    pub player: Option<usize>,
    pub thread: Option<usize>,
    pub frame: Option<usize>,
    pub breakpoint: Option<usize>,
    /// A file chosen in the tree.
    pub file: Option<String>,
    /// A press of the pointer, and the pane it was in.
    pub pressed: Option<Focus>,
}

/// What a frame of the window comes to.
pub struct Output {
    pub cmds: Vec<Cmd>,
    pub new_view: Option<String>,
    pub goto: Option<i32>,
    pub focus: Focus,
}

/// The commands of a sequence.
pub open spec fn cmds_v(v: Seq<Cmd>) -> Seq<CmdV> {
    Seq::new(v.len(), |i: int| v[i]@)
}

/// A command, if it is given.
pub open spec fn maybe(given: bool, c: CmdV) -> Seq<CmdV> {
    if given {
        seq![c]
    } else {
        Seq::empty()
    }
}

/// The commands of the step buttons: stepping needs a stopped target, pausing a
/// running one.
pub open spec fn control_cmds(c: Controls, u: UiV) -> Seq<CmdV> {
    maybe(c.resume && u.stopped, CmdV::Resume) + maybe(c.over && u.stopped, CmdV::StepOver) + maybe(
        c.into && u.stopped,
        CmdV::StepInto,
    ) + maybe(c.out && u.stopped, CmdV::StepOut) + maybe(c.pause && u.attached && !u.stopped, CmdV::Pause)
}

/// The commands of a frame, in order.
pub open spec fn input_cmds(i: Input, u: UiV) -> Seq<CmdV> {
    control_cmds(i.buttons, u) + maybe(
        i.editor,
        CmdV::SelectTarget(TargetV { ip: Seq::empty(), port: 0, label: "Editor"@ }),
    ) + (match i.player {
        Some(k) => maybe(k < u.players.len(), CmdV::SelectTarget(player_target(u.players[k as int]))),
        None => Seq::empty(),
    }) + control_cmds(i.keys, u) + (match i.thread {
        Some(k) => maybe(
            u.threads.len() > 1 && k < u.threads.len() && u.threads[k as int].id != u.cur_thread,
            CmdV::SelectThread(u.threads[k as int].id),
        ),
        None => Seq::empty(),
    }) + (match i.frame {
        Some(k) => maybe(k < u.stack.len() && k != u.cur_frame, CmdV::SelectFrame(k)),
        None => Seq::empty(),
    })
}

/// The first project file from the `i`-th on with this name.
pub open spec fn file_named(files: Seq<(String, String)>, name: Seq<char>, i: int) -> int
    decreases files.len() - i,
{
    if i < 0 || i >= files.len() {
        files.len() as int
    } else if files[i].1@ == name {
        i
    } else {
        file_named(files, name, i + 1)
    }
}

/// The breakpoint that was clicked and the project file it is in, if there is one.
pub open spec fn jump(i: Input, u: UiV, files: Seq<(String, String)>) -> Option<(Seq<char>, i32)> {
    match i.breakpoint {
        Some(k) => if k < u.all_bps.len() && file_named(files, u.all_bps[k as int].0, 0) < files.len() {
            Some((files[file_named(files, u.all_bps[k as int].0, 0)].0@, u.all_bps[k as int].1))
        } else {
            None
        },
        None => None,
    }
}

fn push_if(v: &mut Vec<Cmd>, given: bool, c: Cmd)
    ensures
        cmds_v(final(v)@) == cmds_v(old(v)@) + maybe(given, c@),
{
    if given {
        v.push(c);
    }
    assert(cmds_v(v@) =~= cmds_v(old(v)@) + maybe(given, c@));
}

fn push_controls(v: &mut Vec<Cmd>, c: Controls, u: &UiState)
    ensures
        cmds_v(final(v)@) == cmds_v(old(v)@) + control_cmds(c, u@),
{
    push_if(v, c.resume && u.stopped, Cmd::Resume);
    push_if(v, c.over && u.stopped, Cmd::StepOver);
    push_if(v, c.into && u.stopped, Cmd::StepInto);
    push_if(v, c.out && u.stopped, Cmd::StepOut);
    push_if(v, c.pause && u.attached && !u.stopped, Cmd::Pause);
    assert(cmds_v(v@) =~= cmds_v(old(v)@) + control_cmds(c, u@));
}

fn find_file(files: &Vec<(String, String)>, name: &str) -> (r: usize)
    ensures
        r == file_named(files@, name@, 0),
        r <= files@.len(),
{
    let mut i: usize = 0;
    while i < files.len()
        invariant
            i <= files@.len(),
            file_named(files@, name@, 0) == file_named(files@, name@, i as int),
        decreases files@.len() - i,
    {
        if same(files[i].1.as_str(), name) {
            return i;
        }
        i = i + 1;
    }
    i
}

/// What a frame's clicks and keys come to: the commands to send, the file to show
/// and the line to jump to, and which pane has the keyboard.
pub fn build_ui(u: &UiState, files: &Vec<(String, String)>, input: Input, focus: Focus) -> (r: Output)
    ensures
        cmds_v(r.cmds@) == input_cmds(input, u@),
        match jump(input, u@, files@) {
            Some((f, l)) => r.new_view is Some && r.new_view->0@ == f && r.goto == Some(l),
            None => r.new_view == input.file && r.goto is None,
        },
        r.focus == (match input.pressed {
            Some(p) => p,
            None => focus,
        }),
{
    let mut cmds: Vec<Cmd> = Vec::new();
    assert(cmds_v(cmds@) =~= Seq::empty());
    let ghost g0 = control_cmds(input.buttons, u@);
    push_controls(&mut cmds, input.buttons, u);
    assert(cmds_v(cmds@) =~= g0);
    let editor = editor_target();
    push_if(&mut cmds, input.editor, Cmd::SelectTarget(editor));
    let ghost g1 = g0 + maybe(
        input.editor,
        CmdV::SelectTarget(TargetV { ip: Seq::empty(), port: 0, label: "Editor"@ }),
    );
    assert(cmds_v(cmds@) =~= g1);
    let ghost by_player = match input.player {
        Some(k) => maybe(k < u@.players.len(), CmdV::SelectTarget(player_target(u@.players[k as int]))),
        None => Seq::empty(),
    };
    if let Some(k) = input.player {
        if k < u.players.len() {
            assert(u@.players[k as int] == u.players@[k as int]@);
            let p = &u.players[k];
            let label = label_of(p);
            let t = Target { ip: p.ip.clone(), port: p.port, label };
            push_if(&mut cmds, true, Cmd::SelectTarget(t));
        }
    }
    assert(cmds_v(cmds@) =~= g1 + by_player);
    push_controls(&mut cmds, input.keys, u);
    let ghost g2 = g1 + by_player + control_cmds(input.keys, u@);
    assert(cmds_v(cmds@) =~= g2);
    let ghost by_thread = match input.thread {
        Some(k) => maybe(
            u@.threads.len() > 1 && k < u@.threads.len() && u@.threads[k as int].id != u@.cur_thread,
            CmdV::SelectThread(u@.threads[k as int].id),
        ),
        None => Seq::empty(),
    };
    if let Some(k) = input.thread {
        if u.threads.len() > 1 && k < u.threads.len() {
            assert(u@.threads[k as int] == u.threads@[k as int]@);
            let id: u32 = u.threads[k].id;
            push_if(&mut cmds, id != u.cur_thread, Cmd::SelectThread(id));
        }
    }
    assert(cmds_v(cmds@) =~= g2 + by_thread);
    if let Some(k) = input.frame {
        push_if(&mut cmds, k < u.stack.len() && k != u.cur_frame, Cmd::SelectFrame(k));
    }
    assert(cmds_v(cmds@) =~= input_cmds(input, u@));
    let mut new_view = input.file;
    let mut goto: Option<i32> = None;
    if let Some(k) = input.breakpoint {
        if k < u.all_bps.len() {
            assert(u@.all_bps[k as int] == (u.all_bps@[k as int].0@, u.all_bps@[k as int].1));
            let at: usize = find_file(files, u.all_bps[k].0.as_str());
            if at < files.len() {
                new_view = Some(files[at].0.clone());
                goto = Some(u.all_bps[k].1);
            }
        }
    }
    let focus = match input.pressed {
        Some(p) => p,
        None => focus,
    };
    Output { cmds, new_view, goto, focus }
}

// ---------------------------------------------------------------------------
// The source pane
// ---------------------------------------------------------------------------

/// The 0-based lines of those of the first `n` breakpoints that have a line.
pub open spec fn gutter(lines: Seq<i32>, n: int) -> Seq<u32>
    decreases n,
{
    if n <= 0 || n > lines.len() {
        Seq::empty()
    } else if lines[n - 1] > 0 {
        gutter(lines, n - 1).push((lines[n - 1] - 1) as u32)
    } else {
        gutter(lines, n - 1)
    }
}

/// The lines with a dot in the gutter (1-based store → 0-based editor).
pub fn gutter_lines(lines: &Vec<i32>) -> (r: Vec<u32>)
    ensures
        r@ == gutter(lines@, lines@.len() as int),
{
    let mut out: Vec<u32> = Vec::new();
    let mut i: usize = 0;
    while i < lines.len()
        invariant
            i <= lines@.len(),
            out@ == gutter(lines@, i as int),
        decreases lines@.len() - i,
    {
        if lines[i] > 0 {
            out.push((lines[i] - 1) as u32);
        }
        i = i + 1;
    }
    out
}

/// The execution line to mark: only while stopped in the file that is shown.
pub fn exec_line(u: &UiState, view_file: &str) -> (r: Option<usize>)
    ensures
        r == (if u@.stopped && base_of(view_file@) == base_of(u@.cur_file) && u@.cur_line > 0 {
            Some((u@.cur_line - 1) as usize)
        } else {
            None
        }),
{
    let a = basename(view_file);
    let b = basename(u.cur_file.as_str());
    if u.stopped && same(a.as_str(), b.as_str()) && u.cur_line > 0 {
        Some((u.cur_line - 1) as usize)
    } else {
        None
    }
}

/// The row to scroll to for a 1-based line.
pub fn scroll_row(line: Option<i32>) -> (r: Option<usize>)
    ensures
        r == (match line {
            Some(l) => if l > 0 {
                Some((l - 1) as usize)
            } else {
                None
            },
            None => None,
        }),
{
    match line {
        Some(l) => if l > 0 {
            Some((l - 1) as usize)
        } else {
            None
        },
        None => None,
    }
}

/// The editor that shows the source: read-only, in dark colors, with breakpoints.
pub fn source_editor() -> (r: EditorView)
    ensures
        r.edit.wf(),
        settled(r.edit@),
        r.edit@ == (BoxV {
            read_only: true,
            code_mode: true,
            gutter: GutterV { shown: true, bp_column: true, ..fresh_box().gutter },
            look: LookV { language: Some("cs"@), dark: true, ..fresh_box().look },
            ..fresh_box()
        }),
{
    let mut ed = EditorView::new();
    ed.set_read_only(true);
    ed.set_bp_gutter(true); // the debugger always shows/toggles breakpoints
    ed.edit.set_language(Some("cs".to_owned()));
    ed.edit.set_dark(true);
    ed
}

/// Load the viewed file when it changes: `text` is what it holds, and nothing if it
/// cannot be read.
pub fn load_source(ed: &mut EditorView, shown: &mut String, view_file: &str, text: &str)
    ensures
        final(shown)@ == view_file@,
        final(ed).edit@ == (if view_file@ != old(shown)@ {
            retexted(old(ed).edit@, text@)
        } else {
            old(ed).edit@
        }),
        text_wf(old(ed).edit@.doc) ==> text_wf(final(ed).edit@.doc),
        history_wf(old(ed).edit@.hist) ==> history_wf(final(ed).edit@.hist),
{
    if !same(view_file, shown.as_str()) {
        *shown = view_file.to_owned();
        ed.set_text(text);
    }
}

/// What the source pane marks: the dots in the gutter, the execution line, and the
/// caret at the line to scroll to.
pub open spec fn marked(b: BoxV, u: UiV, view_file: Seq<char>, scroll: Option<i32>) -> BoxV {
    let dots = gutter(u.bp_lines, u.bp_lines.len() as int);
    let line = if u.stopped && base_of(view_file) == base_of(u.cur_file) && u.cur_line > 0 {
        Some((u.cur_line - 1) as usize)
    } else {
        None
    };
    let c = BoxV {
        gutter: GutterV { breakpoints: all_marked(dots, dots.len() as int), exec_line: line, ..b.gutter },
        ..b
    };
    match scroll {
        Some(l) => if l > 0 {
            gone_to(c, l - 1)
        } else {
            c
        },
        None => c,
    }
}

/// Drive the embedded editor: breakpoints (1-based store → 0-based editor), the
/// execution line, and the line to scroll to.
pub fn sync_editor(ed: &mut EditorView, u: &UiState, view_file: &str, scroll: Option<i32>)
    requires
        text_wf(old(ed).edit@.doc),
        history_wf(old(ed).edit@.hist),
    ensures
        final(ed).edit@ == marked(old(ed).edit@, u@, view_file@, scroll),
        text_wf(final(ed).edit@.doc),
        history_wf(final(ed).edit@.hist),
{
    let dots = gutter_lines(&u.bp_lines);
    ed.set_breakpoints(&dots);
    ed.edit.set_exec_line(exec_line(u, view_file));
    if let Some(row) = scroll_row(scroll) {
        ed.goto_line(row);
    }
}

/// Showing where the target is leaves the source's text alone.
pub proof fn law_marking_keeps_the_text(b: BoxV, u: UiV, view_file: Seq<char>, scroll: Option<i32>)
    ensures
        marked(b, u, view_file, scroll).doc.lines == b.doc.lines,
        marked(b, u, view_file, scroll).hist == b.hist,
{
}

/// A press in the gutter (`kind` 0 is a press) toggles a breakpoint at the row
/// under it; anything else is the editor's.
pub fn gutter_press(kind: u8, in_gutter: bool, row: u32) -> (r: Option<Cmd>)
    requires
        row < i32::MAX,
    ensures
        match r {
            Some(c) => kind == 0 && in_gutter && c@ == CmdV::ToggleBp((row + 1) as i32),
            None => kind != 0 || !in_gutter,
        },
{
    if kind == 0 && in_gutter {
        Some(Cmd::ToggleBp(row as i32 + 1))
    } else {
        None
    }
}

/// What hovering an identifier tells: its value, while the target is stopped.
pub open spec fn tip(u: UiV, word: Seq<char>) -> Option<Seq<char>> {
    if u.stopped && lookup(u.locals, u.members, word) is Some {
        Some(word + " = "@ + lookup(u.locals, u.members, word)->0)
    } else {
        None
    }
}

/// Hover-watch: the identifier at a column of a line and its current value
/// (in-scope locals / `this` members).
pub fn compute_hover(u: &UiState, line: &str, col: usize) -> (r: Option<String>)
    ensures
        match r {
            Some(t) => exists|a: int, b: int| #[trigger]
                stretch(ident_flags(line@), col as int, a, b) && !ascii_digit(line@[a]) && tip(
                    u@,
                    line@.subrange(a, b),
                ) == Some(t@),
            None => !u@.stopped || col >= line@.len() || !ident_char(line@[col as int]) || exists|a: int, b: int|
                #[trigger]
                stretch(ident_flags(line@), col as int, a, b) && (ascii_digit(line@[a]) || tip(
                    u@,
                    line@.subrange(a, b),
                ) is None),
        },
{
    if !u.stopped {
        return None;
    }
    match word_at(line, col) {
        None => None,
        Some(word) => {
            let ghost (a, b): (int, int) = choose|a: int, b: int| #[trigger]
                stretch(ident_flags(line@), col as int, a, b) && !ascii_digit(line@[a]) && word@ == line@.subrange(a, b);
            match lookup_var(&u.locals, &u.members, word.as_str()) {
                None => {
                    assert(tip(u@, line@.subrange(a, b)) is None);
                    None
                },
                Some(val) => {
                    let t = join3(word.as_str(), " = ", val.as_str());
                    assert(tip(u@, line@.subrange(a, b)) == Some(t@));
                    Some(t)
                },
            }
        },
    }
}

/// A key of the source pane.
#[derive(Clone, Copy, PartialEq, Eq, Structural, Debug)]
pub enum NavKey {
    Left,
    Right,
    Up,
    Down,
    Home,
    End,
    PageUp,
    PageDown,
    Other,
}

/// The editor's name for a key: alt/ctrl goes by words, command to the ends.
pub open spec fn nav_name(key: NavKey, word: bool, cmd: bool) -> Option<Seq<char>> {
    match key {
        NavKey::Left => Some(if word { "WordLeft"@ } else if cmd { "Home"@ } else { "LeftArrow"@ }),
        NavKey::Right => Some(if word { "WordRight"@ } else if cmd { "End"@ } else { "RightArrow"@ }),
        NavKey::Up => Some(if cmd { "DocStart"@ } else { "UpArrow"@ }),
        NavKey::Down => Some(if cmd { "DocEnd"@ } else { "DownArrow"@ }),
        NavKey::Home => Some("Home"@),
        NavKey::End => Some("End"@),
        NavKey::PageUp => Some("PageUp"@),
        NavKey::PageDown => Some("PageDown"@),
        NavKey::Other => None,
    }
}

/// Translate a key press into the editor's key-name convention (navigation only;
/// shift extends the selection, alt/ctrl = word, cmd = line/document ends).
pub fn map_editor_key(key: NavKey, alt: bool, ctrl: bool, command: bool, mac_cmd: bool) -> (r: Option<String>)
    ensures
        match r {
            Some(s) => nav_name(key, alt || ctrl, command || mac_cmd) == Some(s@),
            None => nav_name(key, alt || ctrl, command || mac_cmd) is None,
        },
{
    let cmd = command || mac_cmd;
    let word = alt || ctrl;
    let name = match key {
        NavKey::Left => if word {
            "WordLeft"
        } else if cmd {
            "Home"
        } else {
            "LeftArrow"
        },
        NavKey::Right => if word {
            "WordRight"
        } else if cmd {
            "End"
        } else {
            "RightArrow"
        },
        NavKey::Up => if cmd {
            "DocStart"
        } else {
            "UpArrow"
        },
        NavKey::Down => if cmd {
            "DocEnd"
        } else {
            "DownArrow"
        },
        NavKey::Home => "Home",
        NavKey::End => "End",
        NavKey::PageUp => "PageUp",
        NavKey::PageDown => "PageDown",
        NavKey::Other => return None,
    };
    Some(name.to_owned())
}

/// A target that runs on leaves the source where it was: only what was expanded goes.
pub proof fn law_running_leaves_the_source(f: FollowV, u: UiV, resolved: Seq<char>)
    requires
        !u.stopped,
        u.generation != f.last_gen,
        f.view_file.len() > 0,
    ensures
        ({
            let g = caught_up(f, u, resolved);
            &&& g.view_file == f.view_file
            &&& g.scroll_to_cur == f.scroll_to_cur
            &&& g.goto == f.goto
            &&& g.var_open == Set::<u32>::empty()
            &&& g.last_gen == u.generation
        }),
{
}

/// A window that shows no file yet shows where the target is.
pub proof fn law_empty_window_shows_the_target(f: FollowV, u: UiV, resolved: Seq<char>)
    requires
        f.view_file.len() == 0,
    ensures
        caught_up(f, u, resolved).view_file == resolved,
        caught_up(f, u, resolved).last_gen == u.generation,
        caught_up(f, u, resolved).goto == f.goto,
{
}

/// The source scrolls once for a stop, and once for a line that was asked for; while it
/// scrolls for a stop, the line that was asked for waits.
pub proof fn law_scrolling_is_done_once(f: FollowV, u: UiV)
    ensures
        ({
            let (g, line) = scrolled(f, u);
            &&& f.scroll_to_cur && u.stopped ==> line == Some(u.cur_line) && !g.scroll_to_cur && g.goto == f.goto
            &&& !(f.scroll_to_cur && u.stopped) ==> line == f.goto && g.goto is None && g.scroll_to_cur
                == f.scroll_to_cur
            &&& g.view_file == f.view_file && g.last_gen == f.last_gen && g.var_open == f.var_open
        }),
{
}

/// Each button sends its own command and no other. A target can be resumed and stepped only
/// while it is stopped, and paused only while it runs.
pub proof fn law_buttons_send_their_commands(c: Controls, u: UiV)
    ensures
        ({
            let s = control_cmds(c, u);
            &&& s.contains(CmdV::Resume) <==> c.resume && u.stopped
            &&& s.contains(CmdV::StepOver) <==> c.over && u.stopped
            &&& s.contains(CmdV::StepInto) <==> c.into && u.stopped
            &&& s.contains(CmdV::StepOut) <==> c.out && u.stopped
            &&& s.contains(CmdV::Pause) <==> c.pause && u.attached && !u.stopped
            &&& forall|i: int|
                0 <= i < s.len() ==> (#[trigger] s[i] is Resume || s[i] is StepOver || s[i] is StepInto || s[i] is StepOut
                    || s[i] is Pause)
        }),
{
    let a = maybe(c.resume && u.stopped, CmdV::Resume);
    let b = maybe(c.over && u.stopped, CmdV::StepOver);
    let d = maybe(c.into && u.stopped, CmdV::StepInto);
    let e = maybe(c.out && u.stopped, CmdV::StepOut);
    let f = maybe(c.pause && u.attached && !u.stopped, CmdV::Pause);
    lemma_maybe(c.resume && u.stopped, CmdV::Resume);
    lemma_maybe(c.over && u.stopped, CmdV::StepOver);
    lemma_maybe(c.into && u.stopped, CmdV::StepInto);
    lemma_maybe(c.out && u.stopped, CmdV::StepOut);
    lemma_maybe(c.pause && u.attached && !u.stopped, CmdV::Pause);
    lemma_either(a, b);
    lemma_either(a + b, d);
    lemma_either(a + b + d, e);
    lemma_either(a + b + d + e, f);
    let s = control_cmds(c, u);
    assert forall|i: int| 0 <= i < s.len() implies (#[trigger] s[i] is Resume || s[i] is StepOver || s[i] is StepInto
        || s[i] is StepOut || s[i] is Pause) by {
        assert(s.contains(s[i]));
    }
}

proof fn lemma_maybe(given: bool, c: CmdV)
    ensures
        forall|x: CmdV| #[trigger] maybe(given, c).contains(x) <==> given && x == c,
{
    assert forall|x: CmdV| #[trigger] maybe(given, c).contains(x) <==> given && x == c by {
        if given {
            assert(seq![c][0] == c);
        }
    }
}

proof fn lemma_either(a: Seq<CmdV>, b: Seq<CmdV>)
    ensures
        forall|x: CmdV| #[trigger] (a + b).contains(x) <==> a.contains(x) || b.contains(x),
{
    assert forall|x: CmdV| #[trigger] (a + b).contains(x) <==> a.contains(x) || b.contains(x) by {
        if a.contains(x) {
            let i = choose|i: int| 0 <= i < a.len() && a[i] == x;
            assert((a + b)[i] == x);
        }
        if b.contains(x) {
            let i = choose|i: int| 0 <= i < b.len() && b[i] == x;
            assert((a + b)[a.len() + i] == x);
        }
    }
}

/// What a frame's input can ask for.
proof fn lemma_asked(i: Input, u: UiV, x: CmdV)
    ensures
        input_cmds(i, u).contains(x) <==> {
            ||| control_cmds(i.buttons, u).contains(x)
            ||| i.editor && x == CmdV::SelectTarget(TargetV { ip: Seq::empty(), port: 0, label: "Editor"@ })
            ||| i.player is Some && i.player->0 < u.players.len() && x == CmdV::SelectTarget(
                player_target(u.players[i.player->0 as int]),
            )
            ||| control_cmds(i.keys, u).contains(x)
            ||| i.thread is Some && u.threads.len() > 1 && i.thread->0 < u.threads.len()
                && u.threads[i.thread->0 as int].id != u.cur_thread && x == CmdV::SelectThread(
                u.threads[i.thread->0 as int].id,
            )
            ||| i.frame is Some && i.frame->0 < u.stack.len() && i.frame->0 != u.cur_frame && x == CmdV::SelectFrame(
                i.frame->0,
            )
        },
{
    let editor = CmdV::SelectTarget(TargetV { ip: Seq::empty(), port: 0, label: "Editor"@ });
    let a = control_cmds(i.buttons, u);
    let b = maybe(i.editor, editor);
    let c = match i.player {
        Some(k) => maybe(k < u.players.len(), CmdV::SelectTarget(player_target(u.players[k as int]))),
        None => Seq::empty(),
    };
    let d = control_cmds(i.keys, u);
    let e = match i.thread {
        Some(k) => maybe(
            u.threads.len() > 1 && k < u.threads.len() && u.threads[k as int].id != u.cur_thread,
            CmdV::SelectThread(u.threads[k as int].id),
        ),
        None => Seq::empty(),
    };
    let f = match i.frame {
        Some(k) => maybe(k < u.stack.len() && k != u.cur_frame, CmdV::SelectFrame(k)),
        None => Seq::empty(),
    };
    assert(input_cmds(i, u) == a + b + c + d + e + f);
    lemma_maybe(i.editor, editor);
    match i.player {
        Some(k) => lemma_maybe(k < u.players.len(), CmdV::SelectTarget(player_target(u.players[k as int]))),
        None => {},
    }
    match i.thread {
        Some(k) => lemma_maybe(
            u.threads.len() > 1 && k < u.threads.len() && u.threads[k as int].id != u.cur_thread,
            CmdV::SelectThread(u.threads[k as int].id),
        ),
        None => {},
    }
    match i.frame {
        Some(k) => lemma_maybe(k < u.stack.len() && k != u.cur_frame, CmdV::SelectFrame(k)),
        None => {},
    }
    lemma_either_of(a, b, x);
    lemma_either_of(a + b, c, x);
    lemma_either_of(a + b + c, d, x);
    lemma_either_of(a + b + c + d, e, x);
    lemma_either_of(a + b + c + d + e, f, x);
}

proof fn lemma_either_of(a: Seq<CmdV>, b: Seq<CmdV>, x: CmdV)
    ensures
        (a + b).contains(x) <==> a.contains(x) || b.contains(x),
{
    lemma_either(a, b);
}

/// The target that is asked for is the one that was picked: the editor, which has no
/// address, or the player at its own address.
pub proof fn law_picked_target_is_selected(i: Input, u: UiV, t: TargetV)
    ensures
        input_cmds(i, u).contains(CmdV::SelectTarget(t)) <==> {
            ||| i.editor && t.ip.len() == 0 && t.port == 0 && t.label == "Editor"@
            ||| i.player is Some && i.player->0 < u.players.len() && t.ip == u.players[i.player->0 as int].ip && t.port
                == u.players[i.player->0 as int].port && t.label == u.players[i.player->0 as int].label + " ("@
                + u.players[i.player->0 as int].ip + ")"@
        },
{
    lemma_asked(i, u, CmdV::SelectTarget(t));
    law_buttons_send_their_commands(i.buttons, u);
    law_buttons_send_their_commands(i.keys, u);
    if i.editor && t.ip.len() == 0 && t.port == 0 && t.label == "Editor"@ {
        assert(t.ip =~= Seq::<char>::empty());
    }
}

/// A thread is asked for by its own id when it is picked, unless it is shown already or is
/// the only one; a frame by its place, unless it is shown already.
pub proof fn law_picked_thread_and_frame_are_selected(i: Input, u: UiV, t: u32, k: usize)
    ensures
        input_cmds(i, u).contains(CmdV::SelectThread(t)) <==> {
            &&& i.thread is Some && i.thread->0 < u.threads.len() && u.threads.len() > 1
            &&& t == u.threads[i.thread->0 as int].id && t != u.cur_thread
        },
        input_cmds(i, u).contains(CmdV::SelectFrame(k)) <==> i.frame == Some(k) && k < u.stack.len() && k
            != u.cur_frame,
{
    lemma_asked(i, u, CmdV::SelectThread(t));
    lemma_asked(i, u, CmdV::SelectFrame(k));
    law_buttons_send_their_commands(i.buttons, u);
    law_buttons_send_their_commands(i.keys, u);
}

/// A key does what its button does.
pub proof fn law_keys_do_what_the_buttons_do(i: Input, u: UiV)
    ensures
        ({
            let s = input_cmds(i, u);
            &&& s.contains(CmdV::Resume) <==> (i.buttons.resume || i.keys.resume) && u.stopped
            &&& s.contains(CmdV::StepOver) <==> (i.buttons.over || i.keys.over) && u.stopped
            &&& s.contains(CmdV::StepInto) <==> (i.buttons.into || i.keys.into) && u.stopped
            &&& s.contains(CmdV::StepOut) <==> (i.buttons.out || i.keys.out) && u.stopped
            &&& s.contains(CmdV::Pause) <==> (i.buttons.pause || i.keys.pause) && u.attached && !u.stopped
        }),
{
    lemma_asked(i, u, CmdV::Resume);
    lemma_asked(i, u, CmdV::StepOver);
    lemma_asked(i, u, CmdV::StepInto);
    lemma_asked(i, u, CmdV::StepOut);
    lemma_asked(i, u, CmdV::Pause);
    law_buttons_send_their_commands(i.buttons, u);
    law_buttons_send_their_commands(i.keys, u);
}

/// A click on a breakpoint shows the first project file of its name, at its line; where the
/// project has no such file, it leads nowhere.
pub proof fn law_breakpoint_leads_to_its_file(i: Input, u: UiV, files: Seq<(String, String)>, j: int)
    requires
        i.breakpoint is Some,
        i.breakpoint->0 < u.all_bps.len(),
        0 <= j <= files.len(),
        forall|k: int| 0 <= k < j ==> (#[trigger] files[k]).1@ != u.all_bps[i.breakpoint->0 as int].0,
    ensures
        j == files.len() ==> jump(i, u, files) is None,
        j < files.len() && files[j].1@ == u.all_bps[i.breakpoint->0 as int].0 ==> jump(i, u, files) == Some(
            (files[j].0@, u.all_bps[i.breakpoint->0 as int].1),
        ),
{
    let name = u.all_bps[i.breakpoint->0 as int].0;
    if j == files.len() || files[j].1@ == name {
        lemma_file_named(files, name, 0, j);
    }
}

proof fn lemma_file_named(files: Seq<(String, String)>, name: Seq<char>, i: int, j: int)
    requires
        0 <= i <= j <= files.len(),
        forall|k: int| i <= k < j ==> (#[trigger] files[k]).1@ != name,
        j < files.len() ==> files[j].1@ == name,
    ensures
        file_named(files, name, i) == j,
    decreases j - i,
{
    if i < j {
        assert(files[i].1@ != name);
        lemma_file_named(files, name, i + 1, j);
    }
}

/// The gutter shows a dot on exactly the rows of the breakpoints, which count from 1.
pub proof fn law_dots_are_the_breakpoints(lines: Seq<i32>, n: int, row: u32)
    requires
        0 <= n <= lines.len(),
    ensures
        gutter(lines, n).contains(row) <==> exists|i: int| 0 <= i < n && #[trigger] lines[i] == row + 1,
    decreases n,
{
    if n > 0 {
        law_dots_are_the_breakpoints(lines, n - 1, row);
        let before = gutter(lines, n - 1);
        let last = (lines[n - 1] - 1) as u32;
        if lines[n - 1] > 0 {
            assert(before.push(last)[before.len() as int] == last);
            if before.contains(row) {
                let k = choose|k: int| 0 <= k < before.len() && before[k] == row;
                assert(before.push(last)[k] == row);
            }
            if gutter(lines, n).contains(row) {
                let k = choose|k: int| 0 <= k < gutter(lines, n).len() && gutter(lines, n)[k] == row;
                if k < before.len() {
                    assert(before[k] == row);
                } else {
                    assert(lines[n - 1] == row + 1);
                }
            }
        }
    }
}

/// The source pane marks the line the target stands at, counted from 1, where the target is
/// stopped in the file that is shown. Without a line to scroll to the caret stays.
pub proof fn law_execution_line_is_marked(b: BoxV, u: UiV, view_file: Seq<char>)
    ensures
        ({
            let g = marked(b, u, view_file, None).gutter;
            &&& u.stopped && base_of(view_file) == base_of(u.cur_file) && u.cur_line > 0 ==> (g.exec_line matches Some(row)
                && row + 1 == u.cur_line)
            &&& !u.stopped || base_of(view_file) != base_of(u.cur_file) || u.cur_line <= 0 ==> g.exec_line is None
            &&& g.shown == b.gutter.shown
            &&& marked(b, u, view_file, None).doc == b.doc
        }),
{
}

/// Hovering a name tells its value while the target is stopped: that of the local of that
/// name, and of the member only where there is no such local.
pub proof fn law_hover_tells_the_value(u: UiV, word: Seq<char>, k: int)
    ensures
        !u.stopped ==> tip(u, word) is None,
        u.stopped && 0 <= k < u.locals.len() && u.locals[k].name == word && (forall|j: int|
            0 <= j < k ==> (#[trigger] u.locals[j]).name != word) ==> tip(u, word) == Some(word + " = "@ + u.locals[k].value),
        u.stopped && 0 <= k < u.members.len() && u.members[k].name == word && (forall|j: int|
            0 <= j < u.locals.len() ==> (#[trigger] u.locals[j]).name != word) && (forall|j: int|
            0 <= j < k ==> (#[trigger] u.members[j]).name != word) ==> tip(u, word) == Some(
            word + " = "@ + u.members[k].value,
        ),
        (forall|j: int| 0 <= j < u.locals.len() ==> (#[trigger] u.locals[j]).name != word) && (forall|j: int|
            0 <= j < u.members.len() ==> (#[trigger] u.members[j]).name != word) ==> tip(u, word) is None,
{
    law_locals_come_before_members(u.locals, u.members, word, k);
}

/// A file and a line are shown with a colon between them, and a player by its label and
/// address, after its project where it has one.
pub proof fn law_players_are_shown_by_their_address(p: PlayerV)
    ensures
        player_target(p).ip == p.ip,
        player_target(p).port == p.port,
        player_target(p).label == p.label + " ("@ + p.ip + ")"@,
        p.project.len() == 0 ==> player_text(p) == player_target(p).label,
        p.project.len() > 0 ==> player_text(p) == p.project + " · "@ + player_target(p).label,
{
}

/// An arrow moves as its name says: by one, by words with alt or ctrl, and to the end of the
/// line or text with command. Keys that do not move mean nothing to the source.
pub proof fn law_keys_move_as_they_are_named(word: bool, cmd: bool)
    ensures
        nav_name(NavKey::Left, false, false) == Some("LeftArrow"@),
        nav_name(NavKey::Right, false, false) == Some("RightArrow"@),
        nav_name(NavKey::Up, word, false) == Some("UpArrow"@),
        nav_name(NavKey::Down, word, false) == Some("DownArrow"@),
        nav_name(NavKey::Left, true, cmd) == Some("WordLeft"@),
        nav_name(NavKey::Right, true, cmd) == Some("WordRight"@),
        nav_name(NavKey::Left, false, true) == Some("Home"@),
        nav_name(NavKey::Right, false, true) == Some("End"@),
        nav_name(NavKey::Up, word, true) == Some("DocStart"@),
        nav_name(NavKey::Down, word, true) == Some("DocEnd"@),
        nav_name(NavKey::Home, word, cmd) == Some("Home"@),
        nav_name(NavKey::End, word, cmd) == Some("End"@),
        nav_name(NavKey::PageUp, word, cmd) == Some("PageUp"@),
        nav_name(NavKey::PageDown, word, cmd) == Some("PageDown"@),
        nav_name(NavKey::Other, word, cmd) is None,
{
}

} // verus!

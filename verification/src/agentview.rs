//! The agent view: the session ([`Driver`]), the composer ([`InputBox`]) and the
//! session browser together. It composes the displayed transcript (history + pending
//! permission + Thinking/Starting indicator), says what changed since the last look,
//! and routes input — so the host needs to know nothing about the agent. The host
//! only provides the window, raw input events, IME, clipboard, and repaint pacing.

use vstd::prelude::*;
use vstd::string::StringExecFns;

use crate::browser::{archived_in, browser_wf, hovered, openable, BrowserV, BrowserView, Click, ClickV};
use crate::clock::locale_v;
use crate::control::{
    actions_v, asks_to_set, choices_v, keeps_from_running, law_permission_is_answered_as_chosen, law_prompts_are_taken,
    lets_run, mode_set, model_set, next_sent, only_write, plan_of, prompt_of, prompts, responded, sent, Action, ActionV,
    ChoiceV, Driver, DriverV, PendingV,
};
use crate::conv::{first_line, has_lull, head_line, queued, queued_at, serialized, serialized_at, without, RS, US};
use crate::input::doc::{selected_text, valid, Cursor, DocV, Pos, SelV};
use crate::input::edit::{
    composed, entered, fresh_box, moved_to, redo_box, redo_waits, redoable, retexted, settled, undo_box, undo_waits,
    undoable, BoxV, InputBox,
};
use crate::input::history::{history_wf, text_wf};
use crate::input::keys::{all_selected, before_caret, command_prefix, completed, cut_box, keyed, pointed, KeyStep};
use crate::json::{at, JsonV};
use crate::panel::{
    begun, blank_panel, blocks_v, dragged, folded, selected, selection_sound, stamp_at, whole, Block, PanelRenderer,
    PanelV, TextPos,
};
use crate::text::{
    chars, from_range, join, join2, same, same_all, split, split_str, starts_with, str_starts_with, texts, trim, trim_str,
};

verus! {

/// `poll()` result flags: something changed; host should render + repaint.
pub const FLAG_DIRTY: u32 = 1;

/// An indicator is animating; keep repainting.
pub const FLAG_ANIMATING: u32 = 2;

/// A host command is pending; drain it.
pub const FLAG_HOST_CMD: u32 = 4;

/// Permission mode / session id changed; re-read them.
pub const FLAG_META: u32 = 8;

/// The flags of a poll.
#[derive(Clone, Copy, PartialEq, Eq, Structural, Debug)]
pub struct Flags {
    pub dirty: bool,
    pub animating: bool,
    pub host_cmd: bool,
    pub meta: bool,
}

impl Flags {
    /// The flags as one number.
    pub open spec fn value(self) -> int {
        (if self.dirty { FLAG_DIRTY as int } else { 0 }) + (if self.animating { FLAG_ANIMATING as int } else { 0 }) + (
        if self.host_cmd { FLAG_HOST_CMD as int } else { 0 }) + (if self.meta { FLAG_META as int } else { 0 })
    }

    /// The flags as one number.
    pub fn bits(self) -> (r: u32)
        ensures
            r == self.value(),
    {
        (if self.dirty {
            FLAG_DIRTY
        } else {
            0
        }) + (if self.animating {
            FLAG_ANIMATING
        } else {
            0
        }) + (if self.host_cmd {
            FLAG_HOST_CMD
        } else {
            0
        }) + (if self.meta {
            FLAG_META
        } else {
            0
        })
    }
}

// ---------------------------------------------------------------------------
// The transcript as it is shown
// ---------------------------------------------------------------------------

/// A block with a role behind a transcript.
pub open spec fn noted(text: Seq<char>, role: char, body: Seq<char>) -> Seq<char> {
    text + seq![RS, role, US] + body
}

fn push_block(text: &mut String, role: char, body: &str)
    ensures
        final(text)@ == noted(old(text)@, role, body@),
{
    text.push(RS);
    text.push(role);
    text.push(US);
    text.append(body);
    assert(text@ =~= noted(old(text)@, role, body@));
}

/// Append a role-`t` note block to a role-tagged transcript string.
pub fn push_note(text: &mut String, body: &str)
    ensures
        final(text)@ == noted(old(text)@, 't', body@),
{
    push_block(text, 't', body);
}

/// A pending-permission request: a full-colour notice card, so it stands out as an
/// actionable prompt rather than dim status text.
pub fn push_notice(text: &mut String, body: &str)
    ensures
        final(text)@ == noted(old(text)@, 'n', body@),
{
    push_block(text, 'n', body);
}

/// Append a role-`p` (plan) block — Markdown in a capped, scrollable box.
pub fn push_plan(text: &mut String, body: &str)
    ensures
        final(text)@ == noted(old(text)@, 'p', body@),
{
    push_block(text, 'p', body);
}

/// The indicator of a status.
pub open spec fn indicator(status: Seq<char>) -> Option<Seq<char>> {
    if status == "thinking"@ {
        Some("Thinking"@)
    } else if status == "initializing"@ {
        Some("Starting"@)
    } else {
        None
    }
}

/// A row of dots.
pub open spec fn dots_text(n: nat) -> Seq<char> {
    Seq::new(n, |i: int| '.')
}

/// What a dead session shows.
pub open spec fn sign_in_note() -> Seq<char> {
    "Not signed in \u{2014} type /login to authenticate, then press Enter."@
}

/// The panel text: transcript + pending note + animated indicator.
pub open spec fn panel_text(d: DriverV, text: Seq<char>, dots: nat) -> Seq<char> {
    match d.pending {
        Some(p) => {
            let planned = match plan_of(d.pending) {
                Some(plan) => noted(text, 'p', plan),
                None => text,
            };
            noted(planned, 'n', prompt_of(p).0)
        },
        None => match indicator(d.status) {
            Some(label) => noted(text, 't', label + dots_text(dots)),
            None => if starts_with(d.status, "init failed"@) || starts_with(d.status, "spawn failed"@) {
                noted(text, 't', sign_in_note())
            } else {
                text
            },
        },
    }
}

fn dotted(label: &str, dots: usize) -> (r: String)
    ensures
        r@ == label@ + dots_text(dots as nat),
{
    let mut out = label.to_owned();
    let mut i: usize = 0;
    assert(out@ =~= label@ + dots_text(0));
    while i < dots
        invariant
            i <= dots,
            out@ == label@ + dots_text(i as nat),
        decreases dots - i,
    {
        out.push('.');
        i = i + 1;
        assert(out@ =~= label@ + dots_text(i as nat));
    }
    out
}

/// Text with the characters that end a string taken out, so that it can be handed
/// over as one that is ended by such a character.
pub open spec fn without_nul(s: Seq<char>) -> Seq<char>
    decreases s.len(),
{
    if s.len() == 0 {
        s
    } else if s.last() == '\0' {
        without_nul(s.drop_last())
    } else {
        without_nul(s.drop_last()).push(s.last())
    }
}

/// Text with the characters that end a string taken out.
pub fn clean(s: &str) -> (r: String)
    ensures
        r@ == without_nul(s@),
{
    let v = chars(s);
    let n: usize = v.len();
    let mut out = String::new();
    let mut i: usize = 0;
    assert(v@.take(0) =~= Seq::empty());
    while i < n
        invariant
            i <= n == v@.len(),
            out@ == without_nul(v@.take(i as int)),
        decreases n - i,
    {
        let ghost t = v@.take(i + 1);
        assert(t.drop_last() =~= v@.take(i as int));
        if v[i] != '\0' {
            out.push(v[i]);
        }
        i = i + 1;
    }
    assert(v@.take(n as int) =~= v@);
    out
}

/// What is handed over holds no character that would end it.
pub proof fn law_cleaned_text_has_no_nul(s: Seq<char>)
    ensures
        forall|i: int| 0 <= i < without_nul(s).len() ==> #[trigger] without_nul(s)[i] != '\0',
    decreases s.len(),
{
    if s.len() > 0 {
        law_cleaned_text_has_no_nul(s.drop_last());
        let before = without_nul(s.drop_last());
        assert forall|i: int| 0 <= i < without_nul(s).len() implies #[trigger] without_nul(s)[i] != '\0' by {
            if i < before.len() {
                assert(without_nul(s)[i] == before[i]);
            }
        }
    }
}

/// At most 48 characters of a line, an ellipsis behind it where it was longer.
pub open spec fn capped(line: Seq<char>) -> Seq<char> {
    if line.len() > 48 {
        line.take(48).push('\u{2026}')
    } else {
        line
    }
}

/// What stands before the first unit separator of a chunk, and what stands behind it.
pub open spec fn chunk_parts(chunk: Seq<char>) -> (Seq<char>, Seq<char>) {
    let parts = split(chunk, US);
    (parts[0], if parts.len() > 1 { join(parts.skip(1), US) } else { Seq::empty() })
}

/// First line of the first user (`u`) block among the chunks from `i` on, trimmed and
/// capped.
pub open spec fn user_line(chunks: Seq<Seq<char>>, i: int) -> Seq<char>
    decreases chunks.len() - i,
{
    if i < 0 || i >= chunks.len() {
        Seq::empty()
    } else {
        let (role, body) = chunk_parts(chunks[i]);
        if role.len() > 0 && role[0] == 'u' {
            capped(trim(first_line(trim(body))))
        } else {
            user_line(chunks, i + 1)
        }
    }
}

/// The parts of a chunk at its first unit separator.
fn parts_of(chunk: &str) -> (r: (String, String))
    ensures
        (r.0@, r.1@) == chunk_parts(chunk@),
{
    let mut parts = split_str(chunk, US);
    proof {
        crate::text::lemma_split_pieces(chunk@, US);
    }
    assert(texts(parts@).len() == parts@.len());
    let ghost whole = parts@;
    let rest = parts.split_off(1);
    assert(parts@ =~= whole.take(1));
    let head = parts[0].clone();
    let ghost all = split(chunk@, US);
    assert(texts(rest@) =~= all.skip(1));
    if rest.len() > 0 {
        (head, crate::text::join_strs(&rest, US))
    } else {
        (head, String::new())
    }
}

/// First line of the first user (`u`) block, trimmed and capped at 48 chars.
pub fn first_user_line(transcript: &str) -> (r: String)
    ensures
        r@ == user_line(split(transcript@, RS), 0),
{
    let chunks = split_str(transcript, RS);
    let n: usize = chunks.len();
    let ghost cv = split(transcript@, RS);
    let mut i: usize = 0;
    while i < n
        invariant
            i <= n == chunks@.len(),
            cv == texts(chunks@),
            user_line(cv, 0) == user_line(cv, i as int),
            cv == split(transcript@, RS),
        decreases n - i,
    {
        assert(cv[i as int] == chunks@[i as int]@);
        let (role, body) = parts_of(chunks[i].as_str());
        let rv = chars(role.as_str());
        if rv.len() > 0 && rv[0] == 'u' {
            let trimmed = trim_str(body.as_str());
            let first = head_line(trimmed.as_str());
            let line = trim_str(first.as_str());
            let v = chars(line.as_str());
            if v.len() > 48 {
                let mut s = from_range(&v, 0, 48);
                s.push('\u{2026}');
                assert(s@ =~= capped(line@));
                return s;
            }
            return line;
        }
        i = i + 1;
    }
    String::new()
}

// ---------------------------------------------------------------------------
// Polling
// ---------------------------------------------------------------------------

/// What the last poll saw.
pub struct Poll {
    /// Option ids for the currently shown permission buttons (click → respond).
    pub pending_ids: Vec<String>,
    pub last_serial: u64,
    /// Last minute (unix/60) the now-relative time separators ticked on.
    pub last_minute: u64,
    pub last_status: String,
    pub last_title: String,
    pub last_dot: usize,
    /// Whether a permission/decision prompt was up last time (edge-detect a new one,
    /// which — unlike a finished turn — doesn't change the status string).
    pub had_pending: bool,
    pub last_mode: String,
    pub last_sid: String,
    /// One-shot "the session now needs the user" signal for the host to act on (chime
    /// + notification): 0 none, 1 turn finished, 2 waiting on a decision.
    pub attention: u32,
    /// The generated title for this session. Empty until known.
    pub ai_title: String,
    /// When it was last read, in unix seconds (throttle).
    pub ai_title_read: u64,
}

/// What the last poll saw.
#[verifier::ext_equal]
pub ghost struct PollV {
    pub pending_ids: Seq<Seq<char>>,
    pub last_serial: u64,
    pub last_minute: u64,
    pub last_status: Seq<char>,
    pub last_title: Seq<char>,
    pub last_dot: usize,
    pub had_pending: bool,
    pub last_mode: Seq<char>,
    pub last_sid: Seq<char>,
    pub attention: u32,
    pub ai_title: Seq<char>,
    pub ai_title_read: u64,
}

impl View for Poll {
    type V = PollV;

    open spec fn view(&self) -> PollV {
        PollV {
            pending_ids: texts(self.pending_ids@),
            last_serial: self.last_serial,
            last_minute: self.last_minute,
            last_status: self.last_status@,
            last_title: self.last_title@,
            last_dot: self.last_dot,
            had_pending: self.had_pending,
            last_mode: self.last_mode@,
            last_sid: self.last_sid@,
            attention: self.attention,
            ai_title: self.ai_title@,
            ai_title_read: self.ai_title_read,
        }
    }
}

/// What the host brings to a poll.
pub struct Tick {
    /// The change serial of the transcript.
    pub serial: u64,
    /// The time, in unix seconds.
    pub now: u64,
    /// Indicator dot count, animated off wall-clock time.
    pub dots: usize,
    /// The session's generated title, read when [`AgentView::title_due`] said so.
    pub title: String,
}

/// What the session looks like at a poll.
#[verifier::ext_equal]
pub ghost struct FactsV {
    pub status: Seq<char>,
    pub serial: u64,
    pub pending: Option<(Seq<char>, Seq<ChoiceV>)>,
    pub sid: Seq<char>,
    pub mode: Seq<char>,
    pub now: u64,
    /// Whether a now-relative time separator is visible.
    pub relative: bool,
    pub dots: usize,
    pub title: Seq<char>,
}

/// The ids of options.
pub open spec fn choice_ids(v: Seq<ChoiceV>) -> Seq<Seq<char>> {
    Seq::new(v.len(), |i: int| v[i].id)
}

/// The names of options.
pub open spec fn choice_names(v: Seq<ChoiceV>) -> Seq<Seq<char>> {
    Seq::new(v.len(), |i: int| v[i].name)
}

/// The ids of the pending prompt's options.
pub open spec fn fact_ids(f: FactsV) -> Seq<Seq<char>> {
    match f.pending {
        Some((t, o)) => choice_ids(o),
        None => Seq::empty(),
    }
}

/// Whether the generated title is to be read: the first time the session id is known,
/// and when the transcript changed at least three seconds after the last time.
pub open spec fn read_due(p: PollV, serial: u64, sid: Seq<char>, now: u64) -> bool {
    &&& sid.len() > 0
    &&& (p.ai_title.len() == 0 && p.ai_title_read == 0) || (serial != p.last_serial && now - p.ai_title_read >= 3)
}

/// After a poll, and what changed.
pub open spec fn polled(p: PollV, f: FactsV, host_cmd: bool) -> (PollV, Flags) {
    let ids = fact_ids(f);
    let title = match f.pending {
        Some((t, o)) => t,
        None => Seq::empty(),
    };
    let due = read_due(p, f.serial, f.sid, f.now);
    let up = f.pending is Some;
    let moving = f.status == "thinking"@ || f.status == "initializing"@;
    let minute = f.now / 60;
    (
        PollV {
            pending_ids: ids,
            last_serial: f.serial,
            last_minute: minute,
            last_status: f.status,
            last_title: title,
            last_dot: if moving { f.dots } else { p.last_dot },
            had_pending: up,
            last_mode: f.mode,
            last_sid: f.sid,
            attention: if p.last_status == "thinking"@ && f.status == "ready"@ {
                1
            } else if up && !p.had_pending {
                2
            } else {
                p.attention
            },
            ai_title: if due { f.title } else { p.ai_title },
            ai_title_read: if due {
                if f.now > 1 { f.now } else { 1 }
            } else {
                p.ai_title_read
            },
        },
        Flags {
            dirty: ids != p.pending_ids || f.serial != p.last_serial || (due && f.title != p.ai_title) || (minute
                != p.last_minute && f.relative) || f.status != p.last_status || title != p.last_title || (moving && f.dots
                != p.last_dot),
            animating: moving,
            host_cmd,
            meta: f.sid != p.last_sid || f.mode != p.last_mode,
        },
    )
}

/// A second poll on an unchanged session reports no change.
pub proof fn law_poll_settles(p: PollV, f: FactsV, host_cmd: bool)
    ensures
        ({
            let one = polled(p, f, host_cmd).0;
            let (two, flags) = polled(one, f, host_cmd);
            two == one && !flags.dirty && !flags.meta
        }),
{
    let one = polled(p, f, host_cmd).0;
    let two = polled(one, f, host_cmd).0;
    reveal_strlit("thinking");
    reveal_strlit("ready");
    assert("thinking"@.len() != "ready"@.len());
    assert(!read_due(one, f.serial, f.sid, f.now) || one.ai_title == f.title);
    assert(two =~= one);
}

/// A finished turn and a freshly raised prompt each call for the user, once.
pub proof fn law_attention_is_raised_once(p: PollV, f: FactsV, host_cmd: bool)
    requires
        p.attention == 0,
    ensures
        ({
            let one = polled(p, f, host_cmd).0;
            let two = polled(PollV { attention: 0, ..one }, f, host_cmd).0;
            &&& one.attention == 1 <==> p.last_status == "thinking"@ && f.status == "ready"@
            &&& one.attention == 2 <==> f.pending is Some && !p.had_pending && !(p.last_status == "thinking"@ && f.status
                == "ready"@)
            &&& two.attention == 0
        }),
{
    reveal_strlit("thinking");
    reveal_strlit("ready");
    assert("thinking"@.len() != "ready"@.len());
}

/// The names and ids of the options of a prompt.
fn options_of(v: &Vec<(String, String, String)>) -> (r: (Vec<String>, Vec<String>))
    ensures
        texts(r.0@) == choice_ids(choices_v(v@)),
        texts(r.1@) == choice_names(choices_v(v@)),
{
    let mut ids: Vec<String> = Vec::new();
    let mut names: Vec<String> = Vec::new();
    let n: usize = v.len();
    let ghost cv = choices_v(v@);
    let mut i: usize = 0;
    assert(texts(ids@) =~= choice_ids(cv).take(0));
    assert(texts(names@) =~= choice_names(cv).take(0));
    while i < n
        invariant
            i <= n == v@.len(),
            cv == choices_v(v@),
            texts(ids@) == choice_ids(cv).take(i as int),
            texts(names@) == choice_names(cv).take(i as int),
        decreases n - i,
    {
        let ghost a = texts(ids@);
        let ghost b = texts(names@);
        ids.push(v[i].0.clone());
        names.push(v[i].1.clone());
        assert(texts(ids@) =~= a.push(cv[i as int].id));
        assert(texts(names@) =~= b.push(cv[i as int].name));
        i = i + 1;
        assert(texts(ids@) =~= choice_ids(cv).take(i as int));
        assert(texts(names@) =~= choice_names(cv).take(i as int));
    }
    assert(choice_ids(cv).take(n as int) =~= choice_ids(cv));
    assert(choice_names(cv).take(n as int) =~= choice_names(cv));
    (ids, names)
}

// ---------------------------------------------------------------------------
// The view
// ---------------------------------------------------------------------------

/// The state of the agent view.
#[verifier::ext_equal]
pub ghost struct AgentV {
    pub driver: Option<DriverV>,
    /// Why there is no session.
    pub fail: Seq<char>,
    pub input: BoxV,
    /// The transcript.
    pub panel: PanelV,
    pub browser: Option<BrowserV>,
    pub browsing: bool,
    /// Composer draft stashed while the input box is the browser's search field.
    pub draft: Seq<char>,
    /// The id the session was resumed with — the effective session id until the
    /// driver learns its own.
    pub resume_id: Seq<char>,
    /// A command the host must run itself.
    pub host_cmd: Option<Seq<char>>,
    pub poll: PollV,
}

pub struct AgentView {
    pub driver: Option<Driver>,
    pub fail: String,
    pub input: InputBox,
    pub panel: PanelRenderer,
    pub browser: Option<BrowserView>,
    pub browsing: bool,
    pub draft: String,
    pub resume_id: String,
    pub host_cmd: Option<String>,
    pub poll_state: Poll,
}

impl View for AgentView {
    type V = AgentV;

    open spec fn view(&self) -> AgentV {
        AgentV {
            driver: match self.driver {
                Some(d) => Some(d@),
                None => None,
            },
            fail: self.fail@,
            input: self.input@,
            panel: self.panel@,
            browser: match self.browser {
                Some(b) => Some(b@),
                None => None,
            },
            browsing: self.browsing,
            draft: self.draft@,
            resume_id: self.resume_id@,
            host_cmd: match self.host_cmd {
                Some(c) => Some(c@),
                None => None,
            },
            poll: self.poll_state@,
        }
    }
}

/// What the session is doing, or why there is none.
pub open spec fn status_of(a: AgentV) -> Seq<char> {
    match a.driver {
        Some(d) => d.status,
        None => "spawn failed: "@ + a.fail,
    }
}

/// The session id to use now: the driver's once it's learned it, otherwise the id the
/// session was resumed with.
pub open spec fn id_of(a: AgentV) -> Seq<char> {
    match a.driver {
        Some(d) => if d.session_id.len() == 0 {
            a.resume_id
        } else {
            d.session_id
        },
        None => a.resume_id,
    }
}

/// What the session looks like.
pub open spec fn facts_of(a: AgentV, t: Tick) -> FactsV {
    FactsV {
        status: status_of(a),
        serial: if a.driver is Some { t.serial } else { 0 },
        pending: match a.driver {
            Some(d) => match d.pending {
                Some(p) => Some(prompt_of(p)),
                None => None,
            },
            None => None,
        },
        sid: id_of(a),
        mode: match a.driver {
            Some(d) => d.permission_mode,
            None => Seq::empty(),
        },
        now: t.now,
        relative: match a.driver {
            Some(d) => has_lull(d.conv.blocks),
            None => false,
        },
        dots: t.dots,
        title: t.title@,
    }
}

/// After the view entered or left the browser. While on, the composer is its search
/// box (the draft is stashed/restored).
pub open spec fn browse_set(a: AgentV, on: bool) -> AgentV {
    if on == a.browsing {
        a
    } else if on {
        let b = match a.browser {
            Some(b) => b,
            None => BrowserV {
                sent_query: None,
                last_gen: 0,
                serial: 0,
                rows: Seq::empty(),
                loading: false,
                show_archived: false,
                current: Seq::empty(),
                busy: Seq::empty(),
                busy_read: 0,
                hover: None,
                visible: Seq::empty(),
                dirty: true,
            },
        };
        AgentV {
            browsing: true,
            browser: Some(BrowserV { current: id_of(a), dirty: true, ..b }),
            draft: join(a.input.doc.lines, '\n'),
            input: retexted(a.input, Seq::empty()),
            ..a
        }
    } else {
        AgentV { browsing: false, draft: Seq::empty(), input: retexted(a.input, a.draft), ..a }
    }
}

/// Entering and leaving the browser brings the draft back, line for line.
pub proof fn law_draft_survives_browsing(a: AgentV)
    requires
        text_wf(a.input.doc),
        !a.browsing,
    ensures
        browse_set(browse_set(a, true), false).input.doc.lines == a.input.doc.lines,
        !browse_set(browse_set(a, true), false).browsing,
{
    crate::input::doc::law_pieces_of_joined(a.input.doc.lines);
}

/// The host command that opens a session.
pub open spec fn resume_command(id: Seq<char>, title: Seq<char>) -> Seq<char> {
    "resume"@ + seq![US] + id + seq![US] + title
}

/// What a send did.
pub enum Sent {
    /// Nothing was typed, and no queued prompt was waiting.
    Nothing,
    /// The host is to run a command; the transcript scrolls to the end.
    HostCommand,
    /// The prompt, or the queued one that was waiting where nothing was typed, went to
    /// the session, if there is one; the transcript scrolls to the end.
    Prompt(Vec<Action>),
}

/// What a send did.
#[verifier::ext_equal]
pub ghost enum SentV {
    Nothing,
    HostCommand,
    Prompt(Seq<ActionV>),
}

impl View for Sent {
    type V = SentV;

    open spec fn view(&self) -> SentV {
        match self {
            Sent::Nothing => SentV::Nothing,
            Sent::HostCommand => SentV::HostCommand,
            Sent::Prompt(v) => SentV::Prompt(actions_v(v@)),
        }
    }
}

/// After the composer was sent at a time, what that did, and the next request number.
/// With nothing typed the next queued prompt is fired, if one is waiting. `/login` and
/// `/logout` need a real terminal and are handed to the host.
pub open spec fn send_text(a: AgentV, now: u64, next: u64) -> (AgentV, SentV, u64) {
    let text = join(a.input.doc.lines, '\n');
    let trimmed = trim(text);
    if trimmed.len() == 0 {
        match a.driver {
            Some(d) => {
                let (e, acts) = next_sent(d);
                (
                    AgentV { driver: Some(e), ..a },
                    if acts.len() > 0 { SentV::Prompt(acts) } else { SentV::Nothing },
                    next,
                )
            },
            None => (a, SentV::Nothing, next),
        }
    } else {
        let b = AgentV { input: retexted(a.input, Seq::empty()), ..a };
        if trimmed == "/login"@ || trimmed == "/logout"@ {
            (AgentV { host_cmd: Some(trimmed), ..b }, SentV::HostCommand, next)
        } else {
            match a.driver {
                Some(d) => {
                    let s = sent(d, text, now, next);
                    (AgentV { driver: Some(s.d), ..b }, SentV::Prompt(s.acts), s.next)
                },
                None => (b, SentV::Prompt(Seq::empty()), next),
            }
        }
    }
}

/// Enter on an empty composer fires the oldest queued prompt: it is written, and the
/// session thinks. With none waiting nothing changes.
pub proof fn law_empty_send_resumes_the_queue(a: AgentV, now: u64, next: u64)
    requires
        trim(join(a.input.doc.lines, '\n')).len() == 0,
        a.driver is Some,
    ensures
        ({
            let d = a.driver->0;
            let (b, s, n) = send_text(a, now, next);
            let i = queued_at(d.conv.blocks, 0, 0);
            &&& n == next
            &&& b == (AgentV { driver: b.driver, ..a })
            &&& if queued(d.conv.blocks) == 0 {
                b == a && s == SentV::Nothing
            } else {
                &&& s == SentV::Prompt(seq![ActionV::Write(crate::control::user_v(d.conv.blocks[i].1))])
                &&& b.driver == Some(next_sent(d).0)
                &&& status_of(b) == "thinking"@
            }
        }),
{
    crate::control::law_oldest_queued_is_fired(a.driver->0);
    assert(send_text(a, now, next).0 =~= AgentV { driver: send_text(a, now, next).0.driver, ..a });
    if queued(a.driver->0.conv.blocks) == 0 {
        assert(send_text(a, now, next).0 =~= a);
    }
}

/// An interactive built-in command is never sent to the session.
pub proof fn law_login_goes_to_the_host(a: AgentV, now: u64, next: u64)
    requires
        trim(join(a.input.doc.lines, '\n')) == "/login"@ || trim(join(a.input.doc.lines, '\n')) == "/logout"@,
    ensures
        ({
            let (b, s, n) = send_text(a, now, next);
            &&& s == SentV::HostCommand
            &&& b.driver == a.driver
            &&& b.host_cmd == Some(trim(join(a.input.doc.lines, '\n')))
            &&& n == next
        }),
{
    reveal_strlit("/login");
    reveal_strlit("/logout");
}

/// After the pending prompt was answered with an option, what is to be done, and the
/// next request number. Its buttons are dropped.
pub open spec fn answered(a: AgentV, id: Seq<char>, next: u64) -> (AgentV, Seq<ActionV>, u64) {
    let b = AgentV {
        poll: PollV { pending_ids: Seq::empty(), ..a.poll },
        panel: PanelV { buttons: Seq::empty(), ..a.panel },
        ..a
    };
    match a.driver {
        Some(d) => {
            let s = responded(d, id, next);
            (AgentV { driver: Some(s.d), ..b }, s.acts, s.next)
        },
        None => (b, Seq::empty(), next),
    }
}

/// Whether the pending prompt is a tool-permission request — recognized by its
/// `allow_once` first option, so Question/Plan prompts (whose options aren't a
/// symmetric allow/deny) never get answered by a bare key.
pub open spec fn asks_permission(a: AgentV) -> bool {
    a.poll.pending_ids.len() > 0 && a.poll.pending_ids[0] == "allow_once"@
}

/// What an interrupt does, and the next request number.
pub open spec fn interrupted(a: AgentV, next: u64) -> (Seq<ActionV>, u64) {
    match a.driver {
        Some(d) => if d.ready {
            (seq![ActionV::Write(crate::control::interrupt_v(next))], crate::control::after(next))
        } else {
            (Seq::empty(), next)
        },
        None => (Seq::empty(), next),
    }
}

/// After the Send/Stop action: a running turn is interrupted, else the composer sent.
pub open spec fn acted(a: AgentV, now: u64, next: u64) -> (AgentV, SentV, u64) {
    if status_of(a) == "thinking"@ {
        let (acts, n) = interrupted(a, next);
        (a, SentV::Prompt(acts), n)
    } else {
        send_text(a, now, next)
    }
}

/// After the permission mode was set, what is to be done, and the next request number.
pub open spec fn mode_changed(a: AgentV, mode: Seq<char>, next: u64) -> (AgentV, Seq<ActionV>, u64) {
    match a.driver {
        Some(d) => {
            let s = mode_set(d, mode, next);
            (AgentV { driver: Some(s.d), ..a }, s.acts, s.next)
        },
        None => (a, Seq::empty(), next),
    }
}

/// After the model was set, what is to be done, and the next request number.
pub open spec fn model_changed(a: AgentV, model: Seq<char>, next: u64) -> (AgentV, Seq<ActionV>, u64) {
    match a.driver {
        Some(d) => {
            let s = model_set(d, model, next);
            (AgentV { driver: Some(s.d), ..a }, s.acts, s.next)
        },
        None => (a, Seq::empty(), next),
    }
}

/// After Escape: deny a pending tool-permission request, else interrupt the turn.
pub open spec fn escaped(a: AgentV, next: u64) -> (AgentV, Seq<ActionV>, u64) {
    if asks_permission(a) {
        answered(a, "reject_once"@, next)
    } else {
        let (acts, n) = interrupted(a, next);
        (a, acts, n)
    }
}

/// A prompt that is no tool-permission request is not answered by Escape.
pub proof fn law_escape_answers_permissions_only(a: AgentV, next: u64)
    requires
        !asks_permission(a),
    ensures
        escaped(a, next).0 == a,
{
}

/// What a key did.
pub enum Keyed {
    /// A session of the browser is to be opened, by its id. Using an archived session
    /// makes it current again, so it is to be unarchived.
    Opened(String),
    Nothing,
    /// The pending prompt was answered.
    Answered(Vec<Action>),
    Sent(Sent),
    /// The key went to the composer.
    Edit(KeyStep),
}

/// What a key did.
#[verifier::ext_equal]
pub ghost enum KeyedV {
    Opened(Seq<char>),
    Nothing,
    Answered(Seq<ActionV>),
    Sent(SentV),
    Edit(KeyStep),
}

impl View for Keyed {
    type V = KeyedV;

    open spec fn view(&self) -> KeyedV {
        match self {
            Keyed::Opened(id) => KeyedV::Opened(id@),
            Keyed::Nothing => KeyedV::Nothing,
            Keyed::Answered(v) => KeyedV::Answered(actions_v(v@)),
            Keyed::Sent(s) => KeyedV::Sent(s@),
            Keyed::Edit(k) => KeyedV::Edit(*k),
        }
    }
}

/// After a key for the composer, what it did, and the next request number: Enter
/// sends, Shift+Enter (and everything else) goes to the editor. While browsing, Enter
/// opens the top listed session. Enter on an empty composer answers a pending
/// permission (Allow); with text it keeps its send meaning, so a follow-up typed while
/// the prompt is up can't be swallowed as an approval.
pub open spec fn input_keyed(a: AgentV, name: Seq<char>, shift: bool, now: u64, next: u64) -> (
    AgentV,
    KeyedV,
    u64,
) {
    if name == "Return"@ && !shift {
        if a.browsing {
            match a.browser {
                Some(b) => match openable(b, 0) {
                    Some((id, title)) => (
                        AgentV { host_cmd: Some(resume_command(id, title)), ..a },
                        KeyedV::Opened(id),
                        next,
                    ),
                    None => (a, KeyedV::Nothing, next),
                },
                None => (a, KeyedV::Nothing, next),
            }
        } else if asks_permission(a) && trim(join(a.input.doc.lines, '\n')).len() == 0 {
            let (b, acts, n) = answered(a, "allow_once"@, next);
            (b, KeyedV::Answered(acts), n)
        } else {
            let (b, s, n) = send_text(a, now, next);
            (b, KeyedV::Sent(s), n)
        }
    } else {
        let (input, step) = keyed(a.input, name, shift);
        (AgentV { input, ..a }, KeyedV::Edit(step), next)
    }
}

/// A text typed while a permission is pending is sent, not taken for an approval.
pub proof fn law_typed_text_is_no_approval(a: AgentV, now: u64, next: u64)
    requires
        !a.browsing,
        trim(join(a.input.doc.lines, '\n')).len() > 0,
    ensures
        input_keyed(a, "Return"@, false, now, next).1 is Sent,
{
}

/// What a mouse-down in the transcript did.
pub enum Down {
    /// The browser took it; a session is to be opened, by its id, or the archive mark
    /// of one was toggled.
    Browser(Click),
    /// A button of the pending prompt was hit.
    Answered(Vec<Action>),
    /// It was for the transcript: a tool's header line was folded or unfolded, or a
    /// selection begun.
    Transcript,
}

/// What a mouse-down in the transcript did.
#[verifier::ext_equal]
pub ghost enum DownV {
    Browser(ClickV),
    Answered(Seq<ActionV>),
    Transcript,
}

impl View for Down {
    type V = DownV;

    open spec fn view(&self) -> DownV {
        match self {
            Down::Browser(c) => DownV::Browser(c@),
            Down::Answered(v) => DownV::Answered(actions_v(v@)),
            Down::Transcript => DownV::Transcript,
        }
    }
}

/// What a mouse-down in the panel hit.
pub struct Hit {
    /// The row of the browser, and whether its icon.
    pub row: Option<(usize, bool)>,
    /// The button of the pending prompt, negative for none.
    pub button: i32,
    /// The header line of a tool that can be unfolded, by its key.
    pub tool: Option<u64>,
    /// The position in the transcript.
    pub text: Option<TextPos>,
}

/// After a mouse-down in the panel. The browser takes every click while it is shown;
/// then come the buttons of a pending prompt, the header lines of tools, and the text,
/// in which a selection begins while that of the composer is dropped.
pub open spec fn pressed(a: AgentV, hit: Hit, next: u64) -> (AgentV, DownV, u64) {
    let row = hit.row;
    let button = hit.button;
    if a.browsing {
        match a.browser {
            Some(b) => {
                let (c, click) = crate::browser::clicked(b, row);
                (
                    AgentV {
                        browser: Some(c),
                        host_cmd: match click {
                            ClickV::Resume(id, title) => Some(resume_command(id, title)),
                            _ => a.host_cmd,
                        },
                        ..a
                    },
                    DownV::Browser(click),
                    next,
                )
            },
            None => (a, DownV::Browser(ClickV::Nothing), next),
        }
    } else if 0 <= button < a.poll.pending_ids.len() {
        let (b, acts, n) = answered(a, a.poll.pending_ids[button as int], next);
        (b, DownV::Answered(acts), n)
    } else {
        match hit.tool {
            Some(key) => (
                AgentV { panel: PanelV { sel: None, ..folded(a.panel, key) }, ..a },
                DownV::Transcript,
                next,
            ),
            None => (
                AgentV {
                    panel: begun(a.panel, hit.text),
                    input: BoxV { doc: DocV { sel: SelV::Nothing, ..a.input.doc }, ..a.input },
                    ..a
                },
                DownV::Transcript,
                next,
            ),
        }
    }
}

/// After a text was put in at the composer's caret: a selection in the transcript is
/// dropped.
pub open spec fn input_entered(a: AgentV, text: Seq<char>) -> AgentV {
    AgentV { input: entered(a.input, text), panel: PanelV { sel: None, ..a.panel }, ..a }
}

/// The directory to run in: the one the session was created in, recorded in its
/// transcript, unless it is gone.
pub fn start_dir(recorded: Option<String>, exists: bool, cwd: String) -> (r: String)
    ensures
        r@ == (match recorded {
            Some(d) => if exists {
                d@
            } else {
                cwd@
            },
            None => cwd@,
        }),
{
    match recorded {
        Some(d) => if exists {
            d
        } else {
            cwd
        },
        None => cwd,
    }
}

impl AgentView {
    /// Whether the session and the composer are consistent.
    pub open spec fn wf(&self) -> bool {
        &&& self.driver matches Some(d) ==> d.wf()
        &&& text_wf(self.input@.doc)
        &&& history_wf(self.input@.hist)
    }

    /// A view of a session, or of the reason why there is none.
    pub fn new(driver: Option<Driver>, fail: String, resume: Option<String>) -> (r: Self)
        requires
            driver matches Some(d) ==> d.wf(),
        ensures
            r.wf(),
            r@.driver == (match driver {
                Some(d) => Some(d@),
                None => None,
            }),
            r@.fail == fail@,
            r.input.wf(),
            r@.input == fresh_box(),
            settled(r@.input),
            r@.panel == blank_panel(),
            r@.browser is None,
            !r@.browsing,
            r@.draft.len() == 0,
            r@.resume_id == (match resume {
                Some(id) => id@,
                None => Seq::empty(),
            }),
            r@.host_cmd is None,
            r@.poll == (PollV {
                pending_ids: Seq::empty(),
                last_serial: 0,
                last_minute: 0,
                last_status: Seq::empty(),
                last_title: Seq::empty(),
                last_dot: usize::MAX,
                had_pending: false,
                last_mode: Seq::empty(),
                last_sid: Seq::empty(),
                attention: 0,
                ai_title: Seq::empty(),
                ai_title_read: 0,
            }),
    {
        let r = AgentView {
            driver,
            fail,
            input: InputBox::new(),
            panel: PanelRenderer::new(),
            browser: None,
            browsing: false,
            draft: String::new(),
            resume_id: match resume {
                Some(id) => id,
                None => String::new(),
            },
            host_cmd: None,
            poll_state: Poll {
                pending_ids: Vec::new(),
                last_serial: 0,
                last_minute: 0,
                last_status: String::new(),
                last_title: String::new(),
                last_dot: usize::MAX,
                had_pending: false,
                last_mode: String::new(),
                last_sid: String::new(),
                attention: 0,
                ai_title: String::new(),
                ai_title_read: 0,
            },
        };
        assert(r@.poll.pending_ids =~= Seq::empty());
        r
    }

    /// What the session is doing, or why there is none.
    pub fn status(&self) -> (r: String)
        ensures
            r@ == status_of(self@),
    {
        match &self.driver {
            Some(d) => d.status(),
            None => join2("spawn failed: ", self.fail.as_str()),
        }
    }

    /// The session id to use now.
    pub fn effective_id(&self) -> (r: String)
        ensures
            r@ == id_of(self@),
    {
        match &self.driver {
            Some(d) => {
                let live = d.session_id();
                if live.as_str().is_empty() {
                    self.resume_id.clone()
                } else {
                    live
                }
            },
            None => self.resume_id.clone(),
        }
    }

    /// Whether a turn is actively running (the user sent a prompt and the agent is
    /// thinking/replying). Distinct from idle/ready, `initializing` (session startup,
    /// incl. a resume), or a spawn failure — so the host can tell real conversation
    /// activity from merely opening/switching a session.
    pub fn is_thinking(&self) -> (r: bool)
        ensures
            r == (status_of(self@) == "thinking"@),
    {
        let s = self.status();
        same(s.as_str(), "thinking")
    }

    /// Enter/leave the browser. While on, the panel shows the session list and the
    /// composer is its search box (the draft is stashed/restored).
    pub fn set_browsing(&mut self, on: bool)
        requires
            old(self).wf(),
        ensures
            final(self)@ == browse_set(old(self)@, on),
            final(self).wf(),
            settled(old(self)@.input) ==> settled(final(self)@.input),
            old(self).input.wf() && old(self)@.input.doc.sel == SelV::Nothing ==> final(self).input.wf(),
    {
        if on == self.browsing {
            return;
        }
        self.browsing = on;
        if on {
            let current = self.effective_id();
            let mut b = match self.browser.take() {
                Some(b) => b,
                None => BrowserView::new(),
            };
            b.restyle();
            b.set_current(current.as_str());
            self.browser = Some(b);
            self.draft = self.input.text();
            self.input.clear();
        } else {
            let draft = self.draft.clone();
            self.draft = String::new();
            self.input.set_text(draft.as_str());
        }
        assert(self@ =~= browse_set(old(self)@, on));
    }

    /// The text that the browser searches for while the view shows it.
    pub fn search_query(&self) -> (r: String)
        ensures
            r@ == trim(join(self@.input.doc.lines, '\n')),
    {
        let t = self.input.text();
        trim_str(t.as_str())
    }

    /// Open a browser row as a host command: the host owns view lifetimes (it must
    /// destroy this view and load the picked session), so hand it up.
    fn browse_open(&mut self, id: &str, title: &str)
        ensures
            final(self)@ == (AgentV { host_cmd: Some(resume_command(id@, title@)), ..old(self)@ }),
            old(self).wf() ==> final(self).wf(),
            final(self).input == old(self).input,
            final(self).browser == old(self).browser,
    {
        let mut s = "resume".to_owned();
        s.push(US);
        s.append(id);
        s.push(US);
        s.append(title);
        assert(s@ =~= resume_command(id@, title@));
        self.host_cmd = Some(s);
    }

    /// Whether the session's generated title is to be read before the next poll.
    pub fn title_due(&self, serial: u64, now: u64) -> (r: bool)
        ensures
            r == (!self@.browsing && read_due(
                self@.poll,
                if self@.driver is Some { serial } else { 0 },
                id_of(self@),
                now,
            )),
    {
        if self.browsing {
            return false;
        }
        let sid = self.effective_id();
        let serial: u64 = if self.driver.is_some() {
            serial
        } else {
            0
        };
        let p = &self.poll_state;
        !sid.as_str().is_empty() && ((p.ai_title.as_str().is_empty() && p.ai_title_read == 0) || (serial
            != p.last_serial && now >= p.ai_title_read && now - p.ai_title_read >= 3))
    }

    /// Report what changed since the last poll; the transcript gets the buttons of the
    /// pending prompt when those changed. In the browser only its own changes count.
    pub fn poll(&mut self, t: &Tick) -> (r: Flags)
        requires
            old(self).wf(),
        ensures
            final(self).wf(),
            ({
                let a = old(self)@;
                let f = facts_of(a, *t);
                let cmd = a.host_cmd is Some;
                if a.browsing {
                    &&& r == Flags {
                        dirty: a.browser is Some && a.browser->0.dirty,
                        animating: false,
                        host_cmd: cmd,
                        meta: false,
                    }
                    &&& final(self)@ == (AgentV {
                        browser: match a.browser {
                            Some(b) => Some(BrowserV { dirty: false, ..b }),
                            None => None,
                        },
                        ..a
                    })
                } else {
                    &&& r == polled(a.poll, f, cmd).1
                    &&& final(self)@ == (AgentV {
                        poll: polled(a.poll, f, cmd).0,
                        panel: if fact_ids(f) != a.poll.pending_ids {
                            PanelV {
                                buttons: match f.pending {
                                    Some((title, o)) => choice_names(o),
                                    None => Seq::empty(),
                                },
                                ..a.panel
                            }
                        } else {
                            a.panel
                        },
                        ..a
                    })
                }
            }),
    {
        let ghost a = self@;
        let ghost f = facts_of(a, *t);
        let host_cmd = self.host_cmd.is_some();
        if self.browsing {
            let dirty = match self.browser.take() {
                Some(mut b) => {
                    let d = b.take_dirty();
                    self.browser = Some(b);
                    d
                },
                None => false,
            };
            return Flags { dirty, animating: false, host_cmd, meta: false };
        }
        let status = self.status();
        let sid = self.effective_id();
        let due = self.title_due(t.serial, t.now);
        let (serial, mode, pending) = match &self.driver {
            Some(d) => (t.serial, d.permission_mode(), d.pending_view()),
            None => (0, String::new(), None),
        };
        let relative = match &self.driver {
            Some(d) => d.has_relative_stamp(t.now),
            None => false,
        };
        let up = pending.is_some();
        let (title, ids, names) = match pending {
            Some((title, o)) => {
                let (ids, names) = options_of(&o);
                (title, ids, names)
            },
            None => {
                let ids: Vec<String> = Vec::new();
                let names: Vec<String> = Vec::new();
                assert(texts(ids@) =~= Seq::empty());
                assert(texts(names@) =~= Seq::empty());
                (String::new(), ids, names)
            },
        };
        assert(texts(ids@) == fact_ids(f));
        let p = &self.poll_state;
        let buttons = !same_all(&ids, &p.pending_ids);
        let moving = same(status.as_str(), "thinking") || same(status.as_str(), "initializing");
        let titled = due && !same(t.title.as_str(), p.ai_title.as_str());
        let ticked = t.now / 60 != p.last_minute && relative;
        let flags = Flags {
            dirty: buttons || serial != p.last_serial || titled || ticked || !same(
                status.as_str(),
                p.last_status.as_str(),
            ) || !same(title.as_str(), p.last_title.as_str()) || (moving && t.dots != p.last_dot),
            animating: moving,
            host_cmd,
            meta: !same(sid.as_str(), p.last_sid.as_str()) || !same(mode.as_str(), p.last_mode.as_str()),
        };
        let finished = same(p.last_status.as_str(), "thinking") && same(status.as_str(), "ready");
        let attention: u32 = if finished {
            1
        } else if up && !p.had_pending {
            2
        } else {
            p.attention
        };
        let next = Poll {
            pending_ids: ids,
            last_serial: serial,
            last_minute: t.now / 60,
            last_status: status,
            last_title: title,
            last_dot: if moving {
                t.dots
            } else {
                p.last_dot
            },
            had_pending: up,
            last_mode: mode,
            last_sid: sid,
            attention,
            ai_title: if due {
                t.title.clone()
            } else {
                p.ai_title.clone()
            },
            ai_title_read: if due {
                if t.now > 1 {
                    t.now
                } else {
                    1
                }
            } else {
                p.ai_title_read
            },
        };
        assert(next@ =~= polled(a.poll, f, host_cmd).0);
        self.poll_state = next;
        if buttons {
            self.panel.set_buttons(names);
        }
        flags
    }

    /// Drain the one-shot attention signal: 0 none, 1 turn finished, 2 waiting on a
    /// decision. Consume-once.
    pub fn take_attention(&mut self) -> (r: u32)
        ensures
            r == old(self)@.poll.attention,
            final(self)@ == (AgentV { poll: PollV { attention: 0, ..old(self)@.poll }, ..old(self)@ }),
            old(self).wf() ==> final(self).wf(),
    {
        let a: u32 = self.poll_state.attention;
        self.poll_state.attention = 0;
        a
    }

    /// Compose the panel text at a time, in a locale: transcript + pending note +
    /// animated indicator.
    pub fn compose_in(&self, locale: Option<&str>, dots: usize, now: u64) -> (r: String)
        requires
            self.wf(),
        ensures
            r@ == (match self@.driver {
                Some(d) => panel_text(d, serialized_at(d.conv, locale_v(locale), now), dots as nat),
                None => "spawn failed: "@ + self@.fail,
            }),
    {
        let d = match &self.driver {
            Some(d) => d,
            None => return join2("spawn failed: ", self.fail.as_str()),
        };
        let text = d.transcript_in(locale, now);
        self.annotate(d, text, dots)
    }

    /// Compose the panel text at a time, in the machine's locale; which that is, is left
    /// open.
    pub fn compose(&self, dots: usize, now: u64) -> (r: String)
        requires
            self.wf(),
        ensures
            match self@.driver {
                Some(d) => exists|locale: Option<Seq<char>>|
                    r@ == panel_text(d, #[trigger] serialized_at(d.conv, locale, now), dots as nat),
                None => r@ == "spawn failed: "@ + self@.fail,
            },
    {
        let d = match &self.driver {
            Some(d) => d,
            None => return join2("spawn failed: ", self.fail.as_str()),
        };
        let text = d.transcript(now);
        let ghost t = text@;
        let r = self.annotate(d, text, dots);
        proof {
            let locale = choose|locale: Option<Seq<char>>| t == #[trigger] serialized_at(d@.conv, locale, now);
            assert(r@ == panel_text(d@, serialized_at(d@.conv, locale, now), dots as nat));
        }
        r
    }

    fn annotate(&self, d: &Driver, text: String, dots: usize) -> (r: String)
        requires
            d.wf(),
        ensures
            r@ == panel_text(d@, text@, dots as nat),
    {
        let mut text = text;
        if let Some((title, _)) = d.pending_view() {
            // An ExitPlanMode plan is Markdown: render it as a plan block before the
            // "Ready to code?" note.
            if let Some(plan) = d.pending_plan() {
                push_plan(&mut text, plan.as_str());
            }
            // A distinct card, not dim status text — and no "Thinking" indicator: the
            // session is blocked on the user's decision, not thinking.
            push_notice(&mut text, title.as_str());
            return text;
        }
        let status = d.status();
        if same(status.as_str(), "thinking") {
            let s = dotted("Thinking", dots);
            push_note(&mut text, s.as_str());
        } else if same(status.as_str(), "initializing") {
            let s = dotted("Starting", dots);
            push_note(&mut text, s.as_str());
        } else if str_starts_with(status.as_str(), "init failed") || str_starts_with(status.as_str(), "spawn failed") {
            // A dead session (most often: not signed in) renders nothing else, so
            // surface an actionable note instead of a blank panel.
            push_note(&mut text, "Not signed in \u{2014} type /login to authenticate, then press Enter.");
        }
        text
    }

    /// The action button of the composer: 0=none, 1=send, 2=stop.
    pub fn button(&self) -> (r: u8)
        ensures
            r == (if self@.browsing {
                0
            } else if status_of(self@) == "thinking"@ {
                2int
            } else {
                1
            }),
    {
        if self.browsing {
            0
        } else if self.is_thinking() {
            2
        } else {
            1
        }
    }

    /// Send the composer.
    pub fn send(&mut self, now: u64, next: &mut u64) -> (r: Sent)
        requires
            old(self).wf(),
        ensures
            (final(self)@, r@, *final(next)) == send_text(old(self)@, now, *old(next)),
            final(self).wf(),
            settled(old(self)@.input) ==> settled(final(self)@.input),
            old(self).input.wf() && old(self)@.input.doc.sel == SelV::Nothing ==> final(self).input.wf(),
    {
        let ghost a = self@;
        let text = self.input.text();
        let trimmed = trim_str(text.as_str());
        if trimmed.as_str().is_empty() {
            // Enter (or Send) with nothing typed: fire the next queued prompt if one is
            // waiting — the manual resume for a queue parked by an interrupt.
            return match self.driver.take() {
                Some(mut d) => {
                    let acts = d.send_next_queued();
                    self.driver = Some(d);
                    assert(actions_v(acts@).len() == acts@.len());
                    if acts.len() > 0 {
                        Sent::Prompt(acts)
                    } else {
                        Sent::Nothing
                    }
                },
                None => Sent::Nothing,
            };
        }
        self.input.clear();
        if same(trimmed.as_str(), "/login") || same(trimmed.as_str(), "/logout") {
            self.host_cmd = Some(trimmed);
            return Sent::HostCommand;
        }
        match self.driver.take() {
            Some(mut d) => {
                let acts = d.send(text.as_str(), now, next);
                self.driver = Some(d);
                Sent::Prompt(acts)
            },
            None => {
                let acts: Vec<Action> = Vec::new();
                assert(actions_v(acts@) =~= Seq::empty());
                Sent::Prompt(acts)
            },
        }
    }

    /// Drain the pending host command (e.g. `/login`), if any. Consume-once: the host
    /// runs it, then we forget it.
    pub fn take_host_command(&mut self) -> (r: String)
        ensures
            r@ == (match old(self)@.host_cmd {
                Some(c) => without_nul(c),
                None => Seq::empty(),
            }),
            final(self)@ == (AgentV { host_cmd: None, ..old(self)@ }),
            old(self).wf() ==> final(self).wf(),
    {
        match self.host_cmd.take() {
            Some(c) => clean(c.as_str()),
            None => String::new(),
        }
    }

    /// Interrupt a running turn.
    pub fn interrupt(&self, next: &mut u64) -> (r: Vec<Action>)
        ensures
            (actions_v(r@), *final(next)) == interrupted(self@, *old(next)),
    {
        match &self.driver {
            Some(d) => {
                let acts = d.interrupt(next);
                assert(!d@.ready ==> actions_v(acts@) =~= Seq::empty());
                acts
            },
            None => {
                let acts: Vec<Action> = Vec::new();
                assert(actions_v(acts@) =~= Seq::empty());
                acts
            },
        }
    }

    /// The Send/Stop action: interrupt a running turn, else send the composer.
    pub fn action(&mut self, now: u64, next: &mut u64) -> (r: Sent)
        requires
            old(self).wf(),
        ensures
            (final(self)@, r@, *final(next)) == acted(old(self)@, now, *old(next)),
            final(self).wf(),
            settled(old(self)@.input) ==> settled(final(self)@.input),
            old(self).input.wf() && old(self)@.input.doc.sel == SelV::Nothing ==> final(self).input.wf(),
    {
        if self.is_thinking() {
            Sent::Prompt(self.interrupt(next))
        } else {
            self.send(now, next)
        }
    }

    /// Escape: deny a pending tool-permission request, else interrupt the turn. Keeps
    /// Escape's "back out" meaning without killing a whole turn just to refuse one tool
    /// call.
    pub fn escape(&mut self, next: &mut u64) -> (r: Vec<Action>)
        requires
            old(self).wf(),
        ensures
            (final(self)@, actions_v(r@), *final(next)) == escaped(old(self)@, *old(next)),
            final(self).wf(),
            settled(old(self)@.input) ==> settled(final(self)@.input),
            final(self).input == old(self).input,
    {
        if self.permission_pending() {
            self.respond_pending("reject_once", next)
        } else {
            self.interrupt(next)
        }
    }

    /// Answer the pending prompt with option `id` and drop its buttons.
    pub fn respond_pending(&mut self, id: &str, next: &mut u64) -> (r: Vec<Action>)
        requires
            old(self).wf(),
        ensures
            (final(self)@, actions_v(r@), *final(next)) == answered(old(self)@, id@, *old(next)),
            final(self).wf(),
            final(self).input == old(self).input,
    {
        self.poll_state.pending_ids = Vec::new();
        assert(self@.poll.pending_ids =~= Seq::empty());
        self.panel.set_buttons(Vec::new());
        assert(self@.panel.buttons =~= Seq::empty());
        match self.driver.take() {
            Some(mut d) => {
                let acts = d.respond(id, next);
                self.driver = Some(d);
                acts
            },
            None => {
                let acts: Vec<Action> = Vec::new();
                assert(actions_v(acts@) =~= Seq::empty());
                acts
            },
        }
    }

    /// True when the pending prompt is a tool-permission request.
    pub fn permission_pending(&self) -> (r: bool)
        ensures
            r == asks_permission(self@),
    {
        if self.poll_state.pending_ids.len() == 0 {
            return false;
        }
        assert(self@.poll.pending_ids[0] == self.poll_state.pending_ids@[0]@);
        same(self.poll_state.pending_ids[0].as_str(), "allow_once")
    }

    /// Mouse-down in the transcript or the browser list, by what it hit.
    pub fn panel_down(&mut self, hit: Hit, next: &mut u64) -> (r: Down)
        requires
            old(self).wf(),
            old(self)@.browser matches Some(b) ==> browser_wf(b),
        ensures
            (final(self)@, r@, *final(next)) == pressed(old(self)@, hit, *old(next)),
            final(self).wf(),
            settled(old(self)@.input) ==> settled(final(self)@.input),
            old(self).input.wf() ==> final(self).input.wf(),
    {
        let button = hit.button;
        if self.browsing {
            let click = match self.browser.take() {
                Some(mut b) => {
                    let c = b.click(hit.row);
                    self.browser = Some(b);
                    c
                },
                None => Click::Nothing,
            };
            if let Click::Resume(id, title) = &click {
                self.browse_open(id.as_str(), title.as_str());
            }
            return Down::Browser(click);
        }
        let n: usize = self.poll_state.pending_ids.len();
        if button >= 0 && (button as usize) < n {
            let id = self.poll_state.pending_ids[button as usize].clone();
            assert(id@ == self@.poll.pending_ids[button as int]);
            let acts = self.respond_pending(id.as_str(), next);
            return Down::Answered(acts);
        }
        // Tool fold/unfold header.
        if let Some(key) = hit.tool {
            self.panel.toggle_tool(key);
            self.panel.selection_clear();
            return Down::Transcript;
        }
        self.panel.selection_begin(hit.text);
        self.input.clear_selection();
        Down::Transcript
    }

    /// Drag in the transcript: extends its selection. The browser list has none.
    pub fn panel_drag(&mut self, p: Option<TextPos>)
        ensures
            final(self)@ == (if old(self)@.browsing {
                old(self)@
            } else {
                AgentV { panel: dragged(old(self)@.panel, p), ..old(self)@ }
            }),
            old(self).wf() ==> final(self).wf(),
    {
        if self.browsing {
            return;
        }
        self.panel.selection_update(p);
    }

    pub fn panel_select_all(&mut self)
        ensures
            final(self)@ == (AgentV {
                panel: PanelV { sel: whole(old(self)@.panel.laid), ..old(self)@.panel },
                ..old(self)@
            }),
            old(self).wf() ==> final(self).wf(),
    {
        self.panel.select_all();
    }

    pub fn panel_select_clear(&mut self)
        ensures
            final(self)@ == (AgentV { panel: PanelV { sel: None, ..old(self)@.panel }, ..old(self)@ }),
            old(self).wf() ==> final(self).wf(),
    {
        self.panel.selection_clear();
    }

    pub fn panel_has_selection(&self) -> (r: bool)
        ensures
            r == (match self@.panel.sel {
                Some((a, b)) => a != b,
                None => false,
            }),
    {
        self.panel.has_selection()
    }

    pub fn panel_selected_text(&self) -> (r: String)
        requires
            selection_sound(self@.panel),
        ensures
            r@ == without_nul(selected(self@.panel.laid, self@.panel.sel)),
    {
        let s = self.panel.selected_text();
        clean(s.as_str())
    }

    /// The unix stamp of the time separator that a point of the transcript hits, by the
    /// blocks on show and the index of the one that is hit; 0 when not over one.
    pub fn panel_stamp_at(&self, blocks: &Vec<Block>, hit: Option<usize>) -> (r: u64)
        ensures
            r == (match hit {
                Some(i) if i < blocks@.len() => blocks_v(blocks@)[i as int].stamp,
                _ => 0,
            }),
    {
        stamp_at(blocks, hit)
    }

    // --- Browser -----------------------------------------------------------------

    pub fn browsing(&self) -> (r: bool)
        ensures
            r == self@.browsing,
    {
        self.browsing
    }

    /// Pointer moved over the panel while browsing. Returns true when it needs a
    /// re-render.
    pub fn browse_hover(&mut self, hit: Option<(usize, bool)>) -> (r: bool)
        requires
            old(self)@.browser matches Some(b) ==> browser_wf(b),
        ensures
            match old(self)@.browser {
                Some(b) => if old(self)@.browsing {
                    &&& final(self)@ == (AgentV { browser: Some(hovered(b, hit)), ..old(self)@ })
                    &&& r == (hovered(b, hit).hover != b.hover)
                } else {
                    final(self)@ == old(self)@ && !r
                },
                None => final(self)@ == old(self)@ && !r,
            },
            old(self).wf() ==> final(self).wf(),
    {
        if !self.browsing {
            return false;
        }
        match self.browser.take() {
            Some(mut b) => {
                let r = b.hover(hit);
                self.browser = Some(b);
                r
            },
            None => false,
        }
    }

    pub fn browse_toggle_archived(&mut self)
        ensures
            final(self)@ == (AgentV {
                browser: match old(self)@.browser {
                    Some(b) => Some(BrowserV { show_archived: !b.show_archived, dirty: true, ..b }),
                    None => None,
                },
                ..old(self)@
            }),
            old(self).wf() ==> final(self).wf(),
    {
        match self.browser.take() {
            Some(mut b) => {
                b.toggle_show_archived();
                self.browser = Some(b);
            },
            None => {},
        }
    }

    pub fn browse_archived_count(&self) -> (r: u64)
        ensures
            r == (match self@.browser {
                Some(b) => archived_in(b.rows, b.rows.len() as int),
                None => 0,
            }),
    {
        match &self.browser {
            Some(b) => b.archived_count() as u64,
            None => 0,
        }
    }

    // --- Session controls ------------------------------------------------------------

    pub fn set_permission_mode(&mut self, mode: &str, next: &mut u64) -> (r: Vec<Action>)
        requires
            old(self).wf(),
        ensures
            (final(self)@, actions_v(r@), *final(next)) == mode_changed(old(self)@, mode@, *old(next)),
            final(self).wf(),
    {
        match self.driver.take() {
            Some(mut d) => {
                let acts = d.set_permission_mode(mode, next);
                self.driver = Some(d);
                acts
            },
            None => {
                let acts: Vec<Action> = Vec::new();
                assert(actions_v(acts@) =~= Seq::empty());
                acts
            },
        }
    }

    pub fn permission_mode(&self) -> (r: String)
        ensures
            r@ == (match self@.driver {
                Some(d) => without_nul(d.permission_mode),
                None => Seq::empty(),
            }),
    {
        match &self.driver {
            Some(d) => {
                let s = d.permission_mode();
                clean(s.as_str())
            },
            None => String::new(),
        }
    }

    pub fn set_model(&mut self, model: &str, next: &mut u64) -> (r: Vec<Action>)
        requires
            old(self).wf(),
        ensures
            (final(self)@, actions_v(r@), *final(next)) == model_changed(old(self)@, model@, *old(next)),
            final(self).wf(),
    {
        match self.driver.take() {
            Some(mut d) => {
                let acts = d.set_model(model, next);
                self.driver = Some(d);
                acts
            },
            None => {
                let acts: Vec<Action> = Vec::new();
                assert(actions_v(acts@) =~= Seq::empty());
                acts
            },
        }
    }

    pub fn model(&self) -> (r: String)
        ensures
            r@ == (match self@.driver {
                Some(d) => without_nul(d.model),
                None => Seq::empty(),
            }),
    {
        match &self.driver {
            Some(d) => {
                let s = d.model();
                clean(s.as_str())
            },
            None => String::new(),
        }
    }

    /// Prompts queued while a turn is in progress.
    pub fn queue_len(&self) -> (r: u32)
        ensures
            r == (match self@.driver {
                Some(d) => queued(d.conv.blocks) as u32,
                None => 0,
            }),
    {
        match &self.driver {
            Some(d) => d.queue_len(),
            None => 0,
        }
    }

    pub fn cancel_queued(&mut self, index: u32)
        requires
            old(self).wf(),
        ensures
            final(self)@ == (AgentV {
                driver: match old(self)@.driver {
                    Some(d) => Some(
                        DriverV { conv: without(d.conv, queued_at(d.conv.blocks, 0, index as int)), ..d },
                    ),
                    None => None,
                },
                ..old(self)@
            }),
            final(self).wf(),
    {
        match self.driver.take() {
            Some(mut d) => {
                d.cancel_queued(index);
                self.driver = Some(d);
            },
            None => {},
        }
    }

    /// The session id, once the session has learned it.
    pub fn session_id(&self) -> (r: String)
        ensures
            r@ == (match self@.driver {
                Some(d) => without_nul(d.session_id),
                None => Seq::empty(),
            }),
    {
        match &self.driver {
            Some(d) => {
                let s = d.session_id();
                clean(s.as_str())
            },
            None => String::new(),
        }
    }

    // --- Composer ----------------------------------------------------------------

    /// Mouse-down in the composer, by whether it hit the action button and by the
    /// position of the text. The button acts; anywhere else places the caret, and a
    /// selection in the transcript is dropped.
    pub fn input_down(
        &mut self,
        on_button: bool,
        hit: Option<Cursor>,
        kind: u8,
        now: u64,
        next: &mut u64,
    ) -> (r: Option<Sent>)
        requires
            old(self).wf(),
            old(self).input.wf(),
            hit matches Some(c) ==> valid(old(self)@.input.doc.lines, c@),
        ensures
            on_button ==> r is Some && (final(self)@, (r->0)@, *final(next)) == acted(old(self)@, now, *old(next)),
            !on_button ==> {
                &&& r is None
                &&& *final(next) == *old(next)
                &&& final(self)@ == (AgentV {
                    input: moved_to(
                        old(self)@.input,
                        pointed(
                            old(self)@.input.doc,
                            kind,
                            match hit {
                                Some(c) => Some(c@),
                                None => None,
                            },
                        ),
                    ),
                    panel: PanelV { sel: None, ..old(self)@.panel },
                    ..old(self)@
                })
                &&& final(self).input.wf()
            },
            final(self).wf(),
            settled(old(self)@.input) ==> settled(final(self)@.input),
    {
        if on_button {
            return Some(self.action(now, next));
        }
        self.input.mouse(hit, kind);
        self.panel.selection_clear();
        None
    }

    /// Drag in the composer: extends its selection.
    pub fn input_drag(&mut self, hit: Option<Cursor>)
        requires
            old(self).wf(),
            old(self).input.wf(),
            hit matches Some(c) ==> valid(old(self)@.input.doc.lines, c@),
        ensures
            final(self)@ == (AgentV {
                input: moved_to(
                    old(self)@.input,
                    pointed(
                        old(self)@.input.doc,
                        1,
                        match hit {
                            Some(c) => Some(c@),
                            None => None,
                        },
                    ),
                ),
                ..old(self)@
            }),
            final(self).wf(),
            final(self).input.wf(),
    {
        self.input.mouse(hit, 1);
    }

    /// Insert typed or pasted text at the composer's caret.
    pub fn input_insert(&mut self, text: &str)
        requires
            old(self).wf(),
            old(self).input.wf(),
        ensures
            final(self)@ == input_entered(old(self)@, text@),
            final(self).wf(),
            final(self).input.wf(),
            settled(old(self)@.input) ==> settled(final(self)@.input),
    {
        self.input.insert(text);
        self.panel.selection_clear();
    }

    /// The `/…` before the caret, for the command popup.
    pub fn input_slash_prefix(&self) -> (r: String)
        requires
            self.input.wf(),
        ensures
            r@ == (if self@.input.doc.cursor.line == 0 {
                without_nul(command_prefix(before_caret(self@.input.doc)))
            } else {
                Seq::empty()
            }),
    {
        let s = self.input.slash_prefix();
        clean(s.as_str())
    }

    /// Accept a completion in the composer.
    pub fn input_complete(&mut self, prefix_len: usize, text: &str)
        requires
            old(self).wf(),
            old(self).input.wf(),
        ensures
            final(self)@ == (AgentV {
                input: completed(old(self)@.input, prefix_len as int, text@),
                ..old(self)@
            }),
            final(self).wf(),
            final(self).input.wf(),
            settled(old(self)@.input) ==> settled(final(self)@.input),
    {
        self.input.complete(prefix_len, text);
    }

    pub fn input_set_preedit(&mut self, text: &str)
        requires
            old(self).wf(),
            old(self).input.wf(),
        ensures
            final(self)@ == (AgentV { input: composed(old(self)@.input, text@), ..old(self)@ }),
            final(self).wf(),
            final(self).input.wf(),
    {
        self.input.set_preedit(text);
    }

    /// Whether there is an edit in the composer to undo.
    pub fn input_can_undo(&self) -> (r: bool)
        requires
            self.wf(),
        ensures
            r == undo_waits(self@.input),
            r ==> undoable(self@.input),
    {
        self.input.can_undo()
    }

    /// Whether there is an undone edit in the composer to redo.
    pub fn input_can_redo(&self) -> (r: bool)
        requires
            self.wf(),
        ensures
            r == redo_waits(self@.input),
            r ==> redoable(self@.input),
    {
        self.input.can_redo()
    }

    pub fn input_undo(&mut self)
        requires
            old(self).wf(),
            undoable(old(self)@.input),
        ensures
            final(self)@ == (AgentV { input: undo_box(old(self)@.input), ..old(self)@ }),
            final(self).wf(),
            settled(old(self)@.input) ==> settled(final(self)@.input),
            old(self)@.input.doc.sel == SelV::Nothing ==> final(self).input.wf(),
    {
        self.input.undo();
    }

    pub fn input_redo(&mut self)
        requires
            old(self).wf(),
            redoable(old(self)@.input),
        ensures
            final(self)@ == (AgentV { input: redo_box(old(self)@.input), ..old(self)@ }),
            final(self).wf(),
            settled(old(self)@.input) ==> settled(final(self)@.input),
            old(self)@.input.doc.sel == SelV::Nothing ==> final(self).input.wf(),
    {
        self.input.redo();
    }

    pub fn input_select_all(&mut self)
        requires
            old(self).wf(),
            old(self).input.wf(),
        ensures
            final(self)@ == (AgentV {
                input: BoxV { doc: all_selected(old(self)@.input.doc), ..old(self)@.input },
                ..old(self)@
            }),
            final(self).wf(),
            final(self).input.wf(),
    {
        self.input.select_all();
    }

    /// The selected text of the composer, empty without a selection.
    pub fn input_copy(&self) -> (r: String)
        requires
            self.input.wf(),
        ensures
            r@ == (match selected_text(self@.input.doc) {
                Some(t) => without_nul(t),
                None => Seq::empty(),
            }),
    {
        match self.input.copy() {
            Some(s) => clean(s.as_str()),
            None => String::new(),
        }
    }

    /// Copy then delete the selection of the composer.
    pub fn input_cut(&mut self) -> (r: String)
        requires
            old(self).wf(),
            old(self).input.wf(),
        ensures
            match selected_text(old(self)@.input.doc) {
                Some(t) => r@ == without_nul(t),
                None => r@.len() == 0,
            },
            final(self)@ == (AgentV { input: cut_box(old(self)@.input), ..old(self)@ }),
            final(self).wf(),
            final(self).input.wf(),
            settled(old(self)@.input) ==> settled(final(self)@.input),
    {
        match self.input.cut() {
            Some(s) => clean(s.as_str()),
            None => String::new(),
        }
    }

    pub fn input_text(&self) -> (r: String)
        ensures
            r@ == without_nul(join(self@.input.doc.lines, '\n')),
    {
        let s = self.input.text();
        clean(s.as_str())
    }

    /// A key for the composer: Enter sends, Shift+Enter (and everything else) goes to
    /// the editor. While browsing, Enter opens the top listed session instead of
    /// sending anything.
    pub fn input_key(&mut self, name: &str, shift: bool, now: u64, next: &mut u64) -> (r: Keyed)
        requires
            old(self).wf(),
            old(self).input.wf(),
            old(self)@.browser matches Some(b) ==> browser_wf(b),
        ensures
            (final(self)@, r@, *final(next)) == input_keyed(old(self)@, name@, shift, now, *old(next)),
            final(self).wf(),
            settled(old(self)@.input) ==> settled(final(self)@.input),
            r@ is Edit || old(self)@.input.doc.sel == SelV::Nothing ==> final(self).input.wf(),
    {
        if same(name, "Return") && !shift {
            if self.browsing {
                let first = match &self.browser {
                    Some(b) => b.first(),
                    None => None,
                };
                return match first {
                    Some((id, title)) => {
                        self.browse_open(id.as_str(), title.as_str());
                        Keyed::Opened(id)
                    },
                    None => Keyed::Nothing,
                };
            }
            let q = self.search_query();
            if self.permission_pending() && q.as_str().is_empty() {
                let acts = self.respond_pending("allow_once", next);
                return Keyed::Answered(acts);
            }
            return Keyed::Sent(self.send(now, next));
        }
        Keyed::Edit(self.input.key(name, shift))
    }

    /// The tab/header title: the generated title (matching the session picker), falling
    /// back to the first user line until that's known.
    pub fn title(&self) -> (r: String)
        requires
            self.wf(),
        ensures
            r@ == without_nul(
                if self@.poll.ai_title.len() > 0 {
                    self@.poll.ai_title
                } else {
                    match self@.driver {
                        Some(d) => user_line(split(serialized(d.conv), RS), 0),
                        None => user_line(split(Seq::empty(), RS), 0),
                    }
                },
            ),
    {
        if !self.poll_state.ai_title.as_str().is_empty() {
            return clean(self.poll_state.ai_title.as_str());
        }
        let t = match &self.driver {
            Some(d) => d.blocks_text(),
            None => String::new(),
        };
        let line = first_user_line(t.as_str());
        clean(line.as_str())
    }
}

// ---------------------------------------------------------------------------
// What the user's doings come to
// ---------------------------------------------------------------------------

/// While a permission is asked for and nothing is typed, Enter lets the tool run on its
/// input, and Escape keeps it from running; each is answered to the pending request, and
/// the prompt is gone.
pub proof fn law_enter_allows_and_escape_denies(a: AgentV, now: u64, next: u64)
    requires
        !a.browsing,
        a.driver is Some,
        a.driver->0.pending matches Some(PendingV::Permission { .. }),
        asks_permission(a),
        trim(join(a.input.doc.lines, '\n')).len() == 0,
    ensures
        ({
            let p = a.driver->0.pending->0;
            let (b, keyed, n) = input_keyed(a, "Return"@, false, now, next);
            let (c, acts, m) = escaped(a, next);
            &&& keyed is Answered && only_write(keyed->Answered_0) is Some
            &&& lets_run(only_write(keyed->Answered_0)->0, p->Permission_request_id, p->Permission_input)
            &&& b.driver is Some && b.driver->0.pending is None && b.input == a.input
            &&& only_write(acts) is Some
            &&& keeps_from_running(only_write(acts)->0, p->Permission_request_id, "User denied the request."@)
            &&& c.driver is Some && c.driver->0.pending is None && c.input == a.input
            &&& b.driver->0.remembered == a.driver->0.remembered && c.driver->0.remembered == a.driver->0.remembered
        }),
{
    law_permission_is_answered_as_chosen(a.driver->0, "allow_once"@, next);
    law_permission_is_answered_as_chosen(a.driver->0, "reject_once"@, next);
}

/// A button of a permission prompt does what it is named: with the buttons on show that
/// the prompt has, "Allow" and "Always allow" let the tool run, "Deny" and "Always deny"
/// keep it from running.
pub proof fn law_permission_buttons_do_what_they_say(a: AgentV, hit: Hit, next: u64)
    requires
        !a.browsing,
        a.driver is Some,
        a.driver->0.pending matches Some(PendingV::Permission { .. }),
        a.poll.pending_ids == choice_ids(prompt_of(a.driver->0.pending->0).1),
        0 <= hit.button < 4,
    ensures
        ({
            let p = a.driver->0.pending->0;
            let name = prompt_of(p).1[hit.button as int].name;
            let (b, down, n) = pressed(a, hit, next);
            &&& down is Answered && only_write(down->Answered_0) is Some
            &&& name == "Allow"@ || name == "Always allow"@ ==> lets_run(
                only_write(down->Answered_0)->0,
                p->Permission_request_id,
                p->Permission_input,
            )
            &&& name == "Deny"@ || name == "Always deny"@ ==> keeps_from_running(
                only_write(down->Answered_0)->0,
                p->Permission_request_id,
                "User denied the request."@,
            )
            &&& b.driver is Some && b.driver->0.pending is None && b.panel.buttons.len() == 0
        }),
{
    reveal_strlit("Allow");
    reveal_strlit("Always allow");
    reveal_strlit("Deny");
    reveal_strlit("Always deny");
    assert("Allow"@.len() == 5 && "Always allow"@.len() == 12 && "Deny"@.len() == 4 && "Always deny"@.len() == 11);
    let d = a.driver->0;
    law_permission_is_answered_as_chosen(d, "allow_once"@, next);
    law_permission_is_answered_as_chosen(d, "allow_always"@, next);
    law_permission_is_answered_as_chosen(d, "reject_once"@, next);
    law_permission_is_answered_as_chosen(d, "reject_always"@, next);
    crate::control::law_permission_buttons(d.pending->0);
}

/// The buttons on show are the options of what is pending, by their names, and a click
/// on one answers with its id; a poll brings both up to date.
pub proof fn law_poll_offers_the_options(p: PollV, f: FactsV, host_cmd: bool, k: int)
    ensures
        ({
            let q = polled(p, f, host_cmd).0;
            match f.pending {
                Some((title, options)) => {
                    &&& q.pending_ids.len() == options.len() && choice_names(options).len() == options.len()
                    &&& 0 <= k < options.len() ==> q.pending_ids[k] == options[k].id && choice_names(options)[k]
                        == options[k].name
                },
                None => q.pending_ids.len() == 0,
            }
        }),
{
}

/// A poll reports every change: of the transcript, the status, what is pending, and the
/// moving dots; of the mode and the session as well; that something moves while the
/// session starts or thinks, and that a command waits for the host.
pub proof fn law_poll_reports_changes(p: PollV, f: FactsV, host_cmd: bool)
    ensures
        ({
            let (q, flags) = polled(p, f, host_cmd);
            let moving = f.status == "thinking"@ || f.status == "initializing"@;
            &&& f.serial != p.last_serial ==> flags.dirty
            &&& f.status != p.last_status ==> flags.dirty
            &&& q.pending_ids != p.pending_ids ==> flags.dirty
            &&& f.pending matches Some((title, options)) ==> (title != p.last_title ==> flags.dirty)
            &&& moving && f.dots != p.last_dot ==> flags.dirty
            &&& f.relative && f.now / 60 != p.last_minute ==> flags.dirty
            &&& flags.meta <==> f.sid != p.last_sid || f.mode != p.last_mode
            &&& flags.animating == moving
            &&& flags.host_cmd == host_cmd
            &&& q.last_serial == f.serial && q.last_status == f.status && q.last_mode == f.mode && q.last_sid == f.sid
        }),
{
}

/// The flags are told apart in the number they make.
pub proof fn law_flags_are_told_apart(f: Flags)
    ensures
        f.dirty == (f.value() % 2 == 1),
        f.animating == (f.value() / 2 % 2 == 1),
        f.host_cmd == (f.value() / 4 % 2 == 1),
        f.meta == (f.value() / 8 == 1),
{
}

/// What a poll sees of a view is the session's own: its status, its prompt, its id and
/// its mode.
pub proof fn law_poll_looks_at_the_session(a: AgentV, t: Tick)
    ensures
        ({
            let f = facts_of(a, t);
            &&& f.now == t.now && f.dots == t.dots && f.title == t.title@
            &&& match a.driver {
                Some(d) => {
                    &&& f.status == d.status && f.mode == d.permission_mode && f.serial == t.serial
                    &&& f.sid == (if d.session_id.len() > 0 { d.session_id } else { a.resume_id })
                    &&& d.pending is None ==> f.pending is None
                    &&& d.pending matches Some(p) ==> f.pending == Some(prompt_of(p))
                    &&& f.relative == has_lull(d.conv.blocks)
                },
                None => f.status == "spawn failed: "@ + a.fail && f.sid == a.resume_id && f.pending is None,
            }
        }),
{
}

/// The panel shows the transcript and behind it what the user is waited for, the plan
/// first if there is one; while nothing is pending, that the session thinks or starts, or
/// that the user has to sign in.
pub proof fn law_panel_shows_what_is_pending(d: DriverV, text: Seq<char>, dots: nat)
    ensures
        ({
            let t = panel_text(d, text, dots);
            &&& t.take(text.len() as int) == text
            &&& d.pending matches Some(p) ==> {
                let note = seq![RS, 'n', US] + prompt_of(p).0;
                match plan_of(d.pending) {
                    Some(plan) => t == text + seq![RS, 'p', US] + plan + note,
                    None => t == text + note,
                }
            }
            &&& d.pending is None && d.status == "ready"@ ==> t == text
            &&& d.pending is None && d.status == "thinking"@ ==> {
                &&& t.len() == text.len() + 3 + "Thinking"@.len() + dots
                &&& t.take((text.len() + 3 + "Thinking"@.len()) as int) == text + seq![RS, 't', US] + "Thinking"@
                &&& forall|i: int| text.len() + 3 + "Thinking"@.len() <= i < t.len() ==> #[trigger] t[i] == '.'
            }
        }),
{
    let t = panel_text(d, text, dots);
    assert(t.take(text.len() as int) =~= text);
    if let Some(p) = d.pending {
        let note = seq![RS, 'n', US] + prompt_of(p).0;
        match plan_of(d.pending) {
            Some(plan) => {
                assert(t =~= text + seq![RS, 'p', US] + plan + note);
            },
            None => {
                assert(t =~= text + note);
            },
        }
    } else {
        reveal_strlit("ready");
        reveal_strlit("thinking");
        reveal_strlit("initializing");
        reveal_strlit("init failed");
        reveal_strlit("spawn failed");
        assert("ready"@.len() == 5 && "thinking"@.len() == 8 && "initializing"@.len() == 12);
        assert("init failed"@.len() == 11 && "spawn failed"@.len() == 12);
        if d.status == "thinking"@ {
            assert(t.take((text.len() + 3 + "Thinking"@.len()) as int) =~= text + seq![RS, 't', US] + "Thinking"@);
        }
    }
}

/// What is typed and sent is what the session is prompted with, as it was typed; the
/// composer is empty then. While the session thinks it is queued instead.
pub proof fn law_typed_text_is_sent(a: AgentV, now: u64, next: u64)
    requires
        trim(join(a.input.doc.lines, '\n')).len() > 0,
        trim(join(a.input.doc.lines, '\n')) != "/login"@,
        trim(join(a.input.doc.lines, '\n')) != "/logout"@,
        a.driver is Some,
        a.driver->0.ready,
        !starts_with(a.driver->0.status, "init failed"@),
        a.driver->0.status != "closed"@,
    ensures
        ({
            let text = join(a.input.doc.lines, '\n');
            let d = a.driver->0;
            let (b, s, n) = send_text(a, now, next);
            &&& b.input.doc.lines == seq![Seq::<char>::empty()] && b.input.doc.cursor == (Pos { line: 0, col: 0 })
            &&& b.driver is Some && s is Prompt
            &&& d.status == "thinking"@ ==> {
                &&& s->Prompt_0.len() == 0
                &&& b.driver->0.conv.blocks == d.conv.blocks.push(('q', text, now))
            }
            &&& d.status != "thinking"@ ==> {
                &&& only_write(s->Prompt_0) is Some && prompts(only_write(s->Prompt_0)->0, text)
                &&& b.driver->0.conv.blocks == d.conv.blocks.push(('u', text, now))
                &&& status_of(b) == "thinking"@
            }
            &&& b.host_cmd == a.host_cmd && b.panel == a.panel && b.browser == a.browser
        }),
{
    let text = join(a.input.doc.lines, '\n');
    law_prompts_are_taken(a.driver->0, text, now, next);
    crate::input::doc::lemma_pieces_of_flat(Seq::empty());
}

/// The button of the composer stops a running turn, and sends what is typed otherwise.
pub proof fn law_action_stops_or_sends(a: AgentV, now: u64, next: u64)
    ensures
        ({
            let (b, s, n) = acted(a, now, next);
            &&& status_of(a) != "thinking"@ ==> (b, s, n) == send_text(a, now, next)
            &&& status_of(a) == "thinking"@ && a.driver is Some && a.driver->0.ready ==> {
                &&& b == a
                &&& s is Prompt && only_write(s->Prompt_0) is Some
                &&& at(only_write(s->Prompt_0)->0, "type"@) == JsonV::Str("control_request"@)
                &&& at(at(only_write(s->Prompt_0)->0, "request"@), "subtype"@) == JsonV::Str("interrupt"@)
            }
        }),
{
    crate::control::lemma_interrupts(next);
}

/// Setting the mode or the model tells a ready session, and changes nothing else of the
/// view.
pub proof fn law_settings_go_to_the_session(a: AgentV, value: Seq<char>, next: u64)
    requires
        a.driver is Some,
        a.driver->0.ready,
    ensures
        ({
            let (b, acts, n) = mode_changed(a, value, next);
            &&& b == (AgentV { driver: Some(DriverV { permission_mode: value, ..a.driver->0 }), ..a })
            &&& only_write(acts) is Some && asks_to_set(only_write(acts)->0, "set_permission_mode"@, "mode"@, value)
        }),
        value.len() > 0 && value != "default"@ ==> {
            let (b, acts, n) = model_changed(a, value, next);
            &&& b == (AgentV { driver: Some(DriverV { model: value, ..a.driver->0 }), ..a })
            &&& only_write(acts) is Some && asks_to_set(only_write(acts)->0, "set_model"@, "model"@, value)
        },
{
    crate::control::law_mode_is_told(a.driver->0, value, next);
    crate::control::law_model_is_told(a.driver->0, value, next);
}

/// Enter in the list opens the first session that can be opened: the host is told to
/// resume it, by its id and its title. The session of the view stays as it is.
pub proof fn law_enter_opens_the_first_session(a: AgentV, now: u64, next: u64)
    requires
        a.browsing,
        a.browser is Some,
    ensures
        ({
            let (b, keyed, n) = input_keyed(a, "Return"@, false, now, next);
            &&& b.driver == a.driver && n == next
            &&& openable(a.browser->0, 0) matches Some((id, title)) ==> {
                &&& keyed == KeyedV::Opened(id)
                &&& b.host_cmd == Some("resume"@ + seq![US] + id + seq![US] + title)
            }
            &&& openable(a.browser->0, 0) is None ==> b == a && keyed == KeyedV::Nothing
        }),
{
}

/// Any other key, and Enter with Shift, goes to the composer and to nothing else.
pub proof fn law_other_keys_edit(a: AgentV, name: Seq<char>, shift: bool, now: u64, next: u64)
    requires
        name != "Return"@ || shift,
    ensures
        ({
            let (b, keyed, n) = input_keyed(a, name, shift, now, next);
            &&& b == (AgentV { input: crate::input::keys::keyed(a.input, name, shift).0, ..a })
            &&& keyed == KeyedV::Edit(crate::input::keys::keyed(a.input, name, shift).1)
            &&& n == next
        }),
{
}

/// Opening the list empties the composer for the search and marks the view's session as
/// the current one; the session goes on.
pub proof fn law_browsing_searches_in_the_composer(a: AgentV)
    requires
        !a.browsing,
    ensures
        ({
            let b = browse_set(a, true);
            &&& b.browsing && b.driver == a.driver
            &&& b.input.doc.lines == seq![Seq::<char>::empty()]
            &&& b.draft == join(a.input.doc.lines, '\n')
            &&& b.browser is Some && b.browser->0.current == id_of(a)
            &&& a.browser matches Some(l) ==> b.browser->0.rows == l.rows
        }),
        browse_set(a, false) == a,
{
    crate::input::doc::lemma_pieces_of_flat(Seq::empty());
}

/// Cleaning a text takes out nothing but what would end it.
pub proof fn law_cleaning_keeps_the_rest(s: Seq<char>, c: char)
    ensures
        !s.contains('\0') ==> without_nul(s) == s,
        without_nul(s.push(c)) == (if c == '\0' { without_nul(s) } else { without_nul(s).push(c) }),
        without_nul(Seq::empty()) == Seq::<char>::empty(),
    decreases s.len(),
{
    assert(s.push(c).drop_last() =~= s);
    if s.len() > 0 && !s.contains('\0') {
        assert(!s.drop_last().contains('\0')) by {
            if s.drop_last().contains('\0') {
                let k = choose|k: int| 0 <= k < s.drop_last().len() && s.drop_last()[k] == '\0';
                assert(s[k] == '\0');
            }
        }
        law_cleaning_keeps_the_rest(s.drop_last(), c);
        assert(s.contains(s.last()));
        assert(s.drop_last().push(s.last()) =~= s);
    }
}

/// A session is titled by the first line of the first prompt, without the white space
/// around it and cut where it is too long; what the agent said before does not count.
pub proof fn law_title_is_the_first_prompt(before: Seq<Seq<char>>, body: Seq<char>, rest: Seq<Seq<char>>)
    requires
        forall|i: int| 0 <= i < before.len() ==> (#[trigger] before[i]).len() > 1 && before[i][0] != 'u' && before[i][0]
            != US && before[i][1] == US,
    ensures
        user_line(before + seq![seq!['u', US] + body] + rest, 0) == capped(trim(first_line(trim(body)))),
{
    lemma_title(before, body, rest, 0);
}

proof fn lemma_chunk_parts(role: char, body: Seq<char>)
    requires
        role != US,
    ensures
        chunk_parts(seq![role, US] + body) == (seq![role], body),
{
    let s = seq![role, US] + body;
    let parts = split(s, US);
    crate::text::law_join_split(s, US);
    crate::text::lemma_split_pieces(s, US);
    let h = parts[0];
    if parts.len() == 1 {
        assert(h == s);
        assert(h[1] == US);
        assert(false);
    }
    assert(s == h.push(US) + join(parts.skip(1), US));
    if h.len() == 0 {
        assert(s[0] == US);
    }
    if h.len() > 1 {
        assert(h[1] == s[1]);
    }
    assert(h =~= seq![role]);
    let tail = join(parts.skip(1), US);
    assert(s.skip(2) =~= body);
    assert((h.push(US) + tail).skip(2) =~= tail);
}

proof fn lemma_title(before: Seq<Seq<char>>, body: Seq<char>, rest: Seq<Seq<char>>, i: int)
    requires
        0 <= i <= before.len(),
        forall|i: int| 0 <= i < before.len() ==> (#[trigger] before[i]).len() > 1 && before[i][0] != 'u' && before[i][0]
            != US && before[i][1] == US,
    ensures
        user_line(before + seq![seq!['u', US] + body] + rest, i) == capped(trim(first_line(trim(body)))),
    decreases before.len() - i,
{
    let all = before + seq![seq!['u', US] + body] + rest;
    if i < before.len() {
        let b = before[i];
        assert(all[i] == b);
        assert(b =~= seq![b[0], US] + b.skip(2));
        lemma_chunk_parts(b[0], b.skip(2));
        lemma_title(before, body, rest, i + 1);
    } else {
        assert(all[i] == seq!['u', US] + body);
        lemma_chunk_parts('u', body);
    }
}

/// A session that thinks or starts says so; one that could not be opened says how to sign in,
/// and any other says nothing.
pub proof fn law_status_is_told(d: DriverV, text: Seq<char>, dots: nat)
    requires
        d.pending is None,
    ensures
        indicator("thinking"@) == Some("Thinking"@),
        indicator("initializing"@) == Some("Starting"@),
        d.status != "thinking"@ && d.status != "initializing"@ ==> indicator(d.status) is None,
        d.status == "initializing"@ ==> panel_text(d, text, dots) == text + seq![RS, 't', US] + ("Starting"@ + dots_text(
            dots,
        )),
        d.status != "thinking"@ && d.status != "initializing"@ && (starts_with(d.status, "init failed"@) || starts_with(
            d.status,
            "spawn failed"@,
        )) ==> panel_text(d, text, dots) == text + seq![RS, 't', US] + sign_in_note(),
        d.status != "thinking"@ && d.status != "initializing"@ && !starts_with(d.status, "init failed"@) && !starts_with(
            d.status,
            "spawn failed"@,
        ) ==> panel_text(d, text, dots) == text,
{
    reveal_strlit("thinking");
    reveal_strlit("initializing");
    assert("thinking"@.len() == 8 && "initializing"@.len() == 12);
    let t = panel_text(d, text, dots);
    assert(d.status == "initializing"@ ==> t =~= text + seq![RS, 't', US] + ("Starting"@ + dots_text(dots)));
}

/// A title of more than 48 characters is cut there, and an ellipsis shows it.
pub proof fn law_long_titles_are_cut(line: Seq<char>)
    ensures
        line.len() <= 48 ==> capped(line) == line,
        line.len() > 48 ==> capped(line).len() == 49 && capped(line).take(48) == line.take(48) && capped(line)[48]
            == '\u{2026}',
{
    if line.len() > 48 {
        assert(capped(line).take(48) =~= line.take(48));
    }
}

/// A view says what its session says, and why it has none where it has none.
pub proof fn law_status_is_that_of_the_session(a: AgentV)
    ensures
        a.driver matches Some(d) ==> status_of(a) == d.status,
        a.driver is None ==> status_of(a) == "spawn failed: "@ + a.fail,
{
}

/// A press on a tool's header folds or unfolds that tool and drops the selection. A press on
/// the text begins a selection there, and that of the composer is dropped; a press beside
/// the text leaves none. Nothing is sent.
pub proof fn law_press_on_the_transcript(a: AgentV, hit: Hit, next: u64)
    requires
        !a.browsing,
        !(0 <= hit.button < a.poll.pending_ids.len()),
    ensures
        ({
            let (b, down, n) = pressed(a, hit, next);
            &&& down is Transcript && n == next
            &&& b.driver == a.driver && b.host_cmd == a.host_cmd
            &&& hit.tool matches Some(key) ==> {
                &&& b.panel.open.contains(key) == !a.panel.open.contains(key)
                &&& b.panel.sel is None
                &&& b.input == a.input
            }
            &&& hit.tool is None ==> {
                &&& hit.text matches Some(q) ==> b.panel.sel == Some((q, q))
                &&& hit.text is None ==> b.panel.sel is None
                &&& b.panel.open == a.panel.open
                &&& b.input.doc.sel == SelV::Nothing
                &&& b.input.doc.lines == a.input.doc.lines && b.input.doc.cursor == a.input.doc.cursor
            }
        }),
{
}

/// A title that is read is kept until the next one is: when none was read yet, and when the
/// transcript has changed and three seconds have gone by. Without a session none is read.
pub proof fn law_title_is_read_when_due(p: PollV, f: FactsV, host_cmd: bool)
    ensures
        ({
            let q = polled(p, f, host_cmd).0;
            let first = p.ai_title.len() == 0 && p.ai_title_read == 0;
            let again = f.serial != p.last_serial && p.ai_title_read + 3 <= f.now;
            &&& f.sid.len() > 0 && (first || again) ==> q.ai_title == f.title && q.ai_title_read > 0 && (f.now > 0
                ==> q.ai_title_read == f.now)
            &&& f.sid.len() == 0 || !(first || again) ==> q.ai_title == p.ai_title && q.ai_title_read == p.ai_title_read
        }),
{
}

} // verus!

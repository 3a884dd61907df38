//! The session browser: the "All Sessions" list shown in place of the transcript.
//!
//! It owns no data source of its own: the program around the library asks for the
//! sessions that a query matches, and hands them in when they have come. Row
//! activation is reported to the [`AgentView`](crate::agentview::AgentView).

use vstd::prelude::*;

use crate::clock::{age, editor_locale, format_in, label, locale_v};
use crate::text::{chars, from_chars, is_among, same, same_all, sorted_set, sorted_unique, texts};

verus! {

/// A session in the list.
pub struct Session {
    pub id: String,
    pub title: String,
    pub archived: bool,
    /// When it was last used, in unix seconds (0 when unknown).
    pub updated: u64,
    /// Text around a match of the query.
    pub snippet: String,
}

/// A session in the list.
#[verifier::ext_equal]
pub ghost struct SessionV {
    pub id: Seq<char>,
    pub title: Seq<char>,
    pub archived: bool,
    pub updated: u64,
    pub snippet: Seq<char>,
}

impl View for Session {
    type V = SessionV;

    open spec fn view(&self) -> SessionV {
        SessionV {
            id: self.id@,
            title: self.title@,
            archived: self.archived,
            updated: self.updated,
            snippet: self.snippet@,
        }
    }
}

/// Sessions in a list.
pub open spec fn sessions_v(v: Seq<Session>) -> Seq<SessionV> {
    Seq::new(v.len(), |i: int| v[i]@)
}

/// What a mouse-down on the list resolved to.
pub enum Click {
    Nothing,
    /// Open (resume) this session: (id, title).
    Resume(String, String),
    /// The archive icon was toggled: the session's id, and whether it is archived now.
    Toggled(String, bool),
}

/// What a mouse-down on the list resolved to.
#[verifier::ext_equal]
pub ghost enum ClickV {
    Nothing,
    Resume(Seq<char>, Seq<char>),
    Toggled(Seq<char>, bool),
}

impl View for Click {
    type V = ClickV;

    open spec fn view(&self) -> ClickV {
        match self {
            Click::Nothing => ClickV::Nothing,
            Click::Resume(id, title) => ClickV::Resume(id@, title@),
            Click::Toggled(id, on) => ClickV::Toggled(id@, *on),
        }
    }
}

/// The state of the browser.
#[verifier::ext_equal]
pub ghost struct BrowserV {
    /// The query the in-flight/last request was issued for.
    pub sent_query: Option<Seq<char>>,
    /// The sessions-dir generation the current list reflects.
    pub last_gen: u64,
    /// The request that is under way (0 = none).
    pub serial: u64,
    pub rows: Seq<SessionV>,
    pub loading: bool,
    pub show_archived: bool,
    /// The session currently open in this window (accent highlight).
    pub current: Seq<char>,
    /// Session ids driven by a live process elsewhere, ascending.
    pub busy: Seq<Seq<char>>,
    pub busy_read: u64,
    /// Hovered row of the last layout, and whether the pointer is over its icon.
    pub hover: Option<(usize, bool)>,
    /// The rows of the last layout, as indices into `rows`.
    pub visible: Seq<usize>,
    pub dirty: bool,
}

/// The state of the browser.
pub struct BrowserView {
    pub sent_query: Option<String>,
    pub last_gen: u64,
    pub serial: u64,
    pub rows: Vec<Session>,
    pub loading: bool,
    pub show_archived: bool,
    pub current: String,
    pub busy: Vec<String>,
    pub busy_read: u64,
    pub hover: Option<(usize, bool)>,
    pub visible: Vec<usize>,
    pub dirty: bool,
}

impl View for BrowserView {
    type V = BrowserV;

    open spec fn view(&self) -> BrowserV {
        BrowserV {
            sent_query: match self.sent_query {
                Some(q) => Some(q@),
                None => None,
            },
            last_gen: self.last_gen,
            serial: self.serial,
            rows: sessions_v(self.rows@),
            loading: self.loading,
            show_archived: self.show_archived,
            current: self.current@,
            busy: texts(self.busy@),
            busy_read: self.busy_read,
            hover: self.hover,
            visible: self.visible@,
            dirty: self.dirty,
        }
    }
}

/// The rows of the list among the first `n` sessions: archived ones only when they
/// are shown.
pub open spec fn shown_rows(rows: Seq<SessionV>, archived: bool, n: int) -> Seq<usize>
    decreases n,
{
    if n <= 0 || n > rows.len() {
        Seq::empty()
    } else {
        let before = shown_rows(rows, archived, n - 1);
        if archived || !rows[n - 1].archived {
            before.push((n - 1) as usize)
        } else {
            before
        }
    }
}

/// Whether every row of the last layout is a session of the list.
pub open spec fn browser_wf(b: BrowserV) -> bool {
    forall|i: int| 0 <= i < b.visible.len() ==> #[trigger] b.visible[i] < b.rows.len()
}

/// How many of the first `n` sessions are archived.
pub open spec fn archived_in(rows: Seq<SessionV>, n: int) -> int
    decreases n,
{
    if n <= 0 || n > rows.len() {
        0
    } else {
        archived_in(rows, n - 1) + if rows[n - 1].archived { 1int } else { 0 }
    }
}

/// Whether a session is open elsewhere, and so cannot be opened here.
pub open spec fn busy_id(b: BrowserV, id: Seq<char>) -> bool {
    id != b.current && b.busy.contains(id)
}

/// The session of a row of the last layout.
pub open spec fn row_session(b: BrowserV, index: int) -> SessionV {
    b.rows[b.visible[index] as int]
}

/// What the pointer is over, by the row that it hit and whether it hit the icon. A
/// busy (open-elsewhere) row is disabled: no hover, no icon.
pub open spec fn hover_of(b: BrowserV, hit: Option<(usize, bool)>) -> Option<(usize, bool)> {
    match hit {
        Some((index, icon)) => if index < b.visible.len() && busy_id(b, row_session(b, index as int).id) {
            None
        } else {
            hit
        },
        None => None,
    }
}

/// After the pointer moved.
pub open spec fn hovered(b: BrowserV, hit: Option<(usize, bool)>) -> BrowserV {
    let h = hover_of(b, hit);
    if h != b.hover {
        BrowserV { hover: h, dirty: true, ..b }
    } else {
        b
    }
}

/// After a mouse-down, and what it resolved to: the archive icon toggles, anywhere
/// else on a row opens it.
pub open spec fn clicked(b: BrowserV, hit: Option<(usize, bool)>) -> (BrowserV, ClickV) {
    let h = hovered(b, hit);
    match h.hover {
        Some((index, icon)) if index < h.visible.len() => {
            let row = h.visible[index as int] as int;
            let s = h.rows[row];
            if icon {
                (
                    BrowserV {
                        rows: h.rows.update(row, SessionV { archived: !s.archived, ..s }),
                        dirty: true,
                        ..h
                    },
                    ClickV::Toggled(s.id, !s.archived),
                )
            } else {
                (h, ClickV::Resume(s.id, s.title))
            }
        },
        _ => (h, ClickV::Nothing),
    }
}

/// The first openable session of the layout, from row `i` on.
pub open spec fn openable(b: BrowserV, i: int) -> Option<(Seq<char>, Seq<char>)>
    decreases b.visible.len() - i,
{
    if i < 0 || i >= b.visible.len() {
        None
    } else {
        let s = row_session(b, i);
        if !busy_id(b, s.id) {
            Some((s.id, s.title))
        } else {
            openable(b, i + 1)
        }
    }
}

/// A session that is open elsewhere is never opened or archived by a click.
pub proof fn law_busy_rows_are_disabled(b: BrowserV, hit: Option<(usize, bool)>)
    requires
        browser_wf(b),
    ensures
        match clicked(b, hit).1 {
            ClickV::Resume(id, title) => !busy_id(b, id),
            ClickV::Toggled(id, on) => !busy_id(b, id),
            ClickV::Nothing => true,
        },
{
}

/// Toggling a session's archive icon twice leaves the list as it was.
pub proof fn law_archive_twice(b: BrowserV, hit: Option<(usize, bool)>)
    requires
        browser_wf(b),
        clicked(b, hit).1 is Toggled,
    ensures
        clicked(clicked(b, hit).0, hit).0.rows == b.rows,
        clicked(clicked(b, hit).0, hit).1 is Toggled,
{
    let one = clicked(b, hit).0;
    let h = hovered(b, hit);
    if let Some((index, icon)) = h.hover {
        let row = h.visible[index as int] as int;
        assert(one.rows[row].id == b.rows[row].id);
        let two = clicked(one, hit).0;
        assert(two.rows =~= b.rows);
    }
}

/// A list of sessions came for the request that is under way.
pub open spec fn listed(b: BrowserV, rows: Seq<SessionV>) -> BrowserV {
    BrowserV { rows, serial: 0, loading: false, hover: None, dirty: true, ..b }
}

/// A request was issued for a query.
pub open spec fn asked(b: BrowserV, query: Seq<char>, generation: u64, serial: u64) -> BrowserV {
    BrowserV { last_gen: generation, sent_query: Some(query), serial, loading: true, dirty: true, ..b }
}

/// Whether a request is to be issued: the query changed, or a session appeared or
/// vanished on disk.
pub open spec fn ask_due(b: BrowserV, query: Seq<char>, generation: u64) -> bool {
    b.sent_query != Some(query) || generation != b.last_gen
}

/// One query is asked for once, as long as nothing changes on disk.
pub proof fn law_query_is_asked_once(b: BrowserV, query: Seq<char>, generation: u64, serial: u64)
    ensures
        !ask_due(asked(b, query, generation, serial), query, generation),
{
}

/// What the list says while it shows no row.
pub open spec fn status_text(b: BrowserV) -> Seq<char> {
    if b.loading {
        "Loading\u{2026}"@
    } else if b.sent_query is None || b.sent_query->0.len() == 0 {
        "No sessions."@
    } else {
        "No matches."@
    }
}

/// How strong the archive icon of a row is.
#[derive(Clone, Copy, PartialEq, Eq, Structural, Debug)]
pub enum Icon {
    Hidden,
    /// Offered on the row under the pointer.
    Offered,
    /// Marks an archived session.
    Archived,
    /// Under the pointer.
    Pointed,
}

/// A row as it is shown.
pub struct RowLook {
    pub title: String,
    pub snippet: String,
    /// The age of the session's last use.
    pub time: Option<String>,
    pub current: bool,
    pub busy: bool,
    pub hovered: bool,
    pub icon: Icon,
}

/// Whether a row's look is that of an index of the layout at a time, in a locale.
pub open spec fn row_shown(b: BrowserV, index: int, locale: Option<Seq<char>>, now: u64, r: RowLook) -> bool {
    let s = row_session(b, index);
    &&& r.title@ == (if s.title.len() == 0 {
        "(untitled)"@
    } else {
        s.title
    })
    &&& r.snippet@ == one_line(s.snippet)
    &&& match r.time {
        Some(t) => s.updated > 0 && t@ == label(locale, age(s.updated, now)),
        None => s.updated == 0,
    }
    &&& r.current == (b.current.len() > 0 && s.id == b.current)
    &&& r.busy == busy_id(b, s.id)
    &&& r.hovered == row_hovered(b, index)
    &&& r.icon == row_icon(b, index)
}

/// Line endings as blanks.
pub open spec fn one_line(s: Seq<char>) -> Seq<char> {
    Seq::new(
        s.len(),
        |i: int|
            if s[i] == '\n' || s[i] == '\r' {
                ' '
            } else {
                s[i]
            },
    )
}

/// Whether the pointer is over a row that is not disabled.
pub open spec fn row_hovered(b: BrowserV, index: int) -> bool {
    !busy_id(b, row_session(b, index).id) && (b.hover matches Some((i, icon)) && i == index)
}

/// The archive icon of a row: archived rows show it always (this is how you tell
/// they're archived); other rows show it only on hover, as the "archive" affordance.
/// Not offered on a busy (disabled) row.
pub open spec fn row_icon(b: BrowserV, index: int) -> Icon {
    let s = row_session(b, index);
    if busy_id(b, s.id) || !(s.archived || row_hovered(b, index)) {
        Icon::Hidden
    } else if b.hover matches Some((i, icon)) && i == index && icon {
        Icon::Pointed
    } else if s.archived {
        Icon::Archived
    } else {
        Icon::Offered
    }
}

fn flatten_lines(s: &str) -> (r: String)
    ensures
        r@ == one_line(s@),
{
    let v = chars(s);
    let n: usize = v.len();
    let mut out: Vec<char> = Vec::new();
    let mut i: usize = 0;
    while i < n
        invariant
            i <= n == v@.len(),
            out@ == one_line(v@).take(i as int),
        decreases n - i,
    {
        let c = if v[i] == '\n' || v[i] == '\r' {
            ' '
        } else {
            v[i]
        };
        out.push(c);
        i = i + 1;
        assert(out@ =~= one_line(v@).take(i as int));
    }
    assert(one_line(v@).take(n as int) =~= one_line(v@));
    from_chars(&out)
}

impl BrowserView {
    pub fn new() -> (r: Self)
        ensures
            r@ == (BrowserV {
                sent_query: None,
                last_gen: 0,
                serial: 0,
                rows: Seq::empty(),
                loading: false,
                show_archived: false,
                current: Seq::empty(),
                busy: Seq::empty(),
                busy_read: 0,
                hover: None,
                visible: Seq::empty(),
                dirty: true,
            }),
            browser_wf(r@),
    {
        let b = BrowserView {
            sent_query: None,
            last_gen: 0,
            serial: 0,
            rows: Vec::new(),
            loading: false,
            show_archived: false,
            current: String::new(),
            busy: Vec::new(),
            busy_read: 0,
            hover: None,
            visible: Vec::new(),
            dirty: true,
        };
        assert(b@.rows =~= Seq::empty());
        assert(b@.busy =~= Seq::empty());
        b
    }

    /// The session that is open in this window.
    pub fn set_current(&mut self, id: &str)
        ensures
            final(self)@ == (if id@ != old(self)@.current {
                BrowserV { current: id@, dirty: true, ..old(self)@ }
            } else {
                old(self)@
            }),
    {
        if !same(id, self.current.as_str()) {
            self.current = id.to_owned();
            self.dirty = true;
        }
    }

    fn is_busy(&self, id: &str) -> (r: bool)
        ensures
            r == busy_id(self@, id@),
    {
        !same(id, self.current.as_str()) && is_among(&self.busy, id)
    }

    /// Whether the view changed since the last call.
    pub fn take_dirty(&mut self) -> (r: bool)
        ensures
            r == old(self)@.dirty,
            final(self)@ == (BrowserV { dirty: false, ..old(self)@ }),
    {
        let was = self.dirty;
        self.dirty = false;
        was
    }

    /// The look changed (size, scale, theme or font).
    pub fn restyle(&mut self)
        ensures
            final(self)@ == (BrowserV { dirty: true, ..old(self)@ }),
    {
        self.dirty = true;
    }

    pub fn toggle_show_archived(&mut self)
        ensures
            final(self)@ == (BrowserV { show_archived: !old(self)@.show_archived, dirty: true, ..old(self)@ }),
    {
        self.show_archived = !self.show_archived;
        self.dirty = true;
    }

    pub fn archived_count(&self) -> (r: usize)
        ensures
            r == archived_in(self@.rows, self@.rows.len() as int),
    {
        let n: usize = self.rows.len();
        let mut c: usize = 0;
        let mut i: usize = 0;
        while i < n
            invariant
                i <= n == self.rows@.len(),
                c <= i,
                c == archived_in(self@.rows, i as int),
            decreases n - i,
        {
            if self.rows[i].archived {
                c = c + 1;
            }
            i = i + 1;
        }
        c
    }

    // --- Data ------------------------------------------------------------------

    /// Whether the sessions that are open elsewhere are to be read: at most once a
    /// second.
    pub fn busy_due(&self, now: u64) -> (r: bool)
        ensures
            r == (now != self@.busy_read),
    {
        now != self.busy_read
    }

    /// The sessions that are open elsewhere were read.
    pub fn set_busy(&mut self, now: u64, ids: &Vec<String>)
        ensures
            ({
                let next = sorted_set(texts(ids@), ids@.len() as int);
                final(self)@ == (BrowserV {
                    busy_read: now,
                    busy: next,
                    dirty: old(self)@.dirty || next != old(self)@.busy,
                    ..old(self)@
                })
            }),
            final(self)@.busy.to_set() == texts(ids@).to_set(),
    {
        self.busy_read = now;
        let next = sorted_unique(ids);
        if !same_all(&next, &self.busy) {
            self.busy = next;
            self.dirty = true;
        }
    }

    /// Whether the query is to be issued: it changed, or a session appeared or
    /// vanished on disk (the generation bumps), so the open browser stays live.
    pub fn query_due(&self, query: &str, generation: u64) -> (r: bool)
        ensures
            r == ask_due(self@, query@, generation),
    {
        match &self.sent_query {
            Some(q) => !same(q.as_str(), query) || generation != self.last_gen,
            None => true,
        }
    }

    /// The query was issued, as the request `serial`.
    pub fn query_sent(&mut self, query: &str, generation: u64, serial: u64)
        ensures
            final(self)@ == asked(old(self)@, query@, generation, serial),
    {
        self.last_gen = generation;
        self.sent_query = Some(query.to_owned());
        self.serial = serial;
        self.loading = true;
        self.dirty = true;
    }

    /// The request whose sessions are to be fetched, if one is under way.
    pub fn awaited(&self) -> (r: Option<u64>)
        ensures
            r == (if self@.serial != 0 {
                Some(self@.serial)
            } else {
                None
            }),
    {
        if self.serial != 0 {
            Some(self.serial)
        } else {
            None
        }
    }

    /// The sessions of the request came. The rows stay those of the last layout, so
    /// [`BrowserView::layout`] is to follow.
    pub fn rows_came(&mut self, rows: Vec<Session>)
        ensures
            final(self)@ == listed(old(self)@, sessions_v(rows@)),
    {
        self.rows = rows;
        self.serial = 0;
        self.loading = false;
        self.hover = None;
        self.dirty = true;
    }

    /// Filter the sessions into rows.
    pub fn layout(&mut self)
        ensures
            final(self)@ == (BrowserV {
                visible: shown_rows(old(self)@.rows, old(self)@.show_archived, old(self)@.rows.len() as int),
                ..old(self)@
            }),
            browser_wf(final(self)@),
    {
        let n: usize = self.rows.len();
        let mut out: Vec<usize> = Vec::new();
        let mut i: usize = 0;
        while i < n
            invariant
                i <= n == self.rows@.len(),
                out@ == shown_rows(self@.rows, self.show_archived, i as int),
                forall|k: int| 0 <= k < out@.len() ==> #[trigger] out@[k] < n,
            decreases n - i,
        {
            if self.show_archived || !self.rows[i].archived {
                out.push(i);
            }
            i = i + 1;
        }
        self.visible = out;
    }

    // --- Input -----------------------------------------------------------------

    /// Track the pointer for the hover highlight / icon, by the row that it hit and
    /// whether it hit the row's icon. Returns true on change.
    pub fn hover(&mut self, hit: Option<(usize, bool)>) -> (r: bool)
        requires
            browser_wf(old(self)@),
        ensures
            final(self)@ == hovered(old(self)@, hit),
            r == (final(self)@.hover != old(self)@.hover),
            browser_wf(final(self)@),
    {
        let to = match hit {
            Some((index, icon)) => {
                if index < self.visible.len() {
                    let row: usize = self.visible[index];
                    assert(self@.rows[row as int].id == self.rows@[row as int].id@);
                    if self.is_busy(self.rows[row].id.as_str()) {
                        None
                    } else {
                        Some((index, icon))
                    }
                } else {
                    Some((index, icon))
                }
            },
            None => None,
        };
        let same_hover = match (to, self.hover) {
            (Some((a, x)), Some((b, y))) => a == b && x == y,
            (None, None) => true,
            _ => false,
        };
        if !same_hover {
            self.hover = to;
            self.dirty = true;
            return true;
        }
        false
    }

    /// Resolve a mouse-down: the archive icon toggles (the local copy is updated in
    /// place so the row changes immediately), anywhere else on a row opens it.
    pub fn click(&mut self, hit: Option<(usize, bool)>) -> (r: Click)
        requires
            browser_wf(old(self)@),
        ensures
            final(self)@ == clicked(old(self)@, hit).0,
            r@ == clicked(old(self)@, hit).1,
            browser_wf(final(self)@),
    {
        self.hover(hit);
        let ghost h = self@;
        let (index, icon) = match self.hover {
            Some(x) => x,
            None => return Click::Nothing,
        };
        if index >= self.visible.len() {
            return Click::Nothing;
        }
        let row: usize = self.visible[index];
        assert(self@.rows[row as int] == self.rows@[row as int]@);
        let id = self.rows[row].id.clone();
        if icon {
            let on = !self.rows[row].archived;
            self.rows[row].archived = on;
            self.dirty = true;
            assert(self@.rows =~= h.rows.update(row as int, SessionV { archived: on, ..h.rows[row as int] }));
            return Click::Toggled(id, on);
        }
        Click::Resume(id, self.rows[row].title.clone())
    }

    /// The topmost openable session (Enter in the search box opens it), skipping any
    /// that are busy in another window.
    pub fn first(&self) -> (r: Option<(String, String)>)
        requires
            browser_wf(self@),
        ensures
            match r {
                Some((id, title)) => openable(self@, 0) == Some((id@, title@)),
                None => openable(self@, 0) is None,
            },
    {
        let n: usize = self.visible.len();
        let mut i: usize = 0;
        while i < n
            invariant
                i <= n == self.visible@.len(),
                browser_wf(self@),
                openable(self@, 0) == openable(self@, i as int),
            decreases n - i,
        {
            let row: usize = self.visible[i];
            assert(self@.visible[i as int] < self@.rows.len());
            assert(self@.rows[row as int] == self.rows@[row as int]@);
            if !self.is_busy(self.rows[row].id.as_str()) {
                return Some((self.rows[row].id.clone(), self.rows[row].title.clone()));
            }
            i = i + 1;
        }
        None
    }

    // --- Display ---------------------------------------------------------------

    /// The single status line that replaces the list while it's empty.
    pub fn status_line(&self) -> (r: Option<&'static str>)
        ensures
            match r {
                Some(t) => self@.visible.len() == 0 && t@ == status_text(self@),
                None => self@.visible.len() > 0,
            },
    {
        if self.visible.len() > 0 {
            return None;
        }
        if self.loading {
            return Some("Loading\u{2026}");
        }
        let empty = match &self.sent_query {
            Some(q) => q.as_str().is_empty(),
            None => true,
        };
        if empty {
            Some("No sessions.")
        } else {
            Some("No matches.")
        }
    }

    /// How a row of the layout is shown at a time, in a locale. Archived rows keep
    /// full-strength text — dimming them would read as "disabled" when they're perfectly
    /// usable; the archive icon marks them instead. A busy row (open elsewhere) IS
    /// disabled, so it's the one thing that greys out.
    pub fn row_in(&self, index: usize, locale: Option<&str>, now: u64) -> (r: RowLook)
        requires
            browser_wf(self@),
            index < self@.visible.len(),
        ensures
            row_shown(self@, index as int, locale_v(locale), now, r),
    {
        let row: usize = self.visible[index];
        assert(self@.visible[index as int] < self@.rows.len());
        let s = &self.rows[row];
        assert(self@.rows[row as int] == s@);
        let busy = self.is_busy(s.id.as_str());
        let (over, on_icon) = match self.hover {
            Some((i, icon)) => (i == index, i == index && icon),
            None => (false, false),
        };
        let hovered = !busy && over;
        let icon = if busy || !(s.archived || hovered) {
            Icon::Hidden
        } else if on_icon {
            Icon::Pointed
        } else if s.archived {
            Icon::Archived
        } else {
            Icon::Offered
        };
        let time = if s.updated > 0 {
            Some(format_in(locale, s.updated, now))
        } else {
            None
        };
        RowLook {
            title: if s.title.as_str().is_empty() {
                "(untitled)".to_owned()
            } else {
                s.title.clone()
            },
            snippet: flatten_lines(s.snippet.as_str()),
            time,
            current: !self.current.as_str().is_empty() && same(s.id.as_str(), self.current.as_str()),
            busy,
            hovered,
            icon,
        }
    }

    /// How a row of the layout is shown at a time, in the machine's locale; which that
    /// is, is left open.
    pub fn row(&self, index: usize, now: u64) -> (r: RowLook)
        requires
            browser_wf(self@),
            index < self@.visible.len(),
        ensures
            exists|locale: Option<Seq<char>>| #[trigger] row_shown(self@, index as int, locale, now, r),
    {
        match editor_locale() {
            Some(l) => {
                let r = self.row_in(index, Some(l.as_str()), now);
                assert(row_shown(self@, index as int, Some(l@), now, r));
                r
            },
            None => {
                let r = self.row_in(index, None, now);
                assert(row_shown(self@, index as int, None, now, r));
                r
            },
        }
    }
}

// ---------------------------------------------------------------------------
// What the list shows and what it opens
// ---------------------------------------------------------------------------

/// A session is listed exactly when it is not archived or archived ones are shown, once,
/// and in the order they came in.
pub proof fn law_list_leaves_archived_sessions_out(rows: Seq<SessionV>, archived: bool, r: usize, i: int, j: int)
    requires
        rows.len() <= usize::MAX,
    ensures
        ({
            let v = shown_rows(rows, archived, rows.len() as int);
            &&& v.contains(r) <==> r < rows.len() && (archived || !rows[r as int].archived)
            &&& 0 <= i < j < v.len() ==> v[i] < v[j]
        }),
{
    lemma_shown(rows, archived, rows.len() as int, r, i, j);
}

proof fn lemma_shown(rows: Seq<SessionV>, archived: bool, n: int, r: usize, i: int, j: int)
    requires
        0 <= n <= rows.len() <= usize::MAX,
    ensures
        ({
            let v = shown_rows(rows, archived, n);
            &&& v.contains(r) <==> r < n && (archived || !rows[r as int].archived)
            &&& forall|k: int| 0 <= k < v.len() ==> #[trigger] v[k] < n
            &&& 0 <= i < j < v.len() ==> v[i] < v[j]
        }),
    decreases n,
{
    if n > 0 {
        lemma_shown(rows, archived, n - 1, r, i, j);
        let before = shown_rows(rows, archived, n - 1);
        let v = shown_rows(rows, archived, n);
        if archived || !rows[n - 1].archived {
            assert(v[before.len() as int] == (n - 1) as usize);
            if before.contains(r) {
                let k = choose|k: int| 0 <= k < before.len() && before[k] == r;
                assert(v[k] == r);
            }
            if v.contains(r) && r != n - 1 {
                let k = choose|k: int| 0 <= k < v.len() && v[k] == r;
                assert(before[k] == r);
            }
        }
    }
}

/// A session is open elsewhere when it is among those that are driven by a process, and
/// is not the one of this window.
pub proof fn law_only_other_windows_make_busy(b: BrowserV, id: Seq<char>)
    ensures
        !busy_id(b, b.current),
        !b.busy.contains(id) ==> !busy_id(b, id),
        b.busy.contains(id) && id != b.current ==> busy_id(b, id),
{
}

/// A click on a row opens the session listed there, by its id and its title, and a click
/// on its icon archives it or takes it back out, and no other; a click elsewhere, or on
/// one that is open elsewhere, does nothing.
pub proof fn law_click_takes_the_row_it_hits(b: BrowserV, index: usize, icon: bool)
    requires
        browser_wf(b),
        index < b.visible.len(),
    ensures
        ({
            let s = b.rows[b.visible[index as int] as int];
            let (c, click) = clicked(b, Some((index, icon)));
            &&& busy_id(b, s.id) ==> click == ClickV::Nothing && c.rows == b.rows
            &&& !busy_id(b, s.id) && !icon ==> click == ClickV::Resume(s.id, s.title) && c.rows == b.rows
            &&& !busy_id(b, s.id) && icon ==> {
                &&& click == ClickV::Toggled(s.id, !s.archived)
                &&& c.rows.len() == b.rows.len()
                &&& c.rows[b.visible[index as int] as int] == (SessionV { archived: !s.archived, ..s })
                &&& forall|k: int|
                    0 <= k < b.rows.len() && k != b.visible[index as int] ==> #[trigger] c.rows[k] == b.rows[k]
            }
            &&& clicked(b, None).1 == ClickV::Nothing
        }),
{
}

/// The first session that can be opened is the first one listed that is not open
/// elsewhere.
pub proof fn law_first_openable(b: BrowserV, k: int)
    requires
        browser_wf(b),
        0 <= k <= b.visible.len(),
        forall|i: int| 0 <= i < k ==> busy_id(b, (#[trigger] row_session(b, i)).id),
        k < b.visible.len() ==> !busy_id(b, row_session(b, k).id),
    ensures
        k < b.visible.len() ==> openable(b, 0) == Some(
            (b.rows[b.visible[k] as int].id, b.rows[b.visible[k] as int].title),
        ),
        k == b.visible.len() ==> openable(b, 0) is None,
{
    lemma_openable(b, 0, k);
}

proof fn lemma_openable(b: BrowserV, i: int, k: int)
    requires
        0 <= i <= k <= b.visible.len(),
        forall|j: int| 0 <= j < k ==> busy_id(b, (#[trigger] row_session(b, j)).id),
    ensures
        openable(b, i) == openable(b, k),
    decreases k - i,
{
    if i < k {
        assert(busy_id(b, row_session(b, i).id));
        lemma_openable(b, i + 1, k);
    }
}

/// A row is shown with its session's title, its snippet on one line and the age of its
/// last use; the window's own session is marked as current, and one that is open
/// elsewhere as busy.
pub proof fn law_row_shows_its_session(b: BrowserV, index: int, locale: Option<Seq<char>>, now: u64, r: RowLook)
    requires
        browser_wf(b),
        0 <= index < b.visible.len(),
        row_shown(b, index, locale, now, r),
    ensures
        ({
            let s = b.rows[b.visible[index] as int];
            &&& s.title.len() > 0 ==> r.title@ == s.title
            &&& r.title@.len() > 0 ==> (s.title.len() == 0 ==> r.title@ == "(untitled)"@)
            &&& r.snippet@.len() == s.snippet.len()
            &&& !s.snippet.contains('\n') && !s.snippet.contains('\r') ==> r.snippet@ == s.snippet
            &&& !r.snippet@.contains('\n') && !r.snippet@.contains('\r')
            &&& s.updated == 0 ==> r.time is None
            &&& s.updated > 0 ==> r.time is Some && r.time->0@ == label(locale, age(s.updated, now))
            &&& r.current <==> b.current.len() > 0 && s.id == b.current
            &&& r.busy <==> s.id != b.current && b.busy.contains(s.id)
            &&& r.busy ==> !r.hovered && r.icon == Icon::Hidden
            &&& !r.busy && s.archived ==> r.icon != Icon::Hidden
            &&& !s.archived && !r.hovered ==> r.icon == Icon::Hidden
            &&& r.icon == Icon::Pointed ==> b.hover == Some((index as usize, true))
        }),
{
    let s = b.rows[b.visible[index] as int];
    assert(row_session(b, index) == s);
    let t = s.snippet;
    if !t.contains('\n') && !t.contains('\r') {
        assert forall|i: int| 0 <= i < t.len() implies one_line(t)[i] == t[i] by {
            assert(t.contains(t[i]));
        }
        assert(one_line(t) =~= t);
    }
}

/// The rows that came are the list, and the request is done; a request marks the list as
/// loading, and a query is due again when it or what is on disk changes.
pub proof fn law_queries_bring_the_rows(
    b: BrowserV,
    rows: Seq<SessionV>,
    query: Seq<char>,
    other: Seq<char>,
    generation: u64,
    serial: u64,
)
    ensures
        listed(b, rows).rows == rows && !listed(b, rows).loading && listed(b, rows).serial == 0,
        asked(b, query, generation, serial).loading && asked(b, query, generation, serial).serial == serial,
        asked(b, query, generation, serial).rows == b.rows,
        other != query ==> ask_due(asked(b, query, generation, serial), other, generation),
        forall|g: u64| g != generation ==> #[trigger] ask_due(asked(b, query, generation, serial), query, g),
        b.sent_query is None ==> ask_due(b, query, generation),
{
}

/// The pointer is over the row it hits, unless that session is open elsewhere; it is painted
/// again only where that changes.
pub proof fn law_pointer_is_over_the_row_it_hits(b: BrowserV, index: usize, icon: bool)
    requires
        browser_wf(b),
        index < b.visible.len(),
    ensures
        ({
            let s = b.rows[b.visible[index as int] as int];
            let busy = s.id != b.current && b.busy.contains(s.id);
            let h = hovered(b, Some((index, icon)));
            &&& busy ==> h.hover is None
            &&& !busy ==> h.hover == Some((index, icon))
            &&& hovered(b, None).hover is None
            &&& h.dirty <==> b.dirty || h.hover != b.hover
            &&& h.rows == b.rows && h.visible == b.visible
        }),
{
}

/// An empty list says that it is loading, that there is nothing, or that nothing matches what
/// was looked for.
pub proof fn law_empty_list_says_why(b: BrowserV)
    ensures
        b.loading ==> status_text(b) == "Loading\u{2026}"@,
        !b.loading && b.sent_query is None ==> status_text(b) == "No sessions."@,
        !b.loading && b.sent_query is Some && b.sent_query->0.len() == 0 ==> status_text(b) == "No sessions."@,
        !b.loading && b.sent_query is Some && b.sent_query->0.len() > 0 ==> status_text(b) == "No matches."@,
{
}

/// The archived sessions are counted: none in an empty list, and one more for each.
pub proof fn law_archived_sessions_are_counted(rows: Seq<SessionV>, n: int)
    requires
        0 <= n <= rows.len(),
    ensures
        0 <= archived_in(rows, n) <= n,
        n > 0 && rows[n - 1].archived ==> archived_in(rows, n) == archived_in(rows, n - 1) + 1,
        n > 0 && !rows[n - 1].archived ==> archived_in(rows, n) == archived_in(rows, n - 1),
        archived_in(rows, 0) == 0,
    decreases n,
{
    if n > 0 {
        law_archived_sessions_are_counted(rows, n - 1);
    }
}

/// The icon of a row is pointed at where the pointer is over it, marks a session that is
/// archived, and is offered on a row under the pointer that is not.
pub proof fn law_icons_mark_and_offer(b: BrowserV, index: int, over_icon: bool)
    requires
        browser_wf(b),
        0 <= index < b.visible.len(),
        index <= usize::MAX,
        !busy_id(b, b.rows[b.visible[index] as int].id),
    ensures
        ({
            let s = b.rows[b.visible[index] as int];
            let over = b.hover == Some((index as usize, over_icon));
            let away = b.hover is None;
            &&& over && over_icon ==> row_icon(b, index) == Icon::Pointed
            &&& over && !over_icon && s.archived ==> row_icon(b, index) == Icon::Archived
            &&& over && !over_icon && !s.archived ==> row_icon(b, index) == Icon::Offered
            &&& away && s.archived ==> row_icon(b, index) == Icon::Archived
            &&& away && !s.archived ==> row_icon(b, index) == Icon::Hidden
            &&& over ==> row_hovered(b, index)
            &&& away ==> !row_hovered(b, index)
        }),
{
}

} // verus!

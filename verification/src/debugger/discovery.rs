//! Which players are on the network, and which source files a project has.

use vstd::prelude::*;

use crate::debugger::session::{players_v, Player, PlayerV};
use crate::json::{as_i64, as_str, at, parse, read};
use crate::text::{before, comes_before, lemma_before_total, lemma_before_trans, same, str_starts_with, starts_with};

verus! {

// ---------------------------------------------------------------------------
// Players
// ---------------------------------------------------------------------------

/// How long a player stays listed after it was last heard, in milliseconds.
pub const EXPIRY_MS: u64 = 4000;

/// A player and when it was last heard.
pub struct Heard {
    pub player: Player,
    pub at: u64,
}

/// The players heard, with the time of each.
pub open spec fn heard_v(v: Seq<Heard>) -> Seq<(PlayerV, u64)> {
    Seq::new(v.len(), |i: int| (v[i].player@, v[i].at))
}

/// Where a player is from the `i`-th on, and the number of players if it is not.
pub open spec fn index_of(s: Seq<(PlayerV, u64)>, guid: u32, i: int) -> int
    decreases s.len() - i,
{
    if i < 0 || i >= s.len() {
        s.len() as int
    } else if s[i].0.guid == guid {
        i
    } else {
        index_of(s, guid, i + 1)
    }
}

/// After a player was heard: it is listed once.
pub open spec fn noted(s: Seq<(PlayerV, u64)>, p: PlayerV, at: u64) -> Seq<(PlayerV, u64)> {
    let i = index_of(s, p.guid, 0);
    if i < s.len() {
        s.update(i, (p, at))
    } else {
        s.push((p, at))
    }
}

/// Whether a player heard at `at` is still there.
pub open spec fn fresh(at: u64, now: u64) -> bool {
    now - at < EXPIRY_MS
}

/// Those of the first `n` players that are still there.
pub open spec fn alive(s: Seq<(PlayerV, u64)>, now: u64, n: int) -> Seq<(PlayerV, u64)>
    decreases n,
{
    if n <= 0 || n > s.len() {
        Seq::empty()
    } else if fresh(s[n - 1].1, now) {
        alive(s, now, n - 1).push(s[n - 1])
    } else {
        alive(s, now, n - 1)
    }
}

/// Who the players are.
pub open spec fn guids(s: Seq<(PlayerV, u64)>) -> Set<u32> {
    Set::new(|g: u32| exists|i: int| 0 <= i < s.len() && (#[trigger] s[i]).0.guid == g)
}

/// Whether no player is listed twice.
pub open spec fn distinct(s: Seq<(PlayerV, u64)>) -> bool {
    forall|i: int, j: int| 0 <= i < j < s.len() ==> (#[trigger] s[i]).0.guid != (#[trigger] s[j]).0.guid
}

/// Whether a player is listed before another: by project, then by label.
pub open spec fn sooner(a: PlayerV, b: PlayerV) -> bool {
    before(a.project, b.project) || (a.project == b.project && before(a.label, b.label))
}

/// How many players, from the `i`-th on, are not listed after `p`.
pub open spec fn rank(s: Seq<PlayerV>, p: PlayerV, i: int) -> int
    decreases s.len() - i,
{
    if 0 <= i < s.len() && !sooner(p, s[i]) {
        rank(s, p, i + 1)
    } else {
        i
    }
}

/// The first `n` players in the order in which they are listed.
pub open spec fn listed(s: Seq<(PlayerV, u64)>, n: int) -> Seq<PlayerV>
    decreases n,
{
    if n <= 0 || n > s.len() {
        Seq::empty()
    } else {
        let t = listed(s, n - 1);
        t.insert(rank(t, s[n - 1].0, 0), s[n - 1].0)
    }
}

fn is_sooner(a: &Player, b: &Player) -> (r: bool)
    ensures
        r == sooner(a@, b@),
{
    comes_before(a.project.as_str(), b.project.as_str()) || (same(a.project.as_str(), b.project.as_str())
        && comes_before(a.label.as_str(), b.label.as_str()))
}

fn copy_player(p: &Player) -> (r: Player)
    ensures
        r@ == p@,
{
    Player { guid: p.guid, ip: p.ip.clone(), port: p.port, project: p.project.clone(), label: p.label.clone() }
}

/// The players on the network, deduplicated and expiring.
pub struct Discovery {
    seen: Vec<Heard>,
    last: Vec<u32>,
}

/// The players on the network.
#[verifier::ext_equal]
pub struct DiscoveryV {
    pub seen: Seq<(PlayerV, u64)>,
    /// Who was there when the list was last published.
    pub last: Set<u32>,
}

impl View for Discovery {
    type V = DiscoveryV;

    closed spec fn view(&self) -> DiscoveryV {
        DiscoveryV { seen: heard_v(self.seen@), last: self.last@.to_set() }
    }
}

impl Discovery {
    /// Nobody is listed twice, and neither is anybody in what was published.
    pub closed spec fn wf(&self) -> bool {
        &&& distinct(heard_v(self.seen@))
        &&& forall|i: int, j: int| 0 <= i < j < self.last@.len() ==> self.last@[i] != self.last@[j]
    }

    pub fn new() -> (r: Self)
        ensures
            r.wf(),
            r@ == (DiscoveryV { seen: Seq::empty(), last: Set::empty() }),
    {
        let d = Discovery { seen: Vec::new(), last: Vec::new() };
        assert(d@.seen =~= Seq::empty());
        assert(d@.last =~= Set::empty());
        d
    }

    /// A player announced itself.
    pub fn heard(&mut self, player: Player, now: u64)
        requires
            old(self).wf(),
        ensures
            final(self).wf(),
            final(self)@ == (DiscoveryV { seen: noted(old(self)@.seen, player@, now), ..old(self)@ }),
    {
        let ghost s = self@.seen;
        let mut i: usize = 0;
        while i < self.seen.len() && self.seen[i].player.guid != player.guid
            invariant
                i <= self.seen@.len(),
                s == heard_v(self.seen@),
                index_of(s, player@.guid, 0) == index_of(s, player@.guid, i as int),
                forall|k: int| 0 <= k < i ==> (#[trigger] s[k]).0.guid != player@.guid,
            decreases self.seen@.len() - i,
        {
            assert(s[i as int] == (self.seen@[i as int].player@, self.seen@[i as int].at));
            i = i + 1;
        }
        let ghost t = noted(s, player@, now);
        if i < self.seen.len() {
            assert(s[i as int] == (self.seen@[i as int].player@, self.seen@[i as int].at));
            self.seen[i] = Heard { player, at: now };
        } else {
            self.seen.push(Heard { player, at: now });
        }
        assert(heard_v(self.seen@) =~= t);
        assert forall|a: int, b: int| 0 <= a < b < t.len() implies (#[trigger] t[a]).0.guid != (#[trigger] t[b]).0.guid by {
            if a < s.len() && b < s.len() {
                assert(s[a].0.guid != s[b].0.guid);
            }
        }
    }

    /// Let those expire that were not heard for a while. Returns the players to
    /// list when who is there has changed since the last time.
    pub fn tick(&mut self, now: u64) -> (r: Option<Vec<Player>>)
        requires
            old(self).wf(),
        ensures
            final(self).wf(),
            ({
                let live = alive(old(self)@.seen, now, old(self)@.seen.len() as int);
                &&& final(self)@.seen == live
                &&& final(self)@.last == guids(live)
                &&& match r {
                    Some(ps) => guids(live) != old(self)@.last && players_v(ps@) == listed(live, live.len() as int),
                    None => guids(live) == old(self)@.last,
                }
            }),
    {
        let ghost s = self@.seen;
        let ghost last0 = self.last@;
        assert(last0.to_set() == old(self)@.last);
        let mut live: Vec<Heard> = Vec::new();
        assert(heard_v(live@) =~= Seq::empty());
        let mut i: usize = 0;
        while i < self.seen.len()
            invariant
                i <= self.seen@.len(),
                s == heard_v(self.seen@),
                self.last@ == last0,
                distinct(s),
                heard_v(live@) == alive(s, now, i as int),
                forall|k: int| 0 <= k < live@.len() ==> exists|m: int| 0 <= m < i && #[trigger] s[m] == #[trigger] heard_v(live@)[k],
                distinct(heard_v(live@)),
            decreases self.seen@.len() - i,
        {
            assert(s[i as int] == (self.seen@[i as int].player@, self.seen@[i as int].at));
            let ghost l0 = heard_v(live@);
            if self.seen[i].at > now || now - self.seen[i].at < EXPIRY_MS {
                let p = copy_player(&self.seen[i].player);
                live.push(Heard { player: p, at: self.seen[i].at });
                let ghost l1 = heard_v(live@);
                assert(l1 =~= l0.push(s[i as int]));
                assert forall|a: int, b: int| 0 <= a < b < l1.len() implies (#[trigger] l1[a]).0.guid != (#[trigger] l1[b]).0.guid by {
                    assert(l1[a] == l0[a]);
                    if b < l0.len() {
                        assert(l0[a].0.guid != l0[b].0.guid);
                    } else {
                        let m = choose|m: int| 0 <= m < i && #[trigger] s[m] == l0[a];
                        assert(s[m].0.guid != s[i as int].0.guid);
                    }
                }
                assert forall|k: int| 0 <= k < live@.len() implies exists|m: int| 0 <= m < i + 1 && #[trigger] s[m] == #[trigger] l1[k] by {
                    if k < l0.len() {
                        assert(l1[k] == l0[k]);
                        let m = choose|m: int| 0 <= m < i && #[trigger] s[m] == l0[k];
                        assert(0 <= m < i + 1 && s[m] == l1[k]);
                    } else {
                        assert(s[i as int] == l1[k]);
                    }
                }
            }
            i = i + 1;
        }
        self.seen = live;
        let ghost lv = heard_v(self.seen@);
        let changed = self.changed();
        let mut ids: Vec<u32> = Vec::new();
        let mut j: usize = 0;
        while j < self.seen.len()
            invariant
                j <= self.seen@.len(),
                lv == heard_v(self.seen@),
                ids@ == Seq::new(j as nat, |k: int| lv[k].0.guid),
            decreases self.seen@.len() - j,
        {
            assert(lv[j as int] == (self.seen@[j as int].player@, self.seen@[j as int].at));
            ids.push(self.seen[j].player.guid);
            j = j + 1;
            assert(ids@ =~= Seq::new(j as nat, |k: int| lv[k].0.guid));
        }
        proof {
            assert(ids@.to_set() =~= guids(lv)) by {
                assert forall|g: u32| ids@.to_set().contains(g) == guids(lv).contains(g) by {
                    if ids@.contains(g) {
                        let k = choose|k: int| 0 <= k < ids@.len() && ids@[k] == g;
                        assert(lv[k].0.guid == g);
                    }
                    if guids(lv).contains(g) {
                        let k = choose|k: int| 0 <= k < lv.len() && (#[trigger] lv[k]).0.guid == g;
                        assert(ids@[k] == g);
                    }
                }
            }
            assert forall|a: int, b: int| 0 <= a < b < ids@.len() implies ids@[a] != ids@[b] by {
                assert(lv[a].0.guid != lv[b].0.guid);
            }
        }
        self.last = ids;
        if changed {
            Some(self.list())
        } else {
            None
        }
    }

    fn changed(&self) -> (r: bool)
        requires
            self.wf(),
        ensures
            r == (guids(self@.seen) != self@.last),
    {
        let ghost s = self@.seen;
        let ghost g = guids(s);
        let ghost l = self.last@.to_set();
        let mut i: usize = 0;
        while i < self.seen.len()
            invariant
                i <= self.seen@.len(),
                s == heard_v(self.seen@),
                g == guids(s),
                l == self.last@.to_set(),
                forall|k: int| 0 <= k < i ==> l.contains((#[trigger] s[k]).0.guid),
            decreases self.seen@.len() - i,
        {
            assert(s[i as int] == (self.seen@[i as int].player@, self.seen@[i as int].at));
            let id: u32 = self.seen[i].player.guid;
            if !has_id(&self.last, id) {
                assert(g.contains(id));
                assert(!l.contains(id));
                return true;
            }
            i = i + 1;
        }
        let mut j: usize = 0;
        while j < self.last.len()
            invariant
                j <= self.last@.len(),
                s == heard_v(self.seen@),
                g == guids(s),
                l == self.last@.to_set(),
                forall|k: int| 0 <= k < j ==> g.contains(#[trigger] self.last@[k]),
            decreases self.last@.len() - j,
        {
            if !self.lists(self.last[j]) {
                assert(l.contains(self.last@[j as int]));
                assert(!g.contains(self.last@[j as int]));
                return true;
            }
            j = j + 1;
        }
        assert(g =~= l) by {
            assert forall|x: u32| g.contains(x) == l.contains(x) by {
                if g.contains(x) {
                    let k = choose|k: int| 0 <= k < s.len() && (#[trigger] s[k]).0.guid == x;
                    assert(l.contains(s[k].0.guid));
                }
                if l.contains(x) {
                    let k = choose|k: int| 0 <= k < self.last@.len() && self.last@[k] == x;
                    assert(g.contains(self.last@[k]));
                }
            }
        }
        false
    }

    fn lists(&self, id: u32) -> (r: bool)
        ensures
            r == guids(self@.seen).contains(id),
    {
        let ghost s = self@.seen;
        let mut i: usize = 0;
        while i < self.seen.len()
            invariant
                i <= self.seen@.len(),
                s == heard_v(self.seen@),
                forall|k: int| 0 <= k < i ==> (#[trigger] s[k]).0.guid != id,
            decreases self.seen@.len() - i,
        {
            assert(s[i as int] == (self.seen@[i as int].player@, self.seen@[i as int].at));
            if self.seen[i].player.guid == id {
                return true;
            }
            i = i + 1;
        }
        false
    }

    fn list(&self) -> (r: Vec<Player>)
        ensures
            players_v(r@) == listed(self@.seen, self@.seen.len() as int),
    {
        let ghost s = self@.seen;
        let mut out: Vec<Player> = Vec::new();
        assert(players_v(out@) =~= Seq::empty());
        let mut i: usize = 0;
        while i < self.seen.len()
            invariant
                i <= self.seen@.len(),
                s == heard_v(self.seen@),
                players_v(out@) == listed(s, i as int),
            decreases self.seen@.len() - i,
        {
            assert(s[i as int] == (self.seen@[i as int].player@, self.seen@[i as int].at));
            let p = copy_player(&self.seen[i].player);
            let ghost t = players_v(out@);
            let mut k: usize = 0;
            while k < out.len() && !is_sooner(&p, &out[k])
                invariant
                    k <= out@.len(),
                    t == players_v(out@),
                    rank(t, p@, 0) == rank(t, p@, k as int),
                decreases out@.len() - k,
            {
                assert(t[k as int] == out@[k as int]@);
                k = k + 1;
            }
            if k < out.len() {
                assert(t[k as int] == out@[k as int]@);
            }
            out.insert(k, p);
            assert(players_v(out@) =~= t.insert(k as int, p@));
            i = i + 1;
        }
        out
    }
}

fn has_id(v: &Vec<u32>, id: u32) -> (r: bool)
    ensures
        r == v@.to_set().contains(id),
{
    let mut i: usize = 0;
    while i < v.len()
        invariant
            i <= v@.len(),
            forall|k: int| 0 <= k < i ==> v@[k] != id,
        decreases v@.len() - i,
    {
        if v[i] == id {
            assert(v@.contains(id));
            return true;
        }
        i = i + 1;
    }
    false
}

/// A player that was just heard is listed, as it announced itself.
pub proof fn law_heard_is_listed(s: Seq<(PlayerV, u64)>, p: PlayerV, at: u64)
    ensures
        noted(s, p, at).contains((p, at)),
        guids(noted(s, p, at)).contains(p.guid),
{
    let i = index_of(s, p.guid, 0);
    lemma_index_of(s, p.guid, 0);
    let t = noted(s, p, at);
    assert(t[i] == (p, at));
}

proof fn lemma_index_of(s: Seq<(PlayerV, u64)>, guid: u32, i: int)
    requires
        0 <= i <= s.len(),
    ensures
        i <= index_of(s, guid, i) <= s.len(),
    decreases s.len() - i,
{
    if i < s.len() {
        lemma_index_of(s, guid, i + 1);
    }
}

/// Whether the players are listed in order.
pub open spec fn in_order(s: Seq<PlayerV>) -> bool {
    forall|i: int, j: int| 0 <= i < j < s.len() ==> !sooner(#[trigger] s[j], #[trigger] s[i])
}

proof fn lemma_sooner_trans(a: PlayerV, b: PlayerV, c: PlayerV)
    requires
        !sooner(b, a),
        !sooner(c, b),
    ensures
        !sooner(c, a),
{
    lemma_before_total(a.project, b.project);
    lemma_before_total(b.project, c.project);
    lemma_before_total(a.project, c.project);
    lemma_before_total(a.label, b.label);
    lemma_before_total(b.label, c.label);
    lemma_before_total(a.label, c.label);
    lemma_before_total(c.project, a.project);
    lemma_before_total(c.label, a.label);
    if sooner(c, a) {
        if before(c.project, a.project) {
            if before(a.project, b.project) {
                lemma_before_trans(c.project, a.project, b.project);
            }
        } else {
            if before(a.project, b.project) {
                assert(before(c.project, b.project));
            }
            if a.project == b.project {
                if before(a.label, b.label) {
                    lemma_before_trans(c.label, a.label, b.label);
                }
            }
        }
    }
}

proof fn lemma_rank(s: Seq<PlayerV>, p: PlayerV, i: int)
    requires
        0 <= i <= s.len(),
    ensures
        i <= rank(s, p, i) <= s.len(),
        forall|k: int| i <= k < rank(s, p, i) ==> !sooner(p, #[trigger] s[k]),
        rank(s, p, i) < s.len() ==> sooner(p, s[rank(s, p, i)]),
    decreases s.len() - i,
{
    if i < s.len() && !sooner(p, s[i]) {
        lemma_rank(s, p, i + 1);
    }
}

proof fn lemma_sooner_asym(a: PlayerV, b: PlayerV)
    requires
        sooner(a, b),
    ensures
        !sooner(b, a),
{
    lemma_before_total(a.project, b.project);
    lemma_before_total(a.label, b.label);
    lemma_before_total(b.project, a.project);
    lemma_before_total(b.label, a.label);
}

/// The players are listed by project, then by label, and each of them is.
pub proof fn law_players_are_in_order(s: Seq<(PlayerV, u64)>, n: int)
    requires
        0 <= n <= s.len(),
    ensures
        in_order(listed(s, n)),
        listed(s, n).len() == n,
        forall|i: int| 0 <= i < n ==> listed(s, n).contains((#[trigger] s[i]).0),
    decreases n,
{
    if n > 0 {
        law_players_are_in_order(s, n - 1);
        let t = listed(s, n - 1);
        let p = s[n - 1].0;
        let r = rank(t, p, 0);
        lemma_rank(t, p, 0);
        let u = t.insert(r, p);
        assert forall|i: int, j: int| 0 <= i < j < u.len() implies !sooner(#[trigger] u[j], #[trigger] u[i]) by {
            if j < r {
                assert(u[i] == t[i] && u[j] == t[j]);
            } else if j == r {
                assert(u[i] == t[i]);
            } else if i < r {
                assert(u[i] == t[i] && u[j] == t[j - 1]);
            } else if i == r {
                assert(u[j] == t[j - 1]);
                lemma_sooner_asym(p, t[r]);
                if j - 1 > r {
                    lemma_sooner_trans(p, t[r], t[j - 1]);
                }
            } else {
                assert(u[i] == t[i - 1] && u[j] == t[j - 1]);
            }
        }
        assert forall|i: int| 0 <= i < n implies u.contains((#[trigger] s[i]).0) by {
            if i < n - 1 {
                assert(t.contains(s[i].0));
                let k = choose|k: int| 0 <= k < t.len() && t[k] == s[i].0;
                assert(u[if k < r { k } else { k + 1 }] == s[i].0);
            } else {
                assert(u[r] == p);
            }
        }
    }
}

// ---------------------------------------------------------------------------
// Source files
// ---------------------------------------------------------------------------

/// The most source files that are listed.
pub const FILE_CAP: usize = 12000;

/// Whether a directory is left out of the search: hidden ones, and those that the
/// editor and the compiler write.
pub fn skips_dir(name: &str) -> (r: bool)
    ensures
        r == (starts_with(name@, "."@) || name@ == "Library"@ || name@ == "Temp"@ || name@ == "Logs"@ || name@
            == "obj"@),
{
    str_starts_with(name, ".") || same(name, "Library") || same(name, "Temp") || same(name, "Logs") || same(
        name,
        "obj",
    )
}

/// Whether a file is a source file, by its extension.
pub fn is_source(ext: Option<&str>) -> (r: bool)
    ensures
        r == (ext is Some && ext->0@ == "cs"@),
{
    match ext {
        Some(e) => same(e, "cs"),
        None => false,
    }
}

/// How many paths, from the `i`-th on, do not come after `path`.
pub open spec fn path_rank(s: Seq<(String, String)>, path: Seq<char>, i: int) -> int
    decreases s.len() - i,
{
    if 0 <= i < s.len() && !before(path, s[i].0@) {
        path_rank(s, path, i + 1)
    } else {
        i
    }
}

/// The first `n` files by path.
pub open spec fn by_path(s: Seq<(String, String)>, n: int) -> Seq<(String, String)>
    decreases n,
{
    if n <= 0 || n > s.len() {
        Seq::empty()
    } else {
        let t = by_path(s, n - 1);
        t.insert(path_rank(t, s[n - 1].0@, 0), s[n - 1])
    }
}

/// The files to list: by path, and no more than are worth listing.
pub fn sort_files(files: Vec<(String, String)>) -> (r: Vec<(String, String)>)
    ensures
        r@ == (if files@.len() <= FILE_CAP {
            by_path(files@, files@.len() as int)
        } else {
            by_path(files@, files@.len() as int).take(FILE_CAP as int)
        }),
{
    let mut out: Vec<(String, String)> = Vec::new();
    let mut i: usize = 0;
    while i < files.len()
        invariant
            i <= files@.len(),
            out@ == by_path(files@, i as int),
            out@.len() == i,
        decreases files@.len() - i,
    {
        let mut k: usize = 0;
        while k < out.len() && !comes_before(files[i].0.as_str(), out[k].0.as_str())
            invariant
                k <= out@.len(),
                i < files@.len(),
                path_rank(out@, files@[i as int].0@, 0) == path_rank(out@, files@[i as int].0@, k as int),
            decreases out@.len() - k,
        {
            k = k + 1;
        }
        let ghost t = out@;
        out.insert(k, (files[i].0.clone(), files[i].1.clone()));
        assert(out@ =~= t.insert(k as int, files@[i as int]));
        i = i + 1;
    }
    if out.len() > FILE_CAP {
        out.truncate(FILE_CAP);
        assert(out@ =~= by_path(files@, files@.len() as int).take(FILE_CAP as int));
    }
    out
}

proof fn lemma_path_rank(s: Seq<(String, String)>, path: Seq<char>, i: int)
    requires
        0 <= i <= s.len(),
    ensures
        i <= path_rank(s, path, i) <= s.len(),
        forall|k: int| i <= k < path_rank(s, path, i) ==> !before(path, (#[trigger] s[k]).0@),
        path_rank(s, path, i) < s.len() ==> before(path, s[path_rank(s, path, i)].0@),
    decreases s.len() - i,
{
    if i < s.len() && !before(path, s[i].0@) {
        lemma_path_rank(s, path, i + 1);
    }
}

/// The files are listed in the order of their paths, each of them once.
pub proof fn law_files_are_in_order(s: Seq<(String, String)>, n: int)
    requires
        0 <= n <= s.len(),
    ensures
        by_path(s, n).len() == n,
        forall|i: int, j: int|
            0 <= i < j < n ==> !before((#[trigger] by_path(s, n)[j]).0@, (#[trigger] by_path(s, n)[i]).0@),
        by_path(s, n).to_multiset() == s.take(n).to_multiset(),
    decreases n,
{
    broadcast use vstd::seq_lib::group_to_multiset_ensures;

    if n > 0 {
        law_files_are_in_order(s, n - 1);
        let t = by_path(s, n - 1);
        let p = s[n - 1].0@;
        let r = path_rank(t, p, 0);
        lemma_path_rank(t, p, 0);
        let u = t.insert(r, s[n - 1]);
        assert forall|i: int, j: int| 0 <= i < j < n implies !before((#[trigger] u[j]).0@, (#[trigger] u[i]).0@) by {
            if j < r {
                assert(u[i] == t[i] && u[j] == t[j]);
            } else if j == r {
                assert(u[i] == t[i]);
            } else if i < r {
                assert(u[i] == t[i] && u[j] == t[j - 1]);
            } else if i == r {
                assert(u[j] == t[j - 1]);
                lemma_before_total(p, t[r].0@);
                if j - 1 > r {
                    lemma_before_total(t[r].0@, t[j - 1].0@);
                    if before(t[r].0@, t[j - 1].0@) {
                        lemma_before_trans(p, t[r].0@, t[j - 1].0@);
                        lemma_before_total(p, t[j - 1].0@);
                    }
                }
            } else {
                assert(u[i] == t[i - 1] && u[j] == t[j - 1]);
            }
        }
        assert(s.take(n) =~= s.take(n - 1).push(s[n - 1]));
        vstd::seq_lib::to_multiset_insert(t, r, s[n - 1]);
    } else {
        assert(s.take(0) =~= Seq::empty());
    }
}

// ---------------------------------------------------------------------------
// The editor's instance file
// ---------------------------------------------------------------------------

/// Where the editor's own files are, as its instance file says.
pub fn contents_path(text: &str) -> (r: Option<String>)
    ensures
        match r {
            Some(p) => read(text@) is Some && as_str(at(read(text@)->0, "app_contents_path"@)) == Some(p@),
            None => read(text@) is None || as_str(at(read(text@)->0, "app_contents_path"@)) is None,
        },
{
    match parse(text) {
        Some(j) => match j.str_at("app_contents_path") {
            Some(p) => Some(p.to_owned()),
            None => None,
        },
        None => None,
    }
}

/// The editor's process, as its instance file says.
pub fn process_id(text: &str) -> (r: Option<i32>)
    ensures
        r == (match read(text@) {
            Some(j) => match as_i64(at(j, "process_id"@)) {
                Some(n) => Some(n as i32),
                None => None,
            },
            None => None,
        }),
{
    match parse(text) {
        Some(j) => {
            let v = j.copy_at("process_id");
            match v.integer() {
                Some(n) => Some(#[verifier::truncate] (n as i32)),
                None => None,
            }
        },
        None => None,
    }
}

/// A player that is heard again takes its own place in the list, and one that is new the
/// last; all others stay as they are.
pub proof fn law_hearing_changes_one_player(s: Seq<(PlayerV, u64)>, p: PlayerV, at: u64, k: int)
    requires
        distinct(s),
    ensures
        ({
            let t = noted(s, p, at);
            &&& guids(s).contains(p.guid) ==> t.len() == s.len()
            &&& !guids(s).contains(p.guid) ==> t.len() == s.len() + 1 && t.last() == (p, at)
            &&& 0 <= k < s.len() && s[k].0.guid != p.guid ==> t[k] == s[k]
            &&& 0 <= k < s.len() && s[k].0.guid == p.guid ==> t[k] == (p, at)
            &&& distinct(t)
        }),
{
    lemma_index_is_first(s, p.guid, 0);
    let i = index_of(s, p.guid, 0);
    if guids(s).contains(p.guid) {
        let j = choose|j: int| 0 <= j < s.len() && (#[trigger] s[j]).0.guid == p.guid;
        assert(i < s.len());
        if 0 <= k < s.len() && s[k].0.guid == p.guid && k != i {
            if k < i {
                assert(s[k].0.guid != s[i].0.guid);
            } else {
                assert(s[i].0.guid != s[k].0.guid);
            }
        }
    } else if i < s.len() {
        assert(guids(s).contains(p.guid));
    }
    let t = noted(s, p, at);
    assert forall|a: int, b: int| 0 <= a < b < t.len() implies (#[trigger] t[a]).0.guid != (#[trigger] t[b]).0.guid by {
        if b < s.len() {
            assert(s[a].0.guid != s[b].0.guid);
        }
    }
}

proof fn lemma_index_is_first(s: Seq<(PlayerV, u64)>, guid: u32, i: int)
    requires
        0 <= i <= s.len(),
    ensures
        i <= index_of(s, guid, i) <= s.len(),
        index_of(s, guid, i) < s.len() ==> s[index_of(s, guid, i)].0.guid == guid,
        forall|k: int| i <= k < index_of(s, guid, i) ==> (#[trigger] s[k]).0.guid != guid,
    decreases s.len() - i,
{
    if i < s.len() && s[i].0.guid != guid {
        lemma_index_is_first(s, guid, i + 1);
    }
}

/// A player stays listed while less than four seconds have gone by since it was last heard,
/// and goes then.
pub proof fn law_silent_players_go(s: Seq<(PlayerV, u64)>, now: u64, n: int, x: (PlayerV, u64))
    requires
        0 <= n <= s.len(),
    ensures
        alive(s, now, n).contains(x) <==> s.take(n).contains(x) && now - x.1 < 4000,
    decreases n,
{
    if n > 0 {
        law_silent_players_go(s, now, n - 1, x);
        let before = s.take(n - 1);
        let t = alive(s, now, n - 1);
        let y = s[n - 1];
        assert(s.take(n) =~= before.push(y));
        lemma_pushed(before, y, x);
        lemma_pushed(t, y, x);
    } else {
        assert(s.take(0).len() == 0);
    }
}

proof fn lemma_pushed(s: Seq<(PlayerV, u64)>, y: (PlayerV, u64), x: (PlayerV, u64))
    ensures
        s.push(y).contains(x) <==> s.contains(x) || x == y,
{
    assert(s.push(y)[s.len() as int] == y);
    if s.contains(x) {
        let i = choose|i: int| 0 <= i < s.len() && s[i] == x;
        assert(s.push(y)[i] == x);
    }
    if s.push(y).contains(x) && x != y {
        let i = choose|i: int| 0 <= i < s.push(y).len() && s.push(y)[i] == x;
        assert(s[i] == x);
    }
}

/// The list goes by project, and within a project by label.
pub proof fn law_players_are_listed_by_project_and_label(s: Seq<(PlayerV, u64)>, n: int, i: int, j: int)
    requires
        0 <= n <= s.len(),
        0 <= i < j < n,
    ensures
        ({
            let a = listed(s, n)[i];
            let b = listed(s, n)[j];
            &&& !before(b.project, a.project)
            &&& a.project == b.project ==> !before(b.label, a.label)
        }),
{
    law_players_are_in_order(s, n);
    assert(!sooner(listed(s, n)[j], listed(s, n)[i]));
}

} // verus!

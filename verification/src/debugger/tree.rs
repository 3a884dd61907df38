//! The project's file tree: folders and files, the rows on show, and how keys and
//! clicks move among them.

use vstd::prelude::*;
use vstd::string::StringExecFns;

use crate::names::{toggled, Names};
use crate::text::{before, comes_before, join3, same, texts};

verus! {

/// A folder: its folders by name, and its files as (name, absolute path).
pub struct FileTree {
    pub dirs: Vec<(String, FileTree)>,
    pub files: Vec<(String, String)>,
}

/// A folder.
#[verifier::ext_equal]
pub struct TreeV {
    pub dirs: Seq<(Seq<char>, TreeV)>,
    pub files: Seq<(Seq<char>, Seq<char>)>,
}

/// The pairs of a sequence.
pub open spec fn file_pairs(v: Seq<(String, String)>) -> Seq<(Seq<char>, Seq<char>)> {
    Seq::new(v.len(), |i: int| (v[i].0@, v[i].1@))
}

/// The folders of a sequence.
pub open spec fn dir_pairs(v: Seq<(String, FileTree)>) -> Seq<(Seq<char>, TreeV)> {
    Seq::new(v.len(), |i: int| (v[i].0@, v[i].1@))
}

impl FileTree {
    /// What the folder is.
    pub open spec fn val(self) -> TreeV
        decreases self,
    {
        TreeV {
            dirs: Seq::new(
                self.dirs@.len(),
                |i: int|
                    if 0 <= i < self.dirs@.len() {
                        (self.dirs@[i].0@, self.dirs@[i].1.val())
                    } else {
                        (Seq::empty(), arbitrary())
                    },
            ),
            files: file_pairs(self.files@),
        }
    }

    /// A folder's value, by its folders and files.
    pub proof fn lemma_val(self)
        ensures
            self@ == (TreeV { dirs: dir_pairs(self.dirs@), files: file_pairs(self.files@) }),
    {
        assert(self@.dirs =~= dir_pairs(self.dirs@));
    }
}

impl View for FileTree {
    type V = TreeV;

    open spec fn view(&self) -> TreeV {
        self.val()
    }
}

/// The empty folder.
pub open spec fn empty_tree() -> TreeV {
    TreeV { dirs: Seq::empty(), files: Seq::empty() }
}

/// How many of the folders, from the `i`-th on, come before `name` without a gap.
pub open spec fn place(dirs: Seq<(Seq<char>, TreeV)>, name: Seq<char>, i: int) -> int
    decreases dirs.len() - i,
{
    if 0 <= i < dirs.len() && before(dirs[i].0, name) {
        place(dirs, name, i + 1)
    } else {
        i
    }
}

/// With a file put where its components say, folders made on the way and kept in
/// order of their names.
pub open spec fn inserted(t: TreeV, comps: Seq<Seq<char>>, abs: Seq<char>) -> TreeV
    decreases comps.len(),
{
    if comps.len() == 0 {
        t
    } else if comps.len() == 1 {
        TreeV { files: t.files.push((comps[0], abs)), ..t }
    } else {
        let k = place(t.dirs, comps[0], 0);
        if k < t.dirs.len() && t.dirs[k].0 == comps[0] {
            TreeV { dirs: t.dirs.update(k, (comps[0], inserted(t.dirs[k].1, comps.skip(1), abs))), ..t }
        } else {
            TreeV { dirs: t.dirs.insert(k, (comps[0], inserted(empty_tree(), comps.skip(1), abs))), ..t }
        }
    }
}

/// The components a file is shown under: cached packages stand among the packages.
pub open spec fn shown_comps(comps: Seq<Seq<char>>) -> Seq<Seq<char>> {
    if comps.len() >= 2 && comps[0] == "Library"@ && comps[1] == "PackageCache"@ {
        seq!["Packages"@] + comps.skip(2)
    } else {
        comps
    }
}

/// A project file: the components of its path below the project, and its absolute path.
pub struct Entry {
    pub comps: Vec<String>,
    pub abs: String,
}

/// The tree of the first `n` project files.
pub open spec fn built(entries: Seq<Entry>, n: int) -> TreeV
    decreases n,
{
    if n <= 0 || n > entries.len() {
        empty_tree()
    } else {
        inserted(built(entries, n - 1), shown_comps(texts(entries[n - 1].comps@)), entries[n - 1].abs@)
    }
}

impl FileTree {
    /// The empty folder.
    pub fn new() -> (r: Self)
        ensures
            r@ == empty_tree(),
    {
        let r = FileTree { dirs: Vec::new(), files: Vec::new() };
        proof {
            r.lemma_val();
            assert(dir_pairs(r.dirs@) =~= Seq::empty());
            assert(file_pairs(r.files@) =~= Seq::empty());
        }
        r
    }

    /// Puts a file where its components from the `from`-th on say.
    pub fn insert(&mut self, comps: &Vec<String>, from: usize, abs: &str)
        requires
            from <= comps@.len(),
        ensures
            final(self)@ == inserted(old(self)@, texts(comps@).skip(from as int), abs@),
        decreases comps@.len() - from,
    {
        let ghost t = self@;
        let ghost cs = texts(comps@).skip(from as int);
        proof {
            self.lemma_val();
        }
        let n: usize = comps.len() - from;
        if n == 0 {
            return;
        }
        assert(cs[0] == comps@[from as int]@);
        if n == 1 {
            let ghost fs = file_pairs(self.files@);
            self.files.push((comps[from].clone(), abs.to_owned()));
            proof {
                assert(file_pairs(self.files@) =~= fs.push((cs[0], abs@)));
                self.lemma_val();
                assert(self@ =~= inserted(t, cs, abs@));
            }
            return;
        }
        assert(cs.skip(1) =~= texts(comps@).skip(from as int + 1));
        let mut k: usize = 0;
        while k < self.dirs.len() && comes_before(self.dirs[k].0.as_str(), comps[from].as_str())
            invariant
                k <= self.dirs@.len(),
                from < comps@.len(),
                cs[0] == comps@[from as int]@,
                t.dirs == dir_pairs(self.dirs@),
                self.dirs@ == old(self).dirs@,
                self.files@ == old(self).files@,
                place(t.dirs, cs[0], 0) == place(t.dirs, cs[0], k as int),
            decreases self.dirs@.len() - k,
        {
            k = k + 1;
        }
        let ghost ds = self.dirs@;
        if k < self.dirs.len() && same(self.dirs[k].0.as_str(), comps[from].as_str()) {
            let (name, mut child) = self.dirs.remove(k);
            child.insert(comps, from + 1, abs);
            let ghost c = child@;
            self.dirs.insert(k, (name, child));
            proof {
                self.lemma_val();
                assert(dir_pairs(self.dirs@) =~= t.dirs.update(k as int, (cs[0], c)));
                assert(self@ =~= inserted(t, cs, abs@));
            }
        } else {
            let mut child = FileTree::new();
            child.insert(comps, from + 1, abs);
            let ghost c = child@;
            self.dirs.insert(k, (comps[from].clone(), child));
            proof {
                self.lemma_val();
                assert(dir_pairs(self.dirs@) =~= t.dirs.insert(k as int, (cs[0], c)));
                assert(self@ =~= inserted(t, cs, abs@));
            }
        }
    }
}

fn shown_components(comps: &Vec<String>) -> (r: Vec<String>)
    ensures
        texts(r@) == shown_comps(texts(comps@)),
{
    let ghost cs = texts(comps@);
    let n: usize = comps.len();
    let cached = n >= 2 && same(comps[0].as_str(), "Library") && same(comps[1].as_str(), "PackageCache");
    assert(cs.len() >= 1 ==> cs[0] == comps@[0]@);
    assert(cs.len() >= 2 ==> cs[1] == comps@[1]@);
    let mut out: Vec<String> = Vec::new();
    let mut i: usize = 0;
    if cached {
        out.push("Packages".to_owned());
        i = 2;
    }
    let ghost head = texts(out@);
    let ghost start = i as int;
    assert(head =~= if cached { seq!["Packages"@] } else { Seq::empty() });
    while i < n
        invariant
            0 <= start <= i <= n == comps@.len(),
            cs == texts(comps@),
            texts(out@) == head + cs.subrange(start, i as int),
        decreases n - i,
    {
        let ghost before_push = texts(out@);
        out.push(comps[i].clone());
        assert(texts(out@) =~= before_push.push(cs[i as int]));
        i = i + 1;
        assert(texts(out@) =~= head + cs.subrange(start, i as int));
    }
    assert(texts(out@) =~= shown_comps(cs));
    out
}

/// Builds the folder tree of the project's files.
pub fn build_tree(entries: &Vec<Entry>) -> (r: FileTree)
    ensures
        r@ == built(entries@, entries@.len() as int),
{
    let mut tree = FileTree::new();
    let mut i: usize = 0;
    while i < entries.len()
        invariant
            i <= entries@.len(),
            tree@ == built(entries@, i as int),
        decreases entries@.len() - i,
    {
        let comps = shown_components(&entries[i].comps);
        tree.insert(&comps, 0, entries[i].abs.as_str());
        assert(texts(comps@).skip(0) =~= texts(comps@));
        i = i + 1;
    }
    tree
}

// ---------------------------------------------------------------------------
// Rows
// ---------------------------------------------------------------------------

/// One visible row of the file tree, in display order.
pub struct TreeRow {
    pub depth: usize,
    pub is_dir: bool,
    pub label: String,
    /// Folder path (tracked as expanded) for dirs, or the file abspath for files.
    pub key: String,
}

/// A row.
#[verifier::ext_equal]
pub struct TreeRowV {
    pub depth: usize,
    pub is_dir: bool,
    pub label: Seq<char>,
    pub key: Seq<char>,
}

impl View for TreeRow {
    type V = TreeRowV;

    open spec fn view(&self) -> TreeRowV {
        TreeRowV { depth: self.depth, is_dir: self.is_dir, label: self.label@, key: self.key@ }
    }
}

/// The rows of a sequence.
pub open spec fn tree_rows_v(v: Seq<TreeRow>) -> Seq<TreeRowV> {
    Seq::new(v.len(), |i: int| v[i]@)
}

/// One level deeper, as far as levels can be counted.
pub open spec fn deeper(d: usize) -> usize {
    if d < usize::MAX {
        (d + 1) as usize
    } else {
        d
    }
}

/// The path of a folder below the folder `prefix`.
pub open spec fn dir_key(prefix: Seq<char>, name: Seq<char>) -> Seq<char> {
    if prefix.len() == 0 {
        name
    } else {
        prefix + "/"@ + name
    }
}

/// The visible rows of a folder: its folders, each followed by its own rows where
/// it is expanded, and then its files.
pub open spec fn flat(t: TreeV, prefix: Seq<char>, depth: usize, expanded: Set<Seq<char>>) -> Seq<TreeRowV>
    decreases t,
{
    flat_dirs(t.dirs, t.dirs.len() as int, prefix, depth, expanded) + Seq::new(
        t.files.len(),
        |i: int| TreeRowV { depth, is_dir: false, label: t.files[i].0, key: t.files[i].1 },
    )
}

/// The visible rows of the first `n` folders.
pub open spec fn flat_dirs(
    dirs: Seq<(Seq<char>, TreeV)>,
    n: int,
    prefix: Seq<char>,
    depth: usize,
    expanded: Set<Seq<char>>,
) -> Seq<TreeRowV>
    decreases dirs, n,
{
    if n <= 0 || n > dirs.len() {
        Seq::empty()
    } else {
        let d = dirs[n - 1];
        let key = dir_key(prefix, d.0);
        let row = TreeRowV { depth, is_dir: true, label: d.0, key };
        let below = if expanded.contains(key) { flat(d.1, key, deeper(depth), expanded) } else { Seq::empty() };
        flat_dirs(dirs, n - 1, prefix, depth, expanded).push(row) + below
    }
}

/// Flatten the tree into ordered visible rows, descending into open folders only.
pub fn flatten_tree(tree: &FileTree, prefix: &str, depth: usize, expanded: &Names, out: &mut Vec<TreeRow>)
    ensures
        tree_rows_v(final(out)@) == tree_rows_v(old(out)@) + flat(tree@, prefix@, depth, expanded@),
    decreases tree,
{
    let ghost t = tree@;
    let ghost o0 = tree_rows_v(out@);
    proof {
        tree.lemma_val();
    }
    let mut i: usize = 0;
    assert(tree_rows_v(out@) =~= o0 + flat_dirs(t.dirs, 0, prefix@, depth, expanded@));
    while i < tree.dirs.len()
        invariant
            i <= tree.dirs@.len(),
            t == tree@,
            t.dirs == dir_pairs(tree.dirs@),
            tree_rows_v(out@) == o0 + flat_dirs(t.dirs, i as int, prefix@, depth, expanded@),
        decreases tree.dirs@.len() - i,
    {
        let name = tree.dirs[i].0.as_str();
        let key = if prefix.is_empty() { name.to_owned() } else { join3(prefix, "/", name) };
        let ghost before_rows = tree_rows_v(out@);
        let row = TreeRow { depth, is_dir: true, label: name.to_owned(), key: key.clone() };
        out.push(row);
        assert(tree_rows_v(out@) =~= before_rows.push(row@));
        assert(t.dirs[i as int] == (tree.dirs@[i as int].0@, tree.dirs@[i as int].1@));
        if expanded.contains(key.as_str()) {
            proof {
                assert(decreases_to!(*tree => tree.dirs));
                assert(decreases_to!(tree.dirs => tree.dirs@));
                assert(decreases_to!(tree.dirs@ => tree.dirs@[i as int]));
                assert(decreases_to!(tree.dirs@[i as int] => tree.dirs@[i as int].1));
            }
            let d: usize = if depth < usize::MAX { depth + 1 } else { depth };
            flatten_tree(&tree.dirs[i].1, key.as_str(), d, expanded, out);
        }
        i = i + 1;
        assert(tree_rows_v(out@) =~= o0 + flat_dirs(t.dirs, i as int, prefix@, depth, expanded@));
    }
    let ghost o1 = tree_rows_v(out@);
    let ghost fr = Seq::new(
        t.files.len(),
        |i: int| TreeRowV { depth, is_dir: false, label: t.files[i].0, key: t.files[i].1 },
    );
    let mut j: usize = 0;
    assert(tree_rows_v(out@) =~= o1 + fr.take(0));
    while j < tree.files.len()
        invariant
            j <= tree.files@.len(),
            t.files == file_pairs(tree.files@),
            fr == Seq::new(
                t.files.len(),
                |i: int| TreeRowV { depth, is_dir: false, label: t.files[i].0, key: t.files[i].1 },
            ),
            tree_rows_v(out@) == o1 + fr.take(j as int),
        decreases tree.files@.len() - j,
    {
        let ghost before_rows = tree_rows_v(out@);
        let row = TreeRow {
            depth,
            is_dir: false,
            label: tree.files[j].0.clone(),
            key: tree.files[j].1.clone(),
        };
        out.push(row);
        assert(tree_rows_v(out@) =~= before_rows.push(row@));
        j = j + 1;
        assert(tree_rows_v(out@) =~= o1 + fr.take(j as int));
    }
    assert(fr.take(j as int) =~= fr);
    assert(tree_rows_v(out@) =~= o0 + flat(t, prefix@, depth, expanded@));
}


// ---------------------------------------------------------------------------
// Moving in the tree
// ---------------------------------------------------------------------------

/// The keys pressed in one frame.
#[derive(Clone, Copy, PartialEq, Eq, Structural, Debug)]
pub struct Keys {
    pub up: bool,
    pub down: bool,
    pub left: bool,
    pub right: bool,
    pub enter: bool,
}

/// Where the cursor is, which folders are expanded, and which file to open.
#[verifier::ext_equal]
pub struct PanelV {
    pub sel: int,
    pub expanded: Set<Seq<char>>,
    pub view: Option<Seq<char>>,
}

/// The cursor among the rows.
pub open spec fn clamped(sel: int, rows: int) -> int {
    if sel < rows {
        sel
    } else {
        rows - 1
    }
}

/// After ↓ and ↑.
pub open spec fn moved(rows: Seq<TreeRowV>, sel: int, k: Keys) -> int {
    let a = if k.down { clamped(sel + 1, rows.len() as int) } else { sel };
    if k.up && a > 0 {
        a - 1
    } else {
        a
    }
}

/// After →: a closed folder is expanded, in an open one the cursor steps to its
/// first child.
pub open spec fn stepped_in(rows: Seq<TreeRowV>, p: PanelV, k: Keys) -> PanelV {
    let r = rows[p.sel];
    if k.right && r.is_dir {
        if !p.expanded.contains(r.key) {
            PanelV { expanded: p.expanded.insert(r.key), ..p }
        } else if p.sel + 1 < rows.len() && rows[p.sel + 1].depth > r.depth {
            PanelV { sel: p.sel + 1, ..p }
        } else {
            p
        }
    } else {
        p
    }
}

/// The nearest row above `i` that lies less deep than `depth`; `none` where there is none.
pub open spec fn parent_row(rows: Seq<TreeRowV>, i: int, depth: usize, none: int) -> int
    decreases i,
{
    if i <= 0 || i > rows.len() {
        none
    } else if rows[i - 1].depth < depth {
        i - 1
    } else {
        parent_row(rows, i - 1, depth, none)
    }
}

/// After ←: an expanded folder is collapsed, from anywhere else the cursor steps
/// out to the parent.
pub open spec fn stepped_out(rows: Seq<TreeRowV>, p: PanelV, k: Keys) -> PanelV {
    let r = rows[p.sel];
    if k.left {
        if r.is_dir && p.expanded.contains(r.key) {
            PanelV { expanded: p.expanded.remove(r.key), ..p }
        } else if r.depth > 0 {
            PanelV { sel: parent_row(rows, p.sel, r.depth, p.sel), ..p }
        } else {
            p
        }
    } else {
        p
    }
}

/// After ↑, ↓ and Enter: a file under the cursor is opened; Enter toggles a folder.
pub open spec fn opened(rows: Seq<TreeRowV>, p: PanelV, k: Keys) -> PanelV {
    let r = rows[p.sel];
    if k.up || k.down || k.enter {
        if !r.is_dir {
            PanelV { view: Some(r.key), ..p }
        } else if k.enter {
            PanelV { expanded: toggled(p.expanded, r.key), ..p }
        } else {
            p
        }
    } else {
        p
    }
}

/// After the keys of one frame.
pub open spec fn keyed(rows: Seq<TreeRowV>, p: PanelV, focused: bool, k: Keys) -> PanelV {
    if rows.len() == 0 {
        p
    } else {
        let a = PanelV { sel: clamped(p.sel, rows.len() as int), ..p };
        if focused {
            let b = PanelV { sel: moved(rows, a.sel, k), ..a };
            opened(rows, stepped_out(rows, stepped_in(rows, b, k), k), k)
        } else {
            a
        }
    }
}

/// After a click on row `i`: the cursor goes there, a folder is toggled, a file opened.
pub open spec fn clicked(rows: Seq<TreeRowV>, p: PanelV, i: int) -> PanelV {
    let a = PanelV { sel: i, ..p };
    if rows[i].is_dir {
        PanelV { expanded: toggled(p.expanded, rows[i].key), ..a }
    } else {
        PanelV { view: Some(rows[i].key), ..a }
    }
}

/// The text of an optional string.
pub open spec fn view_text(v: Option<String>) -> Option<Seq<char>> {
    match v {
        Some(s) => Some(s@),
        None => None,
    }
}

/// Keyboard navigation of the file tree (when the pane is focused): ↑/↓ move the
/// cursor over the visible rows (folders included), → expands a folder (or steps
/// into its first child), ← collapses it (or steps out to the parent), and
/// ↑/↓/Enter open a file row.
#[verifier::spinoff_prover]
#[verifier::rlimit(40)]
pub fn tree_keys(
    rows: &Vec<TreeRow>,
    focused: bool,
    k: Keys,
    expanded: &mut Names,
    tree_sel: &mut usize,
    new_view: &mut Option<String>,
)
    ensures
        (PanelV { sel: *final(tree_sel) as int, expanded: final(expanded)@, view: view_text(*final(new_view)) })
            == keyed(
            tree_rows_v(rows@),
            PanelV { sel: *old(tree_sel) as int, expanded: old(expanded)@, view: view_text(*old(new_view)) },
            focused,
            k,
        ),
{
    let ghost rs = tree_rows_v(rows@);
    let n: usize = rows.len();
    if n == 0 {
        return;
    }
    if *tree_sel >= n {
        *tree_sel = n - 1;
    }
    if !focused {
        return;
    }
    if k.down && *tree_sel + 1 < n {
        *tree_sel = *tree_sel + 1;
    }
    if k.up && *tree_sel > 0 {
        *tree_sel = *tree_sel - 1;
    }
    if k.right {
        let i: usize = *tree_sel;
        assert(rs[i as int] == rows@[i as int]@);
        if rows[i].is_dir {
            if !expanded.contains(rows[i].key.as_str()) {
                expanded.insert(rows[i].key.as_str());
            } else if i + 1 < n && rows[i + 1].depth > rows[i].depth {
                assert(rs[i + 1] == rows@[i + 1]@);
                *tree_sel = i + 1;  // already open: step into first child
            }
        }
    }
    if k.left {
        let i: usize = *tree_sel;
        assert(rs[i as int] == rows@[i as int]@);
        if rows[i].is_dir && expanded.contains(rows[i].key.as_str()) {
            expanded.remove(rows[i].key.as_str());
        } else if rows[i].depth > 0 {
            let depth: usize = rows[i].depth;
            let mut j: usize = i;
            while j > 0 && rows[j - 1].depth >= depth
                invariant
                    j <= i < n == rows@.len(),
                    rs == tree_rows_v(rows@),
                    parent_row(rs, i as int, depth, i as int) == parent_row(rs, j as int, depth, i as int),
                decreases j,
            {
                j = j - 1;
            }
            if j > 0 {
                *tree_sel = j - 1;  // step out to parent
            }
        }
    }
    if k.up || k.down || k.enter {
        let i: usize = *tree_sel;
        assert(rs[i as int] == rows@[i as int]@);
        if !rows[i].is_dir {
            *new_view = Some(rows[i].key.clone());
        } else if k.enter {
            expanded.toggle(rows[i].key.as_str());
        }
    }
}

/// A click on a row: toggles a folder or opens a file.
pub fn tree_click(
    rows: &Vec<TreeRow>,
    i: usize,
    expanded: &mut Names,
    tree_sel: &mut usize,
    new_view: &mut Option<String>,
)
    requires
        i < rows@.len(),
    ensures
        (PanelV { sel: *final(tree_sel) as int, expanded: final(expanded)@, view: view_text(*final(new_view)) })
            == clicked(
            tree_rows_v(rows@),
            PanelV { sel: *old(tree_sel) as int, expanded: old(expanded)@, view: view_text(*old(new_view)) },
            i as int,
        ),
{
    *tree_sel = i;
    assert(tree_rows_v(rows@)[i as int] == rows@[i as int]@);
    if rows[i].is_dir {
        expanded.toggle(rows[i].key.as_str());
    } else {
        *new_view = Some(rows[i].key.clone());
    }
}

/// The cursor stays among the rows.
pub proof fn law_cursor_stays_on_a_row(rows: Seq<TreeRowV>, p: PanelV, focused: bool, k: Keys)
    requires
        rows.len() > 0,
        p.sel >= 0,
    ensures
        0 <= keyed(rows, p, focused, k).sel < rows.len(),
{
    let a = PanelV { sel: clamped(p.sel, rows.len() as int), ..p };
    let b = PanelV { sel: moved(rows, a.sel, k), ..a };
    let c = stepped_in(rows, b, k);
    lemma_parent_row(rows, c.sel, rows[c.sel].depth, c.sel);
}

proof fn lemma_parent_row(rows: Seq<TreeRowV>, i: int, depth: usize, none: int)
    requires
        0 <= i <= rows.len(),
        0 <= none < rows.len(),
    ensures
        0 <= parent_row(rows, i, depth, none) < rows.len(),
    decreases i,
{
    if i > 0 && rows[i - 1].depth >= depth {
        lemma_parent_row(rows, i - 1, depth, none);
    }
}

/// Expanding a folder with → and collapsing it with ← leaves things as they were.
pub proof fn law_left_undoes_right(rows: Seq<TreeRowV>, p: PanelV)
    requires
        0 <= p.sel < rows.len(),
        rows[p.sel].is_dir,
        !p.expanded.contains(rows[p.sel].key),
    ensures
        ({
            let right = Keys { up: false, down: false, left: false, right: true, enter: false };
            let left = Keys { up: false, down: false, left: true, right: false, enter: false };
            keyed(rows, keyed(rows, p, true, right), true, left) == p
        }),
{
    let right = Keys { up: false, down: false, left: false, right: true, enter: false };
    let q = keyed(rows, p, true, right);
    assert(q.expanded == p.expanded.insert(rows[p.sel].key));
    assert(q.expanded.remove(rows[p.sel].key) =~= p.expanded);
}

/// The folders of a tree, at every level, are in order of their names, each once.
pub open spec fn ordered(t: TreeV) -> bool
    decreases t,
{
    &&& forall|i: int, j: int| 0 <= i < j < t.dirs.len() ==> before(#[trigger] t.dirs[i].0, #[trigger] t.dirs[j].0)
    &&& forall|i: int| #![trigger t.dirs[i]] 0 <= i < t.dirs.len() ==> ordered(t.dirs[i].1)
}

/// Putting a file in keeps the folders in order.
pub proof fn law_insert_keeps_order(t: TreeV, comps: Seq<Seq<char>>, abs: Seq<char>)
    requires
        ordered(t),
    ensures
        ordered(inserted(t, comps, abs)),
    decreases comps.len(),
{
    if comps.len() >= 2 {
        let name = comps[0];
        let k = place(t.dirs, name, 0);
        lemma_place(t.dirs, name, 0);
        let u = inserted(t, comps, abs);
        if k < t.dirs.len() && t.dirs[k].0 == name {
            law_insert_keeps_order(t.dirs[k].1, comps.skip(1), abs);
            assert forall|i: int, j: int| 0 <= i < j < u.dirs.len() implies before(
                #[trigger] u.dirs[i].0,
                #[trigger] u.dirs[j].0,
            ) by {
                assert(u.dirs[i].0 == t.dirs[i].0 && u.dirs[j].0 == t.dirs[j].0);
            }
        } else {
            assert(ordered(empty_tree()));
            law_insert_keeps_order(empty_tree(), comps.skip(1), abs);
            assert forall|i: int, j: int| 0 <= i < j < u.dirs.len() implies before(
                #[trigger] u.dirs[i].0,
                #[trigger] u.dirs[j].0,
            ) by {
                let x = if i < k { i } else { i - 1 };
                let y = if j < k { j } else { j - 1 };
                if i == k {
                    assert(u.dirs[j] == t.dirs[y]);
                    crate::text::lemma_before_total(t.dirs[k].0, name);
                    if y > k {
                        assert(before(t.dirs[k].0, t.dirs[y].0));
                        crate::text::lemma_before_trans(name, t.dirs[k].0, t.dirs[y].0);
                    }
                } else if j == k {
                    assert(u.dirs[i] == t.dirs[i]);
                } else {
                    assert(u.dirs[i] == t.dirs[x] && u.dirs[j] == t.dirs[y]);
                }
            }
            assert forall|i: int| #![trigger u.dirs[i]] 0 <= i < u.dirs.len() implies ordered(u.dirs[i].1) by {
                if i != k {
                    assert(u.dirs[i] == t.dirs[if i < k { i } else { i - 1 }]);
                }
            }
        }
    } else if comps.len() == 1 {
        assert(inserted(t, comps, abs).dirs == t.dirs);
    }
}

proof fn lemma_place(dirs: Seq<(Seq<char>, TreeV)>, name: Seq<char>, i: int)
    requires
        0 <= i <= dirs.len(),
    ensures
        i <= place(dirs, name, i) <= dirs.len(),
        forall|j: int| i <= j < place(dirs, name, i) ==> before((#[trigger] dirs[j]).0, name),
        place(dirs, name, i) < dirs.len() ==> !before(dirs[place(dirs, name, i)].0, name),
    decreases dirs.len() - i,
{
    if i < dirs.len() && before(dirs[i].0, name) {
        lemma_place(dirs, name, i + 1);
    }
}

/// Whether a tree has a file with a path at a place, given by the folders that lead to it
/// and its name.
pub open spec fn has_file(t: TreeV, comps: Seq<Seq<char>>, abs: Seq<char>) -> bool
    decreases comps.len(),
{
    if comps.len() == 0 {
        false
    } else if comps.len() == 1 {
        t.files.contains((comps[0], abs))
    } else {
        exists|i: int| 0 <= i < t.dirs.len() && leads(t, i, comps) && has_file((#[trigger] t.dirs[i]).1, comps.skip(1), abs)
    }
}

/// Whether the `i`-th folder is the first on the way to a place.
pub open spec fn leads(t: TreeV, i: int, comps: Seq<Seq<char>>) -> bool {
    t.dirs[i].0 == comps[0]
}

/// A file that is put into a tree is found where its components say, and every file that was
/// there stays where it was; nothing else is added.
pub proof fn law_inserted_file_is_found(
    t: TreeV,
    comps: Seq<Seq<char>>,
    abs: Seq<char>,
    c: Seq<Seq<char>>,
    a: Seq<char>,
)
    requires
        comps.len() > 0,
    ensures
        has_file(inserted(t, comps, abs), c, a) <==> has_file(t, c, a) || (c == comps && a == abs),
    decreases comps.len(),
{
    let new = inserted(t, comps, abs);
    if comps.len() == 1 {
        let f = (comps[0], abs);
        assert(t.files.push(f)[t.files.len() as int] == f);
        if c.len() == 1 {
            let g = (c[0], a);
            if t.files.contains(g) {
                let i = choose|i: int| 0 <= i < t.files.len() && t.files[i] == g;
                assert(new.files[i] == g);
            }
            if new.files.contains(g) {
                let i = choose|i: int| 0 <= i < new.files.len() && new.files[i] == g;
                if i < t.files.len() {
                    assert(t.files[i] == g);
                } else {
                    assert(c =~= comps);
                }
            }
        } else if c.len() > 1 {
            assert(new.dirs == t.dirs);
            if has_file(t, c, a) {
                let i = choose|i: int|
                    0 <= i < t.dirs.len() && leads(t, i, c) && has_file((#[trigger] t.dirs[i]).1, c.skip(1), a);
                assert(leads(new, i, c) && has_file(new.dirs[i].1, c.skip(1), a));
            }
            if has_file(new, c, a) {
                let i = choose|i: int|
                    0 <= i < new.dirs.len() && leads(new, i, c) && has_file((#[trigger] new.dirs[i]).1, c.skip(1), a);
                assert(leads(t, i, c) && has_file(t.dirs[i].1, c.skip(1), a));
            }
        }
    } else {
        lemma_place_range(t.dirs, comps[0], 0);
        let k = place(t.dirs, comps[0], 0);
        let there = k < t.dirs.len() && t.dirs[k].0 == comps[0];
        let was = if there { t.dirs[k].1 } else { empty_tree() };
        law_inserted_file_is_found(was, comps.skip(1), abs, c.skip(1), a);
        if c.len() <= 1 {
            assert(new.files == t.files);
        } else {
            assert(c == comps ==> c.skip(1) == comps.skip(1));
            if c[0] == comps[0] && c.skip(1) == comps.skip(1) {
                assert forall|j: int| 0 <= j < c.len() implies c[j] == comps[j] by {
                    if j > 0 {
                        assert(c.skip(1)[j - 1] == comps.skip(1)[j - 1]);
                        assert(c.skip(1).len() == comps.skip(1).len());
                    }
                }
                assert(c.skip(1).len() == comps.skip(1).len());
                assert(c =~= comps);
            }
            lemma_nothing_in_empty(c.skip(1), a);
            if has_file(t, c, a) {
                let i = choose|i: int|
                    0 <= i < t.dirs.len() && leads(t, i, c) && has_file((#[trigger] t.dirs[i]).1, c.skip(1), a);
                let j = if there || i < k { i } else { i + 1 };
                assert(leads(new, j, c) && has_file(new.dirs[j].1, c.skip(1), a));
            }
            if c == comps && a == abs {
                assert(leads(new, k, c) && has_file(new.dirs[k].1, c.skip(1), a));
            }
            if has_file(new, c, a) {
                let i = choose|i: int|
                    0 <= i < new.dirs.len() && leads(new, i, c) && has_file((#[trigger] new.dirs[i]).1, c.skip(1), a);
                if i != k {
                    let j = if there || i < k { i } else { i - 1 };
                    assert(new.dirs[i] == t.dirs[j]);
                    assert(leads(t, j, c) && has_file(t.dirs[j].1, c.skip(1), a));
                } else if there && has_file(was, c.skip(1), a) {
                    assert(leads(t, k, c) && has_file(t.dirs[k].1, c.skip(1), a));
                }
            }
        }
    }
}

proof fn lemma_nothing_in_empty(c: Seq<Seq<char>>, a: Seq<char>)
    ensures
        !has_file(empty_tree(), c, a),
{
}

proof fn lemma_place_range(dirs: Seq<(Seq<char>, TreeV)>, name: Seq<char>, i: int)
    requires
        0 <= i <= dirs.len(),
    ensures
        i <= place(dirs, name, i) <= dirs.len(),
    decreases dirs.len() - i,
{
    if i < dirs.len() && before(dirs[i].0, name) {
        lemma_place_range(dirs, name, i + 1);
    }
}

/// A cached package is shown among the packages, under its own path there; every other file
/// under its own path.
pub proof fn law_cached_packages_are_packages(comps: Seq<Seq<char>>)
    ensures
        ({
            let s = shown_comps(comps);
            let cached = comps.len() >= 2 && comps[0] == "Library"@ && comps[1] == "PackageCache"@;
            &&& cached ==> s.len() == comps.len() - 1 && s[0] == "Packages"@ && forall|i: int|
                1 <= i < s.len() ==> #[trigger] s[i] == comps[i + 1]
            &&& !cached ==> s == comps
        }),
{
}

/// A folder's path is its name below the path of the folder it is in.
pub proof fn law_folders_are_named_by_their_path(prefix: Seq<char>, name: Seq<char>)
    ensures
        prefix.len() == 0 ==> dir_key(prefix, name) == name,
        prefix.len() > 0 ==> dir_key(prefix, name) == prefix + "/"@ + name,
{
}

/// The files of a folder come last, in their order, each shown by its name and opened by its
/// path. A folder is shown by its name, opened by its path, and followed by its own rows a
/// level deeper exactly where it is expanded.
pub proof fn law_rows_of_a_folder(
    t: TreeV,
    n: int,
    prefix: Seq<char>,
    depth: usize,
    expanded: Set<Seq<char>>,
    i: int,
)
    requires
        0 < n <= t.dirs.len(),
        depth < usize::MAX,
    ensures
        ({
            let r = flat(t, prefix, depth, expanded);
            let folders = r.len() - t.files.len();
            &&& folders >= 0
            &&& r.take(folders) == flat_dirs(t.dirs, t.dirs.len() as int, prefix, depth, expanded)
            &&& 0 <= i < t.files.len() ==> r[folders + i].label == t.files[i].0 && r[folders + i].key == t.files[i].1
                && r[folders + i].depth == depth && !r[folders + i].is_dir
        }),
        ({
            let r = flat_dirs(t.dirs, n, prefix, depth, expanded);
            let m = flat_dirs(t.dirs, n - 1, prefix, depth, expanded).len() as int;
            let name = t.dirs[n - 1].0;
            let key = if prefix.len() == 0 { name } else { prefix + "/"@ + name };
            &&& r.len() > m
            &&& r.take(m) == flat_dirs(t.dirs, n - 1, prefix, depth, expanded)
            &&& r[m].is_dir && r[m].label == name && r[m].key == key && r[m].depth == depth
            &&& expanded.contains(key) ==> r.skip(m + 1) == flat(t.dirs[n - 1].1, key, (depth + 1) as usize, expanded)
            &&& !expanded.contains(key) ==> r.len() == m + 1
        }),
{
    let r = flat(t, prefix, depth, expanded);
    let d = flat_dirs(t.dirs, t.dirs.len() as int, prefix, depth, expanded);
    assert(r.take(d.len() as int) =~= d);
    let q = flat_dirs(t.dirs, n, prefix, depth, expanded);
    let p = flat_dirs(t.dirs, n - 1, prefix, depth, expanded);
    let key = dir_key(prefix, t.dirs[n - 1].0);
    assert(q.take(p.len() as int) =~= p);
    if expanded.contains(key) {
        assert(q.skip(p.len() as int + 1) =~= flat(t.dirs[n - 1].1, key, deeper(depth), expanded));
    }
}

/// The arrows move the cursor one row down or up, as far as there are rows, and open the
/// file they come to.
pub proof fn law_arrows_move_the_cursor(rows: Seq<TreeRowV>, p: PanelV, k: Keys)
    requires
        0 <= p.sel < rows.len(),
        !k.left && !k.right && !k.enter,
    ensures
        ({
            let r = keyed(rows, p, true, k);
            &&& k.down && !k.up && p.sel + 1 < rows.len() ==> r.sel == p.sel + 1
            &&& k.down && !k.up && p.sel + 1 == rows.len() ==> r.sel == p.sel
            &&& k.up && !k.down && p.sel > 0 ==> r.sel == p.sel - 1
            &&& k.up && !k.down && p.sel == 0 ==> r.sel == 0
            &&& (k.up || k.down) && !rows[r.sel].is_dir ==> r.view == Some(rows[r.sel].key)
            &&& (k.up || k.down) && rows[r.sel].is_dir ==> r.view == p.view
            &&& !k.up && !k.down ==> r == p
            &&& r.expanded == p.expanded
        }),
{
}

/// The right arrow opens a closed folder, goes into an open one, and does nothing on a file;
/// the left arrow closes an open folder and otherwise goes out to the folder it is in.
pub proof fn law_arrows_fold_and_unfold(rows: Seq<TreeRowV>, p: PanelV, k: Keys)
    requires
        0 <= p.sel < rows.len(),
        !k.up && !k.down && !k.enter,
        k.left != k.right,
    ensures
        ({
            let r = keyed(rows, p, true, k);
            let row = rows[p.sel];
            &&& r.view == p.view
            &&& k.right && !row.is_dir ==> r == p
            &&& k.right && row.is_dir && !p.expanded.contains(row.key) ==> r.sel == p.sel && r.expanded
                == p.expanded.insert(row.key)
            &&& k.right && row.is_dir && p.expanded.contains(row.key) ==> {
                &&& r.expanded == p.expanded
                &&& p.sel + 1 < rows.len() && rows[p.sel + 1].depth > row.depth ==> r.sel == p.sel + 1
                &&& p.sel + 1 == rows.len() || rows[p.sel + 1].depth <= row.depth ==> r.sel == p.sel
            }
            &&& k.left && row.is_dir && p.expanded.contains(row.key) ==> r.sel == p.sel && r.expanded
                == p.expanded.remove(row.key)
            &&& k.left && !(row.is_dir && p.expanded.contains(row.key)) ==> {
                &&& r.expanded == p.expanded
                &&& row.depth == 0 ==> r.sel == p.sel
                &&& row.depth > 0 && r.sel != p.sel ==> {
                    &&& 0 <= r.sel < p.sel
                    &&& rows[r.sel].depth < row.depth
                    &&& forall|i: int| r.sel < i < p.sel ==> (#[trigger] rows[i]).depth >= row.depth
                }
                &&& row.depth > 0 && r.sel == p.sel ==> forall|i: int|
                    0 <= i < p.sel ==> (#[trigger] rows[i]).depth >= row.depth
            }
        }),
{
    lemma_parent(rows, p.sel, rows[p.sel].depth, p.sel);
}

proof fn lemma_parent(rows: Seq<TreeRowV>, i: int, depth: usize, none: int)
    requires
        0 <= i <= none < rows.len(),
    ensures
        ({
            let r = parent_row(rows, i, depth, none);
            &&& r != none ==> 0 <= r < i && rows[r].depth < depth && forall|j: int|
                r < j < i ==> (#[trigger] rows[j]).depth >= depth
            &&& r == none ==> forall|j: int| 0 <= j < i ==> (#[trigger] rows[j]).depth >= depth
        }),
    decreases i,
{
    if i > 0 && rows[i - 1].depth >= depth {
        lemma_parent(rows, i - 1, depth, none);
    }
}

/// Enter and a click open a file, and open or close a folder; a click also moves the cursor.
pub proof fn law_enter_and_click_open(rows: Seq<TreeRowV>, p: PanelV, i: int)
    requires
        0 <= p.sel < rows.len(),
        0 <= i < rows.len(),
    ensures
        ({
            let enter = Keys { up: false, down: false, left: false, right: false, enter: true };
            let r = keyed(rows, p, true, enter);
            &&& r.sel == p.sel
            &&& !rows[p.sel].is_dir ==> r.view == Some(rows[p.sel].key) && r.expanded == p.expanded
            &&& rows[p.sel].is_dir ==> r.view == p.view && r.expanded.contains(rows[p.sel].key)
                == !p.expanded.contains(rows[p.sel].key)
        }),
        ({
            let r = clicked(rows, p, i);
            &&& r.sel == i
            &&& !rows[i].is_dir ==> r.view == Some(rows[i].key) && r.expanded == p.expanded
            &&& rows[i].is_dir ==> r.view == p.view && r.expanded.contains(rows[i].key) == !p.expanded.contains(rows[i].key)
        }),
        forall|k: Keys| #[trigger] keyed(rows, p, false, k) == p,
{
}

} // verus!

//! The variables inspector: rows of values, expanded on demand.

use std::collections::{HashMap, HashSet};

use vstd::prelude::*;
use vstd::string::StringExecFns;

use crate::text::{decimal, decimal_int, join2, join3, same, show_i64, show_u64};

verus! {

broadcast use vstd::std_specs::hash::group_hash_axioms;

/// The children of a value: an object's fields or an array's elements.
#[derive(Clone, Copy, PartialEq, Eq, Structural, Debug)]
pub struct Expand {
    pub id: u32,
    pub array: bool,
}

/// A variable row in the inspector. `expand` is set when the value is a reference
/// object or array whose fields/elements can be drilled into on demand.
#[derive(Clone)]
pub struct Var {
    pub name: String,
    pub value: String,
    pub expand: Option<Expand>,
}

/// A variable row.
#[verifier::ext_equal]
pub struct VarV {
    pub name: Seq<char>,
    pub value: Seq<char>,
    pub expand: Option<Expand>,
}

impl View for Var {
    type V = VarV;

    open spec fn view(&self) -> VarV {
        VarV { name: self.name@, value: self.value@, expand: self.expand }
    }
}

impl Var {
    /// The same row once more.
    pub fn copy(&self) -> (r: Var)
        ensures
            r@ == self@,
    {
        Var { name: self.name.clone(), value: self.value.clone(), expand: self.expand }
    }
}

/// The rows of a sequence.
pub open spec fn vars_v(v: Seq<Var>) -> Seq<VarV> {
    Seq::new(v.len(), |i: int| v[i]@)
}

/// Fetched children by the id of the value they belong to.
pub open spec fn kids_v(m: Map<u32, Vec<Var>>) -> Map<u32, Seq<VarV>> {
    Map::new(|k: u32| m.dom().contains(k), |k: u32| vars_v(m[k]@))
}

// ---------------------------------------------------------------------------
// Values
// ---------------------------------------------------------------------------

/// A value of the debugged program, with the texts and type names that the runtime
/// was asked for filled in.
pub enum RtValue {
    /// A string reference: nothing for a null reference, else its text.
    Text(Option<String>),
    /// An object reference: whether it is an array, its id (0 for null), and its
    /// type's name where the runtime gave it.
    Object { array: bool, id: u32, class: Option<String> },
    /// A value type, by its fields.
    Struct(Vec<RtValue>),
    /// Any other value, already in words.
    Plain(String),
}

/// What a value is shown as.
pub open spec fn shown(v: RtValue) -> Seq<char>
    decreases v,
{
    match v {
        RtValue::Text(None) => "null"@,
        RtValue::Text(Some(s)) => "\""@ + s@ + "\""@,
        RtValue::Object { id, class, .. } => if id == 0 {
            "null"@
        } else {
            match class {
                Some(n) => "{"@ + n@ + "}"@,
                None => "obj#"@ + decimal(id as nat),
            }
        },
        RtValue::Struct(fs) => "("@ + shown_list(fs@, fs@.len() as int) + ")"@,
        RtValue::Plain(s) => s@,
    }
}

/// The first `n` fields of a value type, with commas between them.
pub open spec fn shown_list(fs: Seq<RtValue>, n: int) -> Seq<char>
    decreases fs, n,
{
    if n <= 0 || n > fs.len() {
        Seq::empty()
    } else if n == 1 {
        shown(fs[0])
    } else {
        shown_list(fs, n - 1) + ", "@ + shown(fs[n - 1])
    }
}

/// The text a value is shown as.
pub fn render_value(v: &RtValue) -> (r: String)
    ensures
        r@ == shown(*v),
    decreases v,
{
    match v {
        RtValue::Text(None) => "null".to_owned(),
        RtValue::Text(Some(s)) => join3("\"", s.as_str(), "\""),
        RtValue::Object { id, class, .. } => if *id == 0 {
            "null".to_owned()
        } else {
            match class {
                Some(n) => join3("{", n.as_str(), "}"),
                None => {
                    let d = show_u64(*id as u64);
                    join2("obj#", d.as_str())
                },
            }
        },
        RtValue::Struct(fs) => {
            let mut out = String::new();
            let mut i: usize = 0;
            while i < fs.len()
                invariant
                    i <= fs@.len(),
                    *v == RtValue::Struct(*fs),
                    out@ == shown_list(fs@, i as int),
                decreases fs@.len() - i,
            {
                proof {
                    assert(decreases_to!(*v => (*v)->Struct_0));
                    assert(decreases_to!(*fs => fs@));
                    assert(decreases_to!(fs@ => fs@[i as int]));
                }
                if i > 0 {
                    out.append(", ");
                }
                let f = render_value(&fs[i]);
                out.append(f.as_str());
                i = i + 1;
                assert(out@ =~= shown_list(fs@, i as int));
            }
            join3("(", out.as_str(), ")")
        },
        RtValue::Plain(s) => s.clone(),
    }
}

/// The children a value offers: those of an object or array that is not null.
pub open spec fn expandable(v: RtValue) -> Option<Expand> {
    match v {
        RtValue::Object { array, id, .. } => if id != 0 {
            Some(Expand { id, array })
        } else {
            None
        },
        _ => None,
    }
}

/// Build a variable row, tagging it as expandable when it's a non-null object/array.
pub fn make_var(name: &str, val: &RtValue) -> (r: Var)
    ensures
        r@ == (VarV { name: name@, value: shown(*val), expand: expandable(*val) }),
{
    let expand = match val {
        RtValue::Object { array, id, .. } => if *id != 0 {
            Some(Expand { id: *id, array: *array })
        } else {
            None
        },
        _ => None,
    };
    Var { name: name.to_owned(), value: render_value(val), expand }
}

// ---------------------------------------------------------------------------
// What is asked for
// ---------------------------------------------------------------------------

/// A local variable of a method and where it lives.
pub struct Local {
    pub name: String,
    pub live_start: i32,
    pub live_end: i32,
}

/// Whether a local lives at the offset `il`.
pub open spec fn lives(l: Local, il: i32) -> bool {
    l.live_start <= il < l.live_end
}

/// The positions below `n` of the locals that live at `il`.
pub open spec fn live_positions(ls: Seq<Local>, il: i32, n: int) -> Seq<int>
    decreases n,
{
    if n <= 0 || n > ls.len() {
        Seq::empty()
    } else if lives(ls[n - 1], il) {
        live_positions(ls, il, n - 1).push(n - 1)
    } else {
        live_positions(ls, il, n - 1)
    }
}

/// The positions of the locals in scope at `il`, in order: those whose values are
/// asked for.
pub fn in_scope(ls: &Vec<Local>, il: i32) -> (r: Vec<usize>)
    ensures
        Seq::new(r@.len(), |i: int| r@[i] as int) == live_positions(ls@, il, ls@.len() as int),
        forall|i: int| 0 <= i < r@.len() ==> (#[trigger] r@[i]) < ls@.len(),
{
    let mut out: Vec<usize> = Vec::new();
    let mut i: usize = 0;
    assert(Seq::new(out@.len(), |k: int| out@[k] as int) =~= live_positions(ls@, il, 0));
    while i < ls.len()
        invariant
            i <= ls@.len(),
            Seq::new(out@.len(), |k: int| out@[k] as int) == live_positions(ls@, il, i as int),
            forall|k: int| 0 <= k < out@.len() ==> (#[trigger] out@[k]) < ls@.len(),
        decreases ls@.len() - i,
    {
        let ghost before = Seq::new(out@.len(), |k: int| out@[k] as int);
        if ls[i].live_start <= il && il < ls[i].live_end {
            out.push(i);
            assert(Seq::new(out@.len(), |k: int| out@[k] as int) =~= before.push(i as int));
        }
        i = i + 1;
    }
    out
}

/// A named value per row, as many as there are of both.
pub open spec fn named_rows(names: Seq<Seq<char>>, values: Seq<RtValue>) -> Seq<VarV> {
    let n = if names.len() < values.len() { names.len() } else { values.len() };
    Seq::new(n, |i: int| VarV { name: names[i], value: shown(values[i]), expand: expandable(values[i]) })
}

/// The names of the locals at the given positions.
pub open spec fn names_at(ls: Seq<Local>, at: Seq<usize>) -> Seq<Seq<char>> {
    Seq::new(at.len(), |i: int| ls[at[i] as int].name@)
}

/// The rows of the locals at `at`, given their values in the same order.
pub fn local_rows(ls: &Vec<Local>, at: &Vec<usize>, values: &Vec<RtValue>) -> (r: Vec<Var>)
    requires
        forall|i: int| 0 <= i < at@.len() ==> (#[trigger] at@[i]) < ls@.len(),
    ensures
        vars_v(r@) == named_rows(names_at(ls@, at@), values@),
{
    let mut out: Vec<Var> = Vec::new();
    let mut i: usize = 0;
    while i < at.len() && i < values.len()
        invariant
            i <= at@.len(),
            i <= values@.len(),
            forall|i: int| 0 <= i < at@.len() ==> (#[trigger] at@[i]) < ls@.len(),
            vars_v(out@) == named_rows(names_at(ls@, at@), values@).take(i as int),
        decreases at@.len() - i,
    {
        let v = make_var(ls[at[i]].name.as_str(), &values[i]);
        let ghost before = vars_v(out@);
        out.push(v);
        assert(vars_v(out@) =~= before.push(v@));
        i = i + 1;
        assert(vars_v(out@) =~= named_rows(names_at(ls@, at@), values@).take(i as int));
    }
    assert(vars_v(out@) =~= named_rows(names_at(ls@, at@), values@));
    out
}

/// A field of a type.
pub struct Field {
    pub id: u32,
    pub name: String,
    pub is_static: bool,
}

/// The positions below `n` of the fields that belong to an instance.
pub open spec fn instance_positions(fs: Seq<Field>, n: int) -> Seq<int>
    decreases n,
{
    if n <= 0 || n > fs.len() {
        Seq::empty()
    } else if !fs[n - 1].is_static {
        instance_positions(fs, n - 1).push(n - 1)
    } else {
        instance_positions(fs, n - 1)
    }
}

/// The positions of the instance fields of a type, in order: those whose values are
/// asked for. How far the walk up the base types goes is [`MAX_BASES`].
pub fn instance_fields(fs: &Vec<Field>) -> (r: Vec<usize>)
    ensures
        Seq::new(r@.len(), |i: int| r@[i] as int) == instance_positions(fs@, fs@.len() as int),
        forall|i: int| 0 <= i < r@.len() ==> (#[trigger] r@[i]) < fs@.len(),
{
    let mut out: Vec<usize> = Vec::new();
    let mut i: usize = 0;
    assert(Seq::new(out@.len(), |k: int| out@[k] as int) =~= instance_positions(fs@, 0));
    while i < fs.len()
        invariant
            i <= fs@.len(),
            Seq::new(out@.len(), |k: int| out@[k] as int) == instance_positions(fs@, i as int),
            forall|k: int| 0 <= k < out@.len() ==> (#[trigger] out@[k]) < fs@.len(),
        decreases fs@.len() - i,
    {
        let ghost before = Seq::new(out@.len(), |k: int| out@[k] as int);
        if !fs[i].is_static {
            out.push(i);
            assert(Seq::new(out@.len(), |k: int| out@[k] as int) =~= before.push(i as int));
        }
        i = i + 1;
    }
    out
}

/// How many types up the hierarchy an object's fields are collected from.
pub const MAX_BASES: usize = 32;

/// The names of the fields at the given positions.
pub open spec fn field_names_at(fs: Seq<Field>, at: Seq<usize>) -> Seq<Seq<char>> {
    Seq::new(at.len(), |i: int| fs[at[i] as int].name@)
}

/// Adds the rows of the fields at `at` to `out`, given their values in that order.
pub fn push_field_rows(out: &mut Vec<Var>, fs: &Vec<Field>, at: &Vec<usize>, values: &Vec<RtValue>)
    requires
        forall|i: int| 0 <= i < at@.len() ==> (#[trigger] at@[i]) < fs@.len(),
    ensures
        vars_v(final(out)@) == vars_v(old(out)@) + named_rows(field_names_at(fs@, at@), values@),
{
    let ghost head = vars_v(out@);
    let ghost want = named_rows(field_names_at(fs@, at@), values@);
    let mut i: usize = 0;
    assert(vars_v(out@) =~= head + want.take(0));
    while i < at.len() && i < values.len()
        invariant
            i <= at@.len(),
            i <= values@.len(),
            forall|i: int| 0 <= i < at@.len() ==> (#[trigger] at@[i]) < fs@.len(),
            want == named_rows(field_names_at(fs@, at@), values@),
            vars_v(out@) == head + want.take(i as int),
        decreases at@.len() - i,
    {
        let v = make_var(fs[at[i]].name.as_str(), &values[i]);
        let ghost before = vars_v(out@);
        out.push(v);
        assert(vars_v(out@) =~= before.push(v@));
        i = i + 1;
        assert(vars_v(out@) =~= head + want.take(i as int));
    }
    assert(want.take(i as int) =~= want);
}

/// The most elements of an array that are shown.
pub const ARRAY_CAP: i32 = 500;

/// How many elements of an array of the given length are asked for.
pub open spec fn asked(len: i32) -> int {
    if len < 0 {
        0
    } else if len < ARRAY_CAP {
        len as int
    } else {
        ARRAY_CAP as int
    }
}

/// How many elements of an array of the given length are asked for.
pub fn array_count(len: i32) -> (r: i32)
    ensures
        r == asked(len),
{
    if len < 0 {
        0
    } else if len < ARRAY_CAP {
        len
    } else {
        ARRAY_CAP
    }
}

/// The rows of an array's elements, and a last row that tells how many more there are.
pub open spec fn array_rows_v(len: i32, values: Seq<RtValue>) -> Seq<VarV> {
    let rows = Seq::new(
        values.len(),
        |i: int| VarV {
            name: "["@ + decimal(i as nat) + "]"@,
            value: shown(values[i]),
            expand: expandable(values[i]),
        },
    );
    if len > asked(len) {
        rows.push(
            VarV { name: "… "@ + decimal_int(len - asked(len)) + " more"@, value: Seq::empty(), expand: None },
        )
    } else {
        rows
    }
}

/// The elements of an array as variable rows (capped, with an ellipsis overflow row).
pub fn array_rows(len: i32, values: &Vec<RtValue>) -> (r: Vec<Var>)
    ensures
        vars_v(r@) == array_rows_v(len, values@),
{
    let mut out: Vec<Var> = Vec::new();
    let ghost rows = Seq::new(
        values@.len(),
        |i: int| VarV {
            name: "["@ + decimal(i as nat) + "]"@,
            value: shown(values@[i]),
            expand: expandable(values@[i]),
        },
    );
    let mut i: usize = 0;
    assert(vars_v(out@) =~= rows.take(0));
    while i < values.len()
        invariant
            i <= values@.len(),
            rows == Seq::new(
                values@.len(),
                |i: int| VarV {
                    name: "["@ + decimal(i as nat) + "]"@,
                    value: shown(values@[i]),
                    expand: expandable(values@[i]),
                },
            ),
            vars_v(out@) == rows.take(i as int),
        decreases values@.len() - i,
    {
        let d = show_u64(i as u64);
        let name = join3("[", d.as_str(), "]");
        let v = make_var(name.as_str(), &values[i]);
        let ghost before = vars_v(out@);
        out.push(v);
        assert(vars_v(out@) =~= before.push(v@));
        i = i + 1;
        assert(vars_v(out@) =~= rows.take(i as int));
    }
    assert(rows.take(i as int) =~= rows);
    let n: i32 = array_count(len);
    if len > n {
        let d = show_i64((len - n) as i64);
        let name = join3("… ", d.as_str(), " more");
        let v = Var { name, value: String::new(), expand: None };
        out.push(v);
        assert(vars_v(out@) =~= rows.push(v@));
    }
    out
}

// ---------------------------------------------------------------------------
// The tree on show
// ---------------------------------------------------------------------------

/// The deepest level that is descended to.
pub const MAX_DEPTH: usize = 64;

/// A line of the inspector.
pub enum Row {
    /// A variable, `depth` levels in; `open` where its children are shown.
    Var { depth: usize, name: String, value: String, expand: Option<Expand>, open: bool },
    /// A remark in place of children.
    Note { depth: usize, text: &'static str },
}

/// A line of the inspector.
pub enum RowV {
    Var { depth: int, name: Seq<char>, value: Seq<char>, expand: Option<Expand>, open: bool },
    Note { depth: int, text: Seq<char> },
}

impl View for Row {
    type V = RowV;

    open spec fn view(&self) -> RowV {
        match *self {
            Row::Var { depth, name, value, expand, open } => RowV::Var {
                depth: depth as int,
                name: name@,
                value: value@,
                expand,
                open,
            },
            Row::Note { depth, text } => RowV::Note { depth: depth as int, text: text@ },
        }
    }
}

/// The lines of a sequence.
pub open spec fn rows_v(v: Seq<Row>) -> Seq<RowV> {
    Seq::new(v.len(), |i: int| v[i]@)
}

/// Whether a variable's children are shown.
pub open spec fn is_open(v: VarV, open: Set<u32>) -> bool {
    match v.expand {
        Some(e) => open.contains(e.id),
        None => false,
    }
}

/// The lines of the variables from the `i`-th on. An open value is followed by its
/// children one level deeper; a remark stands in their place where they are not
/// fetched yet, where there are none, and where the value is already among its own
/// ancestors or the tree is too deep.
pub open spec fn tree_rows(
    vars: Seq<VarV>,
    i: int,
    kids: Map<u32, Seq<VarV>>,
    open: Set<u32>,
    depth: int,
    path: Seq<u32>,
) -> Seq<RowV>
    decreases
        (if depth < MAX_DEPTH as int {
            MAX_DEPTH - depth
        } else {
            0
        }),
        vars.len() - i,
{
    if i < 0 || i >= vars.len() {
        Seq::empty()
    } else {
        let v = vars[i];
        let head = seq![
            RowV::Var { depth, name: v.name, value: v.value, expand: v.expand, open: is_open(v, open) },
        ];
        let below = if !is_open(v, open) {
            Seq::empty()
        } else {
            let id = v.expand->0.id;
            if path.contains(id) || depth >= MAX_DEPTH {
                seq![RowV::Note { depth: depth + 1, text: "…"@ }]
            } else if !kids.dom().contains(id) {
                seq![RowV::Note { depth: depth + 1, text: "loading…"@ }]
            } else if kids[id].len() == 0 {
                seq![RowV::Note { depth: depth + 1, text: "(empty)"@ }]
            } else {
                tree_rows(kids[id], 0, kids, open, depth + 1, path.push(id))
            }
        };
        head + below + tree_rows(vars, i + 1, kids, open, depth, path)
    }
}

fn holds(path: &Vec<u32>, id: u32) -> (r: bool)
    ensures
        r == path@.contains(id),
{
    let mut i: usize = 0;
    while i < path.len()
        invariant
            i <= path@.len(),
            forall|k: int| 0 <= k < i ==> #[trigger] path@[k] != id,
        decreases path@.len() - i,
    {
        if path[i] == id {
            return true;
        }
        i = i + 1;
    }
    false
}

fn push_row(out: &mut Vec<Row>, row: Row)
    ensures
        rows_v(final(out)@) == rows_v(old(out)@).push(row@),
{
    out.push(row);
    assert(rows_v(out@) =~= rows_v(old(out)@).push(row@));
}

/// Lists variable rows, descending into expanded objects/arrays.
///
/// `path` is the chain of object ids currently descended through. Because open
/// state is keyed by object id, a cyclic graph would otherwise be descended
/// forever; an id already on the path is not descended into again.
pub fn var_tree(
    vars: &Vec<Var>,
    children: &HashMap<u32, Vec<Var>>,
    var_open: &HashSet<u32>,
    depth: usize,
    path: &mut Vec<u32>,
    out: &mut Vec<Row>,
)
    requires
        depth < usize::MAX,
    ensures
        rows_v(final(out)@) == rows_v(old(out)@) + tree_rows(
            vars_v(vars@),
            0,
            kids_v(children@),
            var_open@,
            depth as int,
            old(path)@,
        ),
        final(path)@ == old(path)@,
    decreases
        (if depth < MAX_DEPTH {
            MAX_DEPTH - depth
        } else {
            0
        }),
{
    let ghost vs = vars_v(vars@);
    let ghost kids = kids_v(children@);
    let ghost open_v = var_open@;
    let ghost p0 = path@;
    let ghost o0 = rows_v(out@);
    let mut i: usize = 0;
    assert(rows_v(out@) + tree_rows(vs, 0, kids, open_v, depth as int, p0) =~= o0 + tree_rows(
        vs,
        0,
        kids,
        open_v,
        depth as int,
        p0,
    ));
    while i < vars.len()
        invariant
            i <= vars@.len(),
            depth < usize::MAX,
            vs == vars_v(vars@),
            kids == kids_v(children@),
            open_v == var_open@,
            path@ == p0,
            rows_v(out@) + tree_rows(vs, i as int, kids, open_v, depth as int, p0) == o0 + tree_rows(
                vs,
                0,
                kids,
                open_v,
                depth as int,
                p0,
            ),
        decreases vars@.len() - i,
    {
        let ghost before = rows_v(out@);
        let v = &vars[i];
        assert(vs[i as int] == v@);
        let open = match v.expand {
            Some(e) => var_open.contains(&e.id),
            None => false,
        };
        push_row(
            out,
            Row::Var { depth, name: v.name.clone(), value: v.value.clone(), expand: v.expand, open },
        );
        let ghost head = rows_v(out@);
        let ghost rest = tree_rows(vs, i as int + 1, kids, open_v, depth as int, p0);
        if open {
            if let Some(e) = v.expand {
                if holds(path, e.id) || depth >= MAX_DEPTH {
                    // Cycle (or pathologically deep): stop descending.
                    push_row(out, Row::Note { depth: depth + 1, text: "…" });
                } else {
                    match children.get(&e.id) {
                        Some(k) => {
                            assert(kids[e.id] == vars_v(k@));
                            if k.len() > 0 {
                                path.push(e.id);
                                var_tree(k, children, var_open, depth + 1, path, out);
                                let _ = path.pop();
                                assert(path@ =~= p0);
                            } else {
                                push_row(out, Row::Note { depth: depth + 1, text: "(empty)" });
                            }
                        },
                        None => {
                            push_row(out, Row::Note { depth: depth + 1, text: "loading…" });
                        },
                    }
                }
            }
        }
        assert(rows_v(out@) + rest =~= before + tree_rows(vs, i as int, kids, open_v, depth as int, p0));
        i = i + 1;
    }
    assert(rows_v(out@) =~= rows_v(out@) + tree_rows(vs, i as int, kids, open_v, depth as int, p0));
}

/// What a click on an expandable row does: it closes an open value, and opens a
/// closed one, whose children are to be fetched if they are not there yet.
pub fn toggle(e: Expand, children: &HashMap<u32, Vec<Var>>, var_open: &mut HashSet<u32>) -> (fetch: bool)
    ensures
        old(var_open)@.contains(e.id) ==> final(var_open)@ == old(var_open)@.remove(e.id) && !fetch,
        !old(var_open)@.contains(e.id) ==> final(var_open)@ == old(var_open)@.insert(e.id) && fetch
            == !children@.dom().contains(e.id),
{
    if var_open.contains(&e.id) {
        var_open.remove(&e.id);
        false
    } else {
        var_open.insert(e.id);
        !children.contains_key(&e.id)
    }
}

/// The value of the first row named `name`, among the locals and then the members.
pub open spec fn lookup(locals: Seq<VarV>, members: Seq<VarV>, name: Seq<char>) -> Option<Seq<char>> {
    let all = locals + members;
    lookup_from(all, name, 0)
}

/// The value of the first row named `name` from the `i`-th on.
pub open spec fn lookup_from(all: Seq<VarV>, name: Seq<char>, i: int) -> Option<Seq<char>>
    decreases all.len() - i,
{
    if i < 0 || i >= all.len() {
        None
    } else if all[i].name == name {
        Some(all[i].value)
    } else {
        lookup_from(all, name, i + 1)
    }
}

/// Look up a variable name among the in-scope locals and `this` members.
pub fn lookup_var(locals: &Vec<Var>, members: &Vec<Var>, name: &str) -> (r: Option<String>)
    ensures
        match r {
            Some(s) => lookup(vars_v(locals@), vars_v(members@), name@) == Some(s@),
            None => lookup(vars_v(locals@), vars_v(members@), name@) is None,
        },
{
    let ghost all = vars_v(locals@) + vars_v(members@);
    let n: usize = locals.len();
    let mut i: usize = 0;
    while i < n
        invariant
            i <= n == locals@.len(),
            all == vars_v(locals@) + vars_v(members@),
            lookup_from(all, name@, 0) == lookup_from(all, name@, i as int),
        decreases n - i,
    {
        assert(all[i as int] == locals@[i as int]@);
        if same(locals[i].name.as_str(), name) {
            return Some(locals[i].value.clone());
        }
        i = i + 1;
    }
    let mut j: usize = 0;
    while j < members.len()
        invariant
            j <= members@.len(),
            n == locals@.len(),
            all == vars_v(locals@) + vars_v(members@),
            lookup_from(all, name@, 0) == lookup_from(all, name@, n + j),
        decreases members@.len() - j,
    {
        assert(all[n + j] == members@[j as int]@);
        if same(members[j].name.as_str(), name) {
            return Some(members[j].value.clone());
        }
        j = j + 1;
    }
    None
}

/// However the values refer to each other, no line of the tree lies more than one
/// level below the deepest that is descended to.
pub proof fn law_tree_depth_is_bounded(
    vars: Seq<VarV>,
    i: int,
    kids: Map<u32, Seq<VarV>>,
    open: Set<u32>,
    depth: int,
    path: Seq<u32>,
)
    requires
        0 <= depth <= MAX_DEPTH,
    ensures
        forall|k: int|
            0 <= k < tree_rows(vars, i, kids, open, depth, path).len() ==> match #[trigger] tree_rows(
                vars,
                i,
                kids,
                open,
                depth,
                path,
            )[k] {
                RowV::Var { depth, .. } => 0 <= depth <= MAX_DEPTH,
                RowV::Note { depth, .. } => 0 <= depth <= MAX_DEPTH + 1,
            },
    decreases MAX_DEPTH - depth, vars.len() - i,
{
    if 0 <= i < vars.len() {
        law_tree_depth_is_bounded(vars, i + 1, kids, open, depth, path);
        let v = vars[i];
        if is_open(v, open) {
            let id = v.expand->0.id;
            if !(path.contains(id) || depth >= MAX_DEPTH) && kids.dom().contains(id) && kids[id].len() > 0 {
                law_tree_depth_is_bounded(kids[id], 0, kids, open, depth + 1, path.push(id));
            }
        }
    }
}

/// A name is looked up among the locals first and among the members then; the first row of
/// that name counts.
pub proof fn law_locals_come_before_members(locals: Seq<VarV>, members: Seq<VarV>, name: Seq<char>, k: int)
    ensures
        0 <= k < locals.len() && locals[k].name == name && (forall|j: int|
            0 <= j < k ==> (#[trigger] locals[j]).name != name) ==> lookup(locals, members, name) == Some(locals[k].value),
        0 <= k < members.len() && members[k].name == name && (forall|j: int|
            0 <= j < locals.len() ==> (#[trigger] locals[j]).name != name) && (forall|j: int|
            0 <= j < k ==> (#[trigger] members[j]).name != name) ==> lookup(locals, members, name) == Some(
            members[k].value,
        ),
        (forall|j: int| 0 <= j < locals.len() ==> (#[trigger] locals[j]).name != name) && (forall|j: int|
            0 <= j < members.len() ==> (#[trigger] members[j]).name != name) ==> lookup(locals, members, name) is None,
{
    let all = locals + members;
    let n = locals.len() as int;
    if 0 <= k < n && locals[k].name == name && (forall|j: int| 0 <= j < k ==> (#[trigger] locals[j]).name != name) {
        assert forall|j: int| 0 <= j < k implies (#[trigger] all[j]).name != name by {
            assert(all[j] == locals[j]);
        }
        assert(all[k] == locals[k]);
        lemma_lookup(all, name, 0, k);
    }
    if forall|j: int| 0 <= j < n ==> (#[trigger] locals[j]).name != name {
        if 0 <= k < members.len() && members[k].name == name && (forall|j: int|
            0 <= j < k ==> (#[trigger] members[j]).name != name) {
            assert forall|j: int| 0 <= j < n + k implies (#[trigger] all[j]).name != name by {
                if j < n {
                    assert(all[j] == locals[j]);
                } else {
                    assert(all[j] == members[j - n]);
                }
            }
            assert(all[n + k] == members[k]);
            lemma_lookup(all, name, 0, n + k);
        }
        if forall|j: int| 0 <= j < members.len() ==> (#[trigger] members[j]).name != name {
            assert forall|j: int| 0 <= j < all.len() implies (#[trigger] all[j]).name != name by {
                if j < n {
                    assert(all[j] == locals[j]);
                } else {
                    assert(all[j] == members[j - n]);
                }
            }
            lemma_lookup(all, name, 0, all.len() as int);
        }
    }
}

proof fn lemma_lookup(all: Seq<VarV>, name: Seq<char>, i: int, k: int)
    requires
        0 <= i <= k <= all.len(),
        forall|j: int| i <= j < k ==> (#[trigger] all[j]).name != name,
        k < all.len() ==> all[k].name == name,
    ensures
        lookup_from(all, name, i) == (if k < all.len() {
            Some(all[k].value)
        } else {
            None
        }),
    decreases k - i,
{
    if i < k {
        assert(all[i].name != name);
        lemma_lookup(all, name, i + 1, k);
    }
}

/// A null is shown as such, a text in quotes, an object by its type in braces or else by its
/// number, and any other value in its own words. Only an object or array that is not null
/// can be expanded, by its own number.
pub proof fn law_values_are_shown(v: RtValue)
    ensures
        v matches RtValue::Text(None) ==> shown(v) == "null"@,
        v matches RtValue::Text(Some(s)) ==> shown(v) == "\""@ + s@ + "\""@,
        v matches RtValue::Plain(s) ==> shown(v) == s@,
        (v is Object && v->Object_id == 0) ==> shown(v) == "null"@ && expandable(v) is None,
        (v is Object && v->Object_id != 0 && v->Object_class is Some) ==> shown(v) == "{"@ + v->Object_class->0@ + "}"@,
        (v is Object && v->Object_id != 0 && v->Object_class is None) ==> shown(v) == "obj#"@ + decimal(
            v->Object_id as nat,
        ),
        (v is Object && v->Object_id != 0) ==> (expandable(v) matches Some(e) && e.id == v->Object_id && e.array
            == v->Object_array),
        !(v is Object) ==> expandable(v) is None,
{
}

/// A local lives from its start up to its end, which it does not reach: at an offset exactly
/// the locals that live there are shown.
pub proof fn law_locals_in_scope_are_shown(ls: Seq<Local>, il: i32, n: int, k: int)
    requires
        0 <= n <= ls.len(),
    ensures
        live_positions(ls, il, n).contains(k) <==> 0 <= k < n && ls[k].live_start <= il && il < ls[k].live_end,
        forall|i: int, j: int|
            0 <= i < j < live_positions(ls, il, n).len() ==> (#[trigger] live_positions(ls, il, n)[i])
                < #[trigger] live_positions(ls, il, n)[j],
    decreases n,
{
    if n > 0 {
        let s = live_positions(ls, il, n - 1);
        law_locals_in_scope_are_shown(ls, il, n - 1, k);
        lemma_pushed(s, n - 1, k);
        assert forall|i: int| 0 <= i < s.len() implies #[trigger] s[i] < n - 1 by {
            law_locals_in_scope_are_shown(ls, il, n - 1, s[i]);
            assert(s.contains(s[i]));
        }
    }
}

/// The fields that belong to an instance are shown; those of the type itself are not.
pub proof fn law_instance_fields_are_shown(fs: Seq<Field>, n: int, k: int)
    requires
        0 <= n <= fs.len(),
    ensures
        instance_positions(fs, n).contains(k) <==> 0 <= k < n && !fs[k].is_static,
    decreases n,
{
    if n > 0 {
        law_instance_fields_are_shown(fs, n - 1, k);
        lemma_pushed(instance_positions(fs, n - 1), n - 1, k);
    }
}

proof fn lemma_pushed(s: Seq<int>, x: int, k: int)
    ensures
        s.push(x).contains(k) <==> s.contains(k) || k == x,
{
    assert(s.push(x)[s.len() as int] == x);
    if s.contains(k) {
        let i = choose|i: int| 0 <= i < s.len() && s[i] == k;
        assert(s.push(x)[i] == k);
    }
    if s.push(x).contains(k) && k != x {
        let i = choose|i: int| 0 <= i < s.push(x).len() && s.push(x)[i] == k;
        assert(s[i] == k);
    }
}

/// A row has the name that stands at its place and the value at the same place.
pub proof fn law_rows_pair_names_with_values(names: Seq<Seq<char>>, values: Seq<RtValue>, i: int)
    requires
        0 <= i < names.len(),
        i < values.len(),
    ensures
        i < named_rows(names, values).len(),
        named_rows(names, values).len() <= names.len(),
        named_rows(names, values).len() <= values.len(),
        named_rows(names, values)[i].name == names[i],
        named_rows(names, values)[i].value == shown(values[i]),
        named_rows(names, values)[i].expand == expandable(values[i]),
{
}

/// The elements of an array are numbered from 0. Of a long one the first 500 are shown, and
/// a last row, which cannot be expanded, tells how many more there are.
pub proof fn law_array_elements_are_numbered(len: i32, values: Seq<RtValue>, i: int)
    requires
        0 <= i < values.len(),
    ensures
        ({
            let r = array_rows_v(len, values);
            &&& i < r.len()
            &&& r[i].name == "["@ + decimal(i as nat) + "]"@
            &&& r[i].value == shown(values[i])
            &&& r[i].expand == expandable(values[i])
            &&& len <= 500 ==> r.len() == values.len()
            &&& len > 500 ==> {
                &&& r.len() == values.len() + 1
                &&& r.last().name == "… "@ + decimal_int(len - 500) + " more"@
                &&& r.last().expand is None
            }
            &&& 0 <= len <= 500 ==> asked(len) == len
            &&& len > 500 ==> asked(len) == 500
        }),
{
}

/// The first line of the inspector is the first variable, one that is closed is followed by
/// the next variable, and one that is open by its children a level deeper, or by a remark
/// where they are still to be fetched or there are none.
pub proof fn law_open_values_show_their_children(
    vars: Seq<VarV>,
    i: int,
    kids: Map<u32, Seq<VarV>>,
    open: Set<u32>,
    depth: int,
    path: Seq<u32>,
)
    requires
        0 <= i < vars.len(),
        0 <= depth < MAX_DEPTH,
    ensures
        ({
            let r = tree_rows(vars, i, kids, open, depth, path);
            let rest = tree_rows(vars, i + 1, kids, open, depth, path);
            let e = vars[i].expand;
            let shows = e is Some && open.contains(e->0.id);
            &&& r.len() > 0
            &&& r[0] == (RowV::Var {
                depth,
                name: vars[i].name,
                value: vars[i].value,
                expand: vars[i].expand,
                open: shows,
            })
            &&& !shows ==> r.skip(1) == rest
            &&& shows && !path.contains(e->0.id) && kids.dom().contains(e->0.id) && kids[e->0.id].len() > 0 ==> r.skip(1)
                == tree_rows(kids[e->0.id], 0, kids, open, depth + 1, path.push(e->0.id)) + rest
            &&& shows && !path.contains(e->0.id) && !kids.dom().contains(e->0.id) ==> r.skip(1) == seq![
                RowV::Note { depth: depth + 1, text: "loading…"@ },
            ] + rest
            &&& shows && !path.contains(e->0.id) && kids.dom().contains(e->0.id) && kids[e->0.id].len() == 0 ==> r.skip(1)
                == seq![RowV::Note { depth: depth + 1, text: "(empty)"@ }] + rest
            &&& shows && path.contains(e->0.id) ==> r.skip(1) == seq![RowV::Note { depth: depth + 1, text: "…"@ }] + rest
        }),
{
    let r = tree_rows(vars, i, kids, open, depth, path);
    let rest = tree_rows(vars, i + 1, kids, open, depth, path);
    let e = vars[i].expand;
    if !is_open(vars[i], open) {
        assert(r.skip(1) =~= rest);
    } else if path.contains(e->0.id) {
        assert(r.skip(1) =~= seq![RowV::Note { depth: depth + 1, text: "…"@ }] + rest);
    } else if !kids.dom().contains(e->0.id) {
        assert(r.skip(1) =~= seq![RowV::Note { depth: depth + 1, text: "loading…"@ }] + rest);
    } else if kids[e->0.id].len() == 0 {
        assert(r.skip(1) =~= seq![RowV::Note { depth: depth + 1, text: "(empty)"@ }] + rest);
    } else {
        assert(r.skip(1) =~= tree_rows(kids[e->0.id], 0, kids, open, depth + 1, path.push(e->0.id)) + rest);
    }
}

} // verus!

use std::collections::{HashMap, HashSet};

use unterm::debugger::discovery::{
    contents_path, is_source, process_id, skips_dir, sort_files, Discovery, EXPIRY_MS,
};
use unterm::debugger::inspect::{
    collect_threads, dump, fetch_object_fields, frame_locals, FrameInfo, FrameVars, Level, RawThread,
};
use unterm::debugger::session::{
    armed_note, editor_target, must_resume, seed, stack_row, thread_row, wait_for_target, with_address, Act, Cmd, Depth,
    Event, Frame, FrameView, Player, Session, Stop, Target, ThreadInfo, UiState, Why, LOG_CAP, RETRY_MS,
};
use unterm::debugger::source::{
    basename, flag_idents, ident_in, il_to_source, parse_breakpoint, resolve_local, word_at, DebugInfo, SeqPoint,
};
use unterm::debugger::store::{breakpoints_of, load_breakpoints, store_text};
use unterm::debugger::tree::{build_tree, flatten_tree, tree_click, tree_keys, Entry, Keys, TreeRow};
use unterm::debugger::vars::{
    array_count, array_rows, in_scope, instance_fields, local_rows, lookup_var, make_var, push_field_rows,
    render_value, toggle, var_tree, Expand, Field, Local, Row, RtValue, Var, MAX_DEPTH,
};
use unterm::debugger::view::{
    build_ui, compute_hover, exec_line, gutter_lines, gutter_press, load_source, location, map_editor_key, place_row,
    player_row, scroll_row, shows_threads, source_editor, status, status_tip, sync_editor, target_label, thread_text,
    Controls, Focus, Follow, Input, NavKey, Tone,
};
use unterm::json::Json;
use unterm::names::Names;

fn s(t: &str) -> String {
    t.to_string()
}

// --- Source positions ----------------------------------------------------------------

fn point(il_offset: i32, line: i32, hidden: bool) -> SeqPoint {
    SeqPoint { il_offset, line, hidden }
}

#[test]
fn offsets_map_to_the_point_before_them() {
    let info = DebugInfo {
        sources: vec![s("/p/A.cs"), s("/p/B.cs")],
        seq_points: vec![point(0, 10, false), point(4, 99, true), point(6, 12, false), point(20, 15, false)],
    };
    for (il, line) in [(0, 10), (5, 10), (6, 12), (19, 12), (500, 15)] {
        assert_eq!(il_to_source(&info, il), Some((s("/p/A.cs"), line)), "offset {il}");
    }
    assert_eq!(il_to_source(&DebugInfo { sources: vec![], seq_points: vec![] }, 3), None);
    assert_eq!(
        il_to_source(&DebugInfo { sources: vec![], seq_points: vec![point(0, 1, false)] }, 3),
        Some((String::new(), 1))
    );
}

#[test]
fn paths_end_in_their_base() {
    for (path, base) in [("/a/b.cs", "b.cs"), ("a\\b.cs", "b.cs"), ("b.cs", "b.cs"), ("a/", ""), ("", "")] {
        assert_eq!(basename(path), base, "{path}");
    }
    assert_eq!(basename(&basename("/x/y/z")), basename("/x/y/z"));
}

#[test]
fn build_paths_resolve_to_the_closest_local_file() {
    let files = vec![
        (s("/me/proj/Assets/Foo/A.cs"), s("A.cs")),
        (s("/me/proj/Assets/Bar/A.cs"), s("A.cs")),
        (s("/me/proj/Assets/B.cs"), s("B.cs")),
    ];
    assert_eq!(resolve_local(&files, "/ci/build/Assets/Bar/A.cs", false), "/me/proj/Assets/Bar/A.cs");
    assert_eq!(resolve_local(&files, "/ci/build/Assets/Bar/A.cs", true), "/ci/build/Assets/Bar/A.cs");
    assert_eq!(resolve_local(&files, "C.cs", false), "C.cs");
    assert_eq!(resolve_local(&files, "", false), "");
}

#[test]
fn words_are_identifiers() {
    assert_eq!(word_at("x = foo_1 + 2b;", 5), Some(s("foo_1")));
    assert_eq!(word_at("x = foo_1 + 2b;", 3), None);
    assert_eq!(word_at("x = foo_1 + 2b;", 13), None);
    assert_eq!(word_at("abc", 3), None);
    let flags = flag_idents("a.b");
    assert_eq!(flags, vec![true, false, true]);
    assert_eq!(ident_in("a.b", &flags, 2), Some(s("b")));
}

#[test]
fn breakpoint_arguments_are_file_and_line() {
    assert_eq!(parse_breakpoint("Foo.cs:12"), Some((s("Foo.cs"), 12)));
    assert_eq!(parse_breakpoint("C:\\x\\Foo.cs:7"), Some((s("C:\\x\\Foo.cs"), 7)));
    for bad in ["Foo.cs", "Foo.cs:", "Foo.cs:x", "Foo.cs:99999999999"] {
        assert_eq!(parse_breakpoint(bad), None, "{bad}");
    }
}

// --- Store -----------------------------------------------------------------------------

#[test]
fn the_store_is_read_as_pairs() {
    let text = r#"{"files":[{"path":"/p/A.cs","lines":[0,"x",4]},{"path":"/q/B.cs"},{"lines":[1]},{"path":"/q/C.cs","lines":[9]}]}"#;
    assert_eq!(load_breakpoints(text), Some(vec![(s("A.cs"), 1), (s("A.cs"), 5), (s("C.cs"), 10)]));
    assert_eq!(load_breakpoints("broken"), None);
    assert_eq!(load_breakpoints("{}"), Some(vec![]));
    assert!(breakpoints_of(&Json::Null).is_empty());
}

#[test]
fn written_lines_are_read_back() {
    let one = store_text(None, "/p/A.cs", &vec![0, 4]);
    let two = store_text(Some(one.as_str()), "/p/B.cs", &vec![7]);
    assert_eq!(load_breakpoints(&two), Some(vec![(s("A.cs"), 1), (s("A.cs"), 5), (s("B.cs"), 8)]));
    let three = store_text(Some(two.as_str()), "/p/A.cs", &vec![2]);
    let mut read = load_breakpoints(&three).unwrap();
    read.sort();
    assert_eq!(read, vec![(s("A.cs"), 3), (s("B.cs"), 8)]);
    let four = store_text(Some(three.as_str()), "/p/A.cs", &vec![]);
    assert_eq!(load_breakpoints(&four), Some(vec![(s("B.cs"), 8)]));
    assert_eq!(load_breakpoints(&store_text(Some("broken"), "/p/A.cs", &vec![0])), Some(vec![(s("A.cs"), 1)]));
}

// --- Variables ---------------------------------------------------------------------------

fn object(id: u32, class: Option<&str>) -> RtValue {
    RtValue::Object { array: false, id, class: class.map(s) }
}

#[test]
fn values_are_rendered() {
    assert_eq!(render_value(&RtValue::Text(None)), "null");
    assert_eq!(render_value(&RtValue::Text(Some(s("hi")))), "\"hi\"");
    assert_eq!(render_value(&object(0, Some("T"))), "null");
    assert_eq!(render_value(&object(3, Some("T"))), "{T}");
    assert_eq!(render_value(&object(3, None)), "obj#3");
    assert_eq!(render_value(&RtValue::Plain(s("1.5"))), "1.5");
    let v = make_var("x", &object(3, Some("T")));
    assert_eq!(v.expand, Some(Expand { id: 3, array: false }));
    assert_eq!(make_var("x", &object(0, None)).expand, None);
    assert_eq!(v.copy().name, "x");
}

#[test]
fn structs_list_their_fields() {
    let v = RtValue::Struct(vec![RtValue::Plain(s("1")), RtValue::Struct(vec![]), RtValue::Text(None)]);
    assert_eq!(render_value(&v), "(1, (), null)");
}

#[test]
fn locals_in_scope_have_values() {
    let local = |name: &str, live_start, live_end| Local { name: s(name), live_start, live_end };
    let ls = vec![local("a", 0, 10), local("b", 5, 6), local("c", 0, 5)];
    assert_eq!(in_scope(&ls, 5), vec![0, 1]);
    let rows = local_rows(&ls, &vec![0, 1], &vec![RtValue::Plain(s("1")), RtValue::Plain(s("2"))]);
    let shown: Vec<(&str, &str)> = rows.iter().map(|v| (v.name.as_str(), v.value.as_str())).collect();
    assert_eq!(shown, vec![("a", "1"), ("b", "2")]);
}

#[test]
fn static_fields_are_left_out() {
    let field = |id, name: &str, is_static| Field { id, name: s(name), is_static };
    let fs = vec![field(1, "x", false), field(2, "y", true), field(3, "z", false)];
    let at = instance_fields(&fs);
    assert_eq!(at, vec![0, 2]);
    let mut out = vec![];
    push_field_rows(&mut out, &fs, &at, &vec![RtValue::Plain(s("1")), RtValue::Plain(s("2"))]);
    let names: Vec<&str> = out.iter().map(|v| v.name.as_str()).collect();
    assert_eq!(names, vec!["x", "z"]);
}

#[test]
fn long_arrays_are_cut() {
    assert_eq!((array_count(3), array_count(501), array_count(-1)), (3, 500, 0));
    let rows = array_rows(2, &vec![RtValue::Plain(s("a")), RtValue::Plain(s("b"))]);
    assert_eq!((rows[0].name.as_str(), rows[1].value.as_str(), rows.len()), ("[0]", "b", 2));
    let many: Vec<RtValue> = (0..500).map(|i| RtValue::Plain(i.to_string())).collect();
    assert_eq!(array_rows(600, &many).len(), 501);
}

fn var(name: &str, id: Option<u32>) -> Var {
    Var { name: s(name), value: s("v"), expand: id.map(|id| Expand { id, array: false }) }
}

fn drawn(rows: &[Row]) -> Vec<(usize, String)> {
    rows.iter()
        .map(|r| match r {
            Row::Var { depth, name, .. } => (*depth, name.clone()),
            Row::Note { depth, text } => (*depth, text.to_string()),
        })
        .collect()
}

#[test]
fn expanded_variables_show_their_children() {
    let mut children = HashMap::new();
    children.insert(1u32, vec![var("child", None), var("me", Some(1))]);
    let mut open = HashSet::new();
    let vars = vec![var("a", Some(1)), var("b", Some(2))];
    let mut out = vec![];
    var_tree(&vars, &children, &open, 0, &mut vec![], &mut out);
    assert_eq!(drawn(&out), vec![(0, s("a")), (0, s("b"))]);
    // An object that was never fetched is fetched; a known one just opens and closes.
    assert!(!toggle(Expand { id: 1, array: false }, &children, &mut open));
    assert!(toggle(Expand { id: 2, array: false }, &children, &mut open));
    let mut out = vec![];
    var_tree(&vars, &children, &open, 0, &mut vec![], &mut out);
    let rows = drawn(&out);
    assert_eq!(rows[0..3], [(0, s("a")), (1, s("child")), (1, s("me"))]);
    assert!(rows.iter().all(|r| r.0 <= MAX_DEPTH));
    assert!(!toggle(Expand { id: 2, array: false }, &children, &mut open));
    assert!(!open.contains(&2));
}

#[test]
fn names_are_looked_up_innermost_first() {
    let v = |name: &str, value: &str| Var { name: s(name), value: s(value), expand: None };
    let locals = vec![v("a", "1")];
    let members = vec![v("a", "2"), v("b", "3")];
    assert_eq!(lookup_var(&locals, &members, "a"), Some(s("1")));
    assert_eq!(lookup_var(&locals, &members, "b"), Some(s("3")));
    assert_eq!(lookup_var(&locals, &members, "c"), None);
}

// --- File tree -----------------------------------------------------------------------------

fn entry(path: &str) -> Entry {
    Entry { comps: path.split('/').map(s).collect(), abs: format!("/p/{path}") }
}

fn rows(expanded: &Names) -> Vec<TreeRow> {
    let tree = build_tree(&vec![entry("z.cs"), entry("b/x.cs"), entry("b/y.cs"), entry("a/w.cs")]);
    let mut out = vec![];
    flatten_tree(&tree, "", 0, expanded, &mut out);
    out
}

fn labels(rows: &[TreeRow]) -> Vec<(usize, &str)> {
    rows.iter().map(|r| (r.depth, r.label.as_str())).collect()
}

#[test]
fn folders_come_first_and_fold() {
    let mut expanded = Names::new();
    let r = rows(&expanded);
    assert_eq!(labels(&r), vec![(0, "a"), (0, "b"), (0, "z.cs")]);
    assert!(r[0].is_dir && !r[2].is_dir);
    assert_eq!(r[2].key, "/p/z.cs");
    expanded.insert(&r[1].key);
    assert_eq!(
        labels(&rows(&expanded)),
        vec![(0, "a"), (0, "b"), (1, "x.cs"), (1, "y.cs"), (0, "z.cs")]
    );
}

#[test]
fn cached_packages_are_shown_as_packages() {
    let tree = build_tree(&vec![entry("Library/PackageCache/com.x/F.cs")]);
    let mut out = vec![];
    flatten_tree(&tree, "", 0, &Names::new(), &mut out);
    assert_eq!(labels(&out), vec![(0, "Packages")]);
    assert_eq!(out[0].key, "Packages");
}

fn keys(name: &str) -> Keys {
    Keys {
        up: name == "up",
        down: name == "down",
        left: name == "left",
        right: name == "right",
        enter: name == "enter",
    }
}

#[test]
fn keys_walk_the_tree() {
    let mut expanded = Names::new();
    let mut sel = 1;
    let mut view = None;
    let mut press = |name: &str, expanded: &mut Names, sel: &mut usize, view: &mut Option<String>| {
        let r = rows(expanded);
        tree_keys(&r, true, keys(name), expanded, sel, view);
    };
    press("right", &mut expanded, &mut sel, &mut view);
    assert_eq!((sel, rows(&expanded).len()), (1, 5));
    press("right", &mut expanded, &mut sel, &mut view);
    assert_eq!(sel, 2);
    press("down", &mut expanded, &mut sel, &mut view);
    assert_eq!((sel, view.clone()), (3, Some(s("/p/b/y.cs"))));
    press("left", &mut expanded, &mut sel, &mut view);
    assert_eq!(sel, 1);
    press("left", &mut expanded, &mut sel, &mut view);
    assert_eq!((sel, rows(&expanded).len()), (1, 3));
    view = None;
    press("down", &mut expanded, &mut sel, &mut view);
    press("down", &mut expanded, &mut sel, &mut view);
    assert_eq!(sel, 2);
    view = None;
    press("enter", &mut expanded, &mut sel, &mut view);
    assert_eq!(view, Some(s("/p/z.cs")));
    // Unfocused, or without rows, nothing but the cursor's range is seen to.
    view = None;
    sel = 99;
    tree_keys(&rows(&expanded), false, keys("enter"), &mut expanded, &mut sel, &mut view);
    assert_eq!((sel, view.clone()), (2, None));
    tree_keys(&vec![], true, keys("up"), &mut expanded, &mut sel, &mut view);
    assert_eq!(sel, 2);
}

#[test]
fn clicks_toggle_folders_and_open_files() {
    let mut expanded = Names::new();
    let (mut sel, mut view) = (0, None);
    let r = rows(&expanded);
    tree_click(&r, 1, &mut expanded, &mut sel, &mut view);
    assert_eq!((sel, view.clone(), rows(&expanded).len()), (1, None, 5));
    let r = rows(&expanded);
    tree_click(&r, 2, &mut expanded, &mut sel, &mut view);
    assert_eq!((sel, view), (2, Some(s("/p/b/x.cs"))));
}

// --- Session ---------------------------------------------------------------------------------

fn attached(bps: &[(&str, i32)]) -> (Session, Vec<Act>) {
    let seed: Vec<(String, i32)> = bps.iter().map(|b| (s(b.0), b.1)).collect();
    Session::attach(UiState::new(), &seed, "Editor", "mono 6", 2, 58)
}

fn stop(file: &str, line: i32) -> Stop {
    Stop {
        stack: vec![s("#0 M"), s("#1 N")],
        frames: vec![Frame { id: 1, method: 2, il_offset: 3 }, Frame { id: 4, method: 5, il_offset: 6 }],
        locals: vec![Var { name: s("x"), value: s("1"), expand: None }],
        members: vec![],
        this_label: s("this"),
        file: s(file),
        line,
    }
}

fn stopped(bps: &[(&str, i32)]) -> Session {
    let (mut d, _) = attached(bps);
    assert!(matches!(d.event(Event::Stopped(9))[..], [Act::Inspect(9, Why::Hit { was_step: false })]));
    let acts = d.inspected(9, Why::Hit { was_step: false }, stop("/p/A.cs", 3), vec![]);
    assert!(matches!(acts[..], [Act::Focus]));
    d
}

#[test]
fn attaching_arms_and_watches() {
    let (d, acts) = attached(&[("A.cs", 3), ("B.cs", 4), ("A.cs", 9)]);
    assert!(d.ui.attached && !d.ui.stopped);
    assert_eq!(d.ui.version, "mono 6 (protocol 2.58)");
    assert_eq!(d.ui.log, vec!["attached: Editor (3 bp)"]);
    assert_eq!(d.ui.all_bps.len(), 3);
    let watched: Vec<&Vec<String>> = acts
        .iter()
        .filter_map(|a| match a {
            Act::Watch(files) => Some(files),
            _ => None,
        })
        .collect();
    assert_eq!(watched, vec![&vec![s("A.cs"), s("B.cs")]]);
    assert_eq!(d.arm_loaded().len(), 3);
    assert_eq!(d.breakpoint(1), Some((s("B.cs"), 4)));
    assert_eq!(d.breakpoint(3), None);
    assert!(attached(&[]).1.is_empty());
}

#[test]
fn running_targets_ignore_stepping() {
    let (mut d, _) = attached(&[]);
    for cmd in [Cmd::Resume, Cmd::StepOver, Cmd::StepInto, Cmd::StepOut, Cmd::SelectThread(1), Cmd::SelectFrame(0)] {
        assert!(d.command(cmd).is_empty());
    }
    assert!(d.command(Cmd::ExpandVar(Expand { id: 1, array: false })).is_empty());
    assert!(matches!(d.command(Cmd::Pause)[..], [Act::Suspend]));
    assert!(matches!(d.suspended(&vec![(4, 0), (5, 2)])[..], [Act::Inspect(5, Why::Pause)]));
    assert!(matches!(d.suspended(&vec![(4, 0)])[..], [Act::Inspect(4, Why::Pause)]));
    assert!(matches!(d.suspended(&vec![])[..], [Act::Resume]));
}

#[test]
fn stopped_targets_step_and_resume() {
    let mut d = stopped(&[]);
    assert!(d.ui.stopped);
    assert_eq!((d.ui.cur_file.as_str(), d.ui.cur_line, d.ui.cur_thread), ("/p/A.cs", 3, 9));
    assert!(d.command(Cmd::Pause).is_empty());
    assert!(matches!(d.command(Cmd::SelectFrame(1))[..], [Act::InspectFrame(1, 9, Frame { id: 4, .. })]));
    assert!(d.command(Cmd::SelectFrame(2)).is_empty());
    d.frame_inspected(1, FrameView { locals: vec![], members: vec![], this_label: s("t"), file: s("/p/B.cs"), line: 8 });
    assert_eq!((d.ui.cur_frame, d.ui.cur_line), (1, 8));
    assert!(matches!(d.command(Cmd::ExpandVar(Expand { id: 7, array: true }))[..], [Act::Fetch(_)]));
    d.fetched(7, vec![]);
    assert!(d.ui.children.contains_key(&7));
    for (cmd, depth) in [(Cmd::StepOver, Depth::Over), (Cmd::StepInto, Depth::Into), (Cmd::StepOut, Depth::Out)] {
        let mut d = stopped(&[]);
        let acts = d.command(cmd);
        assert!(matches!(acts[..], [Act::Step(9, x), Act::Resume] if x == depth));
        assert!(!d.ui.stopped);
        d.stepping(42);
        let acts = d.event(Event::Stopped(9));
        assert!(matches!(acts[..], [Act::ClearStep(42), Act::Inspect(9, Why::Hit { was_step: true })]));
        assert!(d.inspected(9, Why::Hit { was_step: true }, stop("/p/A.cs", 4), vec![]).is_empty());
    }
    assert!(matches!(d.command(Cmd::Resume)[..], [Act::Resume]));
    assert!(!d.ui.stopped && d.ui.stack.is_empty());
}

#[test]
fn threads_are_selected() {
    let mut d = stopped(&[]);
    assert!(matches!(d.command(Cmd::SelectThread(5))[..], [Act::Inspect(5, Why::Select)]));
    let threads = vec![ThreadInfo { id: 5, name: s("T"), location: s("L") }];
    assert!(d.inspected(5, Why::Select, stop("/p/C.cs", 1), threads).is_empty());
    assert_eq!((d.ui.cur_thread, d.ui.threads.len()), (5, 0));
}

#[test]
fn toggling_breakpoints_is_persisted() {
    let (mut d, _) = attached(&[("B.cs", 1)]);
    assert!(d.command(Cmd::ToggleBp(3)).is_empty()); // no file is shown
    assert!(d.command(Cmd::View(s("/p/A.cs"))).is_empty());
    let acts = d.command(Cmd::ToggleBp(3));
    assert!(matches!(&acts[..], [Act::ArmLoaded(1), Act::Persist(f, lines)] if f == "/p/A.cs" && *lines == vec![2]));
    assert_eq!(d.ui.bp_lines, vec![3]);
    assert_eq!(d.ui.all_bps, vec![(s("B.cs"), 1), (s("A.cs"), 3)]);
    d.armed(1, 77);
    let acts = d.command(Cmd::ToggleBp(3));
    assert!(matches!(&acts[..], [Act::ClearBreakpoint(77), Act::Persist(_, lines)] if lines.is_empty()));
    assert_eq!(d.ui.all_bps, vec![(s("B.cs"), 1)]);
}

#[test]
fn reloads_rearm_everything() {
    let (mut d, _) = attached(&[("A.cs", 1), ("B.cs", 2)]);
    d.armed(0, 10);
    d.watched(20);
    assert!(matches!(d.event(Event::TypeLoaded(5))[..], [Act::ArmType(1, 5)]));
    let acts = d.event(Event::DomainCreated(Some(vec![(s("C.cs"), 3)])));
    assert!(matches!(&acts[..], [Act::ClearBreakpoint(10), Act::ClearWatch(20), Act::Watch(f)] if *f == vec![s("C.cs")]));
    assert_eq!(d.ui.all_bps, vec![(s("C.cs"), 3)]);
    let acts = d.event(Event::DomainCreated(None));
    assert!(matches!(&acts[..], [Act::Watch(_)]));
    assert_eq!(d.ui.all_bps, vec![(s("C.cs"), 3)]);
    assert!(d.event(Event::Other).is_empty());
    assert!(matches!(d.event(Event::Died)[..], [Act::Quit]));
    assert_eq!(d.ui.status, "target exited");
    assert!(!d.ui.attached);
}

#[test]
fn outside_edits_are_reconciled() {
    let (mut d, _) = attached(&[("A.cs", 1), ("B.cs", 2)]);
    d.armed(0, 10);
    d.armed(1, 11);
    let acts = d.reconcile_breakpoints(&vec![(s("B.cs"), 2), (s("C.cs"), 3)]);
    assert!(matches!(acts[..], [Act::ClearBreakpoint(10), Act::ArmLoaded(1)]));
    assert_eq!(d.ui.all_bps, vec![(s("B.cs"), 2), (s("C.cs"), 3)]);
    assert!(d.reconcile_breakpoints(&vec![(s("B.cs"), 2), (s("C.cs"), 3)]).is_empty());
    assert!(d.retry(RETRY_MS - 1).is_empty());
    assert!(matches!(d.retry(RETRY_MS)[..], [Act::ArmLoaded(1)]));
}

#[test]
fn targets_are_switched() {
    let (mut d, _) = attached(&[]);
    let t = || Target { ip: s("1.2.3.4"), port: 5, label: s("L") };
    assert!(matches!(&d.command(Cmd::SelectTarget(t()))[..], [Act::Leave(x)] if x.ip == "1.2.3.4"));
    assert!(wait_for_target(Cmd::Pause).is_none());
    assert_eq!(wait_for_target(Cmd::SelectTarget(t())).unwrap().port, 5);
    let e = with_address(editor_target(), Some((s("127.0.0.1"), 56000)));
    assert_eq!((e.label.as_str(), e.ip.as_str(), e.port), ("Editor", "127.0.0.1", 56000));
    assert_eq!(with_address(editor_target(), None).ip, "127.0.0.1");
    assert_eq!(with_address(t(), Some((s("x"), 1))).ip, "1.2.3.4");
    assert_eq!(seed(vec![], Some(vec![(s("A"), 1)])), vec![(s("A"), 1)]);
    assert_eq!(seed(vec![(s("B"), 2)], Some(vec![(s("A"), 1)])), vec![(s("B"), 2)]);
    assert!(seed(vec![], None).is_empty());
    assert!(must_resume(true, false) && !must_resume(true, true) && !must_resume(false, false));
}

#[test]
fn the_log_keeps_its_last_lines() {
    let mut u = UiState::new();
    for i in 0..LOG_CAP + 3 {
        u.push_log(&i.to_string());
    }
    assert_eq!(u.log.len(), LOG_CAP);
    assert_eq!(u.log[LOG_CAP - 1], (LOG_CAP + 2).to_string());
    u.connecting("Editor");
    u.connect_failed("Editor", "refused");
    assert!(!u.attached && !u.status.is_empty());
    u.set_children(1, vec![]);
    u.set_players(vec![]);
    let (mut d, _) = attached(&[]);
    d.disconnected("Editor");
    assert!(!d.ui.attached);
}

#[test]
fn rows_name_threads_and_frames() {
    let t = thread_row(7, "", "M", "/p/A.cs", 3);
    assert_eq!((t.name.as_str(), t.location.as_str()), ("Thread 7", "M  A.cs:3"));
    assert_eq!(thread_row(7, "Main", "M", "", 0).name, "Main");
    assert_eq!(stack_row(2, "M", "/p/A.cs", 3), "#2 M  A.cs:3");
    assert_eq!(stack_row(0, "M", "/p/A.cs", 0), "#0 M  ");
    assert_eq!(armed_note("M", 0x1af), "breakpoint: M+0x1af");
    assert_eq!(armed_note("M", 0), "breakpoint: M+0x0");
}

// --- What a stop shows ----------------------------------------------------------------------------

fn frame(id: u32, method: &str, place: Option<(&str, i32)>) -> FrameInfo {
    FrameInfo {
        frame: Frame { id, method: id, il_offset: 0 },
        method: s(method),
        place: place.map(|(f, l)| (s(f), l)),
    }
}

#[test]
fn native_threads_are_left_out() {
    let raw = vec![
        RawThread { id: 1, name: s("Main"), frames: vec![frame(1, "N", None), frame(2, "M", Some(("/p/A.cs", 4)))] },
        RawThread { id: 2, name: s(""), frames: vec![frame(3, "X", Some(("/p/A.cs", 0)))] },
        RawThread { id: 3, name: s(""), frames: vec![frame(4, "W", Some(("/p/B.cs", 9)))] },
    ];
    let rows: Vec<(u32, String, String)> =
        collect_threads(&raw).into_iter().map(|t| (t.id, t.name, t.location)).collect();
    assert_eq!(rows, vec![(1, s("Main"), s("M  A.cs:4")), (3, s("Thread 3"), s("W  B.cs:9"))]);
}

#[test]
fn stacks_are_capped() {
    let vars = || FrameVars { locals: vec![var("x", None)], members: vec![], this_label: s("Foo") };
    let frames: Vec<FrameInfo> = (0..25).map(|i| frame(i, "M", Some(("/p/A.cs", 7)))).collect();
    let stop = dump(&frames, vars());
    assert_eq!((stop.stack.len(), stop.frames.len()), (20, 25));
    assert_eq!(stop.stack[19], "#19 M  A.cs:7");
    assert_eq!((stop.file.as_str(), stop.line, stop.this_label.as_str()), ("/p/A.cs", 7, "Foo"));
    let nowhere = dump(&vec![frame(0, "M", None)], vars());
    assert_eq!((nowhere.stack[0].as_str(), nowhere.file.as_str(), nowhere.line), ("#0 M  ", "", 0));
    let empty = dump(&vec![], vars());
    assert!(empty.stack.is_empty() && empty.locals.is_empty() && empty.this_label.is_empty());
}

#[test]
fn inherited_fields_follow_derived_ones() {
    let level = |name: &str| Level {
        fields: vec![Field { id: 1, name: s(name), is_static: false }, Field { id: 2, name: s("S"), is_static: true }],
        values: vec![RtValue::Plain(s("1"))],
    };
    let rows = fetch_object_fields(&vec![level("derived"), level("base")]);
    let names: Vec<&str> = rows.iter().map(|v| v.name.as_str()).collect();
    assert_eq!(names, vec!["derived", "base"]);
    let deep: Vec<Level> = (0..40).map(|i| level(&i.to_string())).collect();
    assert_eq!(fetch_object_fields(&deep).len(), 32);
    let ls = vec![
        Local { name: s("a"), live_start: 0, live_end: 4 },
        Local { name: s("b"), live_start: 4, live_end: 8 },
    ];
    let rows = frame_locals(&ls, 4, &vec![RtValue::Plain(s("2"))]);
    assert_eq!((rows.len(), rows[0].name.as_str()), (1, "b"));
}

// --- Discovery ---------------------------------------------------------------------------------

fn player(guid: u32, label: &str) -> Player {
    Player { guid, ip: s("10.0.0.1"), port: 55000, project: s("Game"), label: s(label) }
}

#[test]
fn players_are_listed_while_heard() {
    let mut d = Discovery::new();
    assert!(d.tick(0).is_none());
    d.heard(player(2, "b"), 0);
    d.heard(player(1, "a"), 0);
    let names = |p: Vec<Player>| p.iter().map(|p| p.label.clone()).collect::<Vec<_>>();
    assert_eq!(names(d.tick(10).unwrap()), vec!["a", "b"]);
    assert!(d.tick(20).is_none());
    d.heard(player(1, "a"), EXPIRY_MS);
    assert_eq!(names(d.tick(EXPIRY_MS + 1).unwrap()), vec!["a"]);
    assert!(d.tick(2 * EXPIRY_MS + 1).unwrap().is_empty());
}

#[test]
fn sources_are_found() {
    for dir in [".git", "Library", "Temp", "Logs", "obj"] {
        assert!(skips_dir(dir));
    }
    assert!(!skips_dir("Assets"));
    assert!(is_source(Some("cs")) && !is_source(Some("js")) && !is_source(None));
    let sorted = sort_files(vec![(s("/b"), s("b")), (s("/a"), s("a")), (s("/B"), s("B"))]);
    let paths: Vec<&str> = sorted.iter().map(|f| f.0.as_str()).collect();
    assert_eq!(paths, vec!["/B", "/a", "/b"]);
}

#[test]
fn the_instance_file_is_read() {
    let text = r#"{"app_contents_path":"/Applications/Unity","process_id":4711}"#;
    assert_eq!(contents_path(text), Some(s("/Applications/Unity")));
    assert_eq!(process_id(text), Some(4711));
    assert_eq!(process_id("{}"), None);
    assert_eq!(contents_path("broken"), None);
}

// --- Window --------------------------------------------------------------------------------------

#[test]
fn the_toolbar_tells_the_state() {
    let mut u = UiState::new();
    assert_eq!(status(&u), (s("Connecting…"), Tone::Waiting));
    u.status = s("refused");
    assert_eq!(status(&u), (s("refused"), Tone::Failed));
    assert_eq!(status_tip(&u), None);
    u.attached = true;
    assert_eq!(status(&u), (s("Running"), Tone::Running));
    assert_eq!(status_tip(&u), Some(s("attached")));
    u.version = s("v");
    u.stopped = true;
    assert_eq!(status(&u), (s("Paused"), Tone::Paused));
    assert_eq!(status_tip(&u), Some(s("attached — v")));
    assert_eq!(location(&u), None);
    u.cur_file = s("/p/A.cs");
    u.cur_line = 3;
    assert_eq!(location(&u), Some(s("A.cs:3")));
    assert_eq!(place_row("A.cs", -1), "A.cs:-1");
    assert_eq!(target_label(&u), "Editor");
    assert_eq!(player_row(&u, &player(1, "p")), (s("Game · p (10.0.0.1)"), false));
    u.cur_target = s("p (10.0.0.1)");
    let bare = Player { project: String::new(), ..player(1, "p") };
    assert_eq!(player_row(&u, &bare), (s("p (10.0.0.1)"), true));
    assert_eq!(thread_text("n", "l"), "n  ·  l");
    assert!(!shows_threads(&u));
}

fn idle() -> Input {
    let none = Controls { resume: false, over: false, into: false, out: false, pause: false };
    Input {
        buttons: none,
        keys: none,
        editor: false,
        player: None,
        thread: None,
        frame: None,
        breakpoint: None,
        file: None,
        pressed: None,
    }
}

fn live(stopped: bool) -> UiState {
    let mut u = UiState::new();
    u.attached = true;
    u.stopped = stopped;
    u.stack = vec![s("#0"), s("#1")];
    u.threads = vec![
        ThreadInfo { id: 1, name: s("a"), location: s("") },
        ThreadInfo { id: 2, name: s("b"), location: s("") },
    ];
    u.cur_thread = 1;
    u.players = vec![player(1, "p")];
    u.all_bps = vec![(s("A.cs"), 4), (s("Gone.cs"), 5)];
    u
}

#[test]
fn clicks_become_commands() {
    let files = vec![(s("/p/A.cs"), s("A.cs"))];
    let u = live(true);
    let all = Controls { resume: true, over: true, into: true, out: true, pause: true };
    let o = build_ui(&u, &files, Input { buttons: all, ..idle() }, Focus::Nothing);
    assert!(matches!(o.cmds[..], [Cmd::Resume, Cmd::StepOver, Cmd::StepInto, Cmd::StepOut]));
    let o = build_ui(&live(false), &files, Input { keys: all, ..idle() }, Focus::Nothing);
    assert!(matches!(o.cmds[..], [Cmd::Pause]));
    let o = build_ui(&u, &files, Input { editor: true, player: Some(0), ..idle() }, Focus::Nothing);
    assert_eq!(o.cmds.len(), 2);
    assert!(matches!(&o.cmds[1], Cmd::SelectTarget(t) if t.label == "p (10.0.0.1)" && t.port == 55000));
    let o = build_ui(&u, &files, Input { thread: Some(1), frame: Some(1), ..idle() }, Focus::Tree);
    assert!(matches!(o.cmds[..], [Cmd::SelectThread(2), Cmd::SelectFrame(1)]));
    assert_eq!(o.focus, Focus::Tree);
    let o = build_ui(&u, &files, Input { thread: Some(0), frame: Some(0), ..idle() }, Focus::Tree);
    assert!(o.cmds.is_empty());
    let o = build_ui(&u, &files, Input { breakpoint: Some(0), pressed: Some(Focus::Source), ..idle() }, Focus::Tree);
    assert_eq!((o.new_view, o.goto, o.focus), (Some(s("/p/A.cs")), Some(4), Focus::Source));
    let o = build_ui(&u, &files, Input { breakpoint: Some(1), file: Some(s("/f")), ..idle() }, Focus::Tree);
    assert_eq!((o.new_view, o.goto), (Some(s("/f")), None));
}

#[test]
fn stops_are_followed_and_browsing_kept() {
    let mut f = Follow::new();
    let mut u = live(true);
    u.generation = 1;
    u.cur_line = 8;
    assert_eq!(f.begin(&u, "/p/A.cs"), Some(8));
    assert_eq!(f.view_file, "/p/A.cs");
    assert_eq!(f.begin(&u, "/p/A.cs"), None);
    assert!(matches!(f.chosen(Some(s("/p/B.cs")), Some(2)), Some(Cmd::View(v)) if v == "/p/B.cs"));
    assert_eq!(f.begin(&u, "/p/A.cs"), Some(2));
    assert_eq!(f.view_file, "/p/B.cs");
    assert!(f.chosen(Some(s("/p/B.cs")), None).is_none());
    assert!(f.chosen(None, Some(1)).is_none());
    u.generation = 2;
    assert_eq!(f.begin(&u, "/p/A.cs"), Some(8));
    assert_eq!(f.view_file, "/p/A.cs");
}

#[test]
fn the_source_pane_marks_lines() {
    let mut u = live(true);
    u.cur_file = s("/ci/A.cs");
    u.cur_line = 3;
    assert_eq!(exec_line(&u, "/p/A.cs"), Some(2));
    assert_eq!(exec_line(&u, "/p/B.cs"), None);
    u.stopped = false;
    assert_eq!(exec_line(&u, "/p/A.cs"), None);
    assert_eq!(gutter_lines(&vec![1, 0, -4, 7]), vec![0, 6]);
    assert_eq!((scroll_row(Some(1)), scroll_row(Some(0)), scroll_row(None)), (Some(0), None, None));
    assert!(matches!(gutter_press(0, true, 4), Some(Cmd::ToggleBp(5))));
    assert!(gutter_press(1, true, 4).is_none() && gutter_press(0, false, 4).is_none());
}

#[test]
fn the_source_editor_follows_the_session() {
    let mut ed = source_editor();
    let mut shown = String::new();
    load_source(&mut ed, &mut shown, "/p/A.cs", "one\ntwo\nthree");
    assert_eq!((shown.as_str(), ed.text().as_str()), ("/p/A.cs", "one\ntwo\nthree"));
    load_source(&mut ed, &mut shown, "/p/A.cs", "other");
    assert_eq!(ed.text(), "one\ntwo\nthree");
    ed.insert("typed");
    assert_eq!(ed.text(), "one\ntwo\nthree"); // read-only
    let mut u = live(true);
    u.cur_file = s("/ci/A.cs");
    u.cur_line = 2;
    u.bp_lines = vec![3, 0, 1];
    sync_editor(&mut ed, &u, "/p/A.cs", Some(2));
    assert_eq!(ed.breakpoints(), vec![0, 2]);
    assert_eq!(ed.edit.gutter.exec_line, Some(1));
    assert_eq!(ed.caret_offset(), 4);
    sync_editor(&mut ed, &u, "/p/B.cs", None);
    assert_eq!(ed.edit.gutter.exec_line, None);
    assert_eq!(ed.caret_offset(), 4);
}

#[test]
fn hovering_shows_values() {
    let mut u = live(true);
    u.locals = vec![Var { name: s("foo"), value: s("42"), expand: None }];
    assert_eq!(compute_hover(&u, "x = foo;", 5), Some(s("foo = 42")));
    assert_eq!(compute_hover(&u, "x = bar;", 5), None);
    assert_eq!(compute_hover(&u, "x = foo;", 99), None);
    u.stopped = false;
    assert_eq!(compute_hover(&u, "x = foo;", 5), None);
}

#[test]
fn keys_have_the_editors_names() {
    for (key, alt, cmd, name) in [
        (NavKey::Left, false, false, "LeftArrow"), (NavKey::Left, true, true, "WordLeft"), (NavKey::Left, false, true, "Home"),
        (NavKey::Right, true, false, "WordRight"), (NavKey::Right, false, true, "End"), (NavKey::Up, false, true, "DocStart"),
        (NavKey::Down, false, true, "DocEnd"), (NavKey::Up, true, false, "UpArrow"), (NavKey::Down, false, false, "DownArrow"),
        (NavKey::Home, false, false, "Home"), (NavKey::End, false, false, "End"), (NavKey::PageUp, false, false, "PageUp"),
        (NavKey::PageDown, false, false, "PageDown"),
    ] {
        assert_eq!(map_editor_key(key, alt, false, cmd, false), Some(s(name)), "{key:?}");
    }
    assert_eq!(map_editor_key(NavKey::Left, false, true, false, false), Some(s("WordLeft")));
    assert_eq!(map_editor_key(NavKey::Up, false, false, false, true), Some(s("DocStart")));
    assert_eq!(map_editor_key(NavKey::Other, false, false, false, false), None);
}

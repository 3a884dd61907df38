use std::hash::{DefaultHasher, Hash, Hasher};

use unterm::agentview::{
    clean, first_user_line, push_note, push_notice, push_plan, start_dir, AgentView, Down, Flags, Hit, Keyed, Sent, Tick,
};
use unterm::browser::{BrowserView, Click, Icon, Session};
use unterm::control::{Action, Driver};
use unterm::conv::Conv;
use unterm::editorview::{trimmed_text, EditorView};
use unterm::fonts::{is_font_path, normalize_locale, pick_family, resolve_family, Face, Faces, FontChoice};
use unterm::input::hunks::{Hunk, ShownHunk};
use unterm::input::doc::Cursor;
use unterm::input::keys::{KeyStep, Motion};
use unterm::names::Names;
use unterm::panel::{
    cursor_to_offset, hash_str, parse_blocks, table_columns, Folds, PanelRenderer, Role, Selection, TextPos,
};
use unterm::text::{
    chars, comes_before, is_digit, is_whitespace, lines_of, parse_i64, show_i64, show_u64, sorted_unique, split_str,
    str_ends_with, str_starts_with, to_ascii_lower, trim_end_str, trim_start_str, trim_str,
};
use unterm::utf8::{byte_to_col, clamp_boundary, col_to_byte, width_of};

// --- Agent view ------------------------------------------------------------------

const READY: &str = r#"{"type":"control_response","response":{"request_id":"unterm-init-1","subtype":"success"}}"#;
const ASK: &str = r#"{"type":"control_request","request_id":"r","request":{"subtype":"can_use_tool","tool_name":"Bash","input":{"command":"ls"}}}"#;

fn view(next: &mut u64) -> AgentView {
    let (mut d, _) = Driver::new(Conv::new(), false, 1);
    *next = 2;
    d.handle_line(READY, 0, next);
    AgentView::new(Some(d), String::new(), None)
}

fn tell(v: &mut AgentView, next: &mut u64, line: &str) {
    v.driver.as_mut().unwrap().handle_line(line, 0, next);
}

fn hit(row: Option<(usize, bool)>, button: i32) -> Hit {
    Hit { row, button, tool: None, text: None }
}

fn tick(serial: u64, now: u64) -> Tick {
    Tick { serial, now, dots: 0, title: String::new() }
}

#[test]
fn a_failed_start_is_reported() {
    let mut v = AgentView::new(None, "no engine".to_string(), Some("id".to_string()));
    assert_eq!(v.status(), "spawn failed: no engine");
    assert_eq!(v.compose_in(None, 2, 0), "spawn failed: no engine");
    assert_eq!(v.effective_id(), "id");
    assert!(!v.is_thinking());
    let mut next = 1;
    v.input.insert("hello");
    assert!(matches!(v.send(0, &mut next), Sent::Prompt(acts) if acts.is_empty()));
    assert_eq!(v.input.text(), "");
}

#[test]
fn polls_report_changes_once() {
    let mut next = 0;
    let mut v = view(&mut next);
    let flags = v.poll(&tick(1, 60));
    assert!(flags.dirty && flags.meta && !flags.animating && !flags.host_cmd);
    let flags = v.poll(&tick(1, 60));
    assert_eq!(flags.bits(), 0);
    assert!(v.panel.buttons.is_empty());
    tell(&mut v, &mut next, ASK);
    let flags = v.poll(&tick(1, 60));
    assert!(flags.dirty);
    assert_eq!(v.panel.buttons, vec!["Allow", "Always allow", "Deny", "Always deny"]);
    assert_eq!(v.take_attention(), 2);
    assert_eq!(v.take_attention(), 0);
}

#[test]
fn separators_repaint_when_the_minute_turns() {
    let mut next = 0;
    let mut c = Conv::new();
    c.push_user("one", 1000);
    c.append_role('a', "two", 1119);
    let (d, _) = Driver::new(c, false, 1);
    let mut v = AgentView::new(Some(d), String::new(), None);
    v.driver.as_mut().unwrap().handle_line(READY, 1200, &mut next);
    assert!(v.poll(&tick(1, 1200)).dirty);
    assert!(!v.poll(&tick(1, 1260)).dirty);
    assert_eq!(v.compose_in(None, 0, 1260), "u\u{1f}one\u{1e}a\u{1f}two");
    v.input.insert("three");
    assert!(matches!(v.send(1300, &mut next), Sent::Prompt(acts) if acts.len() == 1));
    tell(&mut v, &mut next, r#"{"type":"result"}"#);
    assert!(v.poll(&tick(2, 1300)).dirty);
    assert!(!v.poll(&tick(2, 1301)).dirty);
    assert!(v.poll(&tick(2, 1320)).dirty);
    assert!(!v.poll(&tick(2, 1321)).dirty);
    let text = v.compose_in(None, 0, 1600);
    assert_eq!(text, "u\u{1f}one\u{1e}a\u{1f}two\u{1e}s1300\u{1f}5 minutes ago\u{1e}u\u{1f}three");
    let blocks = parse_blocks(&text);
    assert_eq!((blocks[2].role, blocks[2].text.as_str(), blocks[2].stamp), (Role::Separator, "5 minutes ago", 1300));
    assert_eq!(v.panel_stamp_at(&blocks, Some(2)), 1300);
    for hit in [None, Some(1), Some(3), Some(9)] {
        assert_eq!(v.panel_stamp_at(&blocks, hit), 0);
    }
    // The title is of the prompts, not of the separators.
    assert_eq!(v.title(), "one");
    let again = parse_blocks(&v.compose(0, 1600));
    assert_eq!((again.len(), again[2].role, again[2].stamp), (4, Role::Separator, 1300));
}

#[test]
fn an_empty_send_resumes_the_queue() {
    let mut next = 0;
    let mut v = view(&mut next);
    assert!(matches!(v.send(0, &mut next), Sent::Nothing));
    for text in ["one", "two", "three"] {
        v.input.insert(text);
        v.send(0, &mut next);
    }
    assert_eq!(v.driver.as_ref().unwrap().transcript_in(None, 0), "u\u{1f}one\u{1e}q\u{1f}two\u{1e}q\u{1f}three");
    assert!(matches!(v.input_key("Return", false, 0, &mut next), Keyed::Sent(Sent::Prompt(acts)) if acts.len() == 1));
    assert_eq!(v.driver.as_ref().unwrap().transcript_in(None, 0), "u\u{1f}one\u{1e}u\u{1f}two\u{1e}q\u{1f}three");
    assert_eq!(v.status(), "thinking");
    assert!(matches!(v.send(0, &mut next), Sent::Prompt(acts) if acts.len() == 1));
    assert!(matches!(v.send(0, &mut next), Sent::Nothing));
    let mut none = AgentView::new(None, String::new(), None);
    assert!(matches!(none.send(0, &mut next), Sent::Nothing));
}

#[test]
fn finished_turns_draw_attention() {
    let mut next = 0;
    let mut v = view(&mut next);
    v.input.insert("go");
    assert!(matches!(v.send(0, &mut next), Sent::Prompt(acts) if acts.len() == 1));
    let flags = v.poll(&Tick { dots: 1, ..tick(1, 60) });
    assert!(flags.animating && flags.dirty);
    assert!(!v.poll(&Tick { dots: 1, ..tick(1, 60) }).dirty);
    assert!(v.poll(&Tick { dots: 2, ..tick(1, 60) }).dirty);
    assert_eq!(v.button(), 2);
    assert_eq!(v.compose_in(None, 3, 0), "u\u{1f}go\u{1e}t\u{1f}Thinking...");
    tell(&mut v, &mut next, r#"{"type":"result"}"#);
    v.poll(&tick(2, 60));
    assert_eq!(v.take_attention(), 1);
    assert_eq!(v.button(), 1);
}

#[test]
fn titles_are_read_at_most_every_three_seconds() {
    let mut next = 0;
    let mut v = view(&mut next);
    assert!(!v.title_due(1, 100)); // no session yet
    tell(&mut v, &mut next, r#"{"type":"system","subtype":"init","session_id":"s"}"#);
    assert!(v.title_due(1, 100));
    v.poll(&Tick { title: "Title".to_string(), ..tick(1, 100) });
    assert_eq!(v.title(), "Title");
    assert!(!v.title_due(1, 200));
    assert!(!v.title_due(2, 102));
    assert!(v.title_due(2, 103));
}

#[test]
fn flags_have_their_bits() {
    let f = Flags { dirty: true, animating: false, host_cmd: true, meta: false };
    assert_eq!(f.bits(), 5);
    assert_eq!(Flags { dirty: false, animating: true, host_cmd: false, meta: true }.bits(), 10);
}

#[test]
fn pending_prompts_are_shown() {
    let mut next = 0;
    let mut v = view(&mut next);
    tell(&mut v, &mut next, ASK);
    assert_eq!(v.compose_in(None, 0, 0), "\u{1e}n\u{1f}Permission requested: Bash\nls");
    v.driver.as_mut().unwrap().clear_pending();
    tell(
        &mut v,
        &mut next,
        r#"{"type":"control_request","request_id":"r","request":{"subtype":"can_use_tool","tool_name":"ExitPlanMode","input":{"plan":"P"}}}"#,
    );
    assert_eq!(v.compose_in(None, 0, 0), "\u{1e}p\u{1f}P\u{1e}n\u{1f}Ready to code?");
    let (mut d, _) = Driver::new(Conv::new(), false, 1);
    let starting = AgentView::new(Some(Driver::new(Conv::new(), false, 1).0), String::new(), None);
    assert_eq!(starting.compose_in(None, 2, 0), "\u{1e}t\u{1f}Starting..");
    d.handle_line(
        r#"{"type":"control_response","response":{"request_id":"unterm-init-1","subtype":"error"}}"#,
        0,
        &mut next,
    );
    let failed = AgentView::new(Some(d), String::new(), None);
    assert_eq!(
        failed.compose_in(None, 0, 0),
        "\u{1e}t\u{1f}Not signed in — type /login to authenticate, then press Enter."
    );
}

#[test]
fn login_goes_to_the_host() {
    let mut next = 0;
    let mut v = view(&mut next);
    v.input.insert(" /login \n");
    assert!(matches!(v.send(0, &mut next), Sent::HostCommand));
    assert_eq!(v.input.text(), "");
    assert!(v.poll(&tick(1, 60)).host_cmd);
    assert_eq!(v.take_host_command(), "/login");
    assert_eq!(v.take_host_command(), "");
    assert!(matches!(v.send(0, &mut next), Sent::Nothing));
    assert_eq!(v.driver.as_ref().unwrap().transcript_in(None, 0), "");
}

#[test]
fn escape_denies_permissions_only() {
    let mut next = 0;
    let mut v = view(&mut next);
    tell(&mut v, &mut next, ASK);
    v.poll(&tick(1, 60));
    assert!(v.permission_pending());
    let acts = v.escape(&mut next);
    assert_eq!(acts.len(), 1);
    assert!(v.driver.as_ref().unwrap().pending_view().is_none());
    assert!(!v.permission_pending());
    // Without a prompt it interrupts.
    let acts = v.escape(&mut next);
    match &acts[0] {
        Action::Write(j) => assert_eq!(j.get("request").unwrap().text_at("subtype"), "interrupt"),
        Action::CallTool { .. } => panic!("a call"),
    }
    assert_eq!(v.interrupt(&mut next).len(), 1);
}

#[test]
fn return_allows_or_sends() {
    let mut next = 0;
    let mut v = view(&mut next);
    tell(&mut v, &mut next, ASK);
    v.poll(&tick(1, 60));
    assert!(matches!(v.input_key("Return", false, 0, &mut next), Keyed::Answered(acts) if acts.len() == 1));
    tell(&mut v, &mut next, ASK);
    v.poll(&tick(1, 60));
    v.input.insert("typed");
    assert!(matches!(v.input_key("Return", false, 0, &mut next), Keyed::Sent(Sent::Prompt(_))));
    assert!(v.permission_pending());
    assert!(matches!(v.input_key("Return", true, 0, &mut next), Keyed::Edit(KeyStep::Done)));
    assert_eq!(v.input.text(), "\n");
    assert!(matches!(v.input_key("UpArrow", false, 0, &mut next), Keyed::Edit(KeyStep::Move(Motion::Up))));
}

#[test]
fn the_button_stops_or_sends() {
    let mut next = 0;
    let mut v = view(&mut next);
    v.input.insert("go");
    assert!(matches!(v.action(0, &mut next), Sent::Prompt(acts) if acts.len() == 1));
    v.input.insert("more");
    let stopped = v.action(0, &mut next);
    assert!(matches!(stopped, Sent::Prompt(acts) if acts.len() == 1));
    assert_eq!(v.input.text(), "more");
}

#[test]
fn buttons_answer_prompts() {
    let mut next = 0;
    let mut v = view(&mut next);
    assert!(matches!(v.panel_down(hit(None, 0), &mut next), Down::Transcript));
    tell(&mut v, &mut next, ASK);
    v.poll(&tick(1, 60));
    assert!(matches!(v.panel_down(hit(None, -1), &mut next), Down::Transcript));
    assert!(matches!(v.panel_down(hit(None, 9), &mut next), Down::Transcript));
    assert!(matches!(v.panel_down(hit(None, 2), &mut next), Down::Answered(acts) if acts.len() == 1));
    assert!(v.respond_pending("allow_once", &mut next).is_empty());
}

#[test]
fn the_transcript_takes_other_clicks() {
    let mut next = 0;
    let mut v = view(&mut next);
    v.input_insert("draft");
    v.input_select_all();
    let at = |offset| Some(TextPos { block: 0, offset });
    v.panel.selection.laid = vec!["hello".to_string()];
    v.panel_down(Hit { text: at(1), ..hit(None, -1) }, &mut next);
    assert_eq!(v.input_copy(), ""); // the composer's selection is dropped
    v.panel_drag(at(4));
    assert!(v.panel_has_selection());
    assert_eq!(v.panel_selected_text(), "ell");
    v.panel_down(Hit { tool: Some(7), ..hit(None, -1) }, &mut next);
    assert!(!v.panel_has_selection());
    v.panel_select_all();
    assert_eq!(v.panel_selected_text(), "hello");
    v.input_insert("x");
    assert!(!v.panel_has_selection());
    v.panel_select_all();
    v.panel_select_clear();
    assert!(!v.panel_has_selection());
    v.panel_select_all();
    assert!(v.input_down(false, Some(Cursor { line: 0, col: 0 }), 0, 0, &mut next).is_none());
    assert!(!v.panel_has_selection());
    v.input_drag(Some(Cursor { line: 0, col: 2 }));
    assert_eq!(v.input_copy(), "dr");
    assert!(matches!(v.input_down(true, None, 0, 0, &mut next), Some(Sent::Prompt(_))));
    v.set_browsing(true);
    v.panel_drag(at(4));
    assert!(!v.panel_has_selection());
}

#[test]
fn the_composer_is_edited_through_the_view() {
    let mut next = 0;
    let mut v = view(&mut next);
    v.input_insert("/co");
    assert_eq!(v.input_slash_prefix(), "/co");
    v.input_complete(3, "/compact");
    assert_eq!(v.input_text(), "/compact");
    assert!(v.input_can_undo() && !v.input_can_redo());
    v.input_undo();
    assert!(v.input_can_redo());
    assert_eq!(v.input_text(), "/co");
    v.input_redo();
    v.input_select_all();
    assert_eq!(v.input_copy(), "/compact");
    assert_eq!(v.input_cut(), "/compact");
    assert_eq!(v.input_cut(), "");
    v.input_set_preedit("か");
    assert_eq!(v.input_text(), "か");
    v.input_set_preedit("");
    assert_eq!(v.input_text(), "");
    v.input_insert("a\0b");
    assert_eq!(v.input_text(), "ab");
}

#[test]
fn session_controls_reach_the_session() {
    let mut next = 0;
    let mut v = view(&mut next);
    assert_eq!(v.set_permission_mode("plan", &mut next).len(), 1);
    assert_eq!(v.permission_mode(), "plan");
    assert_eq!(v.set_model("m", &mut next).len(), 1);
    assert_eq!(v.model(), "m");
    for text in ["one", "two", "three"] {
        v.input_insert(text);
        v.send(0, &mut next);
    }
    assert_eq!(v.queue_len(), 2);
    v.cancel_queued(0);
    assert_eq!(v.queue_len(), 1);
    assert_eq!(v.session_id(), "");
    let mut none = AgentView::new(None, String::new(), None);
    assert!(none.set_permission_mode("plan", &mut next).is_empty());
    assert_eq!((none.permission_mode(), none.model(), none.queue_len()), (String::new(), String::new(), 0));
}

#[test]
fn the_browser_is_driven_through_the_view() {
    let mut next = 0;
    let mut v = view(&mut next);
    assert!(!v.browsing() && !v.browse_hover(Some((0, false))));
    assert_eq!(v.browse_archived_count(), 0);
    v.set_browsing(true);
    assert!(v.browsing());
    let b = v.browser.as_mut().unwrap();
    b.rows_came(vec![session("a", "A", false), session("b", "B", true)]);
    b.layout();
    assert_eq!(v.browse_archived_count(), 1);
    assert!(v.browse_hover(Some((0, false))));
    assert!(!v.browse_hover(Some((0, false))));
    v.browse_toggle_archived();
    assert!(v.browser.as_ref().unwrap().show_archived);
}

#[test]
fn drafts_survive_browsing() {
    let mut next = 0;
    let mut v = view(&mut next);
    v.input.insert("draft\ntext");
    v.set_browsing(true);
    assert_eq!(v.input.text(), "");
    v.input.insert(" query ");
    assert_eq!(v.search_query(), "query");
    assert!(v.poll(&tick(9, 60)).dirty);
    assert!(!v.poll(&tick(9, 60)).dirty);
    v.set_browsing(false);
    assert_eq!(v.input.text(), "draft\ntext");
}

#[test]
fn picked_sessions_go_to_the_host() {
    let mut next = 0;
    let mut v = view(&mut next);
    v.set_browsing(true);
    assert!(matches!(v.input_key("Return", false, 0, &mut next), Keyed::Nothing));
    let b = v.browser.as_mut().unwrap();
    b.rows_came(vec![session("a", "A", false)]);
    b.layout();
    assert!(matches!(v.input_key("Return", false, 0, &mut next), Keyed::Opened(id) if id == "a"));
    assert_eq!(v.take_host_command(), "resume\u{1f}a\u{1f}A");
    assert!(matches!(v.panel_down(hit(Some((0, false)), 0), &mut next), Down::Browser(Click::Resume(id, _)) if id == "a"));
    assert_eq!(v.take_host_command(), "resume\u{1f}a\u{1f}A");
    assert!(matches!(v.panel_down(hit(Some((0, true)), 0), &mut next), Down::Browser(Click::Toggled(_, true))));
    assert_eq!(v.take_host_command(), "");
}

#[test]
fn notes_are_blocks() {
    let mut t = "x".to_string();
    push_note(&mut t, "a");
    push_notice(&mut t, "b");
    push_plan(&mut t, "c");
    assert_eq!(t, "x\u{1e}t\u{1f}a\u{1e}n\u{1f}b\u{1e}p\u{1f}c");
    assert_eq!(clean("a\0b"), "ab");
    assert_eq!(first_user_line("a\u{1f}x\u{1e}u\u{1f}\n  hello \nmore"), "hello");
    assert_eq!(first_user_line(&format!("u\u{1f}{}", "y".repeat(49))), format!("{}…", "y".repeat(48)));
    assert_eq!(first_user_line(""), "");
    assert_eq!(start_dir(Some("/r".to_string()), true, "/c".to_string()), "/r");
    assert_eq!(start_dir(Some("/r".to_string()), false, "/c".to_string()), "/c");
    assert_eq!(start_dir(None, true, "/c".to_string()), "/c");
}

// --- Session browser ----------------------------------------------------------------

fn session(id: &str, title: &str, archived: bool) -> Session {
    Session { id: id.to_string(), title: title.to_string(), archived, updated: 0, snippet: String::new() }
}

fn browser() -> BrowserView {
    let mut b = BrowserView::new();
    b.rows_came(vec![session("a", "A", false), session("b", "", true), session("c", "C", false)]);
    b.layout();
    b
}

#[test]
fn archived_sessions_are_hidden_until_asked_for() {
    let mut b = browser();
    assert_eq!(b.visible, vec![0, 2]);
    assert_eq!(b.archived_count(), 1);
    b.toggle_show_archived();
    b.layout();
    assert_eq!(b.visible, vec![0, 1, 2]);
    assert_eq!(b.row(1, 0).title, "(untitled)");
    assert_eq!(b.row(1, 0).icon, Icon::Archived);
    assert_eq!(b.row(0, 0).icon, Icon::Hidden);
}

#[test]
fn the_icon_archives_and_the_row_opens() {
    let mut b = browser();
    assert!(matches!(b.click(Some((1, true))), Click::Toggled(id, true) if id == "c"));
    assert_eq!(b.row(1, 0).icon, Icon::Pointed);
    assert!(matches!(b.click(Some((1, true))), Click::Toggled(id, false) if id == "c"));
    assert!(matches!(b.click(Some((0, false))), Click::Resume(id, title) if id == "a" && title == "A"));
    assert_eq!(b.row(0, 0).icon, Icon::Offered);
    assert!(matches!(b.click(None), Click::Nothing));
}

#[test]
fn sessions_open_elsewhere_are_disabled() {
    let mut b = browser();
    b.set_current("c");
    assert!(b.busy_due(5));
    b.set_busy(5, &vec!["c".to_string(), "a".to_string(), "c".to_string()]);
    assert!(!b.busy_due(5));
    assert_eq!(b.busy, vec!["a", "c"]);
    let look = b.row(0, 0);
    assert!(look.busy && !look.current);
    let look = b.row(1, 0);
    assert!(!look.busy && look.current);
    assert!(matches!(b.click(Some((0, false))), Click::Nothing));
    assert!(!b.hover(Some((0, false))));
    assert!(b.hover(Some((1, false))));
    assert!(b.row(1, 0).hovered);
    assert_eq!(b.first(), Some(("c".to_string(), "C".to_string())));
    b.set_current("");
    assert_eq!(b.first(), None);
}

#[test]
fn queries_are_issued_once() {
    let mut b = BrowserView::new();
    assert_eq!(b.status_line(), Some("No sessions."));
    assert!(b.query_due("", 1));
    b.query_sent("", 1, 7);
    assert_eq!(b.status_line(), Some("Loading\u{2026}"));
    assert!(!b.query_due("", 1) && b.query_due("x", 1) && b.query_due("", 2));
    assert_eq!(b.awaited(), Some(7));
    b.rows_came(vec![]);
    b.layout();
    assert_eq!(b.awaited(), None);
    assert_eq!(b.status_line(), Some("No sessions."));
    b.query_sent("x", 1, 8);
    b.rows_came(vec![]);
    assert_eq!(b.status_line(), Some("No matches."));
    assert!(b.take_dirty() && !b.take_dirty());
    b.restyle();
    assert!(b.take_dirty());
    assert_eq!(browser().status_line(), None);
}

#[test]
fn rows_show_their_age_and_snippet() {
    let mut b = BrowserView::new();
    b.rows_came(vec![Session { updated: 100, snippet: "one\ntwo".to_string(), ..session("a", "A", false) }]);
    b.layout();
    let look = b.row(0, 100);
    assert_eq!(look.snippet, "one two");
    assert!(look.time.is_some());
    assert_eq!(b.row_in(0, None, 400).time, Some("5 minutes ago".to_string()));
    assert_eq!(b.row_in(0, Some("ja_JP"), 100 + 7 * 86_400).time, Some("1週間前".to_string()));
    assert!(browser().row(0, 100).time.is_none());
    assert!(browser().row_in(0, Some("ja_JP"), 100).time.is_none());
}

// --- Transcript ---------------------------------------------------------------------

#[test]
fn blocks_are_read_back() {
    let mut c = Conv::new();
    c.push_user("hi\nthere", 0);
    c.append_role('a', "yo", 0);
    c.tool_begin("t1", "Bash", "ls", 0);
    c.tool_end("t1", "completed", "out", 0);
    c.push_queued("later", 0);
    let blocks = parse_blocks(&c.serialize_in(None, 0));
    let roles: Vec<Role> = blocks.iter().map(|b| b.role).collect();
    assert_eq!(roles, vec![Role::User, Role::Agent, Role::Tool, Role::Queued]);
    assert_eq!(blocks[0].text, "hi\nthere");
    assert_eq!(blocks[2].text, "✓ Bash");
    assert_eq!(blocks[2].tool_id, Some("t1".to_string()));
    assert_eq!((blocks[2].tool_preview.as_str(), blocks[2].tool_detail.as_str()), ("ls", "ls\nout"));
    let mut odd = Conv::new();
    odd.append_role('a', "x\u{1f}y", 0);
    odd.tool_begin("", "T", "i", 0);
    let blocks = parse_blocks(&odd.serialize_in(None, 0));
    assert_eq!((blocks[0].text.as_str(), blocks[1].tool_id.is_none()), ("x\u{1f}y", true));
    assert!(parse_blocks("").is_empty());
    assert_eq!(parse_blocks("\u{1e}p\u{1f}Plan")[0].role, Role::Plan);
}

#[test]
fn roles_have_their_look() {
    assert_eq!(Role::from_tag('t'), Role::Thought);
    assert_eq!(Role::from_tag('n'), Role::Notice);
    for (r, carded, text, card) in [
        (Role::User, true, 255, 10), (Role::Agent, false, 255, 0), (Role::Thought, false, 150, 0),
        (Role::Tool, true, 205, 6), (Role::Queued, true, 120, 5), (Role::Plan, false, 255, 0),
        (Role::Notice, true, 255, 10), (Role::Separator, false, 120, 0),
    ] {
        assert_eq!((r.carded(), r.text_alpha(), r.card_alpha()), (carded, text, card), "{r:?}");
    }
}

#[test]
fn content_hashes_are_those_of_std() {
    for t in ["", "t1", "日本"] {
        let mut h = DefaultHasher::new();
        t.hash(&mut h);
        assert_eq!(hash_str(t), h.finish());
    }
}

#[test]
fn tools_fold_and_unfold() {
    let mut c = Conv::new();
    c.tool_begin("t1", "Bash", "ls", 0);
    c.tool_begin("t2", "Bare", "", 0);
    let blocks = parse_blocks(&c.serialize_in(None, 0));
    let mut f = Folds::new();
    let v = f.tool_view(&blocks[0]);
    assert_eq!((v.marker, v.pieces.concat().as_str()), (Some("▶"), "▸ Bash  ls"));
    let key = Folds::key_of(&blocks[0]).unwrap();
    assert_eq!(v.key, Some(key));
    f.toggle_tool(key);
    let v = f.tool_view(&blocks[0]);
    assert_eq!((v.marker, v.pieces.concat().as_str()), (Some("▼"), "▸ Bash  ls\nls"));
    f.retain(&blocks);
    assert_eq!(f.tool_view(&blocks[0]).marker, Some("▼"));
    f.retain(&vec![]);
    assert_eq!(f.tool_view(&blocks[0]).marker, Some("▶"));
    assert_eq!(f.tool_view(&blocks[1]).marker, None);
    let mut p = PanelRenderer::new();
    p.toggle_tool(key);
    p.laid_out(&blocks, vec!["shown".to_string()]);
    assert_eq!(p.folds.tool_view(&blocks[0]).marker, Some("▼"));
    p.select_all();
    assert_eq!(p.selected_text(), "shown");
    p.laid_out(&vec![], vec![]);
    assert_eq!(p.folds.tool_view(&blocks[0]).marker, Some("▶"));
    assert_eq!(Folds::key_of(&blocks[1]), None);
}

#[test]
fn text_is_selected_across_blocks() {
    let mut s = Selection::new();
    s.laid = vec!["héllo".to_string(), "mid".to_string(), "end".to_string()];
    assert!(!s.has_selection());
    assert_eq!(s.selected_text(), "");
    s.selection_begin(Some(TextPos { block: 2, offset: 1 }));
    s.selection_update(Some(TextPos { block: 0, offset: 3 }));
    assert!(s.has_selection());
    assert_eq!(s.selected_text(), "llo\nmid\ne");
    s.selection_update(None);
    assert_eq!(s.selected_text(), "llo\nmid\ne");
    s.select_all();
    assert_eq!(s.selected_text(), "héllo\nmid\nend");
    s.selection_begin(None);
    s.selection_clear();
    assert!(!s.has_selection());
    assert!(TextPos { block: 0, offset: 9 }.le(TextPos { block: 1, offset: 0 }));
    assert!(!TextPos { block: 1, offset: 1 }.le(TextPos { block: 1, offset: 0 }));
}

#[test]
fn laid_out_lines_give_offsets() {
    let lines = vec!["ab".to_string(), "é".to_string(), "c".to_string()];
    assert_eq!(cursor_to_offset(&lines, 0, 1), 1);
    assert_eq!(cursor_to_offset(&lines, 1, 0), 3);
    assert_eq!(cursor_to_offset(&lines, 2, 1), 7);
    assert_eq!(table_columns(2, &vec![1, 3, 2]), 3);
    assert_eq!(table_columns(4, &vec![]), 4);
}

// --- Editor --------------------------------------------------------------------------

#[test]
fn the_editor_is_a_code_box() {
    let mut e = EditorView::new();
    assert!(e.edit.gutter.shown);
    e.edit.insert("{");
    assert_eq!(e.edit.text(), "{}");
    assert!(e.set_language(" cs "));
    assert!(!e.set_language("cs"));
    assert!(e.set_language(""));
    e.set_exec_line(3);
    assert_eq!(e.edit.gutter.exec_line, Some(3));
    e.set_exec_line(usize::MAX);
    assert_eq!(e.edit.gutter.exec_line, None);
    assert_eq!(trimmed_text("  "), None);
    assert_eq!(trimmed_text(" x "), Some("x".to_string()));
}

#[test]
fn edits_go_through_the_editor() {
    let mut e = EditorView::new();
    e.set_text("a\nb");
    e.mouse(Some(Cursor { line: 0, col: 0 }), 0);
    e.indent();
    e.toggle_comment();
    assert_eq!(e.text(), "    // a\nb");
    e.undo();
    assert_eq!(e.text(), "    a\nb");
    e.redo();
    e.undo();
    e.goto_line(0);
    e.outdent();
    assert_eq!(e.text(), "a\nb");
    e.goto_line(0);
    e.move_line_down();
    assert_eq!(e.text(), "b\na");
    e.move_line_up();
    e.duplicate_line();
    assert_eq!(e.text(), "a\na\nb");
    e.delete_line();
    assert_eq!(e.text(), "a\nb");
    let serial = e.edit_serial();
    e.select_all();
    assert_eq!(e.copy(), "a\nb");
    assert_eq!(e.cut(), "a\nb");
    assert_ne!(e.edit_serial(), serial);
    e.undo();
    assert_eq!(e.edit_serial(), serial);
    e.goto_line(1);
    assert_eq!(e.caret_offset(), 2);
    e.key("End", false);
    assert_eq!(e.word_prefix(), "b");
    e.complete(1, "bar");
    assert!(e.find("BAR", true, false));
    e.replace_selection("x");
    assert_eq!(e.replace_all("x", "y", true), 1);
    e.add_using("N");
    assert_eq!(e.text(), "using N;\na\ny");
    e.set_preedit("z");
    e.insert("q");
    assert!(!e.text().contains('z'));
    e.set_undo_limit(1);
    e.set_read_only(true);
    e.insert("more");
    assert!(!e.text().contains("more"));
    assert!(!e.can_undo() && !e.can_redo());
    e.set_read_only(false);
    assert!(e.can_undo() && !e.can_redo());
    e.undo();
    assert!(!e.can_undo() && e.can_redo());
}

#[test]
fn gutters_go_through_the_editor() {
    let mut e = EditorView::new();
    e.set_bp_gutter(true);
    e.set_breakpoints(&vec![4, 2]);
    e.toggle_breakpoint(3);
    assert_eq!(e.breakpoints(), vec![2, 3, 4]);
    e.set_text("x");
    e.poll_diff(Some((Some("a".to_string()), Some("a".to_string()), vec![])));
    let hunk = Hunk { old_start: 0, old_len: 1, new_start: 0, new_len: 1 };
    e.edit.show_hunks(vec![ShownHunk { hunk, staged: true, index_new: None }]);
    assert!(e.hover(true, Some(0)) && !e.hover(true, Some(0)));
    assert!(e.hunk_staged(0) && !e.hunk_staged_only(0) && !e.hunk_has_staged(0));
    assert_eq!(e.stage_hunk(0), Some(("a".to_string(), "x".to_string(), (0, 1))));
    assert_eq!(e.unstage_hunk(0), Some(("a".to_string(), "a".to_string(), (0, 1))));
    e.revert_hunk(0);
    assert_eq!(e.text(), "a");
}

#[test]
fn fetched_versions_are_applied_once() {
    let mut e = EditorView::new();
    assert!(!e.poll_diff(None));
    let fetched = || Some((Some("h".to_string()), Some("i".to_string()), vec![]));
    assert!(e.poll_diff(fetched()));
    assert!(!e.poll_diff(fetched()));
    let hunk = Hunk { old_start: 0, old_len: 1, new_start: 0, new_len: 1 };
    e.edit.show_hunks(vec![ShownHunk { hunk, staged: false, index_new: None }]);
    assert_eq!(e.hunk_at(true, Some(0)), 0);
    assert_eq!(e.hunk_at(false, Some(0)), -1);
    assert_eq!(e.hunk_at(true, Some(5)), -1);
}

#[test]
fn completions_are_split_by_line() {
    let mut e = EditorView::new();
    e.set_completions("Ma\nFb", 1);
    assert_eq!(e.edit.popup_rows(9).1, vec![('M', "a".to_string()), ('F', "b".to_string())]);
    e.set_completions("", 0);
    assert!(e.edit.popup_rows(9).1.is_empty());
}

// --- Fonts ---------------------------------------------------------------------------

#[test]
fn locales_reduce_to_what_fallback_matches() {
    for (locale, want) in [
        ("ja-JP", "ja"), ("ko_KR", "ko"), ("EN", "en"), ("zh-Hant-HK", "zh-HK"), ("zh_TW", "zh-TW"),
        ("zh-Hant", "zh-TW"), ("zh-Hans-CN", "zh-CN"), ("zh", "zh-CN"), ("", ""),
    ] {
        assert_eq!(normalize_locale(locale), want, "{locale}");
    }
}

#[test]
fn fonts_are_files_or_families() {
    for (font, path) in [("Menlo", false), ("/a/b", true), ("a\\b", true), ("x.ttf", true), ("x.ttc", true), ("x.otf", true), ("x.woff", false)] {
        assert_eq!(is_font_path(font), path, "{font}");
    }
    assert!(matches!(resolve_family(""), FontChoice::Default));
    assert!(matches!(resolve_family("Menlo"), FontChoice::Family(f) if f == "Menlo"));
    assert!(matches!(resolve_family("/x.ttf"), FontChoice::File(f) if f == "/x.ttf"));
}

#[test]
fn the_plainest_face_is_addressed() {
    let face = |family: Option<&str>, monospaced, upright, weight| Face {
        family: family.map(|f| f.to_string()),
        monospaced,
        upright,
        weight,
    };
    let faces = vec![
        face(Some("Bold"), true, true, 700),
        face(Some("Italic"), true, false, 400),
        face(Some("Regular"), true, true, 400),
        face(Some("Serif"), false, true, 400),
        face(None, true, true, 400),
    ];
    assert_eq!(pick_family(&faces), Some("Regular".to_string()));
    assert_eq!(pick_family(&vec![]), None);
    let f = Faces { regular: Some("r".to_string()), bold: None, italic: Some("i".to_string()), bold_italic: None };
    assert_eq!(f.pick(false, false), Some("r"));
    assert_eq!(f.pick(true, false), Some("r"));
    assert_eq!(f.pick(false, true), Some("i"));
    assert_eq!(f.pick(true, true), Some("r"));
}

// --- Texts ---------------------------------------------------------------------------

#[test]
fn whitespace_is_that_of_std() {
    for c in (0..=0x10ffffu32).filter_map(char::from_u32) {
        assert_eq!(is_whitespace(c), c.is_whitespace(), "{c:?}");
        assert_eq!(is_digit(c), c.is_ascii_digit());
        assert_eq!(to_ascii_lower(c), c.to_ascii_lowercase());
        assert_eq!(width_of(c), c.len_utf8());
    }
}

#[test]
fn texts_are_taken_apart_as_by_std() {
    for t in ["", " a ", "a\u{3000}", "\u{a0}x", "no", "\n\n", "a\r\nb\rc\n"] {
        assert_eq!(trim_str(t), t.trim());
        assert_eq!(trim_start_str(t), t.trim_start());
        assert_eq!(trim_end_str(t), t.trim_end());
        assert_eq!(lines_of(t), t.lines().collect::<Vec<_>>());
        assert_eq!(split_str(t, '\n'), t.split('\n').collect::<Vec<_>>());
        assert_eq!(str_starts_with(t, "a"), t.starts_with("a"));
        assert_eq!(str_ends_with(t, "\n"), t.ends_with("\n"));
    }
}

#[test]
fn numbers_are_written_and_read() {
    for n in [0i64, 7, -7, 1200, i64::MAX, i64::MIN] {
        assert_eq!(show_i64(n), n.to_string());
        assert_eq!(parse_i64(&chars(&n.to_string())), Some(n));
    }
    assert_eq!(show_u64(u64::MAX), u64::MAX.to_string());
    for bad in ["", "-", "x", "1x", "9223372036854775808"] {
        assert_eq!(parse_i64(&chars(bad)), None, "{bad}");
    }
}

#[test]
fn names_are_a_set() {
    let mut n = Names::new();
    n.insert("a");
    n.insert("a");
    assert!(n.contains("a"));
    n.toggle("a");
    assert!(!n.contains("a"));
    n.toggle("b");
    n.remove("b");
    assert!(!n.contains("b"));
    assert!(comes_before("B", "a") && !comes_before("a", "a") && comes_before("a", "é"));
    assert_eq!(sorted_unique(&vec!["b".to_string(), "a".to_string(), "b".to_string()]), vec!["a", "b"]);
}

#[test]
fn columns_and_bytes_convert() {
    let line = "aé漢z";
    for (col, byte) in [(0, 0), (1, 1), (2, 3), (3, 6), (4, 7), (9, 7)] {
        assert_eq!(col_to_byte(line, col), byte);
    }
    assert_eq!(byte_to_col(line, 3), 2);
    assert_eq!(byte_to_col(line, 7), 4);
    for i in 0..=8 {
        assert!(line.is_char_boundary(clamp_boundary(line, i)));
    }
    assert_eq!((clamp_boundary(line, 2), clamp_boundary(line, 5), clamp_boundary(line, 99)), (1, 3, 7));
}

use serde_json::Value;
use unterm::control::{
    args, failure, home_dir, mcp_reply, parse_questions, permission, reconstruct_transcript, spawn_plan, success,
    user_line, wire_line, Action, Driver, Memory, SpawnError,
};
use unterm::conv::{
    describe_printed, describe_tool, glyph_for, head_line, sanitize, tool_result_text, truncate, Conv,
};
use unterm::json::Json;
use unterm::mcp::{
    answer, host_result, result_or_text, text_result, timeout_result, Dispatched, McpDispatcher, CALL_TIMEOUT_SECS,
};

// --- Helpers --------------------------------------------------------------------

fn value(text: &str) -> Value {
    serde_json::from_str(text).unwrap()
}

fn printed(j: &Json) -> Value {
    value(&wire_line(j))
}

fn s(text: &str) -> Json {
    Json::Str(text.to_string())
}

fn object(members: Vec<(&str, Json)>) -> Json {
    Json::Object(members.into_iter().map(|(k, v)| (k.to_string(), v)).collect())
}

/// A session that has been told to start; its first message has the number 1.
fn fresh(mcp: bool) -> (Driver, u64) {
    let (d, init) = Driver::new(Conv::new(), mcp, 1);
    assert_eq!(
        printed(&init),
        value(
            r#"{"type":"control_request","request_id":"unterm-init-1",
                "request":{"subtype":"initialize","sdkMcpServers":["unity"],"hooks":{}}}"#
        )
    );
    (d, 2)
}

const READY: &str = r#"{"type":"control_response","response":{"request_id":"unterm-init-1","subtype":"success"}}"#;

fn ready(mcp: bool) -> (Driver, u64) {
    let (mut d, mut next) = fresh(mcp);
    let (acts, read) = d.handle_line(READY, 0, &mut next);
    assert!(acts.is_empty() && read);
    assert_eq!(d.status(), "ready");
    (d, next)
}

fn take(d: &mut Driver, next: &mut u64, line: &str) -> Vec<Action> {
    let (acts, read) = d.handle_line(line, 0, next);
    assert!(read, "{line}");
    acts
}

fn written(acts: &[Action]) -> Vec<Value> {
    acts.iter()
        .map(|a| match a {
            Action::Write(j) => printed(j),
            Action::CallTool { .. } => panic!("a call where a message was due"),
        })
        .collect()
}

fn ask(tool: &str, request: &str, input: &str) -> String {
    format!(
        r#"{{"type":"control_request","request_id":"{request}","request":{{"subtype":"can_use_tool","tool_name":"{tool}","input":{input}}}}}"#
    )
}

fn allowed(request: &str, input: &str) -> Value {
    value(&format!(
        r#"{{"type":"control_response","response":{{"subtype":"success","request_id":"{request}",
            "response":{{"behavior":"allow","updatedInput":{input}}}}}}}"#
    ))
}

fn denied(request: &str, message: &str) -> Value {
    let mut v = value(
        r#"{"type":"control_response","response":{"subtype":"success","request_id":"",
            "response":{"behavior":"deny","message":""}}}"#,
    );
    v["response"]["request_id"] = Value::String(request.to_string());
    v["response"]["response"]["message"] = Value::String(message.to_string());
    v
}

fn prompt(text: &str) -> Value {
    value(&format!(
        r#"{{"type":"user","session_id":"","message":{{"role":"user","content":[{{"type":"text","text":"{text}"}}]}},
            "parent_tool_use_id":null}}"#
    ))
}

// --- Texts ---------------------------------------------------------------------

#[test]
fn texts_are_cut_and_marked() {
    assert_eq!(truncate("abc", 3), "abc");
    assert_eq!(truncate("äbcd", 3), "äbc…");
    assert_eq!(truncate("", 0), "");
    assert_eq!(sanitize("a\u{1e}b\u{1f}c"), "a b c");
    assert_eq!(head_line("one\r\ntwo"), "one");
    assert_eq!(head_line("one\r"), "one\r");
    assert_eq!(head_line("\nx"), "");
}

#[test]
fn glyphs_stand_for_states() {
    for (status, glyph) in [("completed", "✓"), ("failed", "✗"), ("in_progress", "▸"), ("pending", "·"), ("", "·")] {
        assert_eq!(glyph_for(status), glyph);
    }
}

#[test]
fn tools_are_described_by_their_salient_argument() {
    let input = object(vec![("path", s("p")), ("command", s("ls"))]);
    assert_eq!(describe_tool(&input), "ls");
    assert_eq!(describe_tool(&object(vec![("command", s("")), ("url", s("u"))])), "u");
    assert_eq!(describe_tool(&Json::Null), "");
    assert_eq!(describe_tool(&object(vec![])), "");
    assert_eq!(describe_tool(&object(vec![("n", Json::Int(-3))])), r#"{"n":-3}"#);
    assert_eq!(describe_tool(&Json::Array(vec![Json::Bool(true), Json::Null])), "[true,null]");
    assert_eq!(describe_printed(&Json::Bool(true), &"x".repeat(401)), format!("{}…", "x".repeat(400)));
}

#[test]
fn tool_output_is_joined() {
    let parts = Json::Array(vec![
        object(vec![("text", s("a"))]),
        object(vec![("image", s("b"))]),
        object(vec![("text", s("c"))]),
    ]);
    assert_eq!(tool_result_text(&parts), "a\nc");
    assert_eq!(tool_result_text(&s("plain")), "plain");
    assert_eq!(tool_result_text(&Json::Int(1)), "");
    assert_eq!(tool_result_text(&s(&"y".repeat(6001))).chars().count(), 6001);
}

// --- Transcript -----------------------------------------------------------------

#[test]
fn replies_of_one_role_run_together() {
    let mut c = Conv::new();
    c.push_user("hi", 0);
    c.append_role('a', "one ", 0);
    c.append_role('a', "two", 0);
    c.append_role('t', "", 0);
    c.append_role('t', "hm", 0);
    assert_eq!(c.serialize_in(None, 0), "u\u{1f}hi\u{1e}a\u{1f}one two\u{1e}t\u{1f}hm");
}

#[test]
fn tools_are_drawn_in_place() {
    let mut c = Conv::new();
    c.tool_begin("t1", "Bash", "ls\nmore", 0);
    c.append_role('a', "x", 0);
    assert_eq!(c.serialize_in(None, 0), "x\u{1f}t1\u{1f}▸ Bash\u{1f}ls\u{1f}ls\nmore\u{1e}a\u{1f}x");
    c.tool_end("t1", "completed", "out\u{1e}put", 0);
    assert_eq!(c.serialize_in(None, 0), "x\u{1f}t1\u{1f}✓ Bash\u{1f}ls\u{1f}ls\nmore\nout put\u{1e}a\u{1f}x");
    c.tool_begin("t1", "", "cd", 0);
    assert_eq!(c.serialize_in(None, 0), "x\u{1f}t1\u{1f}▸ Bash\u{1f}cd\u{1f}cd\nout put\u{1e}a\u{1f}x");
    c.tool_end("t2", "failed", "no", 0);
    assert_eq!(
        c.serialize_in(None, 0),
        "x\u{1f}t1\u{1f}▸ Bash\u{1f}cd\u{1f}cd\nout put\u{1e}a\u{1f}x\u{1e}x\u{1f}t2\u{1f}✗ (tool)\u{1f}\u{1f}no"
    );
}

#[test]
fn removing_a_block_keeps_tools_attached() {
    let mut c = Conv::new();
    c.push_queued("first", 0);
    c.push_user("u", 0);
    c.tool_begin("t", "T", "", 0);
    c.push_queued("second", 0);
    assert_eq!(c.queued_count(), 2);
    c.cancel_queued(0);
    c.tool_end("t", "completed", "done", 0);
    assert_eq!(c.serialize_in(None, 0), "u\u{1f}u\u{1e}x\u{1f}t\u{1f}✓ T\u{1f}\u{1f}done\u{1e}q\u{1f}second");
    c.cancel_queued(5);
    c.remove_block(99);
    assert_eq!(c.queued_count(), 1);
    assert_eq!(c.promote_first_queued(), Some("second".to_string()));
    assert_eq!(c.promote_first_queued(), None);
}

#[test]
fn questions_and_plans_are_hidden() {
    let mut c = Conv::new();
    for (name, id) in [("AskUserQuestion", "q"), ("ExitPlanMode", "p")] {
        c.apply_block("assistant", &object(vec![("type", s("tool_use")), ("id", s(id)), ("name", s(name))]), 0);
        c.apply_block("user", &object(vec![("type", s("tool_result")), ("tool_use_id", s(id))]), 0);
    }
    assert_eq!(c.serialize_in(None, 0), "");
}

#[test]
fn a_log_is_replayed() {
    let log = concat_lines(&[
        r#"{"type":"summary","cwd":""}"#,
        "not json",
        "",
        r#"{"type":"user","cwd":"/a","message":{"content":"hello"}}"#,
        r#"{"type":"assistant","cwd":"/b","message":{"content":[{"type":"text","text":"hi"},{"type":"thinking","thinking":"t"}]}}"#,
        r#"{"type":"assistant","message":{"content":[{"type":"tool_use","id":"1","name":"Read","input":{"file_path":"f"}}]}}"#,
        r#"{"type":"user","message":{"content":[{"type":"tool_result","tool_use_id":"1","is_error":true,"content":"bad"}]}}"#,
    ]);
    let (conv, cwd) = reconstruct_transcript("id", &log);
    assert_eq!(cwd, Some("/a".to_string()));
    assert_eq!(
        conv.serialize_in(None, 0),
        "u\u{1f}hello\u{1e}a\u{1f}hi\u{1e}t\u{1f}t\u{1e}x\u{1f}1\u{1f}✗ Read\u{1f}f\u{1f}f\nbad"
    );
    let (conv, cwd) = reconstruct_transcript("", &log);
    assert_eq!((conv.serialize_in(None, 0), cwd), (String::new(), None));
}

fn concat_lines(lines: &[&str]) -> String {
    lines.join("\n")
}

// --- Starting --------------------------------------------------------------------

#[test]
fn the_engine_is_started_with_its_flags() {
    let base = "--output-format stream-json --verbose --input-format stream-json --permission-prompt-tool stdio";
    assert_eq!(args(None, "default").join(" "), base);
    assert_eq!(args(Some(""), "").join(" "), base);
    assert_eq!(args(Some("id"), "high").join(" "), format!("{base} --resume id --effort high"));
    let p = spawn_plan("", None, "", "/bin/engine", true, false, None).ok().unwrap();
    assert_eq!((p.program.as_str(), p.workdir.as_str()), ("/bin/engine", "."));
    assert_eq!(p.args.join(" "), base);
    let p = spawn_plan("/w", None, "", "engine", false, false, None).ok().unwrap();
    assert_eq!((p.program.as_str(), p.workdir.as_str()), ("/bin/zsh", "/w"));
    assert_eq!(p.args, vec!["-lic".to_string(), format!("exec engine {base}")]);
    let p = spawn_plan("", None, "", "engine", false, false, Some("/bin/sh")).ok().unwrap();
    assert_eq!(p.program, "/bin/sh");
    let p = spawn_plan("", None, "", "engine", false, true, Some("/bin/sh")).ok().unwrap();
    assert_eq!(p.program, "cmd");
    assert_eq!(p.args, vec!["/c".to_string(), format!("engine {base}")]);
}

#[test]
fn no_engine_is_an_error() {
    let r = spawn_plan("/w", None, "", "", true, false, None);
    assert_eq!(r.err(), Some(SpawnError::NoEngine));
}

#[test]
fn home_falls_back() {
    assert_eq!(home_dir(Some("/h"), Some("/p")), "/h");
    assert_eq!(home_dir(Some(""), Some("/p")), "/p");
    assert_eq!(home_dir(None, None), "");
}

// --- Messages --------------------------------------------------------------------

#[test]
fn messages_have_their_form() {
    assert_eq!(printed(&user_line("hi")), prompt("hi"));
    assert_eq!(printed(&permission("r", true, &s("in"))), allowed("r", "\"in\""));
    assert_eq!(printed(&permission("r", false, &s("in"))), denied("r", "User denied the request."));
    assert_eq!(
        printed(&failure("r", "m")),
        value(r#"{"type":"control_response","response":{"subtype":"error","request_id":"r","error":"m"}}"#)
    );
    assert_eq!(
        printed(&success("r", Json::Null)),
        value(r#"{"type":"control_response","response":{"subtype":"success","request_id":"r","response":null}}"#)
    );
    assert_eq!(
        printed(&mcp_reply("r", None))["response"]["response"],
        value(r#"{"mcp_response":{"jsonrpc":"2.0","result":{},"id":0}}"#)
    );
    assert_eq!(printed(&mcp_reply("r", Some(Json::Int(7))))["response"]["response"], value(r#"{"mcp_response":7}"#));
}

#[test]
fn lines_end_in_a_line_feed() {
    assert_eq!(wire_line(&Json::Int(-5)), "-5\n");
    assert_eq!(wire_line(&Json::UInt(u64::MAX)), "18446744073709551615\n");
    assert_eq!(wire_line(&Json::Float("0.5".to_string())), "0.5\n");
    assert_eq!(wire_line(&s("a\"b")), "\"a\\\"b\"\n");
    assert_eq!(wire_line(&Json::Array(vec![])), "[]\n");
}

#[test]
fn lulls_are_separated() {
    let mut c = Conv::new();
    c.push_user("one", 1000);
    c.append_role('a', "two", 1119);
    assert!(!c.has_relative_stamp(5000));
    assert_eq!(c.serialize_in(None, 5000), c.blocks_text());
    assert_eq!(c.serialize(5000), "u\u{1f}one\u{1e}a\u{1f}two");
    // Text that goes on in a block keeps the stamp of its start.
    c.append_role('a', " more", 5000);
    c.push_user("three", 1239);
    assert!(c.has_relative_stamp(0));
    assert_eq!(
        c.serialize_in(None, 1239 + 7200),
        "u\u{1f}one\u{1e}a\u{1f}two more\u{1e}s1239\u{1f}2 hours ago\u{1e}u\u{1f}three"
    );
    assert_eq!(
        c.serialize_in(Some("ja_JP"), 1239 + 7 * 86_400),
        "u\u{1f}one\u{1e}a\u{1f}two more\u{1e}s1239\u{1f}1週間前\u{1e}u\u{1f}three"
    );
    assert_eq!(c.blocks_text(), "u\u{1f}one\u{1e}a\u{1f}two more\u{1e}u\u{1f}three");
}

#[test]
fn unknown_stamps_separate_nothing() {
    let mut c = Conv::new();
    c.push_user("one", 1000);
    c.append_role('a', "two", 0);
    c.push_user("three", 9000);
    c.tool_begin("t", "T", "", 8000);
    c.tool_end("t", "completed", "", 9999);
    assert!(!c.has_relative_stamp(9000));
    assert_eq!(c.serialize_in(None, 9000), c.blocks_text());
}

#[test]
fn recorded_stamps_separate_a_resumed_session() {
    let log = concat_lines(&[
        r#"{"type":"user","timestamp":"1970-01-01T00:10:00.250Z","message":{"content":"hello"}}"#,
        r#"{"type":"assistant","timestamp":"1970-01-01T00:11:59Z","message":{"content":[{"type":"text","text":"hi"}]}}"#,
        r#"{"type":"user","timestamp":"1970-01-01T00:20:00Z","message":{"content":"later"}}"#,
        r#"{"type":"assistant","message":{"content":[{"type":"text","text":"ok"}]}}"#,
    ]);
    let (conv, _) = reconstruct_transcript("id", &log);
    assert_eq!(
        conv.serialize_in(None, 1500),
        "u\u{1f}hello\u{1e}a\u{1f}hi\u{1e}s1200\u{1f}5 minutes ago\u{1e}u\u{1f}later\u{1e}a\u{1f}ok"
    );
}

// --- Driver ----------------------------------------------------------------------

#[test]
fn prompts_are_held_until_the_engine_is_ready() {
    let (mut d, mut next) = fresh(false);
    assert_eq!(d.status(), "initializing");
    assert!(d.interrupt(&mut next).is_empty());
    assert!(d.send("one", 0, &mut next).is_empty());
    assert!(d.send("two", 0, &mut next).is_empty());
    assert!(d.set_permission_mode("plan", &mut next).is_empty());
    assert!(d.set_model("m", &mut next).is_empty());
    assert_eq!((d.permission_mode(), d.model()), ("plan".to_string(), "m".to_string()));
    let out = written(&take(&mut d, &mut next, READY));
    assert_eq!(
        out,
        vec![
            value(
                r#"{"type":"control_request","request_id":"unterm-ctl-2",
                    "request":{"subtype":"set_permission_mode","mode":"plan"}}"#
            ),
            value(r#"{"type":"control_request","request_id":"unterm-ctl-3","request":{"subtype":"set_model","model":"m"}}"#),
            prompt("one"),
            prompt("two"),
        ]
    );
    assert_eq!(d.status(), "thinking");
    assert_eq!(d.transcript_in(None, 0), "u\u{1f}one\u{1e}u\u{1f}two");
}

#[test]
fn prompts_queue_while_the_agent_thinks() {
    let (mut d, mut next) = ready(false);
    assert_eq!(written(&d.send("one", 0, &mut next)), vec![prompt("one")]);
    assert!(d.send("two", 0, &mut next).is_empty());
    assert!(d.send("three", 0, &mut next).is_empty());
    assert!(d.send("four", 0, &mut next).is_empty());
    assert_eq!(d.queue_len(), 3);
    d.cancel_queued(1);
    assert_eq!(d.transcript_in(None, 0), "u\u{1f}one\u{1e}q\u{1f}two\u{1e}q\u{1f}four");
    let result = r#"{"type":"result"}"#;
    assert_eq!(written(&take(&mut d, &mut next, result)), vec![prompt("two")]);
    assert_eq!(d.status(), "thinking");
    assert_eq!(written(&take(&mut d, &mut next, result)), vec![prompt("four")]);
    assert!(take(&mut d, &mut next, result).is_empty());
    assert_eq!((d.status(), d.queue_len()), ("ready".to_string(), 0));
}

#[test]
fn the_next_queued_prompt_is_fired() {
    let (mut d, mut next) = ready(false);
    assert!(d.send_next_queued().is_empty());
    assert_eq!(d.status(), "ready");
    d.send("one", 100, &mut next);
    d.send("two", 400, &mut next);
    d.send("three", 401, &mut next);
    assert_eq!(written(&d.send_next_queued()), vec![prompt("two")]);
    assert_eq!((d.status(), d.queue_len()), ("thinking".to_string(), 1));
    assert!(d.has_relative_stamp(500));
    assert_eq!(
        d.transcript_in(None, 700),
        "u\u{1f}one\u{1e}s400\u{1f}5 minutes ago\u{1e}u\u{1f}two\u{1e}q\u{1f}three"
    );
    assert_eq!(d.blocks_text(), "u\u{1f}one\u{1e}u\u{1f}two\u{1e}q\u{1f}three");
    assert_eq!(written(&d.send_next_queued()), vec![prompt("three")]);
    assert!(d.send_next_queued().is_empty());
}

#[test]
fn a_failed_start_drops_prompts() {
    let (mut d, mut next) = fresh(false);
    let line = r#"{"type":"control_response","response":{"request_id":"unterm-init-1","subtype":"error","error":"no"}}"#;
    assert!(take(&mut d, &mut next, line).is_empty());
    assert_eq!(d.status(), "init failed: no");
    assert!(d.send("x", 0, &mut next).is_empty());
    assert_eq!(d.transcript_in(None, 0), "");
    let (mut d, mut next) = fresh(false);
    let line = r#"{"type":"control_response","response":{"request_id":"unterm-init-1","subtype":"error"}}"#;
    take(&mut d, &mut next, line);
    assert_eq!(d.status(), "init failed: initialize failed");
    let (mut d, mut next) = fresh(false);
    take(&mut d, &mut next, r#"{"type":"control_response","response":{"request_id":"other","subtype":"error"}}"#);
    assert_eq!(d.status(), "initializing");
}

#[test]
fn a_closed_session_drops_prompts() {
    let (mut d, mut next) = ready(false);
    d.close(0);
    assert_eq!((d.status().as_str(), d.transcript_in(None, 0).as_str()), ("closed", "a\u{1f}[connection closed]"));
    assert!(d.send("x", 0, &mut next).is_empty());
    assert_eq!(d.transcript_in(None, 0), "a\u{1f}[connection closed]");
}

#[test]
fn lines_that_are_no_message_are_passed_over() {
    let (mut d, mut next) = ready(false);
    let (acts, read) = d.handle_line("nonsense", 0, &mut next);
    assert!(acts.is_empty() && !read);
    let (acts, read) = d.handle_line("  \t", 0, &mut next);
    assert!(acts.is_empty() && read);
    assert!(take(&mut d, &mut next, r#"{"type":"stream_event"}"#).is_empty());
    assert!(take(&mut d, &mut next, "[1]").is_empty());
}

#[test]
fn the_session_learns_its_id_and_model() {
    let (mut d, mut next) = ready(false);
    take(&mut d, &mut next, r#"{"type":"system","subtype":"init","session_id":"","model":""}"#);
    assert_eq!((d.session_id(), d.model()), (String::new(), String::new()));
    take(&mut d, &mut next, r#"{"type":"system","subtype":"init","session_id":"s1","model":"m1"}"#);
    take(&mut d, &mut next, r#"{"type":"system","subtype":"init","session_id":"s2","model":"m2"}"#);
    assert_eq!((d.session_id(), d.model()), ("s2".to_string(), "m1".to_string()));
    take(&mut d, &mut next, r#"{"type":"system","subtype":"other","session_id":"s3"}"#);
    assert_eq!(d.session_id(), "s2");
    let (mut d, mut next) = ready(false);
    take(&mut d, &mut next, r#"{"type":"assistant","message":{"model":"m3","content":"hi"}}"#);
    assert_eq!((d.model().as_str(), d.transcript_in(None, 0).as_str()), ("m3", "a\u{1f}hi"));
    assert!(d.set_model("default", &mut next).is_empty());
    assert_eq!(written(&d.interrupt(&mut next))[0]["request"]["subtype"], "interrupt");
}

#[test]
fn permissions_are_asked_and_remembered() {
    let (mut d, mut next) = ready(false);
    assert!(d.pending_view().is_none());
    assert!(d.respond("allow_once", &mut next).is_empty());
    assert!(take(&mut d, &mut next, &ask("Bash", "r1", r#"{"command":"ls"}"#)).is_empty());
    let (body, options) = d.pending_view().unwrap();
    assert_eq!(body, "Permission requested: Bash\nls");
    let ids: Vec<&str> = options.iter().map(|o| o.0.as_str()).collect();
    assert_eq!(ids, ["allow_once", "allow_always", "reject_once", "reject_always"]);
    assert_eq!(options[1].1, "Always allow");
    assert_eq!(written(&d.respond("allow_once", &mut next)), vec![allowed("r1", r#"{"command":"ls"}"#)]);
    take(&mut d, &mut next, &ask("Bash", "r2", "{}"));
    assert_eq!(d.pending_view().unwrap().0, "Permission requested: Bash");
    assert_eq!(written(&d.respond("reject_always", &mut next)), vec![denied("r2", "User denied the request.")]);
    assert_eq!(
        written(&take(&mut d, &mut next, &ask("Bash", "r3", "{}"))),
        vec![denied("r3", "User denied the request.")]
    );
    take(&mut d, &mut next, &ask("Read", "r4", "{}"));
    assert_eq!(written(&d.respond("allow_always", &mut next)), vec![allowed("r4", "{}")]);
    assert_eq!(written(&take(&mut d, &mut next, &ask("Read", "r5", "[1]"))), vec![allowed("r5", "[1]")]);
}

#[test]
fn permission_titles_fall_back() {
    let (mut d, mut next) = ready(false);
    for (extra, title) in [
        (r#""title":"T","display_name":"D","#, "T"),
        (r#""display_name":"D","#, "D"),
        (r#""title":"","display_name":"D","#, "Bash"),
    ] {
        let line = format!(
            r#"{{"type":"control_request","request_id":"r","request":{{{extra}"subtype":"can_use_tool","tool_name":"Bash"}}}}"#
        );
        take(&mut d, &mut next, &line);
        assert_eq!(d.pending_view().unwrap().0, format!("Permission requested: {title}"));
        d.clear_pending();
        assert!(d.pending_view().is_none());
    }
}

#[test]
fn questions_are_put_one_at_a_time() {
    let (mut d, mut next) = ready(false);
    let input = r#"{"questions":[
        {"header":"H","question":"A?","options":[{"label":"x","description":"dx"},{"label":"y"}]},
        {"question":"B?"}]}"#;
    assert!(take(&mut d, &mut next, &ask("AskUserQuestion", "r", input)).is_empty());
    let (body, options) = d.pending_view().unwrap();
    assert_eq!(body, "Question 1/2 — H\nA?\n• x — dx\n• y");
    assert_eq!(options[0], ("x".to_string(), "x".to_string(), "answer".to_string()));
    assert_eq!(options[2], ("__skip__".to_string(), "Skip".to_string(), "skip".to_string()));
    assert!(d.respond("x", &mut next).is_empty());
    assert_eq!(d.pending_view().unwrap().0, "Question 2/2\nB?");
    let text = "The user answered your question(s):\n- H: x\n- (skipped)\nProceed with these answers.";
    assert_eq!(written(&d.respond("__skip__", &mut next)), vec![denied("r", text)]);
    assert!(d.pending_view().is_none());
    // A single question is not numbered; without questions the tool just runs.
    take(&mut d, &mut next, &ask("AskUserQuestion", "r", r#"{"questions":[{"header":"H","question":"A?"}]}"#));
    assert_eq!(d.pending_view().unwrap().0, "H\nA?");
    d.clear_pending();
    assert_eq!(written(&take(&mut d, &mut next, &ask("AskUserQuestion", "r", "{}"))), vec![allowed("r", "{}")]);
    assert!(parse_questions(&Json::Null).is_empty());
}

#[test]
fn plans_are_approved_or_sent_back() {
    let (mut d, mut next) = ready(false);
    let line = ask("ExitPlanMode", "p", r##"{"plan":"# Plan"}"##);
    take(&mut d, &mut next, &line);
    assert_eq!(d.pending_plan(), Some("# Plan".to_string()));
    let (body, options) = d.pending_view().unwrap();
    assert_eq!(body, "Ready to code?");
    assert_eq!(options[0].1, "Yes, and auto-accept edits");
    let out = written(&d.respond("plan_accept", &mut next));
    assert_eq!(out[0], allowed("p", r##"{"plan":"# Plan"}"##));
    assert_eq!(out[1]["request"], value(r#"{"subtype":"set_permission_mode","mode":"acceptEdits"}"#));
    assert_eq!(d.permission_mode(), "acceptEdits");
    take(&mut d, &mut next, &line);
    let out = written(&d.respond("plan_default", &mut next));
    assert_eq!(out[1]["request"]["mode"], "default");
    take(&mut d, &mut next, &line);
    let text = "The user wants to keep planning. Revise the plan based on any feedback and call ExitPlanMode again when ready.";
    assert_eq!(written(&d.respond("plan_reject", &mut next)), vec![denied("p", text)]);
    assert_eq!(d.pending_plan(), None);
    take(&mut d, &mut next, &ask("ExitPlanMode", "p", "{}"));
    assert_eq!(d.pending_plan(), None);
}

#[test]
fn every_request_is_answered() {
    let (mut d, mut next) = ready(false);
    let line = |inner: &str| format!(r#"{{"type":"control_request","request_id":"r","request":{inner}}}"#);
    let out = written(&take(&mut d, &mut next, &line(r#"{"subtype":"request_user_dialog"}"#)));
    assert_eq!(out[0]["response"]["response"], value(r#"{"behavior":"cancelled"}"#));
    let error = |out: Vec<Value>| out[0]["response"]["error"].clone();
    assert_eq!(error(written(&take(&mut d, &mut next, &line(r#"{"subtype":"new"}"#)))), "unsupported control request");
    let other = line(r#"{"subtype":"mcp_message","server_name":"else"}"#);
    assert_eq!(error(written(&take(&mut d, &mut next, &other))), "unknown MCP server");
    let unity = line(r#"{"subtype":"mcp_message","server_name":"unity","message":{"id":1}}"#);
    assert_eq!(error(written(&take(&mut d, &mut next, &unity))), "MCP unavailable");
    let (mut d, mut next) = ready(true);
    let acts = take(&mut d, &mut next, &unity);
    assert_eq!(acts.len(), 1);
    match &acts[0] {
        Action::CallTool { request_id, message } => {
            assert_eq!(request_id, "r");
            assert_eq!(printed(message), value(r#"{"id":1}"#));
        }
        Action::Write(_) => panic!("a message where a call was due"),
    }
}

#[test]
fn memory_keeps_the_last_choice() {
    let mut m = Memory::new();
    assert_eq!(m.get("a"), None);
    m.set("a", true);
    m.set("b", true);
    m.set("a", false);
    assert_eq!((m.get("a"), m.get("b")), (Some(false), Some(true)));
}

// --- Tool server -------------------------------------------------------------------

fn request(id: i64, method: &str, params: Json) -> Json {
    object(vec![("id", Json::Int(id)), ("method", s(method)), ("params", params)])
}

fn reply(d: Dispatched) -> Value {
    match d {
        Dispatched::Reply(j) => printed(&j),
        _ => panic!("no reply"),
    }
}

#[test]
fn the_server_introduces_itself() {
    let mut m = McpDispatcher::new();
    let r = reply(m.dispatch(&request(1, "initialize", Json::Null)));
    assert_eq!(
        r,
        value(
            r#"{"jsonrpc":"2.0","id":1,"result":{"protocolVersion":"2025-06-18","capabilities":{"tools":{}},
                "serverInfo":{"name":"unterm-unity","version":"0.1.0"}}}"#
        )
    );
    let r = reply(m.dispatch(&request(1, "initialize", object(vec![("protocolVersion", s("v"))]))));
    assert_eq!(r["result"]["protocolVersion"], "v");
    assert_eq!(reply(m.dispatch(&request(2, "ping", Json::Null)))["result"], value("{}"));
    assert_eq!(
        reply(m.dispatch(&request(3, "nope", Json::Null)))["error"],
        value(r#"{"code":-32601,"message":"unknown method"}"#)
    );
    assert!(matches!(m.dispatch(&object(vec![("method", s("ping"))])), Dispatched::Nothing));
}

#[test]
fn tools_are_listed_as_set() {
    let mut m = McpDispatcher::new();
    let list = |m: &mut McpDispatcher| reply(m.dispatch(&request(1, "tools/list", Json::Null)))["result"]["tools"].clone();
    assert_eq!(list(&mut m), value("[]"));
    m.set_tools(r#"[{"name":"t"}]"#);
    assert_eq!(list(&mut m), value(r#"[{"name":"t"}]"#));
    m.set_tools("broken");
    assert_eq!(list(&mut m), value(r#"[{"name":"t"}]"#));
    m.set_tool_list(Json::Null);
    assert_eq!(list(&mut m), Value::Null);
}

#[test]
fn calls_are_handed_out_in_order() {
    let mut m = McpDispatcher::new();
    let params = object(vec![("name", s("t")), ("arguments", object(vec![("a", Json::Int(1))]))]);
    for id in [7, 8] {
        let p = if id == 7 { params.copy() } else { Json::Null };
        assert!(matches!(m.dispatch(&request(id, "tools/call", p)), Dispatched::Call { .. }));
    }
    assert_eq!(value(&m.next_call().unwrap()), value(r#"{"id":1,"name":"t","args":{"a":1}}"#));
    assert_eq!(printed(&m.take_call().unwrap()), value(r#"{"id":2,"name":"","args":{}}"#));
    assert!(m.next_call().is_none());
    assert!(m.respond(1));
    assert!(!m.respond(1));
    assert!(m.respond(2));
    assert!(!m.respond(3));
    assert_eq!(CALL_TIMEOUT_SECS, 30);
}

#[test]
fn results_are_wrapped() {
    assert_eq!(printed(&host_result(r#"{"x":[1]}"#)), value(r#"{"x":[1]}"#));
    assert_eq!(
        printed(&host_result("plain")),
        value(r#"{"content":[{"type":"text","text":"plain"}],"isError":false}"#)
    );
    assert_eq!(printed(&result_or_text("t", Some(Json::Int(3)))), value("3"));
    assert_eq!(printed(&timeout_result())["isError"], true);
    assert_eq!(
        printed(&timeout_result())["content"][0]["text"],
        "tool call timed out or the editor was unavailable"
    );
    assert_eq!(printed(&text_result("e", true))["isError"], true);
    assert_eq!(printed(&answer(Json::Int(4), Json::Null)), value(r#"{"jsonrpc":"2.0","id":4,"result":null}"#));
}

// --- JSON ------------------------------------------------------------------------

#[test]
fn members_are_found_by_key() {
    let j = object(vec![("a", Json::Int(1)), ("a", Json::Int(2)), ("t", s("x")), ("v", Json::Array(vec![Json::Null]))]);
    assert_eq!(j.get("a").and_then(|v| v.integer()), Some(1));
    assert_eq!(j.str_at("t"), Some("x"));
    assert_eq!(j.str_at("a"), None);
    assert_eq!(j.text_at("zz"), "");
    assert!(j.is_at("t", "x") && !j.is_at("t", "y"));
    assert!(matches!(j.copy_at("zz"), Json::Null));
    assert_eq!(j.get("v").and_then(|v| v.array()).map(|v| v.len()), Some(1));
    assert_eq!(Json::UInt(u64::MAX).integer(), None);
    assert!(Json::Null.get("a").is_none());
}

#[test]
fn values_pass_through_unchanged() {
    let (mut d, mut next) = ready(false);
    let input = r#"{"b":[1,-2,1.5,18446744073709551615,true,null,"ü"],"a":{"k":{}}}"#;
    take(&mut d, &mut next, &ask("X", "r", input));
    assert_eq!(written(&d.respond("allow", &mut next)), vec![allowed("r", input)]);
}

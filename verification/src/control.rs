//! The control protocol spoken with the agent engine, as a state machine.
//!
//! All messages are JSON values, one per line. [`Driver`] holds everything a
//! session knows; each of its methods takes what happened (a prompt, a click, a
//! message from the engine) and returns what to do: messages to write, or a call
//! to hand to the tool server. Pipes, threads and the child process belong to the
//! program around it.
//!
//! - Host→engine startup: `control_request{request_id, request:{subtype:"initialize",
//!   sdkMcpServers:["unity"], hooks:{}}}`.
//! - Engine→host `control_request`: `can_use_tool` is answered with a permission
//!   result, `mcp_message` with the tool server's reply.
//! - Reply envelope: `control_response{response:{subtype:"success"|"error",
//!   request_id, response|error}}`.
//! - Stream events: `system/init`, `assistant`, `user` (tool results), `result`.

use vstd::prelude::*;
use vstd::string::StringExecFns;
use vstd::utf8::encode_utf8;

use crate::clock::{iso_secs, locale_v, parse_iso8601_secs};
use crate::conv::{
    self, describe_tool, has_lull, labels_plain, message_applied, promoted, pushed, queued, queued_at, results_applied,
    serialized, serialized_at, tool_text, without, Conv, ConvV,
};
use crate::json::{
    self, as_array, as_str, at, elems, obj0, obj1, obj2, obj3, obj4, arr1, str_or_empty, text, Json, JsonV,
};
use crate::text::{
    decimal, join, join2, join_strs, lines, lines_of, same, show_u64, starts_with, str_starts_with, texts, ends_with,
    str_ends_with, trim, trim_str,
};

verus! {

// ---------------------------------------------------------------------------
// Messages
// ---------------------------------------------------------------------------

/// A successful reply to the engine's request `id`.
pub open spec fn success_v(id: Seq<char>, response: JsonV) -> JsonV {
    JsonV::Object(
        seq![
            ("type"@, JsonV::Str("control_response"@)),
            (
                "response"@,
                JsonV::Object(
                    seq![
                        ("subtype"@, JsonV::Str("success"@)),
                        ("request_id"@, JsonV::Str(id)),
                        ("response"@, response),
                    ],
                ),
            ),
        ],
    )
}

/// A successful reply to the engine's request `id`.
pub fn success(id: &str, response: Json) -> (r: Json)
    ensures
        r@ == success_v(id@, response@),
{
    let inner = obj3("subtype", text("success"), "request_id", text(id), "response", response);
    obj2("type", text("control_response"), "response", inner)
}

/// A reply that refuses the engine's request `id`.
pub open spec fn failure_v(id: Seq<char>, message: Seq<char>) -> JsonV {
    JsonV::Object(
        seq![
            ("type"@, JsonV::Str("control_response"@)),
            (
                "response"@,
                JsonV::Object(
                    seq![
                        ("subtype"@, JsonV::Str("error"@)),
                        ("request_id"@, JsonV::Str(id)),
                        ("error"@, JsonV::Str(message)),
                    ],
                ),
            ),
        ],
    )
}

/// A reply that refuses the engine's request `id`.
pub fn failure(id: &str, message: &str) -> (r: Json)
    ensures
        r@ == failure_v(id@, message@),
{
    let inner = obj3("subtype", text("error"), "request_id", text(id), "error", text(message));
    obj2("type", text("control_response"), "response", inner)
}

/// The permission result that lets a tool run on `input`.
pub open spec fn allow_v(input: JsonV) -> JsonV {
    JsonV::Object(seq![("behavior"@, JsonV::Str("allow"@)), ("updatedInput"@, input)])
}

/// The permission result that keeps a tool from running, for the reason given.
pub open spec fn deny_v(message: Seq<char>) -> JsonV {
    JsonV::Object(seq![("behavior"@, JsonV::Str("deny"@)), ("message"@, JsonV::Str(message))])
}

fn deny(message: &str) -> (r: Json)
    ensures
        r@ == deny_v(message@),
{
    obj2("behavior", text("deny"), "message", text(message))
}

/// The reply to a `can_use_tool` request with the user's decision.
pub open spec fn permission_v(id: Seq<char>, allow: bool, input: JsonV) -> JsonV {
    success_v(id, if allow { allow_v(input) } else { deny_v("User denied the request."@) })
}

/// Reply to a `can_use_tool` request with the user's allow/deny decision.
pub fn permission(id: &str, allow: bool, input: &Json) -> (r: Json)
    ensures
        r@ == permission_v(id@, allow, input@),
{
    if allow {
        success(id, obj2("behavior", text("allow"), "updatedInput", input.copy()))
    } else {
        success(id, deny("User denied the request."))
    }
}

/// A request to the engine that carries one field besides its subtype.
pub open spec fn control_v(n: u64, subtype: Seq<char>, key: Seq<char>, value: Seq<char>) -> JsonV {
    JsonV::Object(
        seq![
            ("type"@, JsonV::Str("control_request"@)),
            ("request_id"@, JsonV::Str("unterm-ctl-"@ + decimal(n as nat))),
            ("request"@, JsonV::Object(seq![("subtype"@, JsonV::Str(subtype)), (key, JsonV::Str(value))])),
        ],
    )
}

fn control(n: u64, subtype: &str, key: &str, value: &str) -> (r: Json)
    ensures
        r@ == control_v(n, subtype@, key@, value@),
{
    let d = show_u64(n);
    let id = join2("unterm-ctl-", d.as_str());
    let request = obj2("subtype", text(subtype), key, text(value));
    obj3("type", text("control_request"), "request_id", Json::Str(id), "request", request)
}

/// The request that interrupts the running turn.
pub open spec fn interrupt_v(n: u64) -> JsonV {
    JsonV::Object(
        seq![
            ("type"@, JsonV::Str("control_request"@)),
            ("request_id"@, JsonV::Str("unterm-int-"@ + decimal(n as nat))),
            ("request"@, JsonV::Object(seq![("subtype"@, JsonV::Str("interrupt"@))])),
        ],
    )
}

/// The request that opens a session and names the tool server in this process.
pub open spec fn initialize_v(id: Seq<char>) -> JsonV {
    JsonV::Object(
        seq![
            ("type"@, JsonV::Str("control_request"@)),
            ("request_id"@, JsonV::Str(id)),
            (
                "request"@,
                JsonV::Object(
                    seq![
                        ("subtype"@, JsonV::Str("initialize"@)),
                        ("sdkMcpServers"@, JsonV::Array(seq![JsonV::Str("unity"@)])),
                        ("hooks"@, JsonV::Object(Seq::empty())),
                    ],
                ),
            ),
        ],
    )
}

/// The input message of a user prompt.
pub open spec fn user_v(prompt: Seq<char>) -> JsonV {
    JsonV::Object(
        seq![
            ("type"@, JsonV::Str("user"@)),
            ("session_id"@, JsonV::Str(""@)),
            (
                "message"@,
                JsonV::Object(
                    seq![
                        ("role"@, JsonV::Str("user"@)),
                        (
                            "content"@,
                            JsonV::Array(
                                seq![
                                    JsonV::Object(
                                        seq![("type"@, JsonV::Str("text"@)), ("text"@, JsonV::Str(prompt))],
                                    ),
                                ],
                            ),
                        ),
                    ],
                ),
            ),
            ("parent_tool_use_id"@, JsonV::Null),
        ],
    )
}

/// The stream-json input message for a user prompt.
pub fn user_line(prompt: &str) -> (r: Json)
    ensures
        r@ == user_v(prompt@),
{
    let part = obj2("type", text("text"), "text", text(prompt));
    let message = obj2("role", text("user"), "content", arr1(part));
    obj4("type", text("user"), "session_id", text(""), "message", message, "parent_tool_use_id", Json::Null)
}

/// The reply to an `mcp_message` request: what the tool server answered, or an
/// empty result where the message needed no answer.
pub open spec fn mcp_reply_v(id: Seq<char>, response: Option<JsonV>) -> JsonV {
    success_v(
        id,
        JsonV::Object(
            seq![
                (
                    "mcp_response"@,
                    match response {
                        Some(r) => r,
                        None => JsonV::Object(
                            seq![
                                ("jsonrpc"@, JsonV::Str("2.0"@)),
                                ("result"@, JsonV::Object(Seq::empty())),
                                ("id"@, JsonV::Int(0)),
                            ],
                        ),
                    },
                ),
            ],
        ),
    )
}

/// The reply to an `mcp_message` request.
pub fn mcp_reply(id: &str, response: Option<Json>) -> (r: Json)
    ensures
        r@ == mcp_reply_v(id@, match response {
            Some(j) => Some(j@),
            None => None,
        }),
{
    let inner = match response {
        Some(j) => j,
        None => obj3("jsonrpc", text("2.0"), "result", obj0(), "id", Json::Int(0)),
    };
    success(id, obj1("mcp_response", inner))
}

/// A message as the line to write: its printed form and a line feed.
pub fn wire_line(j: &Json) -> (r: String)
    ensures
        r@ == json::printed(j@).push('\n'),
{
    let mut s = json::print(j);
    s.push('\n');
    s
}

// ---------------------------------------------------------------------------
// How the engine is started
// ---------------------------------------------------------------------------

/// How to start the engine: the program, its arguments and the directory it runs in.
pub struct Spawn {
    pub program: String,
    pub args: Vec<String>,
    pub workdir: String,
}

/// The flags every session is started with.
pub open spec fn base_flags() -> Seq<Seq<char>> {
    seq![
        "--output-format"@,
        "stream-json"@,
        "--verbose"@,
        "--input-format"@,
        "stream-json"@,
        "--permission-prompt-tool"@,
        "stdio"@,
    ]
}

/// The engine's arguments: the flags, the session to resume and the reasoning
/// effort, where one other than the default is asked for.
pub open spec fn engine_args(resume: Option<Seq<char>>, effort: Seq<char>) -> Seq<Seq<char>> {
    base_flags() + (match resume {
        Some(id) if id.len() > 0 => seq!["--resume"@, id],
        _ => Seq::empty(),
    }) + (if effort.len() > 0 && effort != "default"@ {
        seq!["--effort"@, effort]
    } else {
        Seq::empty()
    })
}

/// The engine's arguments.
pub fn args(resume: Option<&str>, effort: &str) -> (r: Vec<String>)
    ensures
        texts(r@) == engine_args(match resume {
            Some(s) => Some(s@),
            None => None,
        }, effort@),
{
    let mut out: Vec<String> = Vec::new();
    out.push("--output-format".to_owned());
    out.push("stream-json".to_owned());
    out.push("--verbose".to_owned());
    out.push("--input-format".to_owned());
    out.push("stream-json".to_owned());
    out.push("--permission-prompt-tool".to_owned());
    out.push("stdio".to_owned());
    assert(texts(out@) =~= base_flags());
    let ghost mut want = base_flags();
    if let Some(id) = resume {
        if !id.is_empty() {
            out.push("--resume".to_owned());
            out.push(id.to_owned());
            proof {
                want = want + seq!["--resume"@, id@];
            }
            assert(texts(out@) =~= want);
        }
    }
    if !effort.is_empty() && !same(effort, "default") {
        out.push("--effort".to_owned());
        out.push(effort.to_owned());
        assert(texts(out@) =~= want + seq!["--effort"@, effort@]);
    }
    assert(texts(out@) =~= engine_args(match resume {
        Some(s) => Some(s@),
        None => None,
    }, effort@));
    out
}

/// The pieces of a command line with a space between neighbours.
pub open spec fn command_line(cmd: Seq<char>, args: Seq<Seq<char>>) -> Seq<char> {
    cmd.push(' ') + join(args, ' ')
}

/// Where the engine runs: the given directory, or the current one.
pub open spec fn workdir_of(cwd: Seq<char>) -> Seq<char> {
    if cwd.len() == 0 {
        "."@
    } else {
        cwd
    }
}

/// Why a session cannot be started.
#[derive(Clone, Copy, PartialEq, Eq, Structural, Debug)]
pub enum SpawnError {
    /// There is no managed engine: it has to be downloaded first.
    NoEngine,
}

/// How to start the engine at `engine_cmd`. A command known by an absolute path is
/// run directly; a bare name goes through the login shell (or `cmd` on Windows),
/// which finds it as a terminal would. Without a command there is nothing to start.
pub fn spawn_plan(
    cwd: &str,
    resume: Option<&str>,
    effort: &str,
    engine_cmd: &str,
    absolute: bool,
    windows: bool,
    shell: Option<&str>,
) -> (r: Result<Spawn, SpawnError>)
    ensures
        ({
            let a = engine_args(match resume {
                Some(s) => Some(s@),
                None => None,
            }, effort@);
            match r {
                Ok(p) => {
                    &&& engine_cmd@.len() > 0
                    &&& p.workdir@ == workdir_of(cwd@)
                    &&& absolute ==> p.program@ == engine_cmd@ && texts(p.args@) == a
                    &&& !absolute && windows ==> p.program@ == "cmd"@ && texts(p.args@) == seq![
                        "/c"@,
                        command_line(engine_cmd@, a),
                    ]
                    &&& !absolute && !windows ==> {
                        &&& p.program@ == match shell {
                            Some(s) => s@,
                            None => "/bin/zsh"@,
                        }
                        &&& texts(p.args@) == seq!["-lic"@, "exec "@ + command_line(engine_cmd@, a)]
                    }
                },
                Err(e) => engine_cmd@.len() == 0 && e == SpawnError::NoEngine,
            }
        }),
{
    if engine_cmd.is_empty() {
        return Err(SpawnError::NoEngine);
    }
    let a = args(resume, effort);
    let workdir = if cwd.is_empty() { ".".to_owned() } else { cwd.to_owned() };
    if absolute {
        return Ok(Spawn { program: engine_cmd.to_owned(), args: a, workdir });
    }
    let joined = join_strs(&a, ' ');
    let mut line = engine_cmd.to_owned();
    line.push(' ');
    line.append(joined.as_str());
    let mut out: Vec<String> = Vec::new();
    if windows {
        out.push("/c".to_owned());
        out.push(line);
        assert(texts(out@) =~= seq!["/c"@, line@]);
        Ok(Spawn { program: "cmd".to_owned(), args: out, workdir })
    } else {
        let exec = join2("exec ", line.as_str());
        out.push("-lic".to_owned());
        out.push(exec);
        assert(texts(out@) =~= seq!["-lic"@, exec@]);
        let program = match shell {
            Some(s) => s.to_owned(),
            None => "/bin/zsh".to_owned(),
        };
        Ok(Spawn { program, args: out, workdir })
    }
}


// ---------------------------------------------------------------------------
// What awaits the user
// ---------------------------------------------------------------------------

/// An option of a question the agent asks.
pub struct QOption {
    pub label: String,
    pub description: String,
}

/// A question the agent asks.
pub struct Question {
    pub header: String,
    pub question: String,
    pub options: Vec<QOption>,
}

/// An option of a question.
#[verifier::ext_equal]
pub struct QOptionV {
    pub label: Seq<char>,
    pub description: Seq<char>,
}

/// A question.
#[verifier::ext_equal]
pub struct QuestionV {
    pub header: Seq<char>,
    pub question: Seq<char>,
    pub options: Seq<QOptionV>,
}

impl View for QOption {
    type V = QOptionV;

    open spec fn view(&self) -> QOptionV {
        QOptionV { label: self.label@, description: self.description@ }
    }
}

impl View for Question {
    type V = QuestionV;

    open spec fn view(&self) -> QuestionV {
        QuestionV {
            header: self.header@,
            question: self.question@,
            options: Seq::new(self.options@.len(), |i: int| self.options@[i]@),
        }
    }
}

/// The questions of a sequence.
pub open spec fn questions_v(q: Seq<Question>) -> Seq<QuestionV> {
    Seq::new(q.len(), |i: int| q[i]@)
}

/// The pairs of a sequence of answers.
pub open spec fn pairs(v: Seq<(String, String)>) -> Seq<(Seq<char>, Seq<char>)> {
    Seq::new(v.len(), |i: int| (v[i].0@, v[i].1@))
}

/// Something awaiting the user: a tool permission, the agent's questions (put one
/// at a time, the answers returned at once), or the approval of a plan.
pub enum Pending {
    /// A `can_use_tool` permission request.
    Permission { request_id: String, tool_name: String, input: Json, title: String, detail: String },
    /// An `AskUserQuestion` tool call, `index` being the question on show.
    Question { request_id: String, questions: Vec<Question>, answers: Vec<(String, String)>, index: usize },
    /// An `ExitPlanMode` tool call; its input is echoed back on approval.
    Plan { request_id: String, input: Json },
}

/// Something awaiting the user.
pub enum PendingV {
    Permission { request_id: Seq<char>, tool_name: Seq<char>, input: JsonV, title: Seq<char>, detail: Seq<char> },
    Question {
        request_id: Seq<char>,
        questions: Seq<QuestionV>,
        answers: Seq<(Seq<char>, Seq<char>)>,
        index: int,
    },
    Plan { request_id: Seq<char>, input: JsonV },
}

impl View for Pending {
    type V = PendingV;

    open spec fn view(&self) -> PendingV {
        match *self {
            Pending::Permission { request_id, tool_name, input, title, detail } => PendingV::Permission {
                request_id: request_id@,
                tool_name: tool_name@,
                input: input@,
                title: title@,
                detail: detail@,
            },
            Pending::Question { request_id, questions, answers, index } => PendingV::Question {
                request_id: request_id@,
                questions: questions_v(questions@),
                answers: pairs(answers@),
                index: index as int,
            },
            Pending::Plan { request_id, input } => PendingV::Plan { request_id: request_id@, input: input@ },
        }
    }
}

/// What awaits the user, if anything does.
pub open spec fn pending_v(p: Option<Pending>) -> Option<PendingV> {
    match p {
        Some(p) => Some(p@),
        None => None,
    }
}

/// The question an `AskUserQuestion` input element stands for.
pub open spec fn question_of(q: JsonV) -> QuestionV {
    QuestionV {
        header: str_or_empty(at(q, "header"@)),
        question: str_or_empty(at(q, "question"@)),
        options: match as_array(at(q, "options"@)) {
            Some(os) => Seq::new(
                os.len(),
                |i: int| QOptionV {
                    label: str_or_empty(at(os[i], "label"@)),
                    description: str_or_empty(at(os[i], "description"@)),
                },
            ),
            None => Seq::empty(),
        },
    }
}

/// The questions of an `AskUserQuestion` tool input.
pub open spec fn questions_of(input: JsonV) -> Seq<QuestionV> {
    match as_array(at(input, "questions"@)) {
        Some(qs) => Seq::new(qs.len(), |i: int| question_of(qs[i])),
        None => Seq::empty(),
    }
}

fn parse_question(q: &Json) -> (r: Question)
    ensures
        r@ == question_of(q@),
{
    let mut options: Vec<QOption> = Vec::new();
    let os = q.copy_at("options");
    if let Some(v) = os.array() {
        let mut i: usize = 0;
        while i < v.len()
            invariant
                i <= v@.len(),
                options@.len() == i,
                forall|k: int|
                    0 <= k < i ==> #[trigger] options@[k]@ == (QOptionV {
                        label: str_or_empty(at(v@[k]@, "label"@)),
                        description: str_or_empty(at(v@[k]@, "description"@)),
                    }),
            decreases v@.len() - i,
        {
            let o = QOption { label: v[i].text_at("label"), description: v[i].text_at("description") };
            options.push(o);
            i = i + 1;
        }
    }
    let r = Question { header: q.text_at("header"), question: q.text_at("question"), options };
    assert(r@ =~= question_of(q@));
    r
}

/// Parse an `AskUserQuestion` tool input into its questions.
pub fn parse_questions(input: &Json) -> (r: Vec<Question>)
    ensures
        questions_v(r@) == questions_of(input@),
{
    let mut out: Vec<Question> = Vec::new();
    let qs = input.copy_at("questions");
    if let Some(v) = qs.array() {
        let mut i: usize = 0;
        while i < v.len()
            invariant
                i <= v@.len(),
                out@.len() == i,
                forall|k: int| 0 <= k < i ==> #[trigger] out@[k]@ == question_of(v@[k]@),
            decreases v@.len() - i,
        {
            let q = parse_question(&v[i]);
            out.push(q);
            i = i + 1;
        }
    }
    assert(questions_v(out@) =~= questions_of(input@));
    out
}

/// The answers as the message the agent reads, from the `i`-th on.
pub open spec fn answer_lines(answers: Seq<(Seq<char>, Seq<char>)>, i: int) -> Seq<char>
    decreases answers.len() - i,
{
    if i < 0 || i >= answers.len() {
        Seq::empty()
    } else {
        (if answers[i].0.len() == 0 {
            "- "@ + answers[i].1 + "\n"@
        } else {
            "- "@ + answers[i].0 + ": "@ + answers[i].1 + "\n"@
        }) + answer_lines(answers, i + 1)
    }
}

/// The whole message that returns the user's answers.
pub open spec fn answer_text(answers: Seq<(Seq<char>, Seq<char>)>) -> Seq<char> {
    "The user answered your question(s):\n"@ + answer_lines(answers, 0) + "Proceed with these answers."@
}

fn answers_message(answers: &Vec<(String, String)>) -> (r: String)
    ensures
        r@ == answer_text(pairs(answers@)),
{
    let ghost all = pairs(answers@);
    let ghost head = "The user answered your question(s):\n"@;
    let mut msg = "The user answered your question(s):\n".to_owned();
    let mut i: usize = 0;
    assert(msg@ + answer_lines(all, 0) =~= head + answer_lines(all, 0));
    while i < answers.len()
        invariant
            i <= answers@.len(),
            all == pairs(answers@),
            msg@ + answer_lines(all, i as int) == head + answer_lines(all, 0),
        decreases answers@.len() - i,
    {
        let ghost before = msg@;
        msg.append("- ");
        if !answers[i].0.as_str().is_empty() {
            msg.append(answers[i].0.as_str());
            msg.append(": ");
        }
        msg.append(answers[i].1.as_str());
        msg.append("\n");
        assert(msg@ + answer_lines(all, i + 1) =~= before + answer_lines(all, i as int));
        i = i + 1;
    }
    assert(msg@ =~= head + answer_lines(all, 0));
    msg.append("Proceed with these answers.");
    msg
}

/// A button: the id it answers with, its name and its kind.
#[verifier::ext_equal]
pub struct ChoiceV {
    pub id: Seq<char>,
    pub name: Seq<char>,
    pub kind: Seq<char>,
}

/// The buttons of a sequence.
pub open spec fn choices_v(v: Seq<(String, String, String)>) -> Seq<ChoiceV> {
    Seq::new(v.len(), |i: int| ChoiceV { id: v[i].0@, name: v[i].1@, kind: v[i].2@ })
}

/// The buttons of a permission prompt.
pub open spec fn permission_choices() -> Seq<ChoiceV> {
    seq![
        ChoiceV { id: "allow_once"@, name: "Allow"@, kind: "allow_once"@ },
        ChoiceV { id: "allow_always"@, name: "Always allow"@, kind: "allow_always"@ },
        ChoiceV { id: "reject_once"@, name: "Deny"@, kind: "reject_once"@ },
        ChoiceV { id: "reject_always"@, name: "Always deny"@, kind: "reject_always"@ },
    ]
}

/// The buttons of a plan approval.
pub open spec fn plan_choices() -> Seq<ChoiceV> {
    seq![
        ChoiceV { id: "plan_accept"@, name: "Yes, and auto-accept edits"@, kind: "plan_accept"@ },
        ChoiceV { id: "plan_default"@, name: "Yes, and manually approve edits"@, kind: "plan_default"@ },
        ChoiceV { id: "plan_reject"@, name: "No, keep planning"@, kind: "plan_reject"@ },
    ]
}

/// The buttons of a question: one per option, and one to skip it.
pub open spec fn question_choices(q: QuestionV) -> Seq<ChoiceV> {
    Seq::new(
        q.options.len(),
        |i: int| ChoiceV { id: q.options[i].label, name: q.options[i].label, kind: "answer"@ },
    ).push(ChoiceV { id: "__skip__"@, name: "Skip"@, kind: "skip"@ })
}

/// The options of a question as bullets, from the `i`-th on.
pub open spec fn bullets(os: Seq<QOptionV>, i: int) -> Seq<char>
    decreases os.len() - i,
{
    if i < 0 || i >= os.len() {
        Seq::empty()
    } else {
        "\n• "@ + os[i].label + (if os[i].description.len() == 0 {
            Seq::empty()
        } else {
            " — "@ + os[i].description
        }) + bullets(os, i + 1)
    }
}

/// The text a question is put with: which of several it is, its header, the
/// question and its options.
pub open spec fn question_title(questions: Seq<QuestionV>, index: int) -> Seq<char> {
    let q = questions[index];
    (if questions.len() > 1 {
        "Question "@ + decimal((index + 1) as nat) + "/"@ + decimal(questions.len()) + (if q.header.len() > 0 {
            " — "@ + q.header
        } else {
            Seq::empty()
        }) + "\n"@
    } else if q.header.len() > 0 {
        q.header + "\n"@
    } else {
        Seq::empty()
    }) + q.question + bullets(q.options, 0)
}

/// The text of a permission prompt.
pub open spec fn permission_title(title: Seq<char>, detail: Seq<char>) -> Seq<char> {
    if detail.len() == 0 {
        "Permission requested: "@ + title
    } else {
        "Permission requested: "@ + title + "\n"@ + detail
    }
}

/// What a prompt is shown as: its text and its buttons.
pub open spec fn prompt_of(p: PendingV) -> (Seq<char>, Seq<ChoiceV>) {
    match p {
        PendingV::Permission { title, detail, .. } => (permission_title(title, detail), permission_choices()),
        PendingV::Question { questions, index, .. } => (
            question_title(questions, index),
            question_choices(questions[index]),
        ),
        PendingV::Plan { .. } => ("Ready to code?"@, plan_choices()),
    }
}

fn push_choice(v: &mut Vec<(String, String, String)>, id: &str, name: &str, kind: &str)
    ensures
        choices_v(final(v)@) == choices_v(old(v)@).push(ChoiceV { id: id@, name: name@, kind: kind@ }),
{
    v.push((id.to_owned(), name.to_owned(), kind.to_owned()));
    assert(choices_v(v@) =~= choices_v(old(v)@).push(ChoiceV { id: id@, name: name@, kind: kind@ }));
}

fn question_view(questions: &Vec<Question>, index: usize) -> (r: (String, Vec<(String, String, String)>))
    requires
        index < questions@.len(),
    ensures
        r.0@ == question_title(questions_v(questions@), index as int),
        choices_v(r.1@) == question_choices(questions@[index as int]@),
{
    let ghost qs = questions_v(questions@);
    let ghost q = qs[index as int];
    let n: usize = questions.len();
    let mut title = String::new();
    if n > 1 {
        title.append("Question ");
        let a = show_u64((index + 1) as u64);
        title.append(a.as_str());
        title.append("/");
        let b = show_u64(n as u64);
        title.append(b.as_str());
        if !questions[index].header.as_str().is_empty() {
            title.append(" — ");
            title.append(questions[index].header.as_str());
        }
        title.append("\n");
    } else if !questions[index].header.as_str().is_empty() {
        title.append(questions[index].header.as_str());
        title.append("\n");
    }
    title.append(questions[index].question.as_str());
    let ghost head = title@;
    let mut opts: Vec<(String, String, String)> = Vec::new();
    let m: usize = questions[index].options.len();
    let mut i: usize = 0;
    assert(title@ + bullets(q.options, 0) =~= head + bullets(q.options, 0));
    assert(choices_v(opts@) =~= question_choices(q).take(0));
    while i < m
        invariant
            i <= m,
            index < questions@.len(),
            q == questions@[index as int]@,
            m == questions@[index as int].options@.len(),
            title@ + bullets(q.options, i as int) == head + bullets(q.options, 0),
            choices_v(opts@) == question_choices(q).take(i as int),
        decreases m - i,
    {
        let o = &questions[index].options[i];
        assert(q.options[i as int] == o@);
        let ghost before = title@;
        title.append("\n• ");
        title.append(o.label.as_str());
        if !o.description.as_str().is_empty() {
            title.append(" — ");
            title.append(o.description.as_str());
        }
        assert(title@ + bullets(q.options, i + 1) =~= before + bullets(q.options, i as int));
        push_choice(&mut opts, o.label.as_str(), o.label.as_str(), "answer");
        i = i + 1;
        assert(choices_v(opts@) =~= question_choices(q).take(i as int));
    }
    assert(title@ =~= head + bullets(q.options, 0));
    push_choice(&mut opts, "__skip__", "Skip", "skip");
    assert(choices_v(opts@) =~= question_choices(q));
    assert(title@ =~= question_title(qs, index as int));
    (title, opts)
}

impl Pending {
    /// A question on show is one of the questions.
    pub open spec fn wf(self) -> bool {
        pending_wf(self@)
    }

    /// The prompt as `(title, options)` where each option is `(id, name, kind)`.
    pub fn shown(&self) -> (r: (String, Vec<(String, String, String)>))
        requires
            self.wf(),
        ensures
            (r.0@, choices_v(r.1@)) == prompt_of(self@),
    {
        match self {
            Pending::Permission { title, detail, .. } => {
                let mut body = join2("Permission requested: ", title.as_str());
                if !detail.as_str().is_empty() {
                    body.append("\n");
                    body.append(detail.as_str());
                }
                let mut opts: Vec<(String, String, String)> = Vec::new();
                push_choice(&mut opts, "allow_once", "Allow", "allow_once");
                push_choice(&mut opts, "allow_always", "Always allow", "allow_always");
                push_choice(&mut opts, "reject_once", "Deny", "reject_once");
                push_choice(&mut opts, "reject_always", "Always deny", "reject_always");
                assert(choices_v(opts@) =~= permission_choices());
                (body, opts)
            },
            Pending::Question { questions, index, .. } => question_view(questions, *index),
            Pending::Plan { .. } => {
                let mut opts: Vec<(String, String, String)> = Vec::new();
                push_choice(&mut opts, "plan_accept", "Yes, and auto-accept edits", "plan_accept");
                push_choice(&mut opts, "plan_default", "Yes, and manually approve edits", "plan_default");
                push_choice(&mut opts, "plan_reject", "No, keep planning", "plan_reject");
                assert(choices_v(opts@) =~= plan_choices());
                ("Ready to code?".to_owned(), opts)
            },
        }
    }
}

/// A question on show is one of the questions.
pub open spec fn pending_wf(p: PendingV) -> bool {
    match p {
        PendingV::Question { questions, index, .. } => 0 <= index < questions.len(),
        _ => true,
    }
}


// ---------------------------------------------------------------------------
// Remembered decisions
// ---------------------------------------------------------------------------

/// The decisions that a sequence of settings leaves: the last one for each tool.
pub open spec fn decisions(s: Seq<(Seq<char>, bool)>) -> Map<Seq<char>, bool>
    decreases s.len(),
{
    if s.len() == 0 {
        Map::empty()
    } else {
        decisions(s.drop_last()).insert(s.last().0, s.last().1)
    }
}

/// The settings of a sequence.
pub open spec fn settings(v: Seq<(String, bool)>) -> Seq<(Seq<char>, bool)> {
    Seq::new(v.len(), |i: int| (v[i].0@, v[i].1))
}

/// Which tools are always allowed and which are always denied.
pub struct Memory {
    items: Vec<(String, bool)>,
}

impl View for Memory {
    type V = Map<Seq<char>, bool>;

    closed spec fn view(&self) -> Map<Seq<char>, bool> {
        decisions(settings(self.items@))
    }
}

proof fn lemma_decision_replaced(s: Seq<(Seq<char>, bool)>, i: int, b: bool)
    requires
        0 <= i < s.len(),
    ensures
        decisions(s.remove(i)).insert(s[i].0, b) == decisions(s).insert(s[i].0, b),
    decreases s.len(),
{
    let k = s[i].0;
    let d = s.drop_last();
    if i == s.len() - 1 {
        assert(s.remove(i) =~= d);
        assert(decisions(s.remove(i)).insert(k, b) =~= decisions(s).insert(k, b));
    } else {
        lemma_decision_replaced(d, i, b);
        assert(s.remove(i).drop_last() =~= d.remove(i));
        assert(s.remove(i).last() == s.last());
        let m1 = decisions(d.remove(i));
        let m2 = decisions(d);
        assert(m1.insert(k, b) == m2.insert(k, b));
        assert forall|x: Seq<char>| x != k implies (#[trigger] m1.dom().contains(x)) == m2.dom().contains(x) && (
        m1.dom().contains(x) ==> m1[x] == m2[x]) by {
            assert(m1.insert(k, b).dom().contains(x) == m1.dom().contains(x));
            assert(m2.insert(k, b).dom().contains(x) == m2.dom().contains(x));
            if m1.dom().contains(x) {
                assert(m1.insert(k, b)[x] == m1[x]);
                assert(m2.insert(k, b)[x] == m2[x]);
            }
        }
        assert(decisions(s.remove(i)).insert(k, b) =~= decisions(s).insert(k, b));
    }
}

impl Memory {
    /// No decisions.
    pub fn new() -> (r: Self)
        ensures
            r@ == Map::<Seq<char>, bool>::empty(),
    {
        let r = Memory { items: Vec::new() };
        assert(settings(r.items@) =~= Seq::empty());
        r
    }

    /// The decision remembered for `tool`.
    pub fn get(&self, tool: &str) -> (r: Option<bool>)
        ensures
            match r {
                Some(b) => self@.dom().contains(tool@) && self@[tool@] == b,
                None => !self@.dom().contains(tool@),
            },
    {
        let ghost all = settings(self.items@);
        let mut i: usize = self.items.len();
        assert(all.take(i as int) =~= all);
        while i > 0
            invariant
                i <= self.items@.len(),
                all == settings(self.items@),
                self@ == decisions(all),
                self@.dom().contains(tool@) == decisions(all.take(i as int)).dom().contains(tool@),
                self@.dom().contains(tool@) ==> self@[tool@] == decisions(all.take(i as int))[tool@],
            decreases i,
        {
            assert(all.take(i as int).drop_last() =~= all.take(i - 1));
            assert(all.take(i as int).last() == all[i - 1]);
            if same(self.items[i - 1].0.as_str(), tool) {
                return Some(self.items[i - 1].1);
            }
            i = i - 1;
        }
        assert(all.take(0) =~= Seq::empty());
        None
    }

    /// Remember a decision for `tool` in place of an earlier one.
    pub fn set(&mut self, tool: &str, allow: bool)
        ensures
            final(self)@ == old(self)@.insert(tool@, allow),
    {
        let ghost before = settings(self.items@);
        let n: usize = self.items.len();
        let mut i: usize = 0;
        while i < n
            invariant
                i <= n == self.items@.len(),
                before == settings(self.items@),
                self.items@ == old(self).items@,
            decreases n - i,
        {
            if same(self.items[i].0.as_str(), tool) {
                assert(before[i as int].0 == tool@);
                let _ = self.items.remove(i);
                let ghost kept = settings(self.items@);
                assert(kept =~= before.remove(i as int));
                self.items.push((tool.to_owned(), allow));
                proof {
                    lemma_decision_replaced(before, i as int, allow);
                    let now = settings(self.items@);
                    assert(now.drop_last() =~= kept);
                    assert(now.last() == (tool@, allow));
                }
                return;
            }
            i = i + 1;
        }
        self.items.push((tool.to_owned(), allow));
        proof {
            let now = settings(self.items@);
            assert(now.drop_last() =~= before);
            assert(now.last() == (tool@, allow));
        }
    }
}

// ---------------------------------------------------------------------------
// The session
// ---------------------------------------------------------------------------

/// Something for the program around the session to do.
pub enum Action {
    /// Write a message to the engine, as one line.
    Write(Json),
    /// Hand a message to the tool server and write its reply to the request.
    CallTool { request_id: String, message: Json },
}

/// Something to do.
pub enum ActionV {
    Write(JsonV),
    CallTool { request_id: Seq<char>, message: JsonV },
}

impl View for Action {
    type V = ActionV;

    open spec fn view(&self) -> ActionV {
        match *self {
            Action::Write(j) => ActionV::Write(j@),
            Action::CallTool { request_id, message } => ActionV::CallTool {
                request_id: request_id@,
                message: message@,
            },
        }
    }
}

/// The actions of a sequence.
pub open spec fn actions_v(v: Seq<Action>) -> Seq<ActionV> {
    Seq::new(v.len(), |i: int| v[i]@)
}

/// What a session knows.
#[verifier::ext_equal]
pub struct DriverV {
    pub conv: ConvV,
    pub status: Seq<char>,
    pub pending: Option<PendingV>,
    pub session_id: Seq<char>,
    /// The tools that are always allowed (true) or always denied (false).
    pub remembered: Map<Seq<char>, bool>,
    pub ready: bool,
    /// Prompts held back until the session is initialized.
    pub outbox: Seq<JsonV>,
    /// Whether there is a tool server to hand calls to.
    pub mcp: bool,
    pub init_id: Seq<char>,
    pub permission_mode: Seq<char>,
    pub model: Seq<char>,
}

/// A session after a step, what the step asks for, and the next request number.
#[verifier::ext_equal]
pub struct StepV {
    pub d: DriverV,
    pub acts: Seq<ActionV>,
    pub next: u64,
}

/// A step that only changes the session.
pub open spec fn quiet(d: DriverV, next: u64) -> StepV {
    StepV { d, acts: Seq::empty(), next }
}

/// A step that writes one message.
pub open spec fn write(d: DriverV, m: JsonV, next: u64) -> StepV {
    StepV { d, acts: seq![ActionV::Write(m)], next }
}

/// The request number after `n`.
pub open spec fn after(n: u64) -> u64 {
    if n == u64::MAX {
        0
    } else {
        (n + 1) as u64
    }
}

/// A session that can take no more turns: it was refused, or the engine is gone.
pub open spec fn dead(status: Seq<char>) -> bool {
    starts_with(status, "init failed"@) || status == "closed"@
}

/// After a prompt is sent at a time: dropped by a dead session, queued while a turn
/// runs, held back until the session is initialized, else written.
pub open spec fn sent(d: DriverV, prompt: Seq<char>, now: u64, next: u64) -> StepV {
    if dead(d.status) {
        quiet(d, next)
    } else if d.ready && d.status == "thinking"@ {
        quiet(DriverV { conv: pushed(d.conv, 'q', prompt, now), ..d }, next)
    } else if d.ready {
        write(DriverV { conv: pushed(d.conv, 'u', prompt, now), status: "thinking"@, ..d }, user_v(prompt), next)
    } else {
        quiet(
            DriverV {
                conv: pushed(d.conv, 'u', prompt, now),
                status: "thinking"@,
                outbox: d.outbox.push(user_v(prompt)),
                ..d
            },
            next,
        )
    }
}

/// After the oldest queued prompt was fired: it is a turn of its own, and written. With
/// none queued nothing changes.
pub open spec fn next_sent(d: DriverV) -> (DriverV, Seq<ActionV>) {
    let i = queued_at(d.conv.blocks, 0, 0);
    if i < d.conv.blocks.len() {
        (
            DriverV { conv: promoted(d.conv), status: "thinking"@, ..d },
            seq![ActionV::Write(user_v(d.conv.blocks[i].1))],
        )
    } else {
        (d, Seq::empty())
    }
}

/// After the permission mode is set: pushed to the engine once the session is ready.
pub open spec fn mode_set(d: DriverV, mode: Seq<char>, next: u64) -> StepV {
    let e = DriverV { permission_mode: mode, ..d };
    if d.ready {
        write(e, control_v(next, "set_permission_mode"@, "mode"@, mode), after(next))
    } else {
        quiet(e, next)
    }
}

/// Whether a setting differs from the engine's own default.
pub open spec fn chosen(s: Seq<char>) -> bool {
    s.len() > 0 && s != "default"@
}

/// After the model is set: pushed to a ready engine, unless its default is meant.
pub open spec fn model_set(d: DriverV, model: Seq<char>, next: u64) -> StepV {
    let e = DriverV { model, ..d };
    if d.ready && chosen(model) {
        write(e, control_v(next, "set_model"@, "model"@, model), after(next))
    } else {
        quiet(e, next)
    }
}

/// The agent is told to revise its plan.
pub open spec fn keep_planning() -> Seq<char> {
    "The user wants to keep planning. Revise the plan based on any feedback and call ExitPlanMode again when ready."@
}

/// After the user answers what was pending.
pub open spec fn responded(d: DriverV, option: Seq<char>, next: u64) -> StepV {
    let e = DriverV { pending: None, ..d };
    match d.pending {
        None => quiet(d, next),
        Some(PendingV::Permission { request_id, tool_name, input, .. }) => {
            let allow = starts_with(option, "allow"@);
            write(
                if ends_with(option, "always"@) {
                    DriverV { remembered: d.remembered.insert(tool_name, allow), ..e }
                } else {
                    e
                },
                permission_v(request_id, allow, input),
                next,
            )
        },
        Some(PendingV::Question { request_id, questions, answers, index }) => {
            let label = if option == "__skip__"@ { "(skipped)"@ } else { option };
            let all = answers.push((questions[index].header, label));
            if index + 1 < questions.len() {
                quiet(
                    DriverV {
                        pending: Some(PendingV::Question { request_id, questions, answers: all, index: index + 1 }),
                        ..d
                    },
                    next,
                )
            } else {
                write(e, success_v(request_id, deny_v(answer_text(all))), next)
            }
        },
        Some(PendingV::Plan { request_id, input }) => {
            if option == "plan_accept"@ || option == "plan_default"@ {
                let s = mode_set(e, if option == "plan_accept"@ { "acceptEdits"@ } else { "default"@ }, next);
                StepV { acts: seq![ActionV::Write(permission_v(request_id, true, input))] + s.acts, ..s }
            } else {
                write(e, success_v(request_id, deny_v(keep_planning())), next)
            }
        },
    }
}

/// The text of a plan that awaits approval.
pub open spec fn plan_of(p: Option<PendingV>) -> Option<Seq<char>> {
    match p {
        Some(PendingV::Plan { input, .. }) => {
            let t = str_or_empty(at(input, "plan"@));
            if t.len() > 0 {
                Some(t)
            } else {
                None
            }
        },
        _ => None,
    }
}

/// After the engine asks whether a tool may be used.
pub open spec fn tool_asked(d: DriverV, id: Seq<char>, req: JsonV, next: u64) -> StepV {
    let tool = str_or_empty(at(req, "tool_name"@));
    let input = at(req, "input"@);
    if tool == "AskUserQuestion"@ {
        let qs = questions_of(input);
        if qs.len() == 0 {
            write(d, permission_v(id, true, input), next)
        } else {
            quiet(
                DriverV {
                    pending: Some(
                        PendingV::Question { request_id: id, questions: qs, answers: Seq::empty(), index: 0 },
                    ),
                    ..d
                },
                next,
            )
        }
    } else if tool == "ExitPlanMode"@ {
        quiet(DriverV { pending: Some(PendingV::Plan { request_id: id, input }), ..d }, next)
    } else if d.remembered.dom().contains(tool) {
        write(d, permission_v(id, d.remembered[tool], input), next)
    } else {
        quiet(
            DriverV {
                pending: Some(
                    PendingV::Permission {
                        request_id: id,
                        tool_name: tool,
                        input,
                        title: tool_title(req, tool),
                        detail: tool_text(input, json::printed(input)),
                    },
                ),
                ..d
            },
            next,
        )
    }
}

/// How a tool is called in a prompt: its title, else its display name, else its name.
pub open spec fn tool_title(req: JsonV, tool: Seq<char>) -> Seq<char> {
    let t = match as_str(at(req, "title"@)) {
        Some(t) => Some(t),
        None => as_str(at(req, "display_name"@)),
    };
    match t {
        Some(t) if t.len() > 0 => t,
        _ => tool,
    }
}

/// After a request from the engine.
pub open spec fn requested(d: DriverV, v: JsonV, next: u64) -> StepV {
    let id = str_or_empty(at(v, "request_id"@));
    let req = at(v, "request"@);
    let kind = as_str(at(req, "subtype"@));
    if kind == Some("can_use_tool"@) {
        tool_asked(d, id, req, next)
    } else if kind == Some("mcp_message"@) {
        if as_str(at(req, "server_name"@)) != Some("unity"@) {
            write(d, failure_v(id, "unknown MCP server"@), next)
        } else if !d.mcp {
            write(d, failure_v(id, "MCP unavailable"@), next)
        } else {
            StepV {
                d,
                acts: seq![ActionV::CallTool { request_id: id, message: at(req, "message"@) }],
                next,
            }
        }
    } else if kind == Some("request_user_dialog"@) {
        write(d, success_v(id, JsonV::Object(seq![("behavior"@, JsonV::Str("cancelled"@))])), next)
    } else {
        write(d, failure_v(id, "unsupported control request"@), next)
    }
}

/// After the reply to our `initialize`: the session is refused, or it is ready,
/// the settings made before are pushed and the prompts held back are written.
pub open spec fn initialized(d: DriverV, resp: JsonV, next: u64) -> StepV {
    if as_str(at(resp, "subtype"@)) == Some("error"@) {
        let msg = match as_str(at(resp, "error"@)) {
            Some(m) => m,
            None => "initialize failed"@,
        };
        quiet(DriverV { status: "init failed: "@ + msg, ..d }, next)
    } else {
        let n1 = if chosen(d.permission_mode) { after(next) } else { next };
        let n2 = if chosen(d.model) { after(n1) } else { n1 };
        let modes = if chosen(d.permission_mode) {
            seq![ActionV::Write(control_v(next, "set_permission_mode"@, "mode"@, d.permission_mode))]
        } else {
            Seq::empty()
        };
        let models = if chosen(d.model) {
            seq![ActionV::Write(control_v(n1, "set_model"@, "model"@, d.model))]
        } else {
            Seq::empty()
        };
        StepV {
            d: DriverV {
                ready: true,
                outbox: Seq::empty(),
                status: if d.outbox.len() > 0 { "thinking"@ } else { "ready"@ },
                ..d
            },
            acts: modes + models + Seq::new(d.outbox.len(), |i: int| ActionV::Write(d.outbox[i])),
            next: n2,
        }
    }
}

/// With the model the engine reports, unless one is known.
pub open spec fn model_seen(d: DriverV, m: JsonV) -> DriverV {
    match as_str(m) {
        Some(s) if s.len() > 0 && d.model.len() == 0 => DriverV { model: s, ..d },
        _ => d,
    }
}

/// After a message from the engine at a time.
pub open spec fn handled(d: DriverV, v: JsonV, now: u64, next: u64) -> StepV {
    let ty = as_str(at(v, "type"@));
    if ty == Some("control_response"@) {
        let resp = at(v, "response"@);
        if as_str(at(resp, "request_id"@)) == Some(d.init_id) {
            initialized(d, resp, next)
        } else {
            quiet(d, next)
        }
    } else if ty == Some("control_request"@) {
        requested(d, v, next)
    } else if ty == Some("system"@) {
        if as_str(at(v, "subtype"@)) == Some("init"@) {
            let e = match as_str(at(v, "session_id"@)) {
                Some(s) if s.len() > 0 => DriverV { session_id: s, ..d },
                _ => d,
            };
            quiet(model_seen(e, at(v, "model"@)), next)
        } else {
            quiet(d, next)
        }
    } else if ty == Some("assistant"@) {
        let e = DriverV { conv: message_applied(d.conv, "assistant"@, at(at(v, "message"@), "content"@), now), ..d };
        quiet(model_seen(e, at(at(v, "message"@), "model"@)), next)
    } else if ty == Some("user"@) {
        match as_array(at(at(v, "message"@), "content"@)) {
            Some(bs) => quiet(DriverV { conv: results_applied(d.conv, bs, 0, now), ..d }, next),
            None => quiet(d, next),
        }
    } else if ty == Some("result"@) {
        let (e, acts) = next_sent(d);
        if acts.len() > 0 {
            StepV { d: e, acts, next }
        } else {
            quiet(DriverV { status: "ready"@, ..d }, next)
        }
    } else {
        quiet(d, next)
    }
}

/// A live control-protocol session, without its child process.
pub struct Driver {
    conv: Conv,
    status: String,
    pending: Option<Pending>,
    session_id: String,
    remembered: Memory,
    ready: bool,
    outbox: Vec<Json>,
    mcp: bool,
    init_id: String,
    permission_mode: String,
    model: String,
}

impl View for Driver {
    type V = DriverV;

    closed spec fn view(&self) -> DriverV {
        DriverV {
            conv: self.conv@,
            status: self.status@,
            pending: pending_v(self.pending),
            session_id: self.session_id@,
            remembered: self.remembered@,
            ready: self.ready,
            outbox: elems(self.outbox@),
            mcp: self.mcp,
            init_id: self.init_id@,
            permission_mode: self.permission_mode@,
            model: self.model@,
        }
    }
}

fn bump(next: &mut u64) -> (n: u64)
    ensures
        n == *old(next),
        *final(next) == after(*old(next)),
{
    let n: u64 = *next;
    *next = if n == u64::MAX { 0 } else { n + 1 };
    n
}

fn one(j: Json) -> (r: Vec<Action>)
    ensures
        actions_v(r@) == seq![ActionV::Write(j@)],
{
    let mut v: Vec<Action> = Vec::new();
    v.push(Action::Write(j));
    assert(actions_v(v@) =~= seq![ActionV::Write(j@)]);
    v
}

fn none() -> (r: Vec<Action>)
    ensures
        actions_v(r@) == Seq::<ActionV>::empty(),
{
    let v: Vec<Action> = Vec::new();
    assert(actions_v(v@) =~= Seq::<ActionV>::empty());
    v
}

fn push_write(v: &mut Vec<Action>, j: Json)
    ensures
        actions_v(final(v)@) == actions_v(old(v)@).push(ActionV::Write(j@)),
{
    v.push(Action::Write(j));
    assert(actions_v(v@) =~= actions_v(old(v)@).push(ActionV::Write(j@)));
}

fn is_chosen(s: &str) -> (r: bool)
    ensures
        r == chosen(s@),
{
    !s.is_empty() && !same(s, "default")
}

impl Driver {
    /// The conversation is consistent, and a question on show is one of those asked.
    pub closed spec fn wf(&self) -> bool {
        &&& self.conv.wf()
        &&& match self.pending {
            Some(p) => p.wf(),
            None => true,
        }
    }

    /// A session that starts from `seed`, and the request that opens it.
    pub fn new(seed: Conv, mcp: bool, request: u64) -> (r: (Self, Json))
        requires
            seed.wf(),
        ensures
            r.0.wf(),
            r.0@ == (DriverV {
                conv: seed@,
                status: "initializing"@,
                pending: None,
                session_id: Seq::empty(),
                remembered: Map::empty(),
                ready: false,
                outbox: Seq::empty(),
                mcp,
                init_id: "unterm-init-"@ + decimal(request as nat),
                permission_mode: "default"@,
                model: Seq::empty(),
            }),
            r.1@ == initialize_v("unterm-init-"@ + decimal(request as nat)),
    {
        let d = show_u64(request);
        let init_id = join2("unterm-init-", d.as_str());
        let req = obj3(
            "subtype",
            text("initialize"),
            "sdkMcpServers",
            arr1(text("unity")),
            "hooks",
            obj0(),
        );
        let msg = obj3("type", text("control_request"), "request_id", text(init_id.as_str()), "request", req);
        let r = Driver {
            conv: seed,
            status: "initializing".to_owned(),
            pending: None,
            session_id: String::new(),
            remembered: Memory::new(),
            ready: false,
            outbox: Vec::new(),
            mcp,
            init_id,
            permission_mode: "default".to_owned(),
            model: String::new(),
        };
        assert(elems(r.outbox@) =~= Seq::empty());
        (r, msg)
    }

    /// Send a user prompt, or queue it if a turn is already running.
    pub fn send(&mut self, prompt: &str, now: u64, next: &mut u64) -> (r: Vec<Action>)
        requires
            old(self).wf(),
        ensures
            (StepV { d: final(self)@, acts: actions_v(r@), next: *final(next) }) == sent(
                old(self)@,
                prompt@,
                now,
                *old(next),
            ),
            final(self).wf(),
    {
        // A dead session can't accept a turn: its outbox would never be flushed.
        if str_starts_with(self.status.as_str(), "init failed") || same(self.status.as_str(), "closed") {
            return none();
        }
        if self.ready && same(self.status.as_str(), "thinking") {
            self.conv.push_queued(prompt, now);
            return none();
        }
        self.conv.push_user(prompt, now);
        self.status = "thinking".to_owned();
        let line = user_line(prompt);
        if self.ready {
            one(line)
        } else {
            let ghost before = elems(self.outbox@);
            self.outbox.push(line);
            assert(elems(self.outbox@) =~= before.push(line@));
            none()
        }
    }

    /// Fire the oldest queued prompt, if one is waiting: the manual resume for a queue
    /// that was left standing.
    pub fn send_next_queued(&mut self) -> (r: Vec<Action>)
        requires
            old(self).wf(),
        ensures
            (final(self)@, actions_v(r@)) == next_sent(old(self)@),
            final(self).wf(),
    {
        match self.conv.promote_first_queued() {
            Some(prompt) => {
                self.status = "thinking".to_owned();
                one(user_line(prompt.as_str()))
            },
            None => {
                proof {
                    lemma_queued_at(old(self)@.conv.blocks, 0, 0);
                }
                none()
            },
        }
    }

    /// Answer the pending prompt with the clicked option id. For a permission
    /// prompt that's `allow_once`/`allow_always`/`reject_once`/`reject_always`;
    /// for a question it's the chosen option label (or `__skip__`).
    pub fn respond(&mut self, option_id: &str, next: &mut u64) -> (r: Vec<Action>)
        requires
            old(self).wf(),
        ensures
            (StepV { d: final(self)@, acts: actions_v(r@), next: *final(next) }) == responded(
                old(self)@,
                option_id@,
                *old(next),
            ),
            final(self).wf(),
    {
        let p = match self.pending.take() {
            Some(p) => p,
            None => {
                return none();
            },
        };
        match p {
            Pending::Permission { request_id, tool_name, input, .. } => {
                let allow = str_starts_with(option_id, "allow");
                if str_ends_with(option_id, "always") {
                    self.remembered.set(tool_name.as_str(), allow);
                }
                one(permission(request_id.as_str(), allow, &input))
            },
            Pending::Question { request_id, questions, answers, index } => {
                let mut answers = answers;
                let ghost before = pairs(answers@);
                let header = questions[index].header.clone();
                let label = if same(option_id, "__skip__") { "(skipped)".to_owned() } else { option_id.to_owned() };
                answers.push((header, label));
                assert(pairs(answers@) =~= before.push((header@, label@)));
                assert(questions_v(questions@)[index as int].header == header@);
                let n: usize = questions.len();
                if index + 1 < n {
                    // More questions: re-arm the prompt with the next one.
                    self.pending = Some(Pending::Question { request_id, questions, answers, index: index + 1 });
                    none()
                } else {
                    // All answered: the tool is denied with the answers as the
                    // message the model reads and acts on.
                    let msg = answers_message(&answers);
                    one(success(request_id.as_str(), deny(msg.as_str())))
                }
            },
            Pending::Plan { request_id, input } => {
                if same(option_id, "plan_accept") || same(option_id, "plan_default") {
                    // Approve: let ExitPlanMode run, then set the permission mode
                    // the user picked for coding.
                    let mut acts = one(permission(request_id.as_str(), true, &input));
                    let mode = if same(option_id, "plan_accept") { "acceptEdits" } else { "default" };
                    self.permission_mode = mode.to_owned();
                    if self.ready {
                        let n: u64 = bump(next);
                        push_write(&mut acts, control(n, "set_permission_mode", "mode", mode));
                    }
                    assert(actions_v(acts@) =~= responded(old(self)@, option_id@, *old(next)).acts);
                    acts
                } else {
                    // Keep planning: deny so the agent revises and re-presents the plan.
                    one(
                        success(
                            request_id.as_str(),
                            deny(
                                "The user wants to keep planning. Revise the plan based on any feedback and call ExitPlanMode again when ready.",
                            ),
                        ),
                    )
                }
            },
        }
    }

    /// Interrupt the in-flight turn. Does nothing before the session is ready.
    pub fn interrupt(&self, next: &mut u64) -> (r: Vec<Action>)
        ensures
            self@.ready ==> actions_v(r@) == seq![ActionV::Write(interrupt_v(*old(next)))] && *final(next) == after(
                *old(next),
            ),
            !self@.ready ==> r@.len() == 0 && *final(next) == *old(next),
    {
        if !self.ready {
            return Vec::new();
        }
        let n: u64 = bump(next);
        let d = show_u64(n);
        let id = join2("unterm-int-", d.as_str());
        let request = obj1("subtype", text("interrupt"));
        one(obj3("type", text("control_request"), "request_id", Json::Str(id), "request", request))
    }

    /// Set the permission mode (`default`/`plan`/`acceptEdits`/`bypassPermissions`).
    /// Stored, and pushed to the engine now if ready (else applied on init).
    pub fn set_permission_mode(&mut self, mode: &str, next: &mut u64) -> (r: Vec<Action>)
        requires
            old(self).wf(),
        ensures
            (StepV { d: final(self)@, acts: actions_v(r@), next: *final(next) }) == mode_set(
                old(self)@,
                mode@,
                *old(next),
            ),
            final(self).wf(),
    {
        self.permission_mode = mode.to_owned();
        if self.ready {
            let n: u64 = bump(next);
            one(control(n, "set_permission_mode", "mode", mode))
        } else {
            none()
        }
    }

    /// The permission mode.
    pub fn permission_mode(&self) -> (r: String)
        ensures
            r@ == self@.permission_mode,
    {
        self.permission_mode.clone()
    }

    /// Set the model (alias like `opus`/`sonnet`/`haiku`, or empty/`default` to
    /// keep the engine default). Stored, and pushed now if ready (else on init).
    pub fn set_model(&mut self, model: &str, next: &mut u64) -> (r: Vec<Action>)
        requires
            old(self).wf(),
        ensures
            (StepV { d: final(self)@, acts: actions_v(r@), next: *final(next) }) == model_set(
                old(self)@,
                model@,
                *old(next),
            ),
            final(self).wf(),
    {
        self.model = model.to_owned();
        if self.ready && is_chosen(model) {
            let n: u64 = bump(next);
            one(control(n, "set_model", "model", model))
        } else {
            none()
        }
    }

    /// The active model: a user choice, else the resolved model from `system/init`.
    pub fn model(&self) -> (r: String)
        ensures
            r@ == self@.model,
    {
        self.model.clone()
    }

    /// Number of prompts waiting in the follow-up queue.
    pub fn queue_len(&self) -> (r: u32)
        ensures
            r == queued(self@.conv.blocks) as u32,
    {
        self.conv.queued_count() as u32
    }

    /// Cancel the `index`-th queued prompt (0-based among queued blocks).
    pub fn cancel_queued(&mut self, index: u32)
        requires
            old(self).wf(),
        ensures
            final(self)@ == (DriverV {
                conv: without(old(self)@.conv, queued_at(old(self)@.conv.blocks, 0, index as int)),
                ..old(self)@
            }),
            final(self).wf(),
    {
        self.conv.cancel_queued(index as usize);
    }

    /// The transcript at a time, in a locale.
    pub fn transcript_in(&self, locale: Option<&str>, now: u64) -> (r: String)
        ensures
            r@ == serialized_at(self@.conv, locale_v(locale), now),
            labels_plain(self@.conv, locale_v(locale), now),
    {
        self.conv.serialize_in(locale, now)
    }

    /// The transcript at a time, in the machine's locale; which that is, is left open.
    pub fn transcript(&self, now: u64) -> (r: String)
        ensures
            exists|locale: Option<Seq<char>>|
                r@ == #[trigger] serialized_at(self@.conv, locale, now) && labels_plain(self@.conv, locale, now),
    {
        let r = self.conv.serialize(now);
        proof {
            let locale = choose|locale: Option<Seq<char>>|
                r@ == #[trigger] serialized_at(self.conv@, locale, now) && labels_plain(self.conv@, locale, now);
            assert(r@ == serialized_at(self@.conv, locale, now) && labels_plain(self@.conv, locale, now));
        }
        r
    }

    /// The blocks of the transcript, without the separators of lulls.
    pub fn blocks_text(&self) -> (r: String)
        ensures
            r@ == serialized(self@.conv),
    {
        self.conv.blocks_text()
    }

    /// Whether a separator is on show, whose label follows the clock.
    pub fn has_relative_stamp(&self, now: u64) -> (r: bool)
        ensures
            r == has_lull(self@.conv.blocks),
    {
        self.conv.has_relative_stamp(now)
    }

    /// What the session is doing.
    pub fn status(&self) -> (r: String)
        ensures
            r@ == self@.status,
    {
        self.status.clone()
    }

    /// The engine's session id (empty until established).
    pub fn session_id(&self) -> (r: String)
        ensures
            r@ == self@.session_id,
    {
        self.session_id.clone()
    }

    /// The pending prompt as `(title, options)` where each option is
    /// `(id, name, kind)`, or None. A click answers with the id.
    pub fn pending_view(&self) -> (r: Option<(String, Vec<(String, String, String)>)>)
        requires
            self.wf(),
        ensures
            match (r, self@.pending) {
                (Some(v), Some(p)) => (v.0@, choices_v(v.1@)) == prompt_of(p),
                (None, None) => true,
                _ => false,
            },
    {
        match &self.pending {
            Some(p) => Some(p.shown()),
            None => None,
        }
    }

    /// The pending plan's Markdown text, if the current prompt is an `ExitPlanMode`
    /// approval — so the host can render it as a Markdown block (not a plain note).
    pub fn pending_plan(&self) -> (r: Option<String>)
        ensures
            match r {
                Some(s) => plan_of(self@.pending) == Some(s@),
                None => plan_of(self@.pending) is None,
            },
    {
        match &self.pending {
            Some(Pending::Plan { input, .. }) => {
                let p = input.text_at("plan");
                if p.as_str().is_empty() {
                    None
                } else {
                    Some(p)
                }
            },
            _ => None,
        }
    }

    /// Drop a pending permission without answering (used on teardown so a waiting
    /// turn doesn't keep a stale prompt up).
    pub fn clear_pending(&mut self)
        requires
            old(self).wf(),
        ensures
            final(self)@ == (DriverV { pending: None, ..old(self)@ }),
            final(self).wf(),
    {
        self.pending = None;
    }

    /// Note that the engine's output ended.
    pub fn close(&mut self, now: u64)
        requires
            old(self).wf(),
        ensures
            final(self)@ == (DriverV {
                conv: pushed(old(self)@.conv, 'a', "[connection closed]"@, now),
                status: "closed"@,
                ..old(self)@
            }),
            final(self).wf(),
    {
        self.conv.note_closed(now);
        self.status = "closed".to_owned();
    }

    fn see_model(&mut self, m: Option<&str>)
        requires
            old(self).wf(),
        ensures
            final(self)@ == (match m {
                Some(s) if s@.len() > 0 && old(self)@.model.len() == 0 => DriverV { model: s@, ..old(self)@ },
                _ => old(self)@,
            }),
            final(self).wf(),
    {
        if let Some(s) = m {
            if !s.is_empty() && self.model.as_str().is_empty() {
                self.model = s.to_owned();
            }
        }
    }

    fn on_initialized(&mut self, resp: &Json, next: &mut u64) -> (r: Vec<Action>)
        requires
            old(self).wf(),
        ensures
            (StepV { d: final(self)@, acts: actions_v(r@), next: *final(next) }) == initialized(
                old(self)@,
                resp@,
                *old(next),
            ),
            final(self).wf(),
    {
        if resp.is_at("subtype", "error") {
            let msg = match resp.str_at("error") {
                Some(m) => m.to_owned(),
                None => "initialize failed".to_owned(),
            };
            self.status = join2("init failed: ", msg.as_str());
            return none();
        }
        self.ready = true;
        // Apply settings chosen before the engine was ready.
        let mut acts = none();
        if is_chosen(self.permission_mode.as_str()) {
            let n: u64 = bump(next);
            push_write(&mut acts, control(n, "set_permission_mode", "mode", self.permission_mode.as_str()));
        }
        if is_chosen(self.model.as_str()) {
            let n: u64 = bump(next);
            push_write(&mut acts, control(n, "set_model", "model", self.model.as_str()));
        }
        let ghost head = actions_v(acts@);
        let ghost box_v = elems(self.outbox@);
        let had_prompts = self.outbox.len() > 0;
        let mut i: usize = 0;
        while i < self.outbox.len()
            invariant
                i <= self.outbox@.len(),
                box_v == elems(self.outbox@),
                actions_v(acts@) == head + Seq::new(i as nat, |k: int| ActionV::Write(box_v[k])),
            decreases self.outbox@.len() - i,
        {
            let line = self.outbox[i].copy();
            push_write(&mut acts, line);
            i = i + 1;
            assert(actions_v(acts@) =~= head + Seq::new(i as nat, |k: int| ActionV::Write(box_v[k])));
        }
        self.outbox = Vec::new();
        assert(elems(self.outbox@) =~= Seq::empty());
        self.status = if had_prompts { "thinking".to_owned() } else { "ready".to_owned() };
        assert(actions_v(acts@) =~= initialized(old(self)@, resp@, *old(next)).acts);
        acts
    }

    fn on_tool_request(&mut self, id: String, req: &Json) -> (r: Vec<Action>)
        requires
            old(self).wf(),
        ensures
            forall|next: u64|
                (StepV { d: final(self)@, acts: actions_v(r@), next }) == #[trigger] tool_asked(
                    old(self)@,
                    id@,
                    req@,
                    next,
                ),
            final(self).wf(),
    {
        let tool_name = req.text_at("tool_name");
        let input = req.copy_at("input");
        // AskUserQuestion is the agent asking *us*: present the questions and
        // answer via the result, rather than a yes/no permission.
        if same(tool_name.as_str(), "AskUserQuestion") {
            let questions = parse_questions(&input);
            assert(questions_v(questions@).len() == questions@.len());
            if questions.len() == 0 {
                return one(permission(id.as_str(), true, &input));
            }
            let answers: Vec<(String, String)> = Vec::new();
            assert(pairs(answers@) =~= Seq::empty());
            self.pending = Some(Pending::Question { request_id: id, questions, answers, index: 0 });
            return none();
        }
        // ExitPlanMode presents a plan and asks to leave plan mode.
        if same(tool_name.as_str(), "ExitPlanMode") {
            self.pending = Some(Pending::Plan { request_id: id, input });
            return none();
        }
        let title = match req.str_at("title") {
            Some(t) => t.to_owned(),
            None => req.text_at("display_name"),
        };
        let title = if title.as_str().is_empty() { tool_name.clone() } else { title };
        assert(title@ == tool_title(req@, tool_name@));
        // Auto-honor a remembered ("always") decision without bothering the UI.
        match self.remembered.get(tool_name.as_str()) {
            Some(allow) => one(permission(id.as_str(), allow, &input)),
            None => {
                let detail = describe_tool(&input);
                self.pending = Some(Pending::Permission { request_id: id, tool_name, input, title, detail });
                none()
            },
        }
    }

    fn handle_control_request(&mut self, v: &Json) -> (r: Vec<Action>)
        requires
            old(self).wf(),
        ensures
            forall|next: u64|
                (StepV { d: final(self)@, acts: actions_v(r@), next }) == #[trigger] requested(
                    old(self)@,
                    v@,
                    next,
                ),
            final(self).wf(),
    {
        let request_id = v.text_at("request_id");
        let req = v.copy_at("request");
        if req.is_at("subtype", "can_use_tool") {
            let r = self.on_tool_request(request_id, &req);
            assert forall|next: u64|
                (StepV { d: self@, acts: actions_v(r@), next }) == #[trigger] requested(old(self)@, v@, next) by {
                assert(requested(old(self)@, v@, next) == tool_asked(old(self)@, request_id@, req@, next));
            }
            r
        } else if req.is_at("subtype", "mcp_message") {
            if !req.is_at("server_name", "unity") {
                return one(failure(request_id.as_str(), "unknown MCP server"));
            }
            if !self.mcp {
                return one(failure(request_id.as_str(), "MCP unavailable"));
            }
            let message = req.copy_at("message");
            let mut acts: Vec<Action> = Vec::new();
            acts.push(Action::CallTool { request_id, message });
            assert(actions_v(acts@) =~= seq![
                ActionV::CallTool { request_id: request_id@, message: message@ },
            ]);
            acts
        } else if req.is_at("subtype", "request_user_dialog") {
            // Questions are answered through the `can_use_tool` result; decline
            // other dialogs cleanly so nothing hangs.
            one(success(request_id.as_str(), obj1("behavior", text("cancelled"))))
        } else {
            one(failure(request_id.as_str(), "unsupported control request"))
        }
    }

    /// Take one message from the engine.
    pub fn handle_message(&mut self, v: &Json, now: u64, next: &mut u64) -> (r: Vec<Action>)
        requires
            old(self).wf(),
        ensures
            (StepV { d: final(self)@, acts: actions_v(r@), next: *final(next) }) == handled(
                old(self)@,
                v@,
                now,
                *old(next),
            ),
            final(self).wf(),
    {
        if v.is_at("type", "control_response") {
            // The only request whose reply matters is `initialize`.
            let resp = v.copy_at("response");
            if resp.is_at("request_id", self.init_id.as_str()) {
                self.on_initialized(&resp, next)
            } else {
                none()
            }
        } else if v.is_at("type", "control_request") {
            self.handle_control_request(v)
        } else if v.is_at("type", "system") {
            if v.is_at("subtype", "init") {
                if let Some(sid) = v.str_at("session_id") {
                    if !sid.is_empty() {
                        self.session_id = sid.to_owned();
                    }
                }
                self.see_model(v.str_at("model"));
            }
            none()
        } else if v.is_at("type", "assistant") {
            let message = v.copy_at("message");
            let content = message.copy_at("content");
            self.conv.apply_message("assistant", &content, now);
            self.see_model(message.str_at("model"));
            none()
        } else if v.is_at("type", "user") {
            let message = v.copy_at("message");
            let content = message.copy_at("content");
            self.conv.apply_tool_results(&content, now);
            none()
        } else if v.is_at("type", "result") {
            // Turn finished. Send the next queued follow-up prompt as its own turn,
            // else go idle. (An interrupt also ends in a `result`, so the queue
            // survives an interrupt and keeps draining.)
            let acts = self.send_next_queued();
            if acts.len() == 0 {
                self.status = "ready".to_owned();
            }
            assert(actions_v(acts@).len() == acts@.len());
            acts
        } else {
            none()
        }
    }

    /// Take one line of the engine's output. A blank line and one that is no JSON
    /// value are passed over; the result says whether the line was read.
    pub fn handle_line(&mut self, line: &str, now: u64, next: &mut u64) -> (r: (Vec<Action>, bool))
        requires
            old(self).wf(),
        ensures
            (StepV { d: final(self)@, acts: actions_v(r.0@), next: *final(next) }) == (if trim(line@).len() == 0 {
                quiet(old(self)@, *old(next))
            } else {
                match json::read(line@) {
                    Some(v) => handled(old(self)@, v, now, *old(next)),
                    None => quiet(old(self)@, *old(next)),
                }
            }),
            r.1 == (trim(line@).len() == 0 || json::read(line@) is Some),
            final(self).wf(),
    {
        let t = trim_str(line);
        if t.as_str().is_empty() {
            return (none(), true);
        }
        match json::parse(line) {
            Some(v) => (self.handle_message(&v, now, next), true),
            None => (none(), false),
        }
    }
}


// ---------------------------------------------------------------------------
// Resuming
// ---------------------------------------------------------------------------

/// The text of an optional string.
pub open spec fn opt_text(s: Option<String>) -> Option<Seq<char>> {
    match s {
        Some(t) => Some(t@),
        None => None,
    }
}

/// When a record of a log was written, in unix seconds; 0 where that is unknown.
pub open spec fn record_stamp(v: JsonV) -> u64 {
    iso_secs(encode_utf8(str_or_empty(at(v, "timestamp"@)))) as u64
}

/// A conversation and the directory it ran in, after one more record of its log.
pub open spec fn record_applied(c: ConvV, cwd: Option<Seq<char>>, v: JsonV) -> (ConvV, Option<Seq<char>>) {
    let dir = match cwd {
        Some(d) => Some(d),
        None => match as_str(at(v, "cwd"@)) {
            Some(d) if d.len() > 0 => Some(d),
            _ => None,
        },
    };
    let role = str_or_empty(at(v, "type"@));
    if role == "user"@ || role == "assistant"@ {
        (message_applied(c, role, at(at(v, "message"@), "content"@), record_stamp(v)), dir)
    } else {
        (c, dir)
    }
}

/// A conversation and its directory after the lines of its log from the `i`-th on:
/// blank lines and lines that are no JSON value are passed over.
pub open spec fn log_applied(ls: Seq<Seq<char>>, i: int, c: ConvV, cwd: Option<Seq<char>>) -> (
    ConvV,
    Option<Seq<char>>,
)
    decreases ls.len() - i,
{
    if i < 0 || i >= ls.len() {
        (c, cwd)
    } else if trim(ls[i]).len() == 0 {
        log_applied(ls, i + 1, c, cwd)
    } else {
        match json::read(ls[i]) {
            Some(v) => {
                let (c1, d1) = record_applied(c, cwd, v);
                log_applied(ls, i + 1, c1, d1)
            },
            None => log_applied(ls, i + 1, c, cwd),
        }
    }
}

/// The conversation without blocks.
pub open spec fn no_conv() -> ConvV {
    ConvV { blocks: Seq::empty(), tools: Seq::empty(), hidden: Seq::empty() }
}

/// Apply one record of a session's log: the first directory seen is kept, and only
/// conversational records carry a message.
pub fn apply_record(conv: &mut Conv, cwd: &mut Option<String>, v: &Json)
    requires
        old(conv).wf(),
    ensures
        (final(conv)@, opt_text(*final(cwd))) == record_applied(old(conv)@, opt_text(*old(cwd)), v@),
        final(conv).wf(),
{
    if cwd.is_none() {
        if let Some(d) = v.str_at("cwd") {
            if !d.is_empty() {
                *cwd = Some(d.to_owned());
            }
        }
    }
    let role = v.text_at("type");
    if same(role.as_str(), "user") || same(role.as_str(), "assistant") {
        let message = v.copy_at("message");
        let content = message.copy_at("content");
        let written = v.text_at("timestamp");
        let stamp: u64 = parse_iso8601_secs(written.as_str());
        conv.apply_message(role.as_str(), &content, stamp);
    }
}

/// Rebuild a [`Conv`] from a prior session's log (one record per line), since
/// resuming retains context but does not replay turns as stream events. Also
/// returns the directory the session recorded, so that the resume can run there.
/// Without a session there is nothing to rebuild.
pub fn reconstruct_transcript(session_id: &str, log: &str) -> (r: (Conv, Option<String>))
    ensures
        r.0.wf(),
        (r.0@, opt_text(r.1)) == (if session_id@.len() == 0 {
            (no_conv(), None)
        } else {
            log_applied(lines(log@), 0, no_conv(), None)
        }),
{
    let mut conv = Conv::new();
    let mut cwd: Option<String> = None;
    if session_id.is_empty() {
        return (conv, cwd);
    }
    let ls = lines_of(log);
    let ghost all = lines(log@);
    assert(texts(ls@).len() == ls@.len());
    let mut i: usize = 0;
    while i < ls.len()
        invariant
            i <= ls@.len(),
            all == texts(ls@),
            conv.wf(),
            log_applied(all, 0, no_conv(), None) == log_applied(all, i as int, conv@, opt_text(cwd)),
        decreases ls@.len() - i,
    {
        assert(all[i as int] == ls@[i as int]@);
        let t = trim_str(ls[i].as_str());
        if !t.as_str().is_empty() {
            if let Some(v) = json::parse(ls[i].as_str()) {
                apply_record(&mut conv, &mut cwd, &v);
            }
        }
        i = i + 1;
    }
    (conv, cwd)
}

/// The user's home directory: the first variable unless it is unset or empty, else
/// the second, else nothing.
pub fn home_dir(home: Option<&str>, profile: Option<&str>) -> (r: String)
    ensures
        r@ == match home {
            Some(h) if h@.len() > 0 => h@,
            _ => match profile {
                Some(p) => p@,
                None => Seq::empty(),
            },
        },
{
    match home {
        Some(h) if !h.is_empty() => h.to_owned(),
        _ => match profile {
            Some(p) => p.to_owned(),
            None => String::new(),
        },
    }
}

// ---------------------------------------------------------------------------
// Laws
// ---------------------------------------------------------------------------

/// A decision to always allow or deny a tool is honored from then on: the next
/// request for that tool is answered the same way, and nobody is asked.
pub proof fn law_always_is_remembered(
    d: DriverV,
    option: Seq<char>,
    next: u64,
    id: Seq<char>,
    req: JsonV,
    later: u64,
)
    requires
        d.pending matches Some(PendingV::Permission { .. }),
        ends_with(option, "always"@),
        str_or_empty(at(req, "tool_name"@)) == d.pending->0->tool_name,
        d.pending->0->tool_name != "AskUserQuestion"@,
        d.pending->0->tool_name != "ExitPlanMode"@,
    ensures
        tool_asked(responded(d, option, next).d, id, req, later) == write(
            responded(d, option, next).d,
            permission_v(id, starts_with(option, "allow"@), at(req, "input"@)),
            later,
        ),
        responded(d, option, next).d.pending is None,
{
}

/// A dead session takes no turn: a prompt changes nothing and nothing is written.
pub proof fn law_dead_session_drops_prompts(d: DriverV, prompt: Seq<char>, now: u64, next: u64)
    requires
        dead(d.status),
    ensures
        sent(d, prompt, now, next) == quiet(d, next),
{
}

/// Every request from the engine is answered at once, handed to the tool server,
/// or put to the user under its id; never more than one of these.
pub proof fn law_every_request_is_taken_up(d: DriverV, v: JsonV, next: u64)
    ensures
        ({
            let s = requested(d, v, next);
            let id = str_or_empty(at(v, "request_id"@));
            ||| s.d == d && s.acts.len() == 1
            ||| s.acts.len() == 0 && s.d == (DriverV { pending: s.d.pending, ..d }) && match s.d.pending {
                Some(PendingV::Permission { request_id, .. }) => request_id == id,
                Some(PendingV::Question { request_id, .. }) => request_id == id,
                Some(PendingV::Plan { request_id, .. }) => request_id == id,
                None => false,
            }
        }),
{
}

/// Prompts sent before the session is ready are written in the order they came
/// once it is, after the settings.
pub proof fn law_held_prompts_are_written_in_order(
    d: DriverV,
    p: Seq<char>,
    q: Seq<char>,
    resp: JsonV,
    now: u64,
    next: u64,
)
    requires
        !d.ready,
        !dead(d.status),
        d.outbox.len() == 0,
        as_str(at(resp, "subtype"@)) != Some("error"@),
    ensures
        ({
            let e = sent(sent(d, p, now, next).d, q, now, next).d;
            let s = initialized(e, resp, next);
            &&& s.d.ready && s.d.status == "thinking"@ && s.d.outbox.len() == 0
            &&& s.acts.len() >= 2
            &&& s.acts[s.acts.len() - 2] == ActionV::Write(user_v(p))
            &&& s.acts[s.acts.len() - 1] == ActionV::Write(user_v(q))
        }),
{
    let e1 = sent(d, p, now, next).d;
    assert(!dead(e1.status)) by {
        reveal_strlit("thinking");
        reveal_strlit("init failed");
        reveal_strlit("closed");
        if starts_with("thinking"@, "init failed"@) {
            assert("thinking"@.len() < "init failed"@.len());
        }
        assert("thinking"@.len() != "closed"@.len());
    }
    let e = sent(e1, q, now, next).d;
    assert(e.outbox =~= seq![user_v(p), user_v(q)]);
}

proof fn lemma_queued_at(blocks: Seq<(char, Seq<char>, u64)>, i: int, n: int)
    requires
        0 <= i <= blocks.len(),
        n >= 0,
    ensures
        i <= queued_at(blocks, i, n) <= blocks.len(),
        queued_at(blocks, i, n) < blocks.len() ==> blocks[queued_at(blocks, i, n)].0 == 'q',
    decreases blocks.len() - i,
{
    if i < blocks.len() {
        lemma_queued_at(blocks, i + 1, if blocks[i].0 == 'q' && n > 0 { n - 1 } else { n });
    }
}

proof fn lemma_first_queued(blocks: Seq<(char, Seq<char>, u64)>, i: int)
    requires
        0 <= i <= blocks.len(),
    ensures
        forall|k: int| i <= k < queued_at(blocks, i, 0) ==> (#[trigger] blocks[k]).0 != 'q',
    decreases blocks.len() - i,
{
    if i < blocks.len() && blocks[i].0 != 'q' {
        lemma_first_queued(blocks, i + 1);
        assert(queued_at(blocks, i, 0) == queued_at(blocks, i + 1, 0));
    }
}

proof fn lemma_queued_update(blocks: Seq<(char, Seq<char>, u64)>, i: int, b: (char, Seq<char>, u64))
    requires
        0 <= i < blocks.len(),
        blocks[i].0 == 'q',
        b.0 != 'q',
    ensures
        queued(blocks.update(i, b)) + 1 == queued(blocks),
    decreases blocks.len(),
{
    let c = blocks.update(i, b);
    if i == blocks.len() - 1 {
        assert(c.drop_last() =~= blocks.drop_last());
    } else {
        assert(c.drop_last() =~= blocks.drop_last().update(i, b));
        lemma_queued_update(blocks.drop_last(), i, b);
    }
}

/// Firing the next queued prompt takes the oldest: it is written and becomes a turn, its
/// place in the conversation and its stamp unchanged, and one fewer is queued. With none
/// queued nothing changes and nothing is written.
pub proof fn law_oldest_queued_is_fired(d: DriverV)
    ensures
        ({
            let (e, acts) = next_sent(d);
            let i = queued_at(d.conv.blocks, 0, 0);
            if queued(d.conv.blocks) == 0 {
                acts.len() == 0 && e == d
            } else {
                let b = d.conv.blocks[i];
                &&& 0 <= i < d.conv.blocks.len() && b.0 == 'q'
                &&& forall|k: int| 0 <= k < i ==> (#[trigger] d.conv.blocks[k]).0 != 'q'
                &&& acts == seq![ActionV::Write(user_v(b.1))]
                &&& e.conv.blocks == d.conv.blocks.update(i, ('u', b.1, b.2))
                &&& queued(e.conv.blocks) + 1 == queued(d.conv.blocks)
                &&& e.status == "thinking"@
            }
        }),
{
    let blocks = d.conv.blocks;
    lemma_queued_at(blocks, 0, 0);
    lemma_first_queued(blocks, 0);
    let i = queued_at(blocks, 0, 0);
    if i < blocks.len() {
        lemma_queued_update(blocks, i, ('u', blocks[i].1, blocks[i].2));
    } else {
        lemma_none_queued(blocks);
    }
}

/// When a turn ends, the oldest queued prompt is fired as the next one. With none
/// queued the session is ready.
pub proof fn law_queue_is_first_in_first_out(d: DriverV, v: JsonV, now: u64, next: u64)
    requires
        as_str(at(v, "type"@)) == Some("result"@),
    ensures
        handled(d, v, now, next) == (if queued(d.conv.blocks) == 0 {
            quiet(DriverV { status: "ready"@, ..d }, next)
        } else {
            StepV { d: next_sent(d).0, acts: next_sent(d).1, next }
        }),
{
    law_oldest_queued_is_fired(d);
    reveal_strlit("result");
    reveal_strlit("control_response");
    reveal_strlit("control_request");
    reveal_strlit("system");
    reveal_strlit("assistant");
    reveal_strlit("user");
    assert("result"@.len() == 6 && "system"@[0] == 's' && "result"@[0] == 'r');
}

proof fn lemma_none_queued(blocks: Seq<(char, Seq<char>, u64)>)
    requires
        forall|k: int| 0 <= k < blocks.len() ==> (#[trigger] blocks[k]).0 != 'q',
    ensures
        queued(blocks) == 0,
    decreases blocks.len(),
{
    if blocks.len() > 0 {
        assert forall|k: int| 0 <= k < blocks.len() - 1 implies (#[trigger] blocks.drop_last()[k]).0 != 'q' by {
            assert(blocks[k].0 != 'q');
        }
        lemma_none_queued(blocks.drop_last());
    }
}

/// The questions of a set are put one after the other, and answering the last one
/// sends every answer in one reply.
pub proof fn law_last_answer_sends_all(d: DriverV, option: Seq<char>, next: u64)
    requires
        d.pending matches Some(PendingV::Question { .. }),
        pending_wf(d.pending->0),
    ensures
        ({
            let s = responded(d, option, next);
            let qs = d.pending->0->questions;
            let i = d.pending->0->index;
            if i + 1 < qs.len() {
                &&& s.acts.len() == 0
                &&& s.d.pending matches Some(PendingV::Question { questions, answers, index, .. })
                &&& questions == qs && index == i + 1 && answers.len() == d.pending->0->answers.len() + 1
            } else {
                s.acts.len() == 1 && s.d.pending is None
            }
        }),
{
}

// ---------------------------------------------------------------------------
// What is written to the engine, read as the engine reads it
// ---------------------------------------------------------------------------

/// The result that a message carries as a successful reply to the request `id`; nothing
/// where it is no such reply.
pub open spec fn replied(m: JsonV, id: Seq<char>) -> Option<JsonV> {
    let r = at(m, "response"@);
    if at(m, "type"@) == JsonV::Str("control_response"@) && at(r, "subtype"@) == JsonV::Str("success"@) && at(
        r,
        "request_id"@,
    ) == JsonV::Str(id) {
        Some(at(r, "response"@))
    } else {
        None
    }
}

/// The reason that a message gives for refusing the request `id`; nothing where it does
/// not refuse it.
pub open spec fn refused(m: JsonV, id: Seq<char>) -> Option<JsonV> {
    let r = at(m, "response"@);
    if at(m, "type"@) == JsonV::Str("control_response"@) && at(r, "subtype"@) == JsonV::Str("error"@) && at(
        r,
        "request_id"@,
    ) == JsonV::Str(id) {
        Some(at(r, "error"@))
    } else {
        None
    }
}

/// Whether a message lets the tool of the request `id` run, on `input`.
pub open spec fn lets_run(m: JsonV, id: Seq<char>, input: JsonV) -> bool {
    match replied(m, id) {
        Some(r) => at(r, "behavior"@) == JsonV::Str("allow"@) && at(r, "updatedInput"@) == input,
        None => false,
    }
}

/// Whether a message keeps the tool of the request `id` from running, and says `why`.
pub open spec fn keeps_from_running(m: JsonV, id: Seq<char>, why: Seq<char>) -> bool {
    match replied(m, id) {
        Some(r) => at(r, "behavior"@) == JsonV::Str("deny"@) && at(r, "message"@) == JsonV::Str(why),
        None => false,
    }
}

/// Whether a message hands the engine a prompt.
pub open spec fn prompts(m: JsonV, prompt: Seq<char>) -> bool {
    &&& at(m, "type"@) == JsonV::Str("user"@)
    &&& at(at(m, "message"@), "role"@) == JsonV::Str("user"@)
    &&& match at(at(m, "message"@), "content"@) {
        JsonV::Array(parts) => parts.len() == 1 && at(parts[0], "type"@) == JsonV::Str("text"@) && at(
            parts[0],
            "text"@,
        ) == JsonV::Str(prompt),
        _ => false,
    }
}

/// Whether a message asks the engine to set `key` to `value`, by the request `subtype`.
pub open spec fn asks_to_set(m: JsonV, subtype: Seq<char>, key: Seq<char>, value: Seq<char>) -> bool {
    &&& at(m, "type"@) == JsonV::Str("control_request"@)
    &&& at(at(m, "request"@), "subtype"@) == JsonV::Str(subtype)
    &&& at(at(m, "request"@), key) == JsonV::Str(value)
}

/// The only thing that a step asks for, where it is to write a message.
pub open spec fn only_write(acts: Seq<ActionV>) -> Option<JsonV> {
    if acts.len() == 1 {
        match acts[0] {
            ActionV::Write(m) => Some(m),
            _ => None,
        }
    } else {
        None
    }
}

proof fn lemma_reply_keys()
    ensures
        "type"@ != "response"@,
        "subtype"@ != "request_id"@,
        "subtype"@ != "response"@,
        "request_id"@ != "response"@,
        "subtype"@ != "error"@,
        "request_id"@ != "error"@,
        "behavior"@ != "updatedInput"@,
        "behavior"@ != "message"@,
        "allow"@ != "deny"@,
        "success"@ != "error"@,
{
    reveal_strlit("type");
    reveal_strlit("response");
    reveal_strlit("subtype");
    reveal_strlit("request_id");
    reveal_strlit("error");
    reveal_strlit("behavior");
    reveal_strlit("updatedInput");
    reveal_strlit("message");
    reveal_strlit("allow");
    reveal_strlit("deny");
    reveal_strlit("success");
    assert("type"@.len() == 4 && "response"@.len() == 8 && "subtype"@.len() == 7 && "request_id"@.len() == 10);
    assert("error"@.len() == 5 && "behavior"@.len() == 8 && "updatedInput"@.len() == 12 && "message"@.len() == 7);
    assert("allow"@.len() == 5 && "deny"@.len() == 4 && "success"@.len() == 7);
}

proof fn lemma_member2(a: (Seq<char>, JsonV), b: (Seq<char>, JsonV))
    requires
        a.0 != b.0,
    ensures
        at(JsonV::Object(seq![a, b]), a.0) == a.1,
        at(JsonV::Object(seq![a, b]), b.0) == b.1,
{
    reveal_with_fuel(json::member, 3);
    assert(seq![a, b].skip(1) =~= seq![b]);
}

proof fn lemma_member3(a: (Seq<char>, JsonV), b: (Seq<char>, JsonV), c: (Seq<char>, JsonV))
    requires
        a.0 != b.0,
        a.0 != c.0,
        b.0 != c.0,
    ensures
        at(JsonV::Object(seq![a, b, c]), a.0) == a.1,
        at(JsonV::Object(seq![a, b, c]), b.0) == b.1,
        at(JsonV::Object(seq![a, b, c]), c.0) == c.1,
{
    reveal_with_fuel(json::member, 4);
    assert(seq![a, b, c].skip(1) =~= seq![b, c]);
    assert(seq![b, c].skip(1) =~= seq![c]);
}

proof fn lemma_replied(id: Seq<char>, response: JsonV)
    ensures
        replied(success_v(id, response), id) == Some(response),
{
    lemma_reply_keys();
    let inner = JsonV::Object(
        seq![("subtype"@, JsonV::Str("success"@)), ("request_id"@, JsonV::Str(id)), ("response"@, response)],
    );
    lemma_member2(("type"@, JsonV::Str("control_response"@)), ("response"@, inner));
    lemma_member3(("subtype"@, JsonV::Str("success"@)), ("request_id"@, JsonV::Str(id)), ("response"@, response));
}

proof fn lemma_refused(id: Seq<char>, why: Seq<char>)
    ensures
        refused(failure_v(id, why), id) == Some(JsonV::Str(why)),
{
    lemma_reply_keys();
    let inner = JsonV::Object(
        seq![("subtype"@, JsonV::Str("error"@)), ("request_id"@, JsonV::Str(id)), ("error"@, JsonV::Str(why))],
    );
    lemma_member2(("type"@, JsonV::Str("control_response"@)), ("response"@, inner));
    lemma_member3(("subtype"@, JsonV::Str("error"@)), ("request_id"@, JsonV::Str(id)), ("error"@, JsonV::Str(why)));
}

proof fn lemma_decided(id: Seq<char>, input: JsonV, why: Seq<char>)
    ensures
        lets_run(success_v(id, allow_v(input)), id, input),
        keeps_from_running(success_v(id, deny_v(why)), id, why),
{
    lemma_reply_keys();
    lemma_replied(id, allow_v(input));
    lemma_replied(id, deny_v(why));
    lemma_member2(("behavior"@, JsonV::Str("allow"@)), ("updatedInput"@, input));
    lemma_member2(("behavior"@, JsonV::Str("deny"@)), ("message"@, JsonV::Str(why)));
}

proof fn lemma_asks_to_set(n: u64, subtype: Seq<char>, key: Seq<char>, value: Seq<char>)
    requires
        key != "subtype"@,
    ensures
        asks_to_set(control_v(n, subtype, key, value), subtype, key, value),
{
    reveal_strlit("type");
    reveal_strlit("request_id");
    reveal_strlit("request");
    assert("type"@.len() == 4 && "request_id"@.len() == 10 && "request"@.len() == 7);
    let inner = JsonV::Object(seq![("subtype"@, JsonV::Str(subtype)), (key, JsonV::Str(value))]);
    let id = "unterm-ctl-"@ + decimal(n as nat);
    lemma_member3(("type"@, JsonV::Str("control_request"@)), ("request_id"@, JsonV::Str(id)), ("request"@, inner));
    lemma_member2(("subtype"@, JsonV::Str(subtype)), (key, JsonV::Str(value)));
}

/// The request that interrupts, read as the engine reads it.
pub proof fn lemma_interrupts(n: u64)
    ensures
        at(interrupt_v(n), "type"@) == JsonV::Str("control_request"@),
        at(at(interrupt_v(n), "request"@), "subtype"@) == JsonV::Str("interrupt"@),
{
    reveal_strlit("type");
    reveal_strlit("request_id");
    reveal_strlit("request");
    assert("type"@.len() == 4 && "request_id"@.len() == 10 && "request"@.len() == 7);
    let inner = JsonV::Object(seq![("subtype"@, JsonV::Str("interrupt"@))]);
    let id = "unterm-int-"@ + decimal(n as nat);
    lemma_member3(("type"@, JsonV::Str("control_request"@)), ("request_id"@, JsonV::Str(id)), ("request"@, inner));
    reveal_with_fuel(json::member, 2);
}

proof fn lemma_prompts(prompt: Seq<char>)
    ensures
        prompts(user_v(prompt), prompt),
{
    reveal_with_fuel(json::member, 5);
    reveal_strlit("type");
    reveal_strlit("session_id");
    reveal_strlit("message");
    reveal_strlit("role");
    reveal_strlit("content");
    reveal_strlit("text");
    assert("type"@.len() == 4 && "session_id"@.len() == 10 && "message"@.len() == 7);
    assert("role"@.len() == 4 && "content"@.len() == 7);
    assert("type"@[0] == 't' && "text"@[1] == 'e' && "type"@[1] == 'y');
    let part = JsonV::Object(seq![("type"@, JsonV::Str("text"@)), ("text"@, JsonV::Str(prompt))]);
    let content = JsonV::Array(seq![part]);
    let message = JsonV::Object(seq![("role"@, JsonV::Str("user"@)), ("content"@, content)]);
    lemma_member2(("type"@, JsonV::Str("text"@)), ("text"@, JsonV::Str(prompt)));
    lemma_member2(("role"@, JsonV::Str("user"@)), ("content"@, content));
    let o = seq![
        ("type"@, JsonV::Str("user"@)),
        ("session_id"@, JsonV::Str(""@)),
        ("message"@, message),
        ("parent_tool_use_id"@, JsonV::Null),
    ];
    assert(o.skip(1)[0] == o[1]);
    assert(o.skip(1).skip(1)[0] == o[2]);
    assert(user_v(prompt) == JsonV::Object(o));
}

proof fn lemma_permission_options()
    ensures
        starts_with("allow_once"@, "allow"@) && !ends_with("allow_once"@, "always"@),
        starts_with("allow_always"@, "allow"@) && ends_with("allow_always"@, "always"@),
        !starts_with("reject_once"@, "allow"@) && !ends_with("reject_once"@, "always"@),
        !starts_with("reject_always"@, "allow"@) && ends_with("reject_always"@, "always"@),
{
    reveal_strlit("allow");
    reveal_strlit("always");
    reveal_strlit("allow_once");
    reveal_strlit("allow_always");
    reveal_strlit("reject_once");
    reveal_strlit("reject_always");
    assert("allow_once"@.take(5) =~= "allow"@);
    assert("allow_always"@.take(5) =~= "allow"@);
    assert("allow_always"@.skip(6) =~= "always"@);
    assert("reject_always"@.skip(7) =~= "always"@);
    assert("reject_once"@.take(5)[0] == 'r' && "allow"@[0] == 'a' && "reject_always"@.take(5)[0] == 'r');
    assert("allow_once"@.skip(4)[5] == 'e' && "reject_once"@.skip(5)[5] == 'e' && "always"@[5] == 's');
}

/// The tool of a permission request runs, on the input it was asked for, exactly when
/// the user chose one of the two options that allow it; chosen one of the two that deny
/// it, it is kept from running. One message says so, to the request that was pending.
/// The options that say "always" are remembered for the tool, the others leave what is
/// remembered as it was. Nothing else of the session changes.
pub proof fn law_permission_is_answered_as_chosen(d: DriverV, option: Seq<char>, next: u64)
    requires
        d.pending matches Some(PendingV::Permission { .. }),
        option == "allow_once"@ || option == "allow_always"@ || option == "reject_once"@ || option == "reject_always"@,
    ensures
        ({
            let s = responded(d, option, next);
            let id = d.pending->0->Permission_request_id;
            let input = d.pending->0->Permission_input;
            let tool = d.pending->0->tool_name;
            &&& only_write(s.acts) is Some
            &&& option == "allow_once"@ || option == "allow_always"@ ==> lets_run(only_write(s.acts)->0, id, input)
            &&& option == "reject_once"@ || option == "reject_always"@ ==> keeps_from_running(
                only_write(s.acts)->0,
                id,
                "User denied the request."@,
            )
            &&& option == "allow_once"@ || option == "reject_once"@ ==> s.d.remembered == d.remembered
            &&& option == "allow_always"@ ==> s.d.remembered == d.remembered.insert(tool, true)
            &&& option == "reject_always"@ ==> s.d.remembered == d.remembered.insert(tool, false)
            &&& s.d == (DriverV { pending: None, remembered: s.d.remembered, ..d })
            &&& s.next == next
        }),
{
    lemma_permission_options();
    lemma_decided(
        d.pending->0->Permission_request_id,
        d.pending->0->Permission_input,
        "User denied the request."@,
    );
    reveal_strlit("allow_once");
    reveal_strlit("allow_always");
    reveal_strlit("reject_once");
    reveal_strlit("reject_always");
    assert("allow_once"@.len() == 10 && "allow_always"@.len() == 12);
    assert("reject_once"@.len() == 11 && "reject_always"@.len() == 13);
}

/// A message cannot both let a tool run and keep it from running.
pub proof fn law_decisions_exclude_each_other(m: JsonV, id: Seq<char>, input: JsonV, why: Seq<char>)
    ensures
        !(lets_run(m, id, input) && keeps_from_running(m, id, why)),
{
    lemma_reply_keys();
}

/// A permission prompt offers four buttons, by their names: what allows the tool now and
/// always, what denies it now and always. An option's id and kind are the same.
pub proof fn law_permission_buttons(p: PendingV)
    requires
        p is Permission,
    ensures
        ({
            let b = prompt_of(p).1;
            &&& b.len() == 4
            &&& b[0].name == "Allow"@ && b[0].id == "allow_once"@
            &&& b[1].name == "Always allow"@ && b[1].id == "allow_always"@
            &&& b[2].name == "Deny"@ && b[2].id == "reject_once"@
            &&& b[3].name == "Always deny"@ && b[3].id == "reject_always"@
            &&& forall|i: int| 0 <= i < 4 ==> (#[trigger] b[i]).kind == b[i].id
        }),
{
}

/// A permission prompt names the tool and, on a line of its own, what it would do.
pub proof fn law_permission_text(p: PendingV)
    requires
        p is Permission,
    ensures
        ({
            let asked = "Permission requested: "@ + p->title;
            prompt_of(p).0 == (if p->detail.len() == 0 {
                asked
            } else {
                asked + "\n"@ + p->detail
            })
        }),
{
}

/// A question offers its options in their order, each answered with its label, and a
/// last button to skip it.
pub proof fn law_question_buttons(p: PendingV)
    requires
        p is Question,
        pending_wf(p),
    ensures
        ({
            let q = p->questions[p->index];
            let b = prompt_of(p).1;
            let n = q.options.len() as int;
            &&& b.len() == n + 1
            &&& forall|i: int| 0 <= i < n ==> (#[trigger] b[i]).id == q.options[i].label && b[i].name == q.options[i].label
            &&& b[n].id == "__skip__"@ && b[n].name == "Skip"@
        }),
{
}

/// The prompt of a plan offers to approve it, with edits accepted or asked for, and to
/// go on planning.
pub proof fn law_plan_buttons(p: PendingV)
    requires
        p is Plan,
    ensures
        ({
            let b = prompt_of(p).1;
            &&& b.len() == 3
            &&& b[0].name == "Yes, and auto-accept edits"@ && b[0].id == "plan_accept"@
            &&& b[1].name == "Yes, and manually approve edits"@ && b[1].id == "plan_default"@
            &&& b[2].name == "No, keep planning"@ && b[2].id == "plan_reject"@
        }),
{
}

/// An approved plan is let run on its own input, and then coding starts in the mode that
/// was chosen: edits accepted, or asked for. A plan that is not approved is sent back
/// for revision, and the mode stays.
pub proof fn law_plan_is_answered_as_chosen(d: DriverV, option: Seq<char>, next: u64)
    requires
        d.pending matches Some(PendingV::Plan { .. }),
    ensures
        ({
            let s = responded(d, option, next);
            let id = d.pending->0->Plan_request_id;
            let input = d.pending->0->Plan_input;
            let mode = if option == "plan_accept"@ { "acceptEdits"@ } else { "default"@ };
            if option == "plan_accept"@ || option == "plan_default"@ {
                &&& s.acts.len() == (if d.ready { 2int } else { 1 })
                &&& s.acts[0] matches ActionV::Write(m) && lets_run(m, id, input)
                &&& d.ready ==> (s.acts[1] matches ActionV::Write(m) && asks_to_set(
                    m,
                    "set_permission_mode"@,
                    "mode"@,
                    mode,
                ))
                &&& s.d == (DriverV { pending: None, permission_mode: mode, ..d })
            } else {
                &&& only_write(s.acts) is Some
                &&& replied(only_write(s.acts)->0, id) matches Some(r) && at(r, "behavior"@) == JsonV::Str("deny"@)
                &&& s.d == (DriverV { pending: None, ..d })
            }
        }),
{
    let id = d.pending->0->Plan_request_id;
    lemma_decided(id, d.pending->0->Plan_input, keep_planning());
    reveal_strlit("mode");
    reveal_strlit("subtype");
    assert("mode"@.len() == 4 && "subtype"@.len() == 7);
    lemma_asks_to_set(next, "set_permission_mode"@, "mode"@, "acceptEdits"@);
    lemma_asks_to_set(next, "set_permission_mode"@, "mode"@, "default"@);
    let s = responded(d, option, next);
    if option != "plan_accept"@ && option != "plan_default"@ {
        assert(keeps_from_running(only_write(s.acts)->0, id, keep_planning()));
    }
}

/// An answer is kept with its question's header: the label that was clicked, or that the
/// question was skipped. After the last one the agent is told all of them, in the reply
/// to its request; before that the next question is put and nothing is written.
pub proof fn law_answers_are_collected(d: DriverV, option: Seq<char>, next: u64)
    requires
        d.pending matches Some(PendingV::Question { .. }),
        pending_wf(d.pending->0),
    ensures
        ({
            let s = responded(d, option, next);
            let id = d.pending->0->Question_request_id;
            let qs = d.pending->0->questions;
            let i = d.pending->0->index;
            let label = if option == "__skip__"@ { "(skipped)"@ } else { option };
            let all = d.pending->0->answers.push((qs[i].header, label));
            if i + 1 < qs.len() {
                &&& s.acts.len() == 0
                &&& s.d == (DriverV { pending: s.d.pending, ..d })
                &&& s.d.pending matches Some(PendingV::Question { request_id, questions, answers, index })
                &&& request_id == id && questions == qs && answers == all && index == i + 1
            } else {
                &&& only_write(s.acts) is Some
                &&& keeps_from_running(only_write(s.acts)->0, id, answer_text(all))
                &&& s.d == (DriverV { pending: None, ..d })
            }
        }),
{
    let qs = d.pending->0->questions;
    let i = d.pending->0->index;
    let label = if option == "__skip__"@ { "(skipped)"@ } else { option };
    lemma_decided(
        d.pending->0->Question_request_id,
        JsonV::Null,
        answer_text(d.pending->0->answers.push((qs[i].header, label))),
    );
}

/// What the agent is told of the answers has a line for each, in their order: the
/// header, if there is one, and the answer.
pub proof fn law_every_answer_is_told(answers: Seq<(Seq<char>, Seq<char>)>, header: Seq<char>, label: Seq<char>)
    ensures
        ({
            let line = if header.len() == 0 {
                "- "@ + label + "\n"@
            } else {
                "- "@ + header + ": "@ + label + "\n"@
            };
            let start = "The user answered your question(s):\n"@;
            let end = "Proceed with these answers."@;
            let told = answer_text(answers);
            let n = told.len() - end.len();
            &&& answer_text(Seq::empty()) == start + end
            &&& told.skip(n) == end
            &&& answer_text(answers.push((header, label))) == told.take(n) + line + end
        }),
{
    let line = if header.len() == 0 {
        "- "@ + label + "\n"@
    } else {
        "- "@ + header + ": "@ + label + "\n"@
    };
    let before = answer_lines(answers, 0);
    lemma_answer_lines(answers, (header, label), 0);
    let start = "The user answered your question(s):\n"@;
    let end = "Proceed with these answers."@;
    let told = answer_text(answers);
    let n = told.len() - end.len();
    assert(told.skip(n) =~= end);
    assert(told.take(n) =~= start + before);
    assert(answer_text(answers.push((header, label))) =~= told.take(n) + line + end);
    assert(answer_text(Seq::empty()) =~= start + end);
}

proof fn lemma_answer_lines(answers: Seq<(Seq<char>, Seq<char>)>, a: (Seq<char>, Seq<char>), i: int)
    requires
        0 <= i <= answers.len(),
    ensures
        answer_lines(answers.push(a), i) == answer_lines(answers, i) + (if a.0.len() == 0 {
            "- "@ + a.1 + "\n"@
        } else {
            "- "@ + a.0 + ": "@ + a.1 + "\n"@
        }),
    decreases answers.len() - i,
{
    let all = answers.push(a);
    let line = if a.0.len() == 0 {
        "- "@ + a.1 + "\n"@
    } else {
        "- "@ + a.0 + ": "@ + a.1 + "\n"@
    };
    if i < answers.len() {
        assert(all[i] == answers[i]);
        lemma_answer_lines(answers, a, i + 1);
        assert(answer_lines(all, i) =~= answer_lines(answers, i) + line);
    } else {
        reveal_with_fuel(answer_lines, 2);
        assert(all[i] == a);
        assert(answer_lines(all, i) =~= answer_lines(answers, i) + line);
    }
}

/// A request to use a tool is put to the user with its tool, its input and its id, and
/// nothing is written, unless the tool's decision is remembered: then the tool runs or
/// does not, as that says, and nobody is asked.
pub proof fn law_tools_are_asked_for(d: DriverV, id: Seq<char>, req: JsonV, next: u64)
    requires
        str_or_empty(at(req, "tool_name"@)) != "AskUserQuestion"@,
        str_or_empty(at(req, "tool_name"@)) != "ExitPlanMode"@,
    ensures
        ({
            let s = tool_asked(d, id, req, next);
            let tool = str_or_empty(at(req, "tool_name"@));
            let input = at(req, "input"@);
            if d.remembered.dom().contains(tool) {
                &&& s.d == d
                &&& only_write(s.acts) is Some
                &&& d.remembered[tool] ==> lets_run(only_write(s.acts)->0, id, input)
                &&& !d.remembered[tool] ==> keeps_from_running(only_write(s.acts)->0, id, "User denied the request."@)
            } else {
                &&& s.acts.len() == 0
                &&& s.d == (DriverV { pending: s.d.pending, ..d })
                &&& s.d.pending is Some && s.d.pending->0 is Permission
                &&& s.d.pending->0->Permission_request_id == id
                &&& s.d.pending->0->tool_name == tool
                &&& s.d.pending->0->Permission_input == input
                &&& s.d.pending->0->title.len() == 0 ==> tool.len() == 0
            }
        }),
{
    lemma_decided(id, at(req, "input"@), "User denied the request."@);
}

/// A prompt calls a tool by its title; without one by the name it is to be displayed
/// with, and without that by its name.
pub proof fn law_tool_is_called_by_its_title(req: JsonV, tool: Seq<char>, t: Seq<char>)
    requires
        t.len() > 0,
    ensures
        at(req, "title"@) == JsonV::Str(t) ==> tool_title(req, tool) == t,
        !(at(req, "title"@) is Str) && at(req, "display_name"@) == JsonV::Str(t) ==> tool_title(req, tool) == t,
        !(at(req, "title"@) is Str) && !(at(req, "display_name"@) is Str) ==> tool_title(req, tool) == tool,
{
}

/// The questions of the agent are put to the user as it asked them, the first one first;
/// a set without any is let through. A plan waits for its approval, whatever is
/// remembered.
pub proof fn law_questions_and_plans_are_put(d: DriverV, id: Seq<char>, req: JsonV, next: u64, i: int, k: int)
    ensures
        ({
            let s = tool_asked(d, id, req, next);
            let input = at(req, "input"@);
            &&& at(req, "tool_name"@) == JsonV::Str("ExitPlanMode"@) ==> {
                &&& s.acts.len() == 0
                &&& s.d == (DriverV { pending: Some(PendingV::Plan { request_id: id, input }), ..d })
            }
            &&& at(req, "tool_name"@) == JsonV::Str("AskUserQuestion"@) ==> match at(input, "questions"@) {
                JsonV::Array(qs) if qs.len() > 0 => {
                    &&& s.acts.len() == 0
                    &&& s.d == (DriverV { pending: s.d.pending, ..d })
                    &&& s.d.pending matches Some(PendingV::Question { request_id, questions, answers, index })
                    &&& request_id == id && answers.len() == 0 && index == 0 && questions.len() == qs.len()
                    &&& 0 <= i < qs.len() ==> {
                        &&& questions[i].header == str_or_empty(at(qs[i], "header"@))
                        &&& questions[i].question == str_or_empty(at(qs[i], "question"@))
                        &&& at(qs[i], "options"@) matches JsonV::Array(os) ==> {
                            &&& questions[i].options.len() == os.len()
                            &&& 0 <= k < os.len() ==> {
                                &&& questions[i].options[k].label == str_or_empty(at(os[k], "label"@))
                                &&& questions[i].options[k].description == str_or_empty(at(os[k], "description"@))
                            }
                        }
                    }
                },
                _ => s.d == d && only_write(s.acts) is Some && lets_run(only_write(s.acts)->0, id, input),
            }
        }),
{
    reveal_strlit("ExitPlanMode");
    reveal_strlit("AskUserQuestion");
    assert("ExitPlanMode"@.len() == 12 && "AskUserQuestion"@.len() == 15);
    lemma_decided(id, at(req, "input"@), Seq::empty());
}

/// The engine's requests to the tool server are handed to it, if they are for the one in
/// this process and it is there; otherwise they are refused. Dialogs are cancelled and
/// other requests refused. Each time it is the request's id that is answered, and the
/// session stays as it is.
pub proof fn law_other_requests_are_answered(d: DriverV, v: JsonV, next: u64)
    requires
        at(at(v, "request"@), "subtype"@) != JsonV::Str("can_use_tool"@),
    ensures
        ({
            let s = requested(d, v, next);
            let id = str_or_empty(at(v, "request_id"@));
            let req = at(v, "request"@);
            &&& s.d == d && s.next == next && s.acts.len() == 1
            &&& if at(req, "subtype"@) == JsonV::Str("mcp_message"@) {
                if at(req, "server_name"@) == JsonV::Str("unity"@) && d.mcp {
                    s.acts[0] == (ActionV::CallTool { request_id: id, message: at(req, "message"@) })
                } else {
                    only_write(s.acts) is Some && refused(only_write(s.acts)->0, id) is Some
                }
            } else if at(req, "subtype"@) == JsonV::Str("request_user_dialog"@) {
                &&& only_write(s.acts) is Some
                &&& replied(only_write(s.acts)->0, id) matches Some(r) && at(r, "behavior"@) == JsonV::Str("cancelled"@)
            } else {
                only_write(s.acts) is Some && refused(only_write(s.acts)->0, id) is Some
            }
        }),
{
    let id = str_or_empty(at(v, "request_id"@));
    reveal_strlit("can_use_tool");
    reveal_strlit("mcp_message");
    reveal_strlit("request_user_dialog");
    assert("can_use_tool"@.len() == 12 && "mcp_message"@.len() == 11 && "request_user_dialog"@.len() == 19);
    lemma_refused(id, "unknown MCP server"@);
    lemma_refused(id, "MCP unavailable"@);
    lemma_refused(id, "unsupported control request"@);
    let c = JsonV::Object(seq![("behavior"@, JsonV::Str("cancelled"@))]);
    lemma_replied(id, c);
    reveal_with_fuel(json::member, 2);
}

/// What the tool server answered is handed back as it is, in the reply to the request.
pub proof fn law_tool_answers_are_handed_back(id: Seq<char>, answer: JsonV)
    ensures
        replied(mcp_reply_v(id, Some(answer)), id) matches Some(r) && at(r, "mcp_response"@) == answer,
        replied(mcp_reply_v(id, None), id) is Some,
{
    let r = JsonV::Object(seq![("mcp_response"@, answer)]);
    lemma_replied(id, r);
    reveal_with_fuel(json::member, 2);
    let none = JsonV::Object(
        seq![
            ("jsonrpc"@, JsonV::Str("2.0"@)),
            ("result"@, JsonV::Object(Seq::empty())),
            ("id"@, JsonV::Int(0)),
        ],
    );
    lemma_replied(id, JsonV::Object(seq![("mcp_response"@, none)]));
}

/// A prompt to an idle session is written and becomes a turn of the conversation, and
/// the session thinks. While it thinks a prompt waits in the queue and nothing is
/// written; before it is ready the prompt is a turn that is held back.
pub proof fn law_prompts_are_taken(d: DriverV, prompt: Seq<char>, now: u64, next: u64)
    requires
        !starts_with(d.status, "init failed"@),
        d.status != "closed"@,
    ensures
        ({
            let s = sent(d, prompt, now, next);
            let e = DriverV { conv: s.d.conv, status: s.d.status, outbox: s.d.outbox, ..d };
            let c = s.d.conv;
            &&& s.d == e && s.next == next
            &&& c == (ConvV { blocks: c.blocks, ..d.conv })
            &&& if d.ready && d.status == "thinking"@ {
                &&& s.acts.len() == 0 && s.d.status == d.status && s.d.outbox == d.outbox
                &&& c.blocks == d.conv.blocks.push(('q', prompt, now))
            } else {
                &&& c.blocks == d.conv.blocks.push(('u', prompt, now))
                &&& s.d.status == "thinking"@
                &&& if d.ready {
                    &&& s.d.outbox == d.outbox
                    &&& only_write(s.acts) is Some && prompts(only_write(s.acts)->0, prompt)
                } else {
                    &&& s.acts.len() == 0
                    &&& s.d.outbox.len() == d.outbox.len() + 1
                    &&& s.d.outbox.drop_last() == d.outbox
                    &&& prompts(s.d.outbox.last(), prompt)
                }
            }
        }),
{
    lemma_prompts(prompt);
    assert(d.outbox.push(user_v(prompt)).drop_last() =~= d.outbox);
}

/// A queued prompt that is fired is written as it was typed.
pub proof fn law_fired_prompt_is_written(d: DriverV, i: int)
    requires
        0 <= i < d.conv.blocks.len(),
        d.conv.blocks[i].0 == 'q',
        forall|k: int| 0 <= k < i ==> (#[trigger] d.conv.blocks[k]).0 != 'q',
    ensures
        ({
            let (e, acts) = next_sent(d);
            &&& only_write(acts) is Some && prompts(only_write(acts)->0, d.conv.blocks[i].1)
            &&& e.conv.blocks == d.conv.blocks.update(i, ('u', d.conv.blocks[i].1, d.conv.blocks[i].2))
            &&& e == (DriverV { conv: ConvV { blocks: e.conv.blocks, ..d.conv }, status: "thinking"@, ..d })
        }),
{
    lemma_queued_at(d.conv.blocks, 0, 0);
    lemma_queued_found(d.conv.blocks, 0, i);
    lemma_prompts(d.conv.blocks[i].1);
}

proof fn lemma_queued_found(blocks: Seq<(char, Seq<char>, u64)>, j: int, i: int)
    requires
        0 <= j <= i < blocks.len(),
        blocks[i].0 == 'q',
        forall|k: int| 0 <= k < i ==> (#[trigger] blocks[k]).0 != 'q',
    ensures
        queued_at(blocks, j, 0) == i,
    decreases i - j,
{
    if j < i {
        lemma_queued_found(blocks, j + 1, i);
    }
}

/// The permission mode that is set is kept, and a ready engine is told it.
pub proof fn law_mode_is_told(d: DriverV, mode: Seq<char>, next: u64)
    ensures
        ({
            let s = mode_set(d, mode, next);
            &&& s.d == (DriverV { permission_mode: mode, ..d })
            &&& d.ready ==> only_write(s.acts) is Some && asks_to_set(
                only_write(s.acts)->0,
                "set_permission_mode"@,
                "mode"@,
                mode,
            )
            &&& !d.ready ==> s.acts.len() == 0
        }),
{
    reveal_strlit("mode");
    reveal_strlit("subtype");
    assert("mode"@.len() == 4 && "subtype"@.len() == 7);
    lemma_asks_to_set(next, "set_permission_mode"@, "mode"@, mode);
}

/// The model that is set is kept, and a ready engine is told it unless its default is
/// meant.
pub proof fn law_model_is_told(d: DriverV, model: Seq<char>, next: u64)
    ensures
        ({
            let s = model_set(d, model, next);
            &&& s.d == (DriverV { model, ..d })
            &&& d.ready && model.len() > 0 && model != "default"@ ==> only_write(s.acts) is Some && asks_to_set(
                only_write(s.acts)->0,
                "set_model"@,
                "model"@,
                model,
            )
            &&& !d.ready || model.len() == 0 || model == "default"@ ==> s.acts.len() == 0
        }),
{
    reveal_strlit("model");
    reveal_strlit("subtype");
    assert("model"@.len() == 5 && "subtype"@.len() == 7);
    lemma_asks_to_set(next, "set_model"@, "model"@, model);
}

/// A refused session says why, is not ready and has nothing written. One that is taken
/// up is ready and is told the settings that were made before, first the mode, then the
/// model, where they are not the engine's own; then the prompts that were held back.
pub proof fn law_session_opens(d: DriverV, resp: JsonV, next: u64)
    ensures
        ({
            let s = initialized(d, resp, next);
            let mode = d.permission_mode.len() > 0 && d.permission_mode != "default"@;
            let model = d.model.len() > 0 && d.model != "default"@;
            let m = if mode { 1int } else { 0 };
            let n = if model { m + 1 } else { m };
            if at(resp, "subtype"@) == JsonV::Str("error"@) {
                &&& s.acts.len() == 0
                &&& s.d == (DriverV { status: s.d.status, ..d })
                &&& at(resp, "error"@) matches JsonV::Str(why) ==> s.d.status == "init failed: "@ + why
                &&& starts_with(s.d.status, "init failed"@)
            } else {
                &&& s.d.ready && s.d.outbox.len() == 0
                &&& s.d.status == (if d.outbox.len() > 0 { "thinking"@ } else { "ready"@ })
                &&& s.d == (DriverV { ready: true, outbox: s.d.outbox, status: s.d.status, ..d })
                &&& s.acts.len() == n + d.outbox.len()
                &&& mode ==> (s.acts[0] matches ActionV::Write(w) && asks_to_set(
                    w,
                    "set_permission_mode"@,
                    "mode"@,
                    d.permission_mode,
                ))
                &&& model ==> (s.acts[m] matches ActionV::Write(w) && asks_to_set(w, "set_model"@, "model"@, d.model))
                &&& s.acts.skip(n) == d.outbox.map_values(|m: JsonV| ActionV::Write(m))
            }
        }),
{
    reveal_strlit("model");
    reveal_strlit("mode");
    reveal_strlit("subtype");
    reveal_strlit("init failed: ");
    reveal_strlit("init failed");
    assert("mode"@.len() == 4 && "model"@.len() == 5 && "subtype"@.len() == 7);
    let mode = d.permission_mode.len() > 0 && d.permission_mode != "default"@;
    lemma_asks_to_set(next, "set_permission_mode"@, "mode"@, d.permission_mode);
    lemma_asks_to_set(if mode { after(next) } else { next }, "set_model"@, "model"@, d.model);
    let s = initialized(d, resp, next);
    if at(resp, "subtype"@) == JsonV::Str("error"@) {
        assert(s.d.status.take("init failed"@.len() as int) =~= "init failed"@);
    } else {
        let n = s.acts.len() - d.outbox.len();
        assert(s.acts.skip(n) =~= d.outbox.map_values(|m: JsonV| ActionV::Write(m)));
    }
}

proof fn lemma_message_types()
    ensures
        "control_response"@ != "control_request"@,
        "control_response"@ != "system"@,
        "control_response"@ != "assistant"@,
        "control_response"@ != "user"@,
        "control_response"@ != "result"@,
        "control_request"@ != "system"@,
        "control_request"@ != "assistant"@,
        "control_request"@ != "user"@,
        "control_request"@ != "result"@,
        "system"@ != "assistant"@,
        "system"@ != "user"@,
        "system"@ != "result"@,
        "assistant"@ != "user"@,
        "assistant"@ != "result"@,
        "user"@ != "result"@,
{
    reveal_strlit("control_response");
    reveal_strlit("control_request");
    reveal_strlit("system");
    reveal_strlit("assistant");
    reveal_strlit("user");
    reveal_strlit("result");
    assert("control_response"@.len() == 16 && "control_request"@.len() == 15 && "system"@.len() == 6);
    assert("assistant"@.len() == 9 && "user"@.len() == 4 && "result"@.len() == 6);
    assert("system"@[0] == 's' && "result"@[0] == 'r');
}

/// A message from the engine does what its type says and nothing else: the reply to the
/// opening request opens the session, a request is answered, `system/init` tells the
/// session's id, the agent's words and the results of its tools enter the conversation.
/// Any other message is passed over.
pub proof fn law_messages_are_told_apart(d: DriverV, v: JsonV, now: u64, next: u64)
    ensures
        ({
            let s = handled(d, v, now, next);
            let ty = at(v, "type"@);
            let content = at(at(v, "message"@), "content"@);
            &&& ty == JsonV::Str("control_response"@) ==> s == (if at(at(v, "response"@), "request_id"@) == JsonV::Str(
                d.init_id,
            ) {
                initialized(d, at(v, "response"@), next)
            } else {
                StepV { d, acts: Seq::empty(), next }
            })
            &&& ty == JsonV::Str("control_request"@) ==> s == requested(d, v, next)
            &&& ty == JsonV::Str("assistant"@) ==> {
                &&& s.acts.len() == 0
                &&& s.d == (DriverV { conv: s.d.conv, model: s.d.model, ..d })
                &&& s.d.conv == message_applied(d.conv, "assistant"@, content, now)
            }
            &&& ty == JsonV::Str("user"@) ==> {
                &&& s.acts.len() == 0
                &&& s.d == (DriverV { conv: s.d.conv, ..d })
                &&& content matches JsonV::Array(bs) ==> s.d.conv == results_applied(d.conv, bs, 0, now)
                &&& !(content is Array) ==> s.d.conv == d.conv
            }
            &&& ty == JsonV::Str("system"@) ==> {
                &&& s.acts.len() == 0
                &&& s.d == (DriverV { session_id: s.d.session_id, model: s.d.model, ..d })
                &&& s.d.session_id == (if at(v, "subtype"@) == JsonV::Str("init"@) && str_or_empty(
                    at(v, "session_id"@),
                ).len() > 0 {
                    str_or_empty(at(v, "session_id"@))
                } else {
                    d.session_id
                })
            }
            &&& ty != JsonV::Str("control_response"@) && ty != JsonV::Str("control_request"@) && ty != JsonV::Str(
                "assistant"@,
            ) && ty != JsonV::Str("user"@) && ty != JsonV::Str("system"@) && ty != JsonV::Str("result"@) ==> s
                == (StepV { d, acts: Seq::empty(), next })
        }),
{
    lemma_message_types();
}

/// The engine's model is taken over while none is known, from `system/init` and from the
/// agent's messages; a model that is known stays.
pub proof fn law_reported_model_fills_in(d: DriverV, v: JsonV, now: u64, next: u64, m: Seq<char>)
    requires
        m.len() > 0,
    ensures
        d.model.len() > 0 ==> handled(d, v, now, next).d.model == d.model,
        d.model.len() == 0 && at(v, "type"@) == JsonV::Str("system"@) && at(v, "subtype"@) == JsonV::Str("init"@) && at(
            v,
            "model"@,
        ) == JsonV::Str(m) ==> handled(d, v, now, next).d.model == m,
        d.model.len() == 0 && at(v, "type"@) == JsonV::Str("assistant"@) && at(at(v, "message"@), "model"@)
            == JsonV::Str(m) ==> handled(d, v, now, next).d.model == m,
{
    lemma_message_types();
}

/// A resumed conversation is the log's messages in their order, each by its role and
/// stamped with its time; other records add nothing. The first directory that a record
/// names is the session's.
pub proof fn law_records_are_replayed(c: ConvV, cwd: Option<Seq<char>>, v: JsonV)
    ensures
        ({
            let (e, dir) = record_applied(c, cwd, v);
            let content = at(at(v, "message"@), "content"@);
            &&& at(v, "type"@) == JsonV::Str("user"@) ==> e == message_applied(c, "user"@, content, record_stamp(v))
            &&& at(v, "type"@) == JsonV::Str("assistant"@) ==> e == message_applied(
                c,
                "assistant"@,
                content,
                record_stamp(v),
            )
            &&& at(v, "type"@) != JsonV::Str("user"@) && at(v, "type"@) != JsonV::Str("assistant"@) ==> e == c
            &&& cwd is Some ==> dir == cwd
            &&& cwd is None ==> dir == (if str_or_empty(at(v, "cwd"@)).len() > 0 {
                Some(str_or_empty(at(v, "cwd"@)))
            } else {
                None
            })
        }),
{
    reveal_strlit("user");
    reveal_strlit("assistant");
    assert("user"@.len() == 4 && "assistant"@.len() == 9);
    assert(Seq::<char>::empty().len() == 0);
}

/// The lines of a log are replayed in their order: one more line is applied to what the
/// lines before it left, and a line that is no JSON value leaves that as it is.
pub proof fn law_log_is_replayed_in_order(ls: Seq<Seq<char>>, line: Seq<char>)
    ensures
        log_applied(ls.push(line), 0, no_conv(), None) == ({
            let (c, cwd) = log_applied(ls, 0, no_conv(), None);
            if trim(line).len() == 0 {
                (c, cwd)
            } else {
                match json::read(line) {
                    Some(v) => record_applied(c, cwd, v),
                    None => (c, cwd),
                }
            }
        }),
{
    lemma_log_in_order(ls, line, 0, no_conv(), None);
}

proof fn lemma_log_in_order(ls: Seq<Seq<char>>, line: Seq<char>, i: int, c: ConvV, cwd: Option<Seq<char>>)
    requires
        0 <= i <= ls.len(),
    ensures
        log_applied(ls.push(line), i, c, cwd) == ({
            let (e, dir) = log_applied(ls, i, c, cwd);
            if trim(line).len() == 0 {
                (e, dir)
            } else {
                match json::read(line) {
                    Some(v) => record_applied(e, dir, v),
                    None => (e, dir),
                }
            }
        }),
    decreases ls.len() - i,
{
    let all = ls.push(line);
    if i < ls.len() {
        assert(all[i] == ls[i]);
        if trim(ls[i]).len() == 0 {
            lemma_log_in_order(ls, line, i + 1, c, cwd);
        } else {
            match json::read(ls[i]) {
                Some(v) => {
                    let (c1, d1) = record_applied(c, cwd, v);
                    lemma_log_in_order(ls, line, i + 1, c1, d1);
                },
                None => lemma_log_in_order(ls, line, i + 1, c, cwd),
            }
        }
    } else {
        reveal_with_fuel(log_applied, 2);
        assert(all[i] == line);
    }
}

/// A session that is taken up again is named to the engine behind the flag for that, and
/// so is the effort, unless the default is meant; without them no such flag is given.
pub proof fn law_engine_is_told_what_to_resume(resume: Option<Seq<char>>, effort: Seq<char>)
    ensures
        ({
            let a = engine_args(resume, effort);
            let r = resume is Some && resume->0.len() > 0;
            let e = effort.len() > 0 && effort != "default"@;
            &&& a.len() == 7 + (if r { 2int } else { 0 }) + (if e { 2int } else { 0 })
            &&& a.take(7) == engine_args(None, Seq::empty())
            &&& r ==> a[7] == "--resume"@ && a[8] == resume->0
            &&& e ==> a[a.len() - 2] == "--effort"@ && a[a.len() - 1] == effort
        }),
{
    let a = engine_args(resume, effort);
    assert(engine_args(None, Seq::empty()) =~= base_flags());
    assert(a.take(7) =~= base_flags());
}

/// A question is put as it was asked: of several its number and how many there are stand
/// before it, then its header where it has one, and its options behind it.
pub proof fn law_question_text(questions: Seq<QuestionV>, index: int)
    requires
        0 <= index < questions.len(),
    ensures
        ({
            let q = questions[index];
            let t = question_title(questions, index);
            let count = "Question "@ + decimal((index + 1) as nat) + "/"@ + decimal(questions.len());
            &&& questions.len() == 1 && q.header.len() == 0 ==> t == q.question + bullets(q.options, 0)
            &&& questions.len() == 1 && q.header.len() > 0 ==> t == q.header + "\n"@ + q.question + bullets(q.options, 0)
            &&& questions.len() > 1 && q.header.len() == 0 ==> t == count + "\n"@ + q.question + bullets(q.options, 0)
            &&& questions.len() > 1 && q.header.len() > 0 ==> t == count + " — "@ + q.header + "\n"@ + q.question + bullets(
                q.options,
                0,
            )
        }),
{
    let q = questions[index];
    let t = question_title(questions, index);
    let count = "Question "@ + decimal((index + 1) as nat) + "/"@ + decimal(questions.len());
    assert(questions.len() == 1 && q.header.len() == 0 ==> t =~= q.question + bullets(q.options, 0));
    assert(questions.len() > 1 && q.header.len() == 0 ==> t =~= count + "\n"@ + q.question + bullets(q.options, 0));
    assert(questions.len() > 1 && q.header.len() > 0 ==> t =~= count + " — "@ + q.header + "\n"@ + q.question + bullets(
        q.options,
        0,
    ));
}

/// The options of a question are listed in their order, each on a line of its own with its
/// label, and its description where it has one.
pub proof fn law_options_are_listed(os: Seq<QOptionV>, i: int)
    requires
        0 <= i <= os.len(),
    ensures
        i == os.len() ==> bullets(os, i).len() == 0,
        i < os.len() && os[i].description.len() == 0 ==> bullets(os, i) == "\n• "@ + os[i].label + bullets(os, i + 1),
        i < os.len() && os[i].description.len() > 0 ==> bullets(os, i) == "\n• "@ + os[i].label + " — "@
            + os[i].description + bullets(os, i + 1),
{
    if i < os.len() {
        assert(os[i].description.len() == 0 ==> bullets(os, i) =~= "\n• "@ + os[i].label + bullets(os, i + 1));
        assert(os[i].description.len() > 0 ==> bullets(os, i) =~= "\n• "@ + os[i].label + " — "@ + os[i].description
            + bullets(os, i + 1));
    }
}

/// The engine runs in the directory that was asked for, and in the current one where none
/// was; a shell is handed the command and its arguments with spaces between them.
pub proof fn law_engine_runs_where_asked(cwd: Seq<char>, cmd: Seq<char>, first: Seq<char>, rest: Seq<Seq<char>>)
    ensures
        cwd.len() > 0 ==> workdir_of(cwd) == cwd,
        cwd.len() == 0 ==> workdir_of(cwd) == "."@,
        command_line(cmd, seq![first]) == cmd + seq![' '] + first,
        rest.len() > 0 ==> command_line(cmd, seq![first] + rest) == cmd + seq![' '] + first + seq![' '] + join(rest, ' '),
{
    assert(command_line(cmd, seq![first]) =~= cmd + seq![' '] + first);
    if rest.len() > 0 {
        assert((seq![first] + rest).skip(1) =~= rest);
        assert(command_line(cmd, seq![first] + rest) =~= cmd + seq![' '] + first + seq![' '] + join(rest, ' '));
    }
}

/// A plan that awaits approval is shown where it has a text; nothing else is a plan.
pub proof fn law_plan_text(p: PendingV)
    ensures
        (p is Plan && at(p->Plan_input, "plan"@) is Str && at(p->Plan_input, "plan"@)->Str_0.len() > 0) ==> plan_of(Some(p))
            == Some(at(p->Plan_input, "plan"@)->Str_0),
        (p is Plan && !(at(p->Plan_input, "plan"@) is Str)) ==> plan_of(Some(p)) is None,
        !(p is Plan) ==> plan_of(Some(p)) is None,
        plan_of(None) is None,
{
}

/// A message that the tool server has no answer to is answered with an empty result.
pub proof fn law_unanswered_messages_get_an_empty_result(id: Seq<char>)
    ensures
        replied(mcp_reply_v(id, None), id) matches Some(r) && {
            let m = at(r, "mcp_response"@);
            &&& at(m, "jsonrpc"@) == JsonV::Str("2.0"@)
            &&& at(m, "result"@) == JsonV::Object(Seq::empty())
            &&& at(m, "id"@) == JsonV::Int(0)
        },
{
    let none = JsonV::Object(
        seq![
            ("jsonrpc"@, JsonV::Str("2.0"@)),
            ("result"@, JsonV::Object(Seq::empty())),
            ("id"@, JsonV::Int(0)),
        ],
    );
    lemma_replied(id, JsonV::Object(seq![("mcp_response"@, none)]));
    reveal_strlit("jsonrpc");
    reveal_strlit("result");
    reveal_strlit("id");
    assert("jsonrpc"@.len() == 7 && "result"@.len() == 6 && "id"@.len() == 2);
    reveal_with_fuel(json::member, 4);
}

/// A request to the engine goes out under the next number, and the one after it under the
/// number that follows; what writes no request uses no number up.
pub proof fn law_requests_are_numbered(d: DriverV, value: Seq<char>, next: u64)
    ensures
        ({
            let m = mode_set(d, value, next);
            let s = model_set(d, value, next);
            let id = JsonV::Str("unterm-ctl-"@ + decimal(next as nat));
            &&& m.acts.len() == 0 ==> m.next == next
            &&& s.acts.len() == 0 ==> s.next == next
            &&& m.acts.len() > 0 ==> only_write(m.acts) is Some && at(only_write(m.acts)->0, "request_id"@) == id
            &&& s.acts.len() > 0 ==> only_write(s.acts) is Some && at(only_write(s.acts)->0, "request_id"@) == id
            &&& m.acts.len() > 0 && next < u64::MAX ==> m.next == next + 1
            &&& s.acts.len() > 0 && next < u64::MAX ==> s.next == next + 1
            &&& m.acts.len() > 0 && next == u64::MAX ==> m.next == 0
        }),
        at(interrupt_v(next), "request_id"@) == JsonV::Str("unterm-int-"@ + decimal(next as nat)),
{
    reveal_strlit("type");
    reveal_strlit("request_id");
    reveal_strlit("request");
    assert("type"@.len() == 4 && "request_id"@.len() == 10 && "request"@.len() == 7);
    reveal_with_fuel(json::member, 3);
}

} // verus!

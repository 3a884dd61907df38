//! The tool server that lives in this process, without a transport: messages of
//! the agent are dispatched straight into it, and tool calls wait in a queue that
//! the host drains and answers.

use vstd::prelude::*;

use crate::json::{self, as_str, at, field, obj0, obj1, obj2, obj3, arr1, str_or_empty, text, Json, JsonV};
use crate::text::same;

verus! {

/// The protocol version offered to a client that names none.
pub const PROTOCOL_VERSION: &'static str = "2025-06-18";

/// How long a tool call may take, in seconds.
pub const CALL_TIMEOUT_SECS: u64 = 30;

/// What a call is answered with when the host does not answer it.
pub const TIMED_OUT: &'static str = "tool call timed out or the editor was unavailable";

/// A number as a JSON value.
pub open spec fn number(n: u64) -> JsonV {
    if n <= i64::MAX {
        JsonV::Int(n as i64)
    } else {
        JsonV::UInt(n)
    }
}

fn num(n: u64) -> (r: Json)
    ensures
        r@ == number(n),
{
    if n <= 9223372036854775807u64 {
        Json::Int(n as i64)
    } else {
        Json::UInt(n)
    }
}

/// A queued tool call.
pub struct PendingCall {
    pub id: u64,
    pub name: String,
    pub args: Json,
}

/// A queued tool call.
#[verifier::ext_equal]
pub struct CallV {
    pub id: u64,
    pub name: Seq<char>,
    pub args: JsonV,
}

impl View for PendingCall {
    type V = CallV;

    open spec fn view(&self) -> CallV {
        CallV { id: self.id, name: self.name@, args: self.args@ }
    }
}

/// What the server knows: the tools it offers, the calls not yet taken, the calls
/// not yet answered, and the number of the next call.
#[verifier::ext_equal]
pub struct ServerV {
    pub tools: JsonV,
    pub queue: Seq<CallV>,
    pub waiting: Set<u64>,
    pub next_id: u64,
}

/// A successful answer to the request `id`.
pub open spec fn answer_v(id: JsonV, result: JsonV) -> JsonV {
    JsonV::Object(seq![("jsonrpc"@, JsonV::Str("2.0"@)), ("id"@, id), ("result"@, result)])
}

/// A successful answer to the request `id`.
pub fn answer(id: Json, result: Json) -> (r: Json)
    ensures
        r@ == answer_v(id@, result@),
{
    obj3("jsonrpc", text("2.0"), "id", id, "result", result)
}

/// The answer to a request whose method is unknown.
pub open spec fn unknown_v(id: JsonV) -> JsonV {
    JsonV::Object(
        seq![
            ("jsonrpc"@, JsonV::Str("2.0"@)),
            ("id"@, id),
            (
                "error"@,
                JsonV::Object(seq![("code"@, JsonV::Int((-32601) as i64)), ("message"@, JsonV::Str("unknown method"@))]),
            ),
        ],
    )
}

/// What the server says of itself, in the client's protocol version if it names one.
pub open spec fn hello_v(msg: JsonV) -> JsonV {
    JsonV::Object(
        seq![
            (
                "protocolVersion"@,
                JsonV::Str(
                    match as_str(at(at(msg, "params"@), "protocolVersion"@)) {
                        Some(v) => v,
                        None => PROTOCOL_VERSION@,
                    },
                ),
            ),
            ("capabilities"@, JsonV::Object(seq![("tools"@, JsonV::Object(Seq::empty()))])),
            (
                "serverInfo"@,
                JsonV::Object(
                    seq![("name"@, JsonV::Str("unterm-unity"@)), ("version"@, JsonV::Str("0.1.0"@))],
                ),
            ),
        ],
    )
}

/// A tool result that is one text.
pub open spec fn text_result_v(s: Seq<char>, is_error: bool) -> JsonV {
    JsonV::Object(
        seq![
            (
                "content"@,
                JsonV::Array(
                    seq![JsonV::Object(seq![("type"@, JsonV::Str("text"@)), ("text"@, JsonV::Str(s))])],
                ),
            ),
            ("isError"@, JsonV::Bool(is_error)),
        ],
    )
}

/// A tool result that is one text.
pub fn text_result(s: &str, is_error: bool) -> (r: Json)
    ensures
        r@ == text_result_v(s@, is_error),
{
    let part = obj2("type", text("text"), "text", text(s));
    obj2("content", arr1(part), "isError", Json::Bool(is_error))
}

/// What a dispatched message leads to.
pub enum Dispatched {
    /// A notification: it needs no answer.
    Nothing,
    /// The answer.
    Reply(Json),
    /// The call `call` is queued; the request `id` is answered when the call is.
    Call { call: u64, id: Json },
}

/// What a dispatched message leads to.
pub enum DispatchedV {
    Nothing,
    Reply(JsonV),
    Call { call: u64, id: JsonV },
}

impl View for Dispatched {
    type V = DispatchedV;

    open spec fn view(&self) -> DispatchedV {
        match *self {
            Dispatched::Nothing => DispatchedV::Nothing,
            Dispatched::Reply(j) => DispatchedV::Reply(j@),
            Dispatched::Call { call, id } => DispatchedV::Call { call, id: id@ },
        }
    }
}

/// The number after `n`.
pub open spec fn next_number(n: u64) -> u64 {
    if n == u64::MAX {
        0
    } else {
        (n + 1) as u64
    }
}

/// The call that `tools/call` parameters ask for, under the number `id`.
pub open spec fn call_of(params: JsonV, id: u64) -> CallV {
    CallV {
        id,
        name: str_or_empty(at(params, "name"@)),
        args: match field(params, "arguments"@) {
            Some(a) => a,
            None => JsonV::Object(Seq::empty()),
        },
    }
}

/// The server after a message, and what the message leads to.
pub open spec fn dispatched(s: ServerV, msg: JsonV) -> (ServerV, DispatchedV) {
    let method = str_or_empty(at(msg, "method"@));
    match field(msg, "id"@) {
        None => (s, DispatchedV::Nothing),
        Some(id) => if method == "initialize"@ {
            (s, DispatchedV::Reply(answer_v(id, hello_v(msg))))
        } else if method == "ping"@ {
            (s, DispatchedV::Reply(answer_v(id, JsonV::Object(Seq::empty()))))
        } else if method == "tools/list"@ {
            (s, DispatchedV::Reply(answer_v(id, JsonV::Object(seq![("tools"@, s.tools)]))))
        } else if method == "tools/call"@ {
            (
                ServerV {
                    queue: s.queue.push(call_of(at(msg, "params"@), s.next_id)),
                    waiting: s.waiting.insert(s.next_id),
                    next_id: next_number(s.next_id),
                    ..s
                },
                DispatchedV::Call { call: s.next_id, id },
            )
        } else {
            (s, DispatchedV::Reply(unknown_v(id)))
        },
    }
}

/// A taken call as the host reads it.
pub open spec fn call_v(c: CallV) -> JsonV {
    JsonV::Object(seq![("id"@, number(c.id)), ("name"@, JsonV::Str(c.name)), ("args"@, c.args)])
}

/// The result of a call the host answered: the value its text is, or the text.
pub open spec fn result_of(answer: Seq<char>, read: Option<JsonV>) -> JsonV {
    match read {
        Some(v) => v,
        None => text_result_v(answer, false),
    }
}

/// The tool server.
pub struct McpDispatcher {
    tools: Json,
    queue: Vec<PendingCall>,
    waiting: Vec<u64>,
    next_id: u64,
}

impl View for McpDispatcher {
    type V = ServerV;

    closed spec fn view(&self) -> ServerV {
        ServerV {
            tools: self.tools@,
            queue: Seq::new(self.queue@.len(), |i: int| self.queue@[i]@),
            waiting: self.waiting@.to_set(),
            next_id: self.next_id,
        }
    }
}

impl McpDispatcher {
    /// No call number is waiting twice.
    pub closed spec fn wf(&self) -> bool {
        self.waiting@.no_duplicates()
    }

    /// A server that offers nothing yet.
    pub fn new() -> (r: Self)
        ensures
            r.wf(),
            r@ == (ServerV {
                tools: JsonV::Array(Seq::empty()),
                queue: Seq::empty(),
                waiting: Set::empty(),
                next_id: 1,
            }),
    {
        let none: Vec<Json> = Vec::new();
        proof {
            Json::lemma_array(none);
            assert(json::elems(none@) =~= Seq::empty());
        }
        let r = McpDispatcher { tools: Json::Array(none), queue: Vec::new(), waiting: Vec::new(), next_id: 1 };
        assert(r@.waiting =~= Set::empty());
        assert(r@.queue =~= Seq::empty());
        r
    }

    fn find_waiting(&self, id: u64) -> (r: Option<usize>)
        ensures
            match r {
                Some(i) => i < self.waiting@.len() && self.waiting@[i as int] == id,
                None => !self.waiting@.contains(id),
            },
    {
        let mut i: usize = 0;
        while i < self.waiting.len()
            invariant
                i <= self.waiting@.len(),
                forall|k: int| 0 <= k < i ==> #[trigger] self.waiting@[k] != id,
            decreases self.waiting@.len() - i,
        {
            if self.waiting[i] == id {
                return Some(i);
            }
            i = i + 1;
        }
        None
    }

    /// Dispatch one message. A request without an id is a notification.
    pub fn dispatch(&mut self, msg: &Json) -> (r: Dispatched)
        requires
            old(self).wf(),
        ensures
            final(self)@ == dispatched(old(self)@, msg@).0,
            r@ == dispatched(old(self)@, msg@).1,
            final(self).wf(),
    {
        let id = match msg.get("id") {
            Some(j) => j.copy(),
            None => {
                return Dispatched::Nothing;
            },
        };
        let method = msg.text_at("method");
        if same(method.as_str(), "initialize") {
            let params = msg.copy_at("params");
            let version = match params.str_at("protocolVersion") {
                Some(v) => v.to_owned(),
                None => PROTOCOL_VERSION.to_owned(),
            };
            let info = obj2("name", text("unterm-unity"), "version", text("0.1.0"));
            let caps = obj1("tools", obj0());
            let hello = obj3("protocolVersion", text(version.as_str()), "capabilities", caps, "serverInfo", info);
            assert(hello@->Object_0 =~= hello_v(msg@)->Object_0);
            Dispatched::Reply(answer(id, hello))
        } else if same(method.as_str(), "ping") {
            Dispatched::Reply(answer(id, obj0()))
        } else if same(method.as_str(), "tools/list") {
            Dispatched::Reply(answer(id, obj1("tools", self.tools.copy())))
        } else if same(method.as_str(), "tools/call") {
            let params = msg.copy_at("params");
            let args = match params.get("arguments") {
                Some(a) => a.copy(),
                None => obj0(),
            };
            let call: u64 = self.next_id;
            let c = PendingCall { id: call, name: params.text_at("name"), args };
            let ghost before = self@;
            self.queue.push(c);
            assert(self@.queue =~= before.queue.push(c@));
            self.next_id = if call == u64::MAX { 0 } else { call + 1 };
            let known = self.find_waiting(call);
            if known.is_none() {
                let ghost w = self.waiting@;
                self.waiting.push(call);
                assert(self.waiting@.to_set() =~= w.to_set().insert(call)) by {
                    broadcast use vstd::seq_lib::group_seq_properties;
                    assert(w.push(call).to_set() =~= w.to_set().insert(call));
                }
            } else {
                assert(self.waiting@.to_set() =~= self.waiting@.to_set().insert(call)) by {
                    assert(self.waiting@.contains(call));
                }
            }
            assert(self@ =~= dispatched(old(self)@, msg@).0);
            Dispatched::Call { call, id }
        } else {
            let error = obj2("code", Json::Int(-32601), "message", text("unknown method"));
            Dispatched::Reply(obj3("jsonrpc", text("2.0"), "id", id, "error", error))
        }
    }

    /// Replace the advertised tool list (JSON array of {name,description,inputSchema}).
    /// A text that is no JSON value changes nothing.
    pub fn set_tools(&mut self, tools_json: &str)
        requires
            old(self).wf(),
        ensures
            final(self)@ == (match json::read(tools_json@) {
                Some(v) => ServerV { tools: v, ..old(self)@ },
                None => old(self)@,
            }),
            final(self).wf(),
    {
        if let Some(v) = json::parse(tools_json) {
            self.set_tool_list(v);
        }
    }

    /// Replace the advertised tool list.
    pub fn set_tool_list(&mut self, tools: Json)
        requires
            old(self).wf(),
        ensures
            final(self)@ == (ServerV { tools: tools@, ..old(self)@ }),
            final(self).wf(),
    {
        self.tools = tools;
    }

    /// Take the oldest queued call as `{id, name, args}`, or None.
    pub fn take_call(&mut self) -> (r: Option<Json>)
        requires
            old(self).wf(),
        ensures
            final(self).wf(),
            match r {
                Some(j) => {
                    &&& old(self)@.queue.len() > 0
                    &&& j@ == call_v(old(self)@.queue[0])
                    &&& final(self)@ == (ServerV { queue: old(self)@.queue.skip(1), ..old(self)@ })
                },
                None => old(self)@.queue.len() == 0 && final(self)@ == old(self)@,
            },
    {
        if self.queue.len() == 0 {
            return None;
        }
        let ghost before = self@;
        let c = self.queue.remove(0);
        assert(self@.queue =~= before.queue.skip(1));
        assert(before.queue[0] == c@);
        Some(obj3("id", num(c.id), "name", Json::Str(c.name), "args", c.args))
    }

    /// Pop the next queued tool call as `{id, name, args}` JSON, or None.
    pub fn next_call(&mut self) -> (r: Option<String>)
        requires
            old(self).wf(),
        ensures
            final(self).wf(),
            match r {
                Some(s) => {
                    &&& old(self)@.queue.len() > 0
                    &&& s@ == json::printed(call_v(old(self)@.queue[0]))
                    &&& final(self)@ == (ServerV { queue: old(self)@.queue.skip(1), ..old(self)@ })
                },
                None => old(self)@.queue.len() == 0 && final(self)@ == old(self)@,
            },
    {
        match self.take_call() {
            Some(j) => Some(json::print(&j)),
            None => None,
        }
    }

    /// The call `id` is answered, or given up: says whether it was waiting. A call
    /// is settled once.
    pub fn respond(&mut self, id: u64) -> (r: bool)
        requires
            old(self).wf(),
        ensures
            r == old(self)@.waiting.contains(id),
            final(self)@ == (ServerV { waiting: old(self)@.waiting.remove(id), ..old(self)@ }),
            final(self).wf(),
    {
        let ghost w = self.waiting@;
        match self.find_waiting(id) {
            Some(i) => {
                let _ = self.waiting.remove(i);
                proof {
                    let now = self.waiting@;
                    assert(w.contains(w[i as int]));
                    assert forall|x: u64| #[trigger] now.contains(x) == (w.contains(x) && x != id) by {
                        if now.contains(x) {
                            let k = choose|k: int| 0 <= k < now.len() && now[k] == x;
                            let j = if k < i { k } else { k + 1 };
                            assert(w[j] == x);
                        }
                        if w.contains(x) && x != id {
                            let j = choose|j: int| 0 <= j < w.len() && w[j] == x;
                            let k = if j < i { j } else { j - 1 };
                            assert(now[k] == x);
                        }
                    }
                    assert(now.to_set() =~= w.to_set().remove(id));
                }
                true
            },
            None => {
                assert(w.to_set() =~= w.to_set().remove(id));
                false
            },
        }
    }
}

/// The result of a call the host answered with a text: the JSON value it is, or
/// else the text itself.
pub fn host_result(answer: &str) -> (r: Json)
    ensures
        r@ == result_of(answer@, json::read(answer@)),
{
    let v = json::parse(answer);
    result_or_text(answer, v)
}

/// The value that was read from the host's answer, or else the answer's text.
pub fn result_or_text(answer: &str, read: Option<Json>) -> (r: Json)
    ensures
        r@ == result_of(answer@, match read {
            Some(v) => Some(v@),
            None => None,
        }),
{
    match read {
        Some(v) => v,
        None => text_result(answer, false),
    }
}

/// The result of a call nobody answered in time.
pub fn timeout_result() -> (r: Json)
    ensures
        r@ == text_result_v(TIMED_OUT@, true),
{
    text_result(TIMED_OUT, true)
}

/// A message is answered, now or when its call is, exactly if it has an id.
pub proof fn law_answered_iff_identified(s: ServerV, msg: JsonV)
    ensures
        dispatched(s, msg).1 is Nothing <==> field(msg, "id"@) is None,
        dispatched(s, msg).1 is Nothing ==> dispatched(s, msg).0 == s,
{
}

/// A call that is dispatched joins the end of the queue under a number that is then
/// waiting; earlier calls stay ahead of it.
pub proof fn law_calls_queue_in_order(s: ServerV, msg: JsonV)
    requires
        dispatched(s, msg).1 is Call,
    ensures
        ({
            let t = dispatched(s, msg).0;
            &&& t.queue.len() == s.queue.len() + 1
            &&& t.queue.take(s.queue.len() as int) == s.queue
            &&& t.queue.last().id == s.next_id
            &&& t.waiting.contains(t.queue.last().id)
            &&& t.tools == s.tools
        }),
{
    let t = dispatched(s, msg).0;
    assert(t.queue.take(s.queue.len() as int) =~= s.queue);
}

/// The names in an answer are told apart.
proof fn lemma_answer_keys()
    ensures
        "jsonrpc"@.len() == 7,
        "id"@.len() == 2,
        "result"@.len() == 6,
        "error"@.len() == 5,
        "code"@.len() == 4,
        "message"@.len() == 7,
        "protocolVersion"@.len() == 15,
        "capabilities"@.len() == 12,
        "serverInfo"@.len() == 10,
        "name"@.len() == 4,
        "args"@.len() == 4,
        "args"@[0] == 'a' && "name"@[0] == 'n',
        "content"@.len() == 7,
        "isError"@.len() == 7,
        "content"@[0] == 'c' && "isError"@[0] == 'i',
        "type"@.len() == 4,
        "text"@.len() == 4,
        "type"@[1] == 'y' && "text"@[1] == 'e',
{
    reveal_strlit("jsonrpc");
    reveal_strlit("id");
    reveal_strlit("result");
    reveal_strlit("error");
    reveal_strlit("code");
    reveal_strlit("message");
    reveal_strlit("protocolVersion");
    reveal_strlit("capabilities");
    reveal_strlit("serverInfo");
    reveal_strlit("name");
    reveal_strlit("args");
    reveal_strlit("content");
    reveal_strlit("isError");
    reveal_strlit("type");
    reveal_strlit("text");
}

/// The names of the methods are told apart.
proof fn lemma_methods()
    ensures
        "initialize"@.len() == 10,
        "ping"@.len() == 4,
        "tools/list"@.len() == 10,
        "tools/call"@.len() == 10,
        "initialize"@[0] == 'i',
        "tools/list"@[0] == 't' && "tools/list"@[6] == 'l',
        "tools/call"@[0] == 't' && "tools/call"@[6] == 'c',
{
    reveal_strlit("initialize");
    reveal_strlit("ping");
    reveal_strlit("tools/list");
    reveal_strlit("tools/call");
}

/// Whether a value answers the request `id` with `result`.
pub open spec fn answers(r: JsonV, id: JsonV, result: JsonV) -> bool {
    &&& at(r, "jsonrpc"@) == JsonV::Str("2.0"@)
    &&& field(r, "id"@) == Some(id)
    &&& field(r, "result"@) == Some(result)
    &&& field(r, "error"@) is None
}

/// Whether a value turns the request `id` down.
pub open spec fn turns_down(r: JsonV, id: JsonV) -> bool {
    &&& at(r, "jsonrpc"@) == JsonV::Str("2.0"@)
    &&& field(r, "id"@) == Some(id)
    &&& field(r, "result"@) is None
    &&& at(at(r, "error"@), "code"@) == JsonV::Int((-32601) as i64)
    &&& at(at(r, "error"@), "message"@) == JsonV::Str("unknown method"@)
}

/// Whether a tool result is one text, and an error or none.
pub open spec fn says(result: JsonV, s: Seq<char>, is_error: bool) -> bool {
    &&& at(result, "isError"@) == JsonV::Bool(is_error)
    &&& at(result, "content"@) matches JsonV::Array(c) && c.len() == 1 && at(c[0], "type"@) == JsonV::Str("text"@)
        && at(c[0], "text"@) == JsonV::Str(s)
}

proof fn lemma_answer(id: JsonV, result: JsonV)
    ensures
        answers(answer_v(id, result), id, result),
        turns_down(unknown_v(id), id),
{
    lemma_answer_keys();
    reveal_with_fuel(crate::json::member, 5);
}

/// A ping is answered with an empty result, and the list of tools with the tools that were
/// set; neither changes anything.
pub proof fn law_pings_and_lists_are_answered(s: ServerV, msg: JsonV)
    requires
        field(msg, "id"@) is Some,
    ensures
        ({
            let r = dispatched(s, msg);
            let id = field(msg, "id"@)->0;
            let method = at(msg, "method"@);
            &&& method == JsonV::Str("ping"@) ==> {
                &&& r.0 == s
                &&& r.1 is Reply && answers(r.1->Reply_0, id, JsonV::Object(Seq::empty()))
            }
            &&& method == JsonV::Str("tools/list"@) ==> {
                &&& r.0 == s
                &&& r.1 is Reply && answers(r.1->Reply_0, id, at(r.1->Reply_0, "result"@))
                &&& at(at(r.1->Reply_0, "result"@), "tools"@) == s.tools
            }
        }),
{
    let id = field(msg, "id"@)->0;
    lemma_methods();
    lemma_answer(id, JsonV::Object(Seq::empty()));
    lemma_answer(id, JsonV::Object(seq![("tools"@, s.tools)]));
    reveal_with_fuel(crate::json::member, 2);
}

/// A client that says hello is told the protocol version it asked for, or the server's own
/// where it named none, and who the server is; nothing changes.
pub proof fn law_hello_is_answered(s: ServerV, msg: JsonV)
    requires
        field(msg, "id"@) is Some,
        at(msg, "method"@) == JsonV::Str("initialize"@),
    ensures
        ({
            let r = dispatched(s, msg);
            let id = field(msg, "id"@)->0;
            let asked = at(at(msg, "params"@), "protocolVersion"@);
            let hello = at(r.1->Reply_0, "result"@);
            &&& r.0 == s
            &&& r.1 is Reply && answers(r.1->Reply_0, id, hello)
            &&& asked is Str ==> at(hello, "protocolVersion"@) == asked
            &&& !(asked is Str) ==> at(hello, "protocolVersion"@) == JsonV::Str("2025-06-18"@)
            &&& at(at(hello, "capabilities"@), "tools"@) == JsonV::Object(Seq::empty())
            &&& at(at(hello, "serverInfo"@), "name"@) == JsonV::Str("unterm-unity"@)
        }),
{
    let id = field(msg, "id"@)->0;
    lemma_methods();
    lemma_answer(id, hello_v(msg));
    lemma_answer_keys();
    reveal_with_fuel(crate::json::member, 4);
}

/// A call is not answered at once. It waits under the next number, with the name and the
/// arguments the client gave: no name is the empty one, and no arguments are none.
pub proof fn law_calls_are_queued_as_asked(s: ServerV, msg: JsonV)
    requires
        field(msg, "id"@) is Some,
        at(msg, "method"@) == JsonV::Str("tools/call"@),
    ensures
        ({
            let r = dispatched(s, msg);
            let id = field(msg, "id"@)->0;
            let params = at(msg, "params"@);
            let c = r.0.queue.last();
            &&& r.1 == (DispatchedV::Call { call: s.next_id, id })
            &&& r.0.queue == s.queue.push(c)
            &&& c.id == s.next_id
            &&& at(params, "name"@) is Str ==> at(params, "name"@) == JsonV::Str(c.name)
            &&& !(at(params, "name"@) is Str) ==> c.name.len() == 0
            &&& field(params, "arguments"@) is Some ==> field(params, "arguments"@) == Some(c.args)
            &&& field(params, "arguments"@) is None ==> c.args == JsonV::Object(Seq::empty())
            &&& r.0.waiting == s.waiting.insert(s.next_id)
            &&& s.next_id < u64::MAX ==> r.0.next_id == s.next_id + 1
            &&& s.next_id == u64::MAX ==> r.0.next_id == 0
            &&& r.0.tools == s.tools
        }),
{
    lemma_methods();
}

/// Any other request is turned down, and changes nothing.
pub proof fn law_other_methods_are_turned_down(s: ServerV, msg: JsonV)
    requires
        field(msg, "id"@) is Some,
        at(msg, "method"@) != JsonV::Str("initialize"@),
        at(msg, "method"@) != JsonV::Str("ping"@),
        at(msg, "method"@) != JsonV::Str("tools/list"@),
        at(msg, "method"@) != JsonV::Str("tools/call"@),
    ensures
        ({
            let r = dispatched(s, msg);
            &&& r.0 == s
            &&& r.1 is Reply && turns_down(r.1->Reply_0, field(msg, "id"@)->0)
        }),
{
    lemma_methods();
    lemma_answer(field(msg, "id"@)->0, JsonV::Null);
}

/// The host reads of a call its number, its name and its arguments.
pub proof fn law_taken_call_is_what_was_asked(c: CallV)
    ensures
        at(call_v(c), "name"@) == JsonV::Str(c.name),
        at(call_v(c), "args"@) == c.args,
        c.id <= i64::MAX ==> (at(call_v(c), "id"@) matches JsonV::Int(n) && n == c.id),
        c.id > i64::MAX ==> at(call_v(c), "id"@) == JsonV::UInt(c.id),
{
    lemma_answer_keys();
    reveal_with_fuel(crate::json::member, 4);
}

/// A host's answer that is a value is the result; any other answer is a text that the call
/// came to without an error. A result that is one text says whether it is an error.
pub proof fn law_answers_are_results(answer: Seq<char>, read: Option<JsonV>, is_error: bool)
    ensures
        read is Some ==> Some(result_of(answer, read)) == read,
        read is None ==> says(result_of(answer, read), answer, false),
        says(text_result_v(answer, is_error), answer, is_error),
{
    lemma_answer_keys();
    reveal_with_fuel(crate::json::member, 3);
}

} // verus!

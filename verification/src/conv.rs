//! The conversation model: a sequence of role-tagged blocks, each stamped with the
//! unix second it was added at, serialized into the transcript that the panel parses
//! (`role{US}body` blocks joined by `{RS}`). A lull between two blocks is marked by a
//! separator that says how long ago the later one was added.
//!
//! Roles: 'u' user, 'q' a queued prompt, 'a' agent, 't' thought, 'x' tool, and 's' a
//! separator, which has the later block's stamp behind its tag.

use vstd::prelude::*;
use vstd::string::StringExecFns;

use crate::clock::{age, editor_locale, format_in, label, locale_v};
use crate::json::{self, as_array, as_bool, as_str, at, elems, str_or_empty, Json, JsonV};
use crate::text::{chars, decimal, from_range, join, join_strs, lemma_run, not_char, run, same, show_u64, texts};

verus! {

/// The separator between blocks.
pub const RS: char = '\u{1e}';

/// The separator between the fields of a block.
pub const US: char = '\u{1f}';

/// The longest preview of a tool's input, in characters.
pub const PREVIEW_CAP: usize = 60;

/// The longest description of a tool's input, in characters.
pub const DETAIL_CAP: usize = 400;

/// How far apart blocks are added for a lull to be marked, in seconds: minutes, not one.
pub const LULL_SECS: u64 = 120;

/// The longest tool result kept, in characters.
pub const RESULT_CAP: usize = 6000;

// ---------------------------------------------------------------------------
// Texts
// ---------------------------------------------------------------------------

/// `s` cut to `max` characters, with an ellipsis where something was cut off.
pub open spec fn truncated(s: Seq<char>, max: int) -> Seq<char> {
    if s.len() <= max {
        s
    } else {
        s.take(max).push('…')
    }
}

/// `s` cut to `max` characters, with an ellipsis where something was cut off.
pub fn truncate(s: &str, max: usize) -> (r: String)
    ensures
        r@ == truncated(s@, max as int),
{
    let v = chars(s);
    if v.len() <= max {
        s.to_owned()
    } else {
        let mut out = from_range(&v, 0, max);
        out.push('…');
        assert(v@.subrange(0, max as int) =~= v@.take(max as int));
        out
    }
}

/// `s` with every separator turned into a space.
pub open spec fn sanitized(s: Seq<char>) -> Seq<char> {
    Seq::new(s.len(), |i: int| if s[i] == RS || s[i] == US { ' ' } else { s[i] })
}

/// Collapse the transcript's block/field separators (which would corrupt the
/// encoding) to spaces. Newlines are kept.
pub fn sanitize(s: &str) -> (r: String)
    ensures
        r@ == sanitized(s@),
{
    let v = chars(s);
    let mut out = String::new();
    let mut i: usize = 0;
    while i < v.len()
        invariant
            i <= v@.len(),
            v@ == s@,
            out@ == sanitized(s@).take(i as int),
        decreases v@.len() - i,
    {
        let c = v[i];
        if c == RS || c == US {
            out.push(' ');
        } else {
            out.push(c);
        }
        i = i + 1;
        assert(out@ =~= sanitized(s@).take(i as int));
    }
    assert(sanitized(s@).take(i as int) =~= sanitized(s@));
    out
}

/// The first line of `s`, without its line ending.
pub open spec fn first_line(s: Seq<char>) -> Seq<char> {
    let n = run(s, not_char('\n')) as int;
    if 0 < n < s.len() && s[n - 1] == '\r' {
        s.take(n - 1)
    } else {
        s.take(n)
    }
}

/// The first line of `s`, without its line ending.
pub fn head_line(s: &str) -> (r: String)
    ensures
        r@ == first_line(s@),
{
    let v = chars(s);
    let mut n: usize = 0;
    while n < v.len() && v[n] != '\n'
        invariant
            n <= v@.len(),
            forall|k: int| 0 <= k < n ==> not_char('\n')(#[trigger] v@[k]),
        decreases v@.len() - n,
    {
        n = n + 1;
    }
    proof {
        lemma_run(v@, not_char('\n'), n as nat);
    }
    if 0 < n && n < v.len() && v[n - 1] == '\r' {
        from_range(&v, 0, n - 1)
    } else {
        from_range(&v, 0, n)
    }
}

/// The status glyph shown at the head of a tool block.
pub open spec fn glyph_of(status: Seq<char>) -> Seq<char> {
    if status == "completed"@ {
        "✓"@
    } else if status == "failed"@ {
        "✗"@
    } else if status == "in_progress"@ {
        "▸"@
    } else {
        "·"@
    }
}

/// The status glyph shown at the head of a tool block.
pub fn glyph_for(status: &str) -> (r: &'static str)
    ensures
        r@ == glyph_of(status@),
{
    if same(status, "completed") {
        "✓"
    } else if same(status, "failed") {
        "✗"
    } else if same(status, "in_progress") {
        "▸"
    } else {
        "·"
    }
}

// ---------------------------------------------------------------------------
// What tool calls carry
// ---------------------------------------------------------------------------

/// The arguments that tell what a tool call will do, in order of preference.
pub open spec fn salient_keys() -> Seq<Seq<char>> {
    seq!["command"@, "file_path"@, "path"@, "url"@, "pattern"@, "query"@]
}

/// The first salient argument from the `i`-th on that is a non-empty string.
pub open spec fn salient(input: JsonV, i: int) -> Option<Seq<char>>
    decreases 6 - i,
{
    if i < 0 || i >= 6 {
        None
    } else {
        match as_str(at(input, salient_keys()[i])) {
            Some(s) if s.len() > 0 => Some(s),
            _ => salient(input, i + 1),
        }
    }
}

/// A short description of a tool call's input, given its printed form: the salient
/// argument, else nothing for an empty input, else the printed form.
pub open spec fn tool_text(input: JsonV, printed: Seq<char>) -> Seq<char> {
    match salient(input, 0) {
        Some(s) => truncated(s, DETAIL_CAP as int),
        None => match input {
            JsonV::Null => Seq::empty(),
            JsonV::Object(o) if o.len() == 0 => Seq::empty(),
            _ => truncated(printed, DETAIL_CAP as int),
        },
    }
}

fn salient_arg(input: &Json) -> (r: Option<String>)
    ensures
        match r {
            Some(s) => salient(input@, 0) == Some(s@),
            None => salient(input@, 0) is None,
        },
{
    let keys = ["command", "file_path", "path", "url", "pattern", "query"];
    proof {
        assert(keys@.len() == 6);
    }
    let mut i: usize = 0;
    while i < 6
        invariant
            i <= 6,
            keys@.len() == 6,
            forall|k: int| 0 <= k < 6 ==> #[trigger] keys@[k]@ == salient_keys()[k],
            salient(input@, 0) == salient(input@, i as int),
        decreases 6 - i,
    {
        assert(keys@[i as int]@ == salient_keys()[i as int]);
        if let Some(s) = input.str_at(keys[i]) {
            if !s.is_empty() {
                return Some(s.to_owned());
            }
        }
        i = i + 1;
    }
    None
}

/// The description of a tool call's input whose printed form is `printed`.
pub fn describe_printed(input: &Json, printed: &str) -> (r: String)
    ensures
        r@ == tool_text(input@, printed@),
{
    match salient_arg(input) {
        Some(s) => truncate(s.as_str(), DETAIL_CAP),
        None => match input {
            Json::Null => String::new(),
            Json::Object(v) => {
                proof {
                    Json::lemma_object(*v);
                }
                if v.len() == 0 {
                    String::new()
                } else {
                    truncate(printed, DETAIL_CAP)
                }
            },
            _ => truncate(printed, DETAIL_CAP),
        },
    }
}

/// A short, human-readable description of what a tool call will do, for the
/// permission prompt — the salient argument (Bash command, edited/read path,
/// fetched URL, …), falling back to the compact JSON of the input.
pub fn describe_tool(input: &Json) -> (r: String)
    ensures
        r@ == tool_text(input@, json::printed(input@)),
{
    let p = json::print(input);
    describe_printed(input, p.as_str())
}

/// The text parts of a result's content, from the `i`-th on, after `out`.
pub open spec fn result_parts(parts: Seq<JsonV>, i: int, out: Seq<char>) -> Seq<char>
    decreases parts.len() - i,
{
    if i < 0 || i >= parts.len() {
        out
    } else {
        match as_str(at(parts[i], "text"@)) {
            Some(t) => result_parts(parts, i + 1, if out.len() > 0 { out.push('\n') + t } else { t }),
            None => result_parts(parts, i + 1, out),
        }
    }
}

/// The text of a tool result's content: the string, or the text parts one per
/// line, capped.
pub open spec fn result_text(content: JsonV) -> Seq<char> {
    truncated(
        match content {
            JsonV::Str(s) => s,
            JsonV::Array(parts) => result_parts(parts, 0, Seq::empty()),
            _ => Seq::empty(),
        },
        RESULT_CAP as int,
    )
}

/// Concatenate the text of a `tool_result` `content` (a string, or an array of
/// content blocks), ignoring non-text parts (images, etc.), capped so a huge
/// result can't bloat the transcript.
pub fn tool_result_text(content: &Json) -> (r: String)
    ensures
        r@ == result_text(content@),
{
    let mut out = String::new();
    match content {
        Json::Str(s) => {
            out = s.clone();
        },
        Json::Array(parts) => {
            proof {
                Json::lemma_array(*parts);
            }
            let ghost all = elems(parts@);
            let mut i: usize = 0;
            while i < parts.len()
                invariant
                    i <= parts@.len(),
                    all == elems(parts@),
                    result_parts(all, 0, Seq::empty()) == result_parts(all, i as int, out@),
                decreases parts@.len() - i,
            {
                assert(all[i as int] == parts@[i as int]@);
                if let Some(t) = parts[i].str_at("text") {
                    let ghost before = out@;
                    if !out.as_str().is_empty() {
                        out.push('\n');
                    }
                    out.append(t);
                    assert(out@ =~= if before.len() > 0 { before.push('\n') + t@ } else { t@ });
                }
                i = i + 1;
            }
        },
        _ => {},
    }
    truncate(out.as_str(), RESULT_CAP)
}


// ---------------------------------------------------------------------------
// The model
// ---------------------------------------------------------------------------

/// A tool call's rendered state: the block it owns and what it is shown with.
#[verifier::ext_equal]
pub struct ToolV {
    pub id: Seq<char>,
    pub idx: int,
    pub title: Seq<char>,
    pub glyph: Seq<char>,
    pub input: Seq<char>,
    pub output: Seq<char>,
}

/// A conversation: its blocks as role, body and the unix second they were added at (0
/// where that is unknown), the tool calls that own one, and the tool calls that are
/// not shown.
#[verifier::ext_equal]
pub struct ConvV {
    pub blocks: Seq<(char, Seq<char>, u64)>,
    pub tools: Seq<ToolV>,
    pub hidden: Seq<Seq<char>>,
}

/// The position of the tool `id`, and the number of tools where there is none.
pub open spec fn tool_pos(tools: Seq<ToolV>, id: Seq<char>) -> int
    decreases tools.len(),
{
    if tools.len() == 0 {
        0
    } else if tools[0].id == id {
        0
    } else {
        1 + tool_pos(tools.skip(1), id)
    }
}

/// Whether a role can tag a block: it is no separator of the transcript.
pub open spec fn taggable(role: char) -> bool {
    role != RS && role != US
}

/// No block is tagged by a separator; no tool id occurs twice, no two tools share a
/// block, and each owns a tool block.
pub open spec fn conv_wf(c: ConvV) -> bool {
    &&& forall|i: int| 0 <= i < c.blocks.len() ==> taggable((#[trigger] c.blocks[i]).0)
    &&& forall|i: int| 0 <= i < c.tools.len() ==> 0 <= (#[trigger] c.tools[i]).idx < c.blocks.len()
    &&& forall|i: int| 0 <= i < c.tools.len() ==> c.blocks[(#[trigger] c.tools[i]).idx].0 == 'x'
    &&& forall|i: int, j: int|
        0 <= i < j < c.tools.len() ==> (#[trigger] c.tools[i]).id != (#[trigger] c.tools[j]).id && c.tools[i].idx
            != c.tools[j].idx
}

/// The body of a tool's block: `<id>{US}<header>{US}<preview>{US}<detail>`.
pub open spec fn tool_body(t: ToolV) -> Seq<char> {
    let header = t.glyph.push(' ') + t.title;
    let preview = truncated(first_line(t.input), PREVIEW_CAP as int);
    let detail = if t.input.len() > 0 && t.output.len() > 0 {
        t.input.push('\n') + t.output
    } else {
        t.input + t.output
    };
    t.id.push(US) + header.push(US) + preview.push(US) + detail
}

/// With a block appended.
pub open spec fn pushed(c: ConvV, role: char, body: Seq<char>, stamp: u64) -> ConvV {
    ConvV { blocks: c.blocks.push((role, body, stamp)), ..c }
}

/// The index of the `n`-th queued block from `i` on, and the number of blocks
/// where there are fewer.
pub open spec fn queued_at(blocks: Seq<(char, Seq<char>, u64)>, i: int, n: int) -> int
    decreases blocks.len() - i,
{
    if i < 0 || i >= blocks.len() {
        blocks.len() as int
    } else if blocks[i].0 == 'q' {
        if n == 0 {
            i
        } else {
            queued_at(blocks, i + 1, n - 1)
        }
    } else {
        queued_at(blocks, i + 1, n)
    }
}

/// How many blocks are queued prompts.
pub open spec fn queued(blocks: Seq<(char, Seq<char>, u64)>) -> nat
    decreases blocks.len(),
{
    if blocks.len() == 0 {
        0
    } else {
        queued(blocks.drop_last()) + if blocks.last().0 == 'q' { 1nat } else { 0 }
    }
}

/// With the oldest queued prompt made a user turn.
pub open spec fn promoted(c: ConvV) -> ConvV {
    let i = queued_at(c.blocks, 0, 0);
    if i < c.blocks.len() {
        ConvV { blocks: c.blocks.update(i, ('u', c.blocks[i].1, c.blocks[i].2)), ..c }
    } else {
        c
    }
}

/// Without block `i`, the tools that own later blocks following them down.
pub open spec fn without(c: ConvV, i: int) -> ConvV {
    if 0 <= i < c.blocks.len() {
        ConvV {
            blocks: c.blocks.remove(i),
            tools: Seq::new(
                c.tools.len(),
                |k: int| if c.tools[k].idx > i { ToolV { idx: c.tools[k].idx - 1, ..c.tools[k] } } else { c.tools[k] },
            ),
            ..c
        }
    } else {
        c
    }
}

/// With `s` appended to the last block if it has the role, else in a new block.
pub open spec fn appended(c: ConvV, role: char, s: Seq<char>, stamp: u64) -> ConvV {
    if s.len() == 0 {
        c
    } else if c.blocks.len() > 0 && c.blocks.last().0 == role {
        ConvV { blocks: c.blocks.update(c.blocks.len() - 1, (role, c.blocks.last().1 + s, c.blocks.last().2)), ..c }
    } else {
        pushed(c, role, s, stamp)
    }
}

/// With tool `p` replaced by `t` and its block rebuilt.
pub open spec fn tool_set(c: ConvV, p: int, t: ToolV) -> ConvV {
    ConvV {
        blocks: c.blocks.update(t.idx, (c.blocks[t.idx].0, tool_body(t), c.blocks[t.idx].2)),
        tools: c.tools.update(p, t),
        ..c
    }
}

/// With a new tool and its block.
pub open spec fn tool_added(c: ConvV, t: ToolV, stamp: u64) -> ConvV {
    ConvV { blocks: c.blocks.push(('x', tool_body(t), stamp)), tools: c.tools.push(t), ..c }
}

/// With a `tool_use` recorded: the call is in progress under the given title, or
/// the title it had where none is given.
pub open spec fn tool_begun(c: ConvV, id: Seq<char>, name: Seq<char>, input: Seq<char>, stamp: u64) -> ConvV {
    let p = tool_pos(c.tools, id);
    if p < c.tools.len() {
        let t = c.tools[p];
        tool_set(
            c,
            p,
            ToolV {
                title: if name.len() > 0 { name } else { t.title },
                glyph: "▸"@,
                input: sanitized(input),
                ..t
            },
        )
    } else {
        tool_added(
            c,
            ToolV {
                id,
                idx: c.blocks.len() as int,
                title: if name.len() > 0 { name } else { "(tool)"@ },
                glyph: "▸"@,
                input: sanitized(input),
                output: Seq::empty(),
            },
            stamp,
        )
    }
}

/// With a `tool_result` recorded: the call has its status glyph and its output.
pub open spec fn tool_ended(c: ConvV, id: Seq<char>, status: Seq<char>, output: Seq<char>, stamp: u64) -> ConvV {
    let p = tool_pos(c.tools, id);
    if p < c.tools.len() {
        tool_set(c, p, ToolV { glyph: glyph_of(status), output: sanitized(output), ..c.tools[p] })
    } else {
        tool_added(
            c,
            ToolV {
                id,
                idx: c.blocks.len() as int,
                title: "(tool)"@,
                glyph: glyph_of(status),
                input: Seq::empty(),
                output: sanitized(output),
            },
            stamp,
        )
    }
}

/// With a tool call hidden from the transcript.
pub open spec fn hid(c: ConvV, id: Seq<char>) -> ConvV {
    if id.len() == 0 || c.hidden.contains(id) {
        c
    } else {
        ConvV { hidden: c.hidden.push(id), ..c }
    }
}

/// With a user turn, or with the agent's words appended.
pub open spec fn said(c: ConvV, role: Seq<char>, s: Seq<char>, stamp: u64) -> ConvV {
    if role == "user"@ {
        pushed(c, 'u', s, stamp)
    } else {
        appended(c, 'a', s, stamp)
    }
}

/// With one content block of a message applied.
pub open spec fn block_applied(c: ConvV, role: Seq<char>, b: JsonV, stamp: u64) -> ConvV {
    let ty = as_str(at(b, "type"@));
    if ty == Some("text"@) {
        said(c, role, str_or_empty(at(b, "text"@)), stamp)
    } else if ty == Some("thinking"@) {
        appended(c, 't', str_or_empty(at(b, "thinking"@)), stamp)
    } else if ty == Some("tool_use"@) {
        let id = str_or_empty(at(b, "id"@));
        let name = str_or_empty(at(b, "name"@));
        if name == "ExitPlanMode"@ || name == "AskUserQuestion"@ {
            hid(c, id)
        } else {
            tool_begun(c, id, name, tool_text(at(b, "input"@), json::printed(at(b, "input"@))), stamp)
        }
    } else if ty == Some("tool_result"@) {
        let id = str_or_empty(at(b, "tool_use_id"@));
        if c.hidden.contains(id) {
            c
        } else {
            tool_ended(
                c,
                id,
                if as_bool(at(b, "is_error"@)) == Some(true) { "failed"@ } else { "completed"@ },
                result_text(at(b, "content"@)),
                stamp,
            )
        }
    } else {
        c
    }
}

/// With the content blocks from the `i`-th on applied.
pub open spec fn blocks_applied(c: ConvV, role: Seq<char>, bs: Seq<JsonV>, i: int, stamp: u64) -> ConvV
    decreases bs.len() - i,
{
    if i < 0 || i >= bs.len() {
        c
    } else {
        blocks_applied(block_applied(c, role, bs[i], stamp), role, bs, i + 1, stamp)
    }
}

/// With a message's content applied: a string, or content blocks.
pub open spec fn message_applied(c: ConvV, role: Seq<char>, content: JsonV, stamp: u64) -> ConvV {
    match content {
        JsonV::Str(s) => said(c, role, s, stamp),
        JsonV::Array(bs) => blocks_applied(c, role, bs, 0, stamp),
        _ => c,
    }
}

/// With the tool results among the content blocks from the `i`-th on applied.
pub open spec fn results_applied(c: ConvV, bs: Seq<JsonV>, i: int, stamp: u64) -> ConvV
    decreases bs.len() - i,
{
    if i < 0 || i >= bs.len() {
        c
    } else if as_str(at(bs[i], "type"@)) == Some("tool_result"@) {
        results_applied(block_applied(c, "user"@, bs[i], stamp), bs, i + 1, stamp)
    } else {
        results_applied(c, bs, i + 1, stamp)
    }
}

/// A block as it stands in the transcript.
pub open spec fn encoded(b: (char, Seq<char>, u64)) -> Seq<char> {
    seq![b.0, US] + b.1
}

/// The blocks of the transcript, without the separators of lulls.
pub open spec fn serialized(c: ConvV) -> Seq<char> {
    join(Seq::new(c.blocks.len(), |i: int| encoded(c.blocks[i])), RS)
}

/// Whether there is a lull before block `i`: it was added minutes after the block
/// before it, and when is known of both.
pub open spec fn lull(blocks: Seq<(char, Seq<char>, u64)>, i: int) -> bool {
    &&& 0 < i < blocks.len()
    &&& blocks[i - 1].2 > 0
    &&& blocks[i].2 > 0
    &&& blocks[i].2 - blocks[i - 1].2 >= LULL_SECS
}

/// Whether there is a lull before any block.
pub open spec fn has_lull(blocks: Seq<(char, Seq<char>, u64)>) -> bool {
    exists|i: int| #[trigger] lull(blocks, i)
}

/// The label of the separator before block `i`: the block's age.
pub open spec fn lull_label(
    blocks: Seq<(char, Seq<char>, u64)>,
    i: int,
    locale: Option<Seq<char>>,
    now: u64,
) -> Seq<char> {
    label(locale, age(blocks[i].2, now))
}

/// A separator as it stands in the transcript: its tag and the later block's stamp,
/// and the label.
pub open spec fn separator(stamp: u64, text: Seq<char>) -> Seq<char> {
    seq!['s'] + decimal(stamp as nat) + seq![US] + text
}

/// The first `n` blocks as they stand in the transcript at a time, each lull marked by
/// a separator.
pub open spec fn chunks_at(c: ConvV, locale: Option<Seq<char>>, now: u64, n: int) -> Seq<Seq<char>>
    decreases n,
{
    if n <= 0 || n > c.blocks.len() {
        Seq::empty()
    } else {
        let before = chunks_at(c, locale, now, n - 1);
        (if lull(c.blocks, n - 1) {
            before.push(separator(c.blocks[n - 1].2, lull_label(c.blocks, n - 1, locale, now)))
        } else {
            before
        }).push(encoded(c.blocks[n - 1]))
    }
}

/// The transcript at a time, in a locale.
pub open spec fn serialized_at(c: ConvV, locale: Option<Seq<char>>, now: u64) -> Seq<char> {
    join(chunks_at(c, locale, now, c.blocks.len() as int), RS)
}

/// Whether no label of a separator holds a separator of blocks.
pub open spec fn labels_plain(c: ConvV, locale: Option<Seq<char>>, now: u64) -> bool {
    forall|i: int| #[trigger] lull(c.blocks, i) ==> !lull_label(c.blocks, i, locale, now).contains(RS)
}

/// Without a lull the transcript is its blocks, at every time and in every locale.
pub proof fn law_no_lull_no_separator(c: ConvV, locale: Option<Seq<char>>, now: u64)
    requires
        !has_lull(c.blocks),
    ensures
        serialized_at(c, locale, now) == serialized(c),
{
    lemma_no_lull(c, locale, now, c.blocks.len() as int);
    assert(chunks_at(c, locale, now, c.blocks.len() as int) =~= Seq::new(
        c.blocks.len(),
        |i: int| encoded(c.blocks[i]),
    ));
}

proof fn lemma_no_lull(c: ConvV, locale: Option<Seq<char>>, now: u64, n: int)
    requires
        !has_lull(c.blocks),
        0 <= n <= c.blocks.len(),
    ensures
        chunks_at(c, locale, now, n) == Seq::new(n as nat, |i: int| encoded(c.blocks[i])),
    decreases n,
{
    if n > 0 {
        lemma_no_lull(c, locale, now, n - 1);
        assert(!lull(c.blocks, n - 1));
    }
    assert(chunks_at(c, locale, now, n) =~= Seq::new(n as nat, |i: int| encoded(c.blocks[i])));
}

/// A lull between two consecutive blocks is marked by a separator between them that is
/// labelled by the later block's age; without one they stand next to each other.
pub proof fn law_lulls_are_separated(c: ConvV, locale: Option<Seq<char>>, now: u64, i: int)
    requires
        0 < i < c.blocks.len(),
    ensures
        ({
            let (a, b) = (c.blocks[i - 1], c.blocks[i]);
            let before = chunks_at(c, locale, now, i - 1);
            let first = if lull(c.blocks, i - 1) {
                before.push(separator(a.2, label(locale, age(a.2, now))))
            } else {
                before
            };
            chunks_at(c, locale, now, i + 1) == (if a.2 > 0 && b.2 > 0 && b.2 - a.2 >= LULL_SECS {
                first + seq![encoded(a), separator(b.2, label(locale, age(b.2, now))), encoded(b)]
            } else {
                first + seq![encoded(a), encoded(b)]
            })
        }),
{
    reveal_with_fuel(chunks_at, 3);
    let (a, b) = (c.blocks[i - 1], c.blocks[i]);
    let before = chunks_at(c, locale, now, i - 1);
    let first = if lull(c.blocks, i - 1) {
        before.push(separator(a.2, label(locale, age(a.2, now))))
    } else {
        before
    };
    assert(chunks_at(c, locale, now, i) == first.push(encoded(a)));
    if lull(c.blocks, i) {
        assert(chunks_at(c, locale, now, i + 1) =~= first + seq![
            encoded(a),
            separator(b.2, label(locale, age(b.2, now))),
            encoded(b),
        ]);
    } else {
        assert(chunks_at(c, locale, now, i + 1) =~= first + seq![encoded(a), encoded(b)]);
    }
}

// ---------------------------------------------------------------------------
// The conversation
// ---------------------------------------------------------------------------

/// A tool call's rendered state. `idx` is the block it owns; `title` is the tool
/// name; `input`/`output` are the (sanitized) call arguments and result text, kept
/// so the panel can fold/unfold the tool's content.
struct ToolEntry {
    id: String,
    idx: usize,
    title: String,
    glyph: &'static str,
    input: String,
    output: String,
}

impl ToolEntry {
    spec fn val(self) -> ToolV {
        ToolV {
            id: self.id@,
            idx: self.idx as int,
            title: self.title@,
            glyph: self.glyph@,
            input: self.input@,
            output: self.output@,
        }
    }

    fn body(&self) -> (r: String)
        ensures
            r@ == tool_body(self.val()),
    {
        let line = head_line(self.input.as_str());
        let preview = truncate(line.as_str(), PREVIEW_CAP);
        let mut out = self.id.clone();
        out.push(US);
        out.append(self.glyph);
        out.push(' ');
        out.append(self.title.as_str());
        out.push(US);
        out.append(preview.as_str());
        out.push(US);
        out.append(self.input.as_str());
        if !self.input.as_str().is_empty() && !self.output.as_str().is_empty() {
            out.push('\n');
        }
        out.append(self.output.as_str());
        assert(out@ =~= tool_body(self.val()));
        out
    }
}

/// A conversation.
pub struct Conv {
    blocks: Vec<(char, String, u64)>,
    tools: Vec<ToolEntry>,
    // Tool calls rendered by a view of their own, whose raw line (and result) is
    // suppressed in the transcript.
    hidden_tools: Vec<String>,
}

impl View for Conv {
    type V = ConvV;

    closed spec fn view(&self) -> ConvV {
        ConvV {
            blocks: Seq::new(self.blocks@.len(), |i: int| (self.blocks@[i].0, self.blocks@[i].1@, self.blocks@[i].2)),
            tools: Seq::new(self.tools@.len(), |i: int| self.tools@[i].val()),
            hidden: texts(self.hidden_tools@),
        }
    }
}

impl Conv {
    /// The tool calls and the blocks they own are consistent.
    pub open spec fn wf(&self) -> bool {
        conv_wf(self@)
    }

    /// An empty conversation.
    pub fn new() -> (r: Self)
        ensures
            r.wf(),
            r@ == (ConvV { blocks: Seq::empty(), tools: Seq::empty(), hidden: Seq::empty() }),
    {
        let r = Conv { blocks: Vec::new(), tools: Vec::new(), hidden_tools: Vec::new() };
        assert(r@ =~= (ConvV { blocks: Seq::empty(), tools: Seq::empty(), hidden: Seq::empty() }));
        r
    }

    fn push(&mut self, role: char, body: String, stamp: u64)
        requires
            old(self).wf(),
            taggable(role),
        ensures
            final(self)@ == pushed(old(self)@, role, body@, stamp),
            final(self).wf(),
    {
        self.blocks.push((role, body, stamp));
        assert(self@ =~= pushed(old(self)@, role, body@, stamp));
    }

    /// Append a user turn.
    pub fn push_user(&mut self, text: &str, stamp: u64)
        requires
            old(self).wf(),
        ensures
            final(self)@ == pushed(old(self)@, 'u', text@, stamp),
            final(self).wf(),
    {
        self.push('u', text.to_owned(), stamp);
    }

    /// Append a queued (not-yet-sent) user prompt, kept as a dimmed `'q'` block in
    /// the transcript until the running turn finishes and it is promoted/sent.
    pub fn push_queued(&mut self, text: &str, stamp: u64)
        requires
            old(self).wf(),
        ensures
            final(self)@ == pushed(old(self)@, 'q', text@, stamp),
            final(self).wf(),
    {
        self.push('q', text.to_owned(), stamp);
    }

    fn find_queued(&self, n: usize) -> (r: usize)
        ensures
            r == queued_at(self@.blocks, 0, n as int),
            r <= self@.blocks.len(),
            r < self@.blocks.len() ==> self@.blocks[r as int].0 == 'q',
    {
        let mut seen: usize = n;
        let mut i: usize = 0;
        while i < self.blocks.len()
            invariant
                i <= self.blocks@.len(),
                self@.blocks.len() == self.blocks@.len(),
                queued_at(self@.blocks, 0, n as int) == queued_at(self@.blocks, i as int, seen as int),
            decreases self.blocks@.len() - i,
        {
            assert(self@.blocks[i as int].0 == self.blocks@[i as int].0);
            if self.blocks[i].0 == 'q' {
                if seen == 0 {
                    return i;
                }
                seen = seen - 1;
            }
            i = i + 1;
        }
        i
    }

    /// Promote the oldest queued prompt to a real user turn, returning its text
    /// (None if nothing is queued).
    pub fn promote_first_queued(&mut self) -> (r: Option<String>)
        requires
            old(self).wf(),
        ensures
            final(self)@ == promoted(old(self)@),
            final(self).wf(),
            match r {
                Some(t) => {
                    let i = queued_at(old(self)@.blocks, 0, 0);
                    i < old(self)@.blocks.len() && t@ == old(self)@.blocks[i].1
                },
                None => queued_at(old(self)@.blocks, 0, 0) == old(self)@.blocks.len(),
            },
    {
        let i: usize = self.find_queued(0);
        if i < self.blocks.len() {
            let t = self.blocks[i].1.clone();
            let stamp: u64 = self.blocks[i].2;
            self.blocks[i] = ('u', t.clone(), stamp);
            assert(self@ =~= promoted(old(self)@));
            Some(t)
        } else {
            None
        }
    }

    /// How many prompts are queued.
    pub fn queued_count(&self) -> (r: usize)
        ensures
            r == queued(self@.blocks),
    {
        let mut n: usize = 0;
        let mut i: usize = 0;
        assert(self@.blocks.take(0) =~= Seq::empty());
        while i < self.blocks.len()
            invariant
                i <= self.blocks@.len(),
                self@.blocks.len() == self.blocks@.len(),
                n == queued(self@.blocks.take(i as int)),
                n <= i,
            decreases self.blocks@.len() - i,
        {
            assert(self@.blocks.take(i as int + 1).drop_last() =~= self@.blocks.take(i as int));
            assert(self@.blocks[i as int].0 == self.blocks@[i as int].0);
            if self.blocks[i].0 == 'q' {
                n = n + 1;
            }
            i = i + 1;
        }
        assert(self@.blocks.take(i as int) =~= self@.blocks);
        n
    }

    /// Drop the `index`-th queued prompt (0-based among queued blocks only).
    pub fn cancel_queued(&mut self, index: usize)
        requires
            old(self).wf(),
        ensures
            final(self)@ == without(old(self)@, queued_at(old(self)@.blocks, 0, index as int)),
            final(self).wf(),
    {
        let i: usize = self.find_queued(index);
        self.remove_block(i);
        proof {
            lemma_without_wf(old(self)@, i as int);
        }
    }

    /// Remove block `i`, keeping the tool-id → block-index map consistent.
    pub fn remove_block(&mut self, i: usize)
        ensures
            final(self)@ == without(old(self)@, i as int),
    {
        if i >= self.blocks.len() {
            return;
        }
        let _ = self.blocks.remove(i);
        let ghost before = old(self)@;
        let n: usize = self.tools.len();
        let mut k: usize = 0;
        while k < n
            invariant
                k <= n,
                n == self.tools@.len() == before.tools.len(),
                before == old(self)@,
                i < old(self).blocks@.len(),
                self.blocks@ == old(self).blocks@.remove(i as int),
                self.hidden_tools@ == old(self).hidden_tools@,
                forall|j: int|
                    0 <= j < n ==> #[trigger] self.tools@[j].val() == if j < k && before.tools[j].idx > i {
                        ToolV { idx: before.tools[j].idx - 1, ..before.tools[j] }
                    } else {
                        before.tools[j]
                    },
            decreases n - k,
        {
            let ghost t = self.tools@[k as int].val();
            assert(t == before.tools[k as int]);
            if self.tools[k].idx > i {
                self.tools[k].idx = self.tools[k].idx - 1;
            }
            k = k + 1;
        }
        assert(self@ =~= without(before, i as int));
    }

    /// Append to the last block if it has the role, else open a new one.
    pub fn append_role(&mut self, role: char, s: &str, stamp: u64)
        requires
            old(self).wf(),
            taggable(role),
        ensures
            final(self)@ == appended(old(self)@, role, s@, stamp),
            final(self).wf(),
    {
        if s.is_empty() {
            return;
        }
        let n: usize = self.blocks.len();
        if n > 0 && self.blocks[n - 1].0 == role {
            let mut t = self.blocks[n - 1].1.clone();
            t.append(s);
            let at: u64 = self.blocks[n - 1].2;
            self.blocks[n - 1] = (role, t, at);
            assert(self@ =~= appended(old(self)@, role, s@, stamp));
        } else {
            self.push(role, s.to_owned(), stamp);
        }
    }

    fn find_tool(&self, id: &str) -> (r: usize)
        ensures
            r == tool_pos(self@.tools, id@),
            r <= self@.tools.len(),
            r < self@.tools.len() ==> self@.tools[r as int].id == id@,
            forall|k: int| 0 <= k < r ==> (#[trigger] self@.tools[k]).id != id@,
    {
        let ghost all = self@.tools;
        let mut i: usize = 0;
        assert(all.skip(0) =~= all);
        while i < self.tools.len()
            invariant
                i <= self.tools@.len(),
                all == self@.tools,
                tool_pos(all, id@) == i + tool_pos(all.skip(i as int), id@),
                forall|k: int| 0 <= k < i ==> (#[trigger] all[k]).id != id@,
            decreases self.tools@.len() - i,
        {
            assert(all.skip(i as int)[0] == all[i as int]);
            assert(all[i as int].id == self.tools@[i as int].id@);
            assert(all.skip(i as int).skip(1) =~= all.skip(i as int + 1));
            if same(self.tools[i].id.as_str(), id) {
                return i;
            }
            i = i + 1;
        }
        i
    }

    /// Replace a tool and re-encode its block.
    fn set_tool(&mut self, p: usize, t: ToolEntry)
        requires
            old(self).wf(),
            p < old(self)@.tools.len(),
            t.val().id == old(self)@.tools[p as int].id,
            t.val().idx == old(self)@.tools[p as int].idx,
        ensures
            final(self)@ == tool_set(old(self)@, p as int, t.val()),
            final(self).wf(),
    {
        let body = t.body();
        let i: usize = t.idx;
        assert(0 <= old(self)@.tools[p as int].idx < old(self)@.blocks.len());
        let role = self.blocks[i].0;
        let at: u64 = self.blocks[i].2;
        self.blocks[i] = (role, body, at);
        self.tools[p] = t;
        assert(self@ =~= tool_set(old(self)@, p as int, t.val()));
        proof {
            let a = old(self)@;
            let b = self@;
            assert forall|k: int| 0 <= k < b.tools.len() implies (#[trigger] b.tools[k]).id == a.tools[k].id
                && b.tools[k].idx == a.tools[k].idx by {}
            assert forall|k: int| 0 <= k < b.blocks.len() implies (#[trigger] b.blocks[k]).0 == a.blocks[k].0 by {}
        }
    }

    fn add_tool(&mut self, t: ToolEntry, stamp: u64)
        requires
            old(self).wf(),
            t.val().idx == old(self)@.blocks.len(),
            forall|k: int| 0 <= k < old(self)@.tools.len() ==> (#[trigger] old(self)@.tools[k]).id != t.val().id,
        ensures
            final(self)@ == tool_added(old(self)@, t.val(), stamp),
            final(self).wf(),
    {
        let body = t.body();
        self.blocks.push(('x', body, stamp));
        self.tools.push(t);
        assert(self@ =~= tool_added(old(self)@, t.val(), stamp));
        proof {
            let a = old(self)@;
            let b = self@;
            assert forall|k: int| 0 <= k < a.tools.len() implies #[trigger] b.tools[k] == a.tools[k] by {}
            assert forall|k: int| 0 <= k < a.blocks.len() implies #[trigger] b.blocks[k] == a.blocks[k] by {}
            assert forall|i: int, j: int| 0 <= i < j < b.tools.len() implies (#[trigger] b.tools[i]).id != (
            #[trigger] b.tools[j]).id && b.tools[i].idx != b.tools[j].idx by {
                assert(b.tools[i] == a.tools[i]);
                if j < a.tools.len() {
                    assert(b.tools[j] == a.tools[j]);
                }
            }
        }
    }

    /// Record a `tool_use`: set/refresh the title + input summary and mark the call
    /// in-progress (`▸`). Creates the block on first sight, else updates in place.
    pub fn tool_begin(&mut self, id: &str, name: &str, input: &str, stamp: u64)
        requires
            old(self).wf(),
        ensures
            final(self)@ == tool_begun(old(self)@, id@, name@, input@, stamp),
            final(self).wf(),
    {
        let input = sanitize(input);
        let p: usize = self.find_tool(id);
        if p < self.tools.len() {
            let title = if name.is_empty() { self.tools[p].title.clone() } else { name.to_owned() };
            let t = ToolEntry {
                id: self.tools[p].id.clone(),
                idx: self.tools[p].idx,
                title,
                glyph: "▸",
                input,
                output: self.tools[p].output.clone(),
            };
            assert(self@.tools[p as int] == self.tools@[p as int].val());
            self.set_tool(p, t);
        } else {
            let title = if name.is_empty() { "(tool)".to_owned() } else { name.to_owned() };
            let t = ToolEntry {
                id: id.to_owned(),
                idx: self.blocks.len(),
                title,
                glyph: "▸",
                input,
                output: String::new(),
            };
            self.add_tool(t, stamp);
        }
    }

    /// Record a `tool_result`: flip the status glyph (`✓`/`✗`) and store the output.
    pub fn tool_end(&mut self, id: &str, status: &str, output: &str, stamp: u64)
        requires
            old(self).wf(),
        ensures
            final(self)@ == tool_ended(old(self)@, id@, status@, output@, stamp),
            final(self).wf(),
    {
        let output = sanitize(output);
        let glyph = glyph_for(status);
        let p: usize = self.find_tool(id);
        if p < self.tools.len() {
            let t = ToolEntry {
                id: self.tools[p].id.clone(),
                idx: self.tools[p].idx,
                title: self.tools[p].title.clone(),
                glyph,
                input: self.tools[p].input.clone(),
                output,
            };
            assert(self@.tools[p as int] == self.tools@[p as int].val());
            self.set_tool(p, t);
        } else {
            // A result with no preceding tool_use: stub a block.
            let t = ToolEntry {
                id: id.to_owned(),
                idx: self.blocks.len(),
                title: "(tool)".to_owned(),
                glyph,
                input: String::new(),
                output,
            };
            self.add_tool(t, stamp);
        }
    }

    /// Note that the connection is closed.
    pub fn note_closed(&mut self, stamp: u64)
        requires
            old(self).wf(),
        ensures
            final(self)@ == pushed(old(self)@, 'a', "[connection closed]"@, stamp),
            final(self).wf(),
    {
        self.push('a', "[connection closed]".to_owned(), stamp);
    }

    fn is_hidden(&self, id: &str) -> (r: bool)
        ensures
            r == self@.hidden.contains(id@),
    {
        let mut i: usize = 0;
        while i < self.hidden_tools.len()
            invariant
                i <= self.hidden_tools@.len(),
                self@.hidden == texts(self.hidden_tools@),
                forall|k: int| 0 <= k < i ==> #[trigger] self@.hidden[k] != id@,
            decreases self.hidden_tools@.len() - i,
        {
            assert(self@.hidden[i as int] == self.hidden_tools@[i as int]@);
            if same(self.hidden_tools[i].as_str(), id) {
                assert(self@.hidden.contains(id@));
                return true;
            }
            i = i + 1;
        }
        false
    }

    fn hide_tool(&mut self, id: &str)
        requires
            old(self).wf(),
        ensures
            final(self)@ == hid(old(self)@, id@),
            final(self).wf(),
    {
        if !id.is_empty() && !self.is_hidden(id) {
            self.hidden_tools.push(id.to_owned());
            assert(self@ =~= hid(old(self)@, id@));
        }
    }

    fn say(&mut self, role: &str, s: &str, stamp: u64)
        requires
            old(self).wf(),
        ensures
            final(self)@ == said(old(self)@, role@, s@, stamp),
            final(self).wf(),
    {
        if same(role, "user") {
            self.push_user(s, stamp);
        } else {
            self.append_role('a', s, stamp);
        }
    }

    /// Apply one content block of a message.
    pub fn apply_block(&mut self, role: &str, b: &Json, stamp: u64)
        requires
            old(self).wf(),
        ensures
            final(self)@ == block_applied(old(self)@, role@, b@, stamp),
            final(self).wf(),
    {
        if b.is_at("type", "text") {
            let t = b.text_at("text");
            self.say(role, t.as_str(), stamp);
        } else if b.is_at("type", "thinking") {
            let t = b.text_at("thinking");
            self.append_role('t', t.as_str(), stamp);
        } else if b.is_at("type", "tool_use") {
            let id = b.text_at("id");
            let name = b.text_at("name");
            // Tools we surface through custom UI (plan approval / question
            // prompts) shouldn't also show a raw "▸ ToolName" line.
            if same(name.as_str(), "ExitPlanMode") || same(name.as_str(), "AskUserQuestion") {
                self.hide_tool(id.as_str());
            } else {
                let input = b.copy_at("input");
                let d = describe_tool(&input);
                self.tool_begin(id.as_str(), name.as_str(), d.as_str(), stamp);
            }
        } else if b.is_at("type", "tool_result") {
            let id = b.text_at("tool_use_id");
            if self.is_hidden(id.as_str()) {
                return;
            }
            let failed = match b.get("is_error") {
                Some(Json::Bool(x)) => *x,
                _ => false,
            };
            let status = if failed { "failed" } else { "completed" };
            let content = b.copy_at("content");
            let out = tool_result_text(&content);
            self.tool_end(id.as_str(), status, out.as_str(), stamp);
        }
    }

    /// Apply one message's `content` (string or block array). Used for `assistant`
    /// stream events and for resume reconstruction of both roles.
    pub fn apply_message(&mut self, role: &str, content: &Json, stamp: u64)
        requires
            old(self).wf(),
        ensures
            final(self)@ == message_applied(old(self)@, role@, content@, stamp),
            final(self).wf(),
    {
        match content {
            Json::Str(s) => self.say(role, s.as_str(), stamp),
            Json::Array(v) => {
                proof {
                    Json::lemma_array(*v);
                }
                let ghost all = elems(v@);
                let mut i: usize = 0;
                while i < v.len()
                    invariant
                        i <= v@.len(),
                        all == elems(v@),
                        self.wf(),
                        blocks_applied(old(self)@, role@, all, 0, stamp) == blocks_applied(
                            self@,
                            role@,
                            all,
                            i as int,
                            stamp,
                        ),
                    decreases v@.len() - i,
                {
                    assert(all[i as int] == v@[i as int]@);
                    self.apply_block(role, &v[i], stamp);
                    i = i + 1;
                }
            },
            _ => {},
        }
    }

    /// Apply only `tool_result` blocks from a `user` stream event (flipping tool
    /// glyphs). The user's own prompt is added locally on `send`, so live `user`
    /// events must NOT create a 'u' turn.
    pub fn apply_tool_results(&mut self, content: &Json, stamp: u64)
        requires
            old(self).wf(),
        ensures
            final(self)@ == match as_array(content@) {
                Some(bs) => results_applied(old(self)@, bs, 0, stamp),
                None => old(self)@,
            },
            final(self).wf(),
    {
        if let Some(v) = content.array() {
            let ghost all = elems(v@);
            let mut i: usize = 0;
            while i < v.len()
                invariant
                    i <= v@.len(),
                    all == elems(v@),
                    self.wf(),
                    results_applied(old(self)@, all, 0, stamp) == results_applied(self@, all, i as int, stamp),
                decreases v@.len() - i,
            {
                assert(all[i as int] == v@[i as int]@);
                if v[i].is_at("type", "tool_result") {
                    self.apply_block("user", &v[i], stamp);
                }
                i = i + 1;
            }
        }
    }

    fn encode(&self, i: usize) -> (r: String)
        requires
            i < self@.blocks.len(),
        ensures
            r@ == encoded(self@.blocks[i as int]),
    {
        let mut s = String::new();
        s.push(self.blocks[i].0);
        s.push(US);
        s.append(self.blocks[i].1.as_str());
        assert(s@ =~= encoded(self@.blocks[i as int]));
        s
    }

    /// The role-tagged blocks joined by the block separator, without the separators of
    /// lulls.
    pub fn blocks_text(&self) -> (r: String)
        ensures
            r@ == serialized(self@),
    {
        let mut parts: Vec<String> = Vec::new();
        let ghost want = Seq::new(self@.blocks.len(), |i: int| encoded(self@.blocks[i]));
        let mut i: usize = 0;
        while i < self.blocks.len()
            invariant
                i <= self.blocks@.len(),
                self@.blocks.len() == self.blocks@.len(),
                want == Seq::new(self@.blocks.len(), |i: int| encoded(self@.blocks[i])),
                texts(parts@) == want.take(i as int),
            decreases self.blocks@.len() - i,
        {
            let s = self.encode(i);
            let ghost before = texts(parts@);
            parts.push(s);
            assert(texts(parts@) =~= before.push(s@));
            assert(want.take(i as int + 1) =~= want.take(i as int).push(want[i as int]));
            i = i + 1;
        }
        assert(want.take(i as int) =~= want);
        join_strs(&parts, RS)
    }

    fn is_lull(&self, i: usize) -> (r: bool)
        requires
            i < self@.blocks.len(),
        ensures
            r == lull(self@.blocks, i as int),
    {
        if i == 0 {
            return false;
        }
        let a: u64 = self.blocks[i - 1].2;
        let b: u64 = self.blocks[i].2;
        assert(self@.blocks[i - 1].2 == a && self@.blocks[i as int].2 == b);
        a > 0 && b > a && b - a >= LULL_SECS
    }

    /// The transcript at a time, in a locale: role-tagged blocks joined by the block
    /// separator, each lull marked by a separator that says how long ago the block
    /// behind it was added. No label holds the block separator.
    pub fn serialize_in(&self, locale: Option<&str>, now: u64) -> (r: String)
        ensures
            r@ == serialized_at(self@, locale_v(locale), now),
            labels_plain(self@, locale_v(locale), now),
    {
        let mut parts: Vec<String> = Vec::new();
        let ghost c = self@;
        let ghost l = locale_v(locale);
        let mut i: usize = 0;
        assert(texts(parts@) =~= chunks_at(c, l, now, 0));
        while i < self.blocks.len()
            invariant
                i <= self.blocks@.len(),
                c == self@,
                c.blocks.len() == self.blocks@.len(),
                l == locale_v(locale),
                texts(parts@) == chunks_at(c, l, now, i as int),
                forall|k: int| k < i && #[trigger] lull(c.blocks, k) ==> !lull_label(c.blocks, k, l, now).contains(RS),
            decreases self.blocks@.len() - i,
        {
            let ghost before = texts(parts@);
            if self.is_lull(i) {
                let stamp: u64 = self.blocks[i].2;
                assert(c.blocks[i as int].2 == stamp);
                let text = format_in(locale, stamp, now);
                let d = show_u64(stamp);
                let mut s = String::new();
                s.push('s');
                s.append(d.as_str());
                s.push(US);
                s.append(text.as_str());
                assert(s@ =~= separator(stamp, text@));
                parts.push(s);
                assert(texts(parts@) =~= before.push(s@));
            }
            let ghost middle = texts(parts@);
            let s = self.encode(i);
            parts.push(s);
            assert(texts(parts@) =~= middle.push(s@));
            i = i + 1;
        }
        assert forall|k: int| #[trigger] lull(c.blocks, k) implies !lull_label(c.blocks, k, l, now).contains(RS) by {}
        join_strs(&parts, RS)
    }

    /// The transcript at a time, in the machine's locale; which that is, is left open.
    pub fn serialize(&self, now: u64) -> (r: String)
        ensures
            exists|locale: Option<Seq<char>>|
                r@ == #[trigger] serialized_at(self@, locale, now) && labels_plain(self@, locale, now),
    {
        match editor_locale() {
            Some(l) => {
                let r = self.serialize_in(Some(l.as_str()), now);
                assert(r@ == serialized_at(self@, Some(l@), now));
                r
            },
            None => {
                let r = self.serialize_in(None, now);
                assert(r@ == serialized_at(self@, None, now));
                r
            },
        }
    }

    /// Whether a separator is on show, whose label follows the clock. There is one for
    /// each lull, whatever the time.
    #[allow(unused_variables)]
    pub fn has_relative_stamp(&self, now: u64) -> (r: bool)
        ensures
            r == has_lull(self@.blocks),
            !r ==> forall|locale: Option<Seq<char>>| #[trigger]
                serialized_at(self@, locale, now) == serialized(self@),
    {
        let mut i: usize = 0;
        while i < self.blocks.len()
            invariant
                i <= self.blocks@.len(),
                self@.blocks.len() == self.blocks@.len(),
                forall|k: int| k < i ==> !#[trigger] lull(self@.blocks, k),
            decreases self.blocks@.len() - i,
        {
            if self.is_lull(i) {
                assert(lull(self@.blocks, i as int));
                return true;
            }
            i = i + 1;
        }
        proof {
            assert forall|locale: Option<Seq<char>>| #[trigger]
                serialized_at(self@, locale, now) == serialized(self@) by {
                law_no_lull_no_separator(self@, locale, now);
            }
        }
        false
    }
}

/// Removing a block that no tool owns keeps tools and blocks consistent.
proof fn lemma_without_wf(c: ConvV, i: int)
    requires
        conv_wf(c),
        0 <= i < c.blocks.len() ==> c.blocks[i].0 != 'x',
    ensures
        conv_wf(without(c, i)),
{
    let d = without(c, i);
    if 0 <= i < c.blocks.len() {
        assert forall|k: int| 0 <= k < d.tools.len() implies {
            &&& 0 <= (#[trigger] d.tools[k]).idx < d.blocks.len()
            &&& d.blocks[d.tools[k].idx].0 == 'x'
        } by {
            assert(c.tools[k].idx != i);
        }
        assert forall|a: int, b: int| 0 <= a < b < d.tools.len() implies (#[trigger] d.tools[a]).id != (
        #[trigger] d.tools[b]).id && d.tools[a].idx != d.tools[b].idx by {
            assert(c.tools[a].id != c.tools[b].id);
            assert(c.tools[a].idx != i && c.tools[b].idx != i);
        }
    }
}

// ---------------------------------------------------------------------------
// What a conversation shows of what was said and done
// ---------------------------------------------------------------------------

proof fn lemma_tool_pos(tools: Seq<ToolV>, id: Seq<char>)
    ensures
        0 <= tool_pos(tools, id) <= tools.len(),
        tool_pos(tools, id) < tools.len() ==> tools[tool_pos(tools, id)].id == id,
        tool_pos(tools, id) == tools.len() ==> forall|k: int| 0 <= k < tools.len() ==> (#[trigger] tools[k]).id != id,
    decreases tools.len(),
{
    if tools.len() > 0 && tools[0].id != id {
        let rest = tools.skip(1);
        lemma_tool_pos(rest, id);
        if tool_pos(rest, id) == rest.len() {
            assert forall|k: int| 0 <= k < tools.len() implies (#[trigger] tools[k]).id != id by {
                if k > 0 {
                    assert(rest[k - 1] == tools[k]);
                }
            }
        } else {
            assert(rest[tool_pos(rest, id)] == tools[tool_pos(rest, id) + 1]);
        }
    }
}

proof fn lemma_block_types()
    ensures
        "text"@ != "thinking"@,
        "text"@ != "tool_use"@,
        "text"@ != "tool_result"@,
        "thinking"@ != "tool_use"@,
        "thinking"@ != "tool_result"@,
        "tool_use"@ != "tool_result"@,
        "user"@ != "assistant"@,
        "completed"@ != "failed"@,
{
    reveal_strlit("text");
    reveal_strlit("thinking");
    reveal_strlit("tool_use");
    reveal_strlit("tool_result");
    reveal_strlit("user");
    reveal_strlit("assistant");
    reveal_strlit("completed");
    reveal_strlit("failed");
    assert("thinking"@[1] == 'h' && "tool_use"@[1] == 'o');
    assert("text"@.len() == 4 && "tool_use"@.len() == 8 && "tool_result"@.len() == 11);
    assert("user"@.len() == 4 && "assistant"@.len() == 9);
    assert("completed"@.len() == 9 && "failed"@.len() == 6);
}

/// A result marks its tool call, and no other, as failed exactly when it has `is_error`
/// true, and as completed otherwise; the call keeps its title and its input, and its
/// block is headed by the mark and the title. No other block changes. A result without
/// a call gets a block of its own behind the others.
pub proof fn law_result_marks_its_tool(c: ConvV, role: Seq<char>, b: JsonV, stamp: u64, p: int)
    requires
        conv_wf(c),
        at(b, "type"@) == JsonV::Str("tool_result"@),
        !c.hidden.contains(str_or_empty(at(b, "tool_use_id"@))),
        0 <= p < block_applied(c, role, b, stamp).tools.len(),
    ensures
        ({
            let e = block_applied(c, role, b, stamp);
            let id = str_or_empty(at(b, "tool_use_id"@));
            let t = e.tools[p];
            let head = id.push(US) + t.glyph.push(' ') + t.title.push(US);
            &&& exists|k: int| 0 <= k < e.tools.len() && (#[trigger] e.tools[k]).id == id
            &&& t.id == id ==> {
                &&& t.glyph == (if at(b, "is_error"@) == JsonV::Bool(true) { "✗"@ } else { "✓"@ })
                &&& 0 <= t.idx < e.blocks.len() && e.blocks[t.idx].0 == 'x'
                &&& e.blocks[t.idx].1.take(head.len() as int) == head
                &&& p < c.tools.len() ==> t.title == c.tools[p].title && t.input == c.tools[p].input
                &&& p < c.tools.len() ==> t.idx == c.tools[p].idx && e.blocks.len() == c.blocks.len()
                &&& p == c.tools.len() ==> t.idx == c.blocks.len() && e.blocks.len() == c.blocks.len() + 1
                &&& forall|i: int| 0 <= i < c.blocks.len() && i != t.idx ==> #[trigger] e.blocks[i] == c.blocks[i]
            }
            &&& t.id != id ==> p < c.tools.len() && t == c.tools[p]
        }),
{
    lemma_block_types();
    let e = block_applied(c, role, b, stamp);
    let id = str_or_empty(at(b, "tool_use_id"@));
    let k = tool_pos(c.tools, id);
    lemma_tool_pos(c.tools, id);
    assert(e.tools[k].id == id);
    let t = e.tools[p];
    if t.id == id {
        if p < c.tools.len() {
            assert(c.tools[p].id == id);
            assert(p == k);
        }
        let head = id.push(US) + t.glyph.push(' ') + t.title.push(US);
        assert(e.blocks[t.idx].1 == tool_body(t));
        assert(tool_body(t).take(head.len() as int) =~= head);
    }
}

/// What a result says is its tool call's output: a string as it is, with the separators
/// of the transcript as blanks.
pub proof fn law_result_is_the_output(c: ConvV, role: Seq<char>, b: JsonV, stamp: u64, p: int, said: Seq<char>)
    requires
        conv_wf(c),
        at(b, "type"@) == JsonV::Str("tool_result"@),
        !c.hidden.contains(str_or_empty(at(b, "tool_use_id"@))),
        at(b, "content"@) == JsonV::Str(said),
        said.len() <= RESULT_CAP,
        0 <= p < block_applied(c, role, b, stamp).tools.len(),
        block_applied(c, role, b, stamp).tools[p].id == str_or_empty(at(b, "tool_use_id"@)),
    ensures
        ({
            let t = block_applied(c, role, b, stamp).tools[p];
            let body = block_applied(c, role, b, stamp).blocks[t.idx].1;
            &&& t.output.len() == said.len()
            &&& forall|i: int| 0 <= i < said.len() ==> #[trigger] t.output[i] == (if said[i] == RS || said[i] == US {
                ' '
            } else {
                said[i]
            })
            &&& body.len() >= said.len()
            &&& body.skip(body.len() - said.len()) == t.output
        }),
{
    lemma_block_types();
    let e = block_applied(c, role, b, stamp);
    let id = str_or_empty(at(b, "tool_use_id"@));
    lemma_tool_pos(c.tools, id);
    let t = e.tools[p];
    if p < c.tools.len() {
        assert(c.tools[p].id == id);
        assert(p == tool_pos(c.tools, id));
    }
    let body = e.blocks[t.idx].1;
    assert(body == tool_body(t));
    assert(body.skip(body.len() - said.len()) =~= t.output);
}

/// The text parts of a result stand one per line, in their order; other parts add
/// nothing.
pub proof fn law_result_parts_are_lines(parts: Seq<JsonV>, part: JsonV)
    ensures
        ({
            let before = result_parts(parts, 0, Seq::empty());
            let now = result_parts(parts.push(part), 0, Seq::empty());
            match at(part, "text"@) {
                JsonV::Str(t) => now == (if before.len() == 0 { t } else { before + seq!['\n'] + t }),
                _ => now == before,
            }
        }),
{
    lemma_result_parts(parts, part, 0, Seq::empty());
    let before = result_parts(parts, 0, Seq::empty());
    if at(part, "text"@) is Str {
        let t = at(part, "text"@)->Str_0;
        assert(before.push('\n') + t =~= before + seq!['\n'] + t);
    }
}

proof fn lemma_result_parts(parts: Seq<JsonV>, part: JsonV, i: int, out: Seq<char>)
    requires
        0 <= i <= parts.len(),
    ensures
        result_parts(parts.push(part), i, out) == ({
            let before = result_parts(parts, i, out);
            match as_str(at(part, "text"@)) {
                Some(t) => if before.len() > 0 { before.push('\n') + t } else { t },
                None => before,
            }
        }),
    decreases parts.len() - i,
{
    let all = parts.push(part);
    if i < parts.len() {
        assert(all[i] == parts[i]);
        match as_str(at(parts[i], "text"@)) {
            Some(t) => lemma_result_parts(parts, part, i + 1, if out.len() > 0 { out.push('\n') + t } else { t }),
            None => lemma_result_parts(parts, part, i + 1, out),
        }
    } else {
        reveal_with_fuel(result_parts, 2);
        assert(all[i] == part);
    }
}

/// A tool call that is shown runs from its `tool_use` on, under its name: its mark is
/// that of a running call, and its block lies behind the others if the call is new and
/// in its place otherwise.
pub proof fn law_tool_use_is_shown(c: ConvV, role: Seq<char>, b: JsonV, stamp: u64, p: int)
    requires
        conv_wf(c),
        at(b, "type"@) == JsonV::Str("tool_use"@),
        str_or_empty(at(b, "name"@)) != "ExitPlanMode"@,
        str_or_empty(at(b, "name"@)) != "AskUserQuestion"@,
        0 <= p < block_applied(c, role, b, stamp).tools.len(),
    ensures
        ({
            let e = block_applied(c, role, b, stamp);
            let id = str_or_empty(at(b, "id"@));
            let name = str_or_empty(at(b, "name"@));
            let t = e.tools[p];
            let head = id.push(US) + "▸"@.push(' ') + t.title.push(US);
            &&& e.hidden == c.hidden
            &&& exists|k: int| 0 <= k < e.tools.len() && (#[trigger] e.tools[k]).id == id
            &&& t.id == id ==> {
                &&& t.glyph == "▸"@
                &&& name.len() > 0 ==> t.title == name
                &&& name.len() == 0 ==> t.title == (if p < c.tools.len() { c.tools[p].title } else { "(tool)"@ })
                &&& t.output == (if p < c.tools.len() { c.tools[p].output } else { Seq::<char>::empty() })
                &&& 0 <= t.idx < e.blocks.len() && e.blocks[t.idx].0 == 'x'
                &&& e.blocks[t.idx].1.take(head.len() as int) == head
                &&& t.idx == (if p < c.tools.len() { c.tools[p].idx } else { c.blocks.len() as int })
                &&& p == c.tools.len() ==> e.blocks[t.idx].2 == stamp
                &&& forall|i: int| 0 <= i < c.blocks.len() && i != t.idx ==> #[trigger] e.blocks[i] == c.blocks[i]
                &&& e.blocks.len() == c.blocks.len() + (if p < c.tools.len() { 0int } else { 1 })
            }
            &&& t.id != id ==> p < c.tools.len() && t == c.tools[p]
        }),
{
    lemma_block_types();
    let e = block_applied(c, role, b, stamp);
    let id = str_or_empty(at(b, "id"@));
    let k = tool_pos(c.tools, id);
    lemma_tool_pos(c.tools, id);
    assert(e.tools[k].id == id);
    let t = e.tools[p];
    if t.id == id {
        if p < c.tools.len() {
            assert(c.tools[p].id == id);
            assert(p == k);
        }
        let head = id.push(US) + "▸"@.push(' ') + t.title.push(US);
        assert(e.blocks[t.idx].1 == tool_body(t));
        assert(tool_body(t).take(head.len() as int) =~= head);
    }
}

/// The call that presents a plan or asks a question has a view of its own: neither it
/// nor its result shows in the transcript.
pub proof fn law_plans_and_questions_are_not_shown(c: ConvV, role: Seq<char>, call: JsonV, result: JsonV, stamp: u64)
    requires
        at(call, "type"@) == JsonV::Str("tool_use"@),
        at(call, "name"@) == JsonV::Str("ExitPlanMode"@) || at(call, "name"@) == JsonV::Str("AskUserQuestion"@),
        at(result, "type"@) == JsonV::Str("tool_result"@),
        str_or_empty(at(call, "id"@)).len() > 0,
        at(result, "tool_use_id"@) == at(call, "id"@),
    ensures
        ({
            let e = block_applied(c, role, call, stamp);
            &&& e.blocks == c.blocks && e.tools == c.tools
            &&& block_applied(e, role, result, stamp).blocks == c.blocks
            &&& block_applied(e, role, result, stamp).tools == c.tools
        }),
{
    lemma_block_types();
    let id = str_or_empty(at(call, "id"@));
    let e = block_applied(c, role, call, stamp);
    if !c.hidden.contains(id) {
        assert(e.hidden[c.hidden.len() as int] == id);
    }
    assert(e.hidden.contains(id));
}

/// The agent's words go on where it was speaking, and start a block of its own
/// otherwise; its thoughts likewise, in blocks of theirs. The user's words always start
/// a block.
pub proof fn law_words_are_added(c: ConvV, b: JsonV, stamp: u64, words: Seq<char>)
    requires
        words.len() > 0,
    ensures
        at(b, "type"@) == JsonV::Str("text"@) && at(b, "text"@) == JsonV::Str(words) ==> {
            &&& block_applied(c, "user"@, b, stamp).blocks == c.blocks.push(('u', words, stamp))
            &&& goes_on(c, block_applied(c, "assistant"@, b, stamp), 'a', words, stamp)
        },
        at(b, "type"@) == JsonV::Str("thinking"@) && at(b, "thinking"@) == JsonV::Str(words) ==> goes_on(
            c,
            block_applied(c, "assistant"@, b, stamp),
            't',
            words,
            stamp,
        ),
        message_applied(c, "user"@, JsonV::Str(words), stamp).blocks == c.blocks.push(('u', words, stamp)),
        goes_on(c, message_applied(c, "assistant"@, JsonV::Str(words), stamp), 'a', words, stamp),
{
    lemma_block_types();
    lemma_goes_on(c, 'a', words, stamp);
    lemma_goes_on(c, 't', words, stamp);
}

proof fn lemma_goes_on(c: ConvV, role: char, words: Seq<char>, stamp: u64)
    requires
        words.len() > 0,
    ensures
        goes_on(c, appended(c, role, words, stamp), role, words, stamp),
{
    let e = appended(c, role, words, stamp);
    let n = c.blocks.len() as int;
    if n > 0 && c.blocks[n - 1].0 == role {
        assert(e.blocks.take(n - 1) =~= c.blocks.take(n - 1));
    }
}

/// Whether a conversation is another with words of a role added: to the last block if
/// that has the role, whose stamp stays, else in a block of their own.
pub open spec fn goes_on(c: ConvV, e: ConvV, role: char, words: Seq<char>, stamp: u64) -> bool {
    let n = c.blocks.len() as int;
    &&& e.tools == c.tools && e.hidden == c.hidden
    &&& if n > 0 && c.blocks[n - 1].0 == role {
        &&& e.blocks.len() == n
        &&& e.blocks.take(n - 1) == c.blocks.take(n - 1)
        &&& e.blocks[n - 1] == (role, c.blocks[n - 1].1 + words, c.blocks[n - 1].2)
    } else {
        e.blocks == c.blocks.push((role, words, stamp))
    }
}

/// Content of any other type changes nothing.
pub proof fn law_other_content_is_passed_over(c: ConvV, role: Seq<char>, b: JsonV, stamp: u64)
    requires
        at(b, "type"@) != JsonV::Str("text"@),
        at(b, "type"@) != JsonV::Str("thinking"@),
        at(b, "type"@) != JsonV::Str("tool_use"@),
        at(b, "type"@) != JsonV::Str("tool_result"@),
    ensures
        block_applied(c, role, b, stamp) == c,
{
}

/// The content of a message is applied in its order. Of a live user message only the
/// results count.
pub proof fn law_content_is_applied_in_order(c: ConvV, role: Seq<char>, bs: Seq<JsonV>, b: JsonV, stamp: u64)
    ensures
        message_applied(c, role, JsonV::Array(Seq::empty()), stamp) == c,
        message_applied(c, role, JsonV::Array(bs.push(b)), stamp) == block_applied(
            message_applied(c, role, JsonV::Array(bs), stamp),
            role,
            b,
            stamp,
        ),
        results_applied(c, Seq::empty(), 0, stamp) == c,
        results_applied(c, bs.push(b), 0, stamp) == (if at(b, "type"@) == JsonV::Str("tool_result"@) {
            block_applied(results_applied(c, bs, 0, stamp), "user"@, b, stamp)
        } else {
            results_applied(c, bs, 0, stamp)
        }),
{
    lemma_in_order(c, role, bs, b, 0, stamp);
    lemma_results_in_order(c, bs, b, 0, stamp);
}

proof fn lemma_in_order(c: ConvV, role: Seq<char>, bs: Seq<JsonV>, b: JsonV, i: int, stamp: u64)
    requires
        0 <= i <= bs.len(),
    ensures
        blocks_applied(c, role, bs.push(b), i, stamp) == block_applied(
            blocks_applied(c, role, bs, i, stamp),
            role,
            b,
            stamp,
        ),
    decreases bs.len() - i,
{
    let all = bs.push(b);
    if i < bs.len() {
        assert(all[i] == bs[i]);
        lemma_in_order(block_applied(c, role, bs[i], stamp), role, bs, b, i + 1, stamp);
    } else {
        reveal_with_fuel(blocks_applied, 2);
        assert(all[i] == b);
    }
}

proof fn lemma_results_in_order(c: ConvV, bs: Seq<JsonV>, b: JsonV, i: int, stamp: u64)
    requires
        0 <= i <= bs.len(),
    ensures
        results_applied(c, bs.push(b), i, stamp) == (if as_str(at(b, "type"@)) == Some("tool_result"@) {
            block_applied(results_applied(c, bs, i, stamp), "user"@, b, stamp)
        } else {
            results_applied(c, bs, i, stamp)
        }),
    decreases bs.len() - i,
{
    let all = bs.push(b);
    if i < bs.len() {
        assert(all[i] == bs[i]);
        if as_str(at(bs[i], "type"@)) == Some("tool_result"@) {
            lemma_results_in_order(block_applied(c, "user"@, bs[i], stamp), bs, b, i + 1, stamp);
        } else {
            lemma_results_in_order(c, bs, b, i + 1, stamp);
        }
    } else {
        reveal_with_fuel(results_applied, 2);
        assert(all[i] == b);
    }
}

/// A tool call is described by the first of its telling arguments: the command, the
/// file, the path, the address, the pattern, the query.
pub proof fn law_telling_argument_describes(input: JsonV, printed: Seq<char>, i: int, s: Seq<char>)
    requires
        0 <= i < 6,
        ({
            let keys = seq!["command"@, "file_path"@, "path"@, "url"@, "pattern"@, "query"@];
            &&& at(input, keys[i]) == JsonV::Str(s)
            &&& forall|k: int| 0 <= k < i ==> str_or_empty(at(input, #[trigger] keys[k])).len() == 0
        }),
        0 < s.len() <= DETAIL_CAP,
    ensures
        tool_text(input, printed) == s,
{
    lemma_salient(input, 0, i, s);
}

proof fn lemma_salient(input: JsonV, j: int, i: int, s: Seq<char>)
    requires
        0 <= j <= i < 6,
        at(input, salient_keys()[i]) == JsonV::Str(s),
        forall|k: int| 0 <= k < i ==> str_or_empty(at(input, #[trigger] salient_keys()[k])).len() == 0,
        s.len() > 0,
    ensures
        salient(input, j) == Some(s),
    decreases i - j,
{
    if j < i {
        assert(str_or_empty(at(input, salient_keys()[j])).len() == 0);
        lemma_salient(input, j + 1, i, s);
    }
}

/// Without a telling argument an input is described by its printed form; one that holds
/// nothing needs no description.
pub proof fn law_other_inputs_are_printed(input: JsonV, printed: Seq<char>)
    requires
        str_or_empty(at(input, "command"@)).len() == 0,
        str_or_empty(at(input, "file_path"@)).len() == 0,
        str_or_empty(at(input, "path"@)).len() == 0,
        str_or_empty(at(input, "url"@)).len() == 0,
        str_or_empty(at(input, "pattern"@)).len() == 0,
        str_or_empty(at(input, "query"@)).len() == 0,
        printed.len() <= DETAIL_CAP,
    ensures
        tool_text(input, printed) == (if input == JsonV::Null || input == JsonV::Object(Seq::empty()) {
            Seq::<char>::empty()
        } else {
            printed
        }),
{
    reveal_with_fuel(salient, 7);
    if let JsonV::Object(o) = input {
        if o.len() == 0 {
            assert(o =~= Seq::empty());
        }
    }
}

/// A text that is too long is cut to its start and an ellipsis; any other stays.
pub proof fn law_long_texts_are_cut(s: Seq<char>, max: int)
    requires
        max >= 0,
    ensures
        s.len() <= max ==> truncated(s, max) == s,
        s.len() > max ==> {
            &&& truncated(s, max).len() == max + 1
            &&& truncated(s, max).last() == '…'
            &&& forall|i: int| 0 <= i < max ==> #[trigger] truncated(s, max)[i] == s[i]
        },
{
}

/// The preview of a tool's input is the text up to its first line ending, if there is
/// one.
pub proof fn law_first_line_ends_at_the_line_ending(line: Seq<char>, rest: Seq<char>)
    requires
        !line.contains('\n'),
        line.len() > 0 ==> line.last() != '\r',
    ensures
        first_line(line + seq!['\n'] + rest) == line,
        first_line(line + seq!['\r', '\n'] + rest) == line,
        first_line(line) == line,
{
    let n = line.len();
    let s = line + seq!['\n'] + rest;
    let t = line + seq!['\r', '\n'] + rest;
    assert forall|k: int| 0 <= k < n implies not_char('\n')(#[trigger] line[k]) by {
        assert(line.contains(line[k]));
    }
    assert forall|k: int| 0 <= k < n implies not_char('\n')(#[trigger] s[k]) by {
        assert(s[k] == line[k]);
    }
    assert forall|k: int| 0 <= k < n + 1 implies not_char('\n')(#[trigger] t[k]) by {
        if k < n {
            assert(t[k] == line[k]);
        }
    }
    assert(s[n as int] == '\n' && t[n as int + 1] == '\n');
    lemma_run(s, not_char('\n'), n);
    lemma_run(t, not_char('\n'), n + 1);
    lemma_run(line, not_char('\n'), n);
    assert(s.take(n as int) =~= line);
    assert(t.take(n as int) =~= line);
    assert(line.take(n as int) =~= line);
}

/// Cancelling a queued prompt takes out exactly that one, by its place among the queued
/// ones; every other block stays, and every tool call keeps its block.
pub proof fn law_cancelling_takes_out_one_prompt(c: ConvV, n: int, k: int)
    requires
        conv_wf(c),
        n >= 0,
    ensures
        ({
            let i = queued_at(c.blocks, 0, n);
            let e = without(c, i);
            if n < queued(c.blocks) {
                &&& 0 <= i < c.blocks.len() && c.blocks[i].0 == 'q'
                &&& queued(c.blocks.take(i)) == n
                &&& e.blocks == c.blocks.remove(i)
                &&& queued(e.blocks) + 1 == queued(c.blocks)
                &&& e.tools.len() == c.tools.len()
                &&& 0 <= k < c.tools.len() ==> {
                    &&& e.blocks[e.tools[k].idx] == c.blocks[c.tools[k].idx]
                    &&& e.tools[k].id == c.tools[k].id
                }
            } else {
                e == c
            }
        }),
{
    lemma_queued_place(c.blocks, 0, n);
    assert(c.blocks.take(0).len() == 0);
    let i = queued_at(c.blocks, 0, n);
    assert(c.blocks.take(c.blocks.len() as int) =~= c.blocks);
    if i < c.blocks.len() {
        lemma_queued_mono(c.blocks, i + 1, c.blocks.len() as int);
        assert(c.blocks.take(i + 1).drop_last() =~= c.blocks.take(i));
        lemma_queued_removed(c.blocks, i);
        if 0 <= k < c.tools.len() {
            assert(c.blocks[c.tools[k].idx].0 == 'x');
        }
    }
}

proof fn lemma_queued_place(blocks: Seq<(char, Seq<char>, u64)>, i: int, n: int)
    requires
        0 <= i <= blocks.len(),
        n >= 0,
    ensures
        ({
            let r = queued_at(blocks, i, n);
            &&& i <= r <= blocks.len()
            &&& r < blocks.len() ==> blocks[r].0 == 'q' && queued(blocks.take(r)) == queued(blocks.take(i)) + n
            &&& r == blocks.len() ==> queued(blocks.take(r)) <= queued(blocks.take(i)) + n
        }),
    decreases blocks.len() - i,
{
    if i < blocks.len() {
        assert(blocks.take(i + 1).drop_last() =~= blocks.take(i));
        if blocks[i].0 == 'q' {
            if n > 0 {
                lemma_queued_place(blocks, i + 1, n - 1);
            }
        } else {
            lemma_queued_place(blocks, i + 1, n);
        }
    }
}

proof fn lemma_queued_mono(blocks: Seq<(char, Seq<char>, u64)>, i: int, j: int)
    requires
        0 <= i <= j <= blocks.len(),
    ensures
        queued(blocks.take(i)) <= queued(blocks.take(j)),
    decreases j - i,
{
    if i < j {
        lemma_queued_mono(blocks, i, j - 1);
        assert(blocks.take(j).drop_last() =~= blocks.take(j - 1));
    }
}

proof fn lemma_queued_removed(blocks: Seq<(char, Seq<char>, u64)>, i: int)
    requires
        0 <= i < blocks.len(),
        blocks[i].0 == 'q',
    ensures
        queued(blocks.remove(i)) + 1 == queued(blocks),
    decreases blocks.len(),
{
    if i == blocks.len() - 1 {
        assert(blocks.remove(i) =~= blocks.drop_last());
    } else {
        lemma_queued_removed(blocks.drop_last(), i);
        assert(blocks.remove(i).drop_last() =~= blocks.drop_last().remove(i));
    }
}

/// The oldest prompt that waits becomes a turn, with its text and its time; every other block
/// stays as it is.
pub proof fn law_oldest_prompt_becomes_a_turn(c: ConvV, i: int, k: int)
    requires
        0 <= i < c.blocks.len(),
        c.blocks[i].0 == 'q',
        forall|j: int| 0 <= j < i ==> (#[trigger] c.blocks[j]).0 != 'q',
    ensures
        promoted(c).blocks.len() == c.blocks.len(),
        promoted(c).blocks[i] == ('u', c.blocks[i].1, c.blocks[i].2),
        0 <= k < c.blocks.len() && k != i ==> promoted(c).blocks[k] == c.blocks[k],
        promoted(c).tools == c.tools && promoted(c).hidden == c.hidden,
{
    lemma_first_queued(c.blocks, 0, i);
}

proof fn lemma_first_queued(blocks: Seq<(char, Seq<char>, u64)>, from: int, i: int)
    requires
        0 <= from <= i < blocks.len(),
        blocks[i].0 == 'q',
        forall|j: int| from <= j < i ==> (#[trigger] blocks[j]).0 != 'q',
    ensures
        queued_at(blocks, from, 0) == i,
    decreases i - from,
{
    if from < i {
        assert(blocks[from].0 != 'q');
        lemma_first_queued(blocks, from + 1, i);
    }
}

/// A tool call is laid out by its id, its mark and its title, a preview of its input, and its
/// input and output on lines of their own.
pub proof fn law_tool_call_is_laid_out(t: ToolV)
    ensures
        ({
            let head = t.id + seq![US] + t.glyph + seq![' '] + t.title + seq![US] + truncated(
                first_line(t.input),
                PREVIEW_CAP as int,
            ) + seq![US];
            &&& t.input.len() > 0 && t.output.len() > 0 ==> tool_body(t) == head + t.input + seq!['\n'] + t.output
            &&& t.output.len() == 0 ==> tool_body(t) == head + t.input
            &&& t.input.len() == 0 ==> tool_body(t) == head + t.output
        }),
{
    let head = t.id + seq![US] + t.glyph + seq![' '] + t.title + seq![US] + truncated(
        first_line(t.input),
        PREVIEW_CAP as int,
    ) + seq![US];
    if t.input.len() > 0 && t.output.len() > 0 {
        assert(tool_body(t) =~= head + t.input + seq!['\n'] + t.output);
    }
    if t.output.len() == 0 {
        assert(tool_body(t) =~= head + t.input);
    }
    if t.input.len() == 0 {
        assert(tool_body(t) =~= head + t.output);
    }
}

/// A call that is done has a check mark, one that failed a cross, and one that runs a
/// triangle; any other state has a dot.
pub proof fn law_marks_tell_the_state(status: Seq<char>)
    ensures
        glyph_of("completed"@) == "✓"@,
        glyph_of("failed"@) == "✗"@,
        glyph_of("in_progress"@) == "▸"@,
        status != "completed"@ && status != "failed"@ && status != "in_progress"@ ==> glyph_of(status) == "·"@,
{
    reveal_strlit("completed");
    reveal_strlit("failed");
    reveal_strlit("in_progress");
    assert("completed"@.len() == 9 && "failed"@.len() == 6 && "in_progress"@.len() == 11);
}

/// A block is written as its role, a separator and its text.
pub proof fn law_blocks_are_written_by_their_role(b: (char, Seq<char>, u64))
    ensures
        encoded(b).len() == b.1.len() + 2,
        encoded(b)[0] == b.0,
        encoded(b)[1] == US,
        encoded(b).skip(2) == b.1,
{
    assert(encoded(b).skip(2) =~= b.1);
}

} // verus!

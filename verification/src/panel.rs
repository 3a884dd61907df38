//! The agent panel: its transcript as role-tagged blocks, which tools are
//! unfolded, and what is selected.
//!
//! The transcript is `role\x1f text` blocks joined by `\x1e`, as
//! [`crate::conv::Conv::serialize`] writes it. Shaping and drawing the blocks is
//! left to the program around the library.

use std::collections::hash_map::DefaultHasher;
use std::collections::HashSet;
use std::hash::Hasher;

use vstd::prelude::*;
use vstd::std_specs::hash::DefaultHasherAdditionalSpecFns;
use vstd::string::{StringExecFns, StringSliceAdditionalSpecFns};
use vstd::utf8::encode_utf8;

use crate::clock::{age, label};
use crate::conv::{
    chunks_at, conv_wf, encoded, first_line, labels_plain, lull, lull_label, separator, serialized_at, taggable,
    tool_body, truncated, ConvV, ToolV, PREVIEW_CAP, RS, US,
};
use crate::text::{
    ascii_digit, chars, decimal, from_range, join, join2, law_decimal_reads_back, law_split_join, lemma_run,
    lemma_run_is, not_char, parse_u64, run, split, split_str, texts, u64_of,
};
use crate::utf8::{
    index, index_at, law_size_counts_bytes, lemma_index, lemma_index_is, lemma_offset_mono, offset, offset_of, size,
};

verus! {

broadcast use vstd::std_specs::hash::group_hash_axioms;

// ---------------------------------------------------------------------------
// Blocks
// ---------------------------------------------------------------------------

/// Who a block is from.
#[derive(Clone, Copy, PartialEq, Eq, Structural, Debug)]
pub enum Role {
    User,
    Agent,
    Thought,
    Tool,
    /// A follow-up prompt queued while a turn runs (dimmed; sent on turn end).
    Queued,
    /// An ExitPlanMode plan: Markdown like an agent block, but laid out in a
    /// capped-height, internally-scrollable box so a long plan can't dominate.
    Plan,
    /// A prompt that waits for the user: a card in full color, so that it stands out as
    /// something to act on.
    Notice,
    /// The mark of a lull: how long ago the block behind it was added.
    Separator,
}

/// The role that a tag stands for.
pub open spec fn role_of(c: char) -> Role {
    if c == 'u' {
        Role::User
    } else if c == 't' {
        Role::Thought
    } else if c == 'x' {
        Role::Tool
    } else if c == 'q' {
        Role::Queued
    } else if c == 'p' {
        Role::Plan
    } else if c == 'n' {
        Role::Notice
    } else if c == 's' {
        Role::Separator
    } else {
        Role::Agent
    }
}

/// The opacity of text that is not dimmed.
pub const OPAQUE: u8 = 255;

impl Role {
    pub fn from_tag(c: char) -> (r: Role)
        ensures
            r == role_of(c),
    {
        if c == 'u' {
            Role::User
        } else if c == 't' {
            Role::Thought
        } else if c == 'x' {
            Role::Tool
        } else if c == 'q' {
            Role::Queued
        } else if c == 'p' {
            Role::Plan
        } else if c == 'n' {
            Role::Notice
        } else if c == 's' {
            Role::Separator
        } else {
            Role::Agent
        }
    }

    /// Whether the block gets a card background.
    pub fn carded(self) -> (r: bool)
        ensures
            r == (self is User || self is Tool || self is Queued || self is Notice),
    {
        matches!(self, Role::User | Role::Tool | Role::Queued | Role::Notice)
    }

    /// How opaque a plain block's text is.
    pub fn text_alpha(self) -> (r: u8)
        ensures
            r == (match self {
                Role::Thought => 150u8,
                Role::Tool => 205u8,
                Role::Queued | Role::Separator => 120u8,
                _ => OPAQUE,
            }),
    {
        match self {
            Role::Thought => 150,
            Role::Tool => 205,
            Role::Queued | Role::Separator => 120,
            _ => OPAQUE,
        }
    }

    /// How strong a plain block's card is, in hundredths; 0 is no card.
    pub fn card_alpha(self) -> (r: u8)
        ensures
            r == (match self {
                Role::User | Role::Notice => 10u8,
                Role::Tool => 6u8,
                Role::Queued => 5u8,
                _ => 0u8,
            }),
    {
        match self {
            Role::User | Role::Notice => 10,
            Role::Tool => 6,
            Role::Queued => 5,
            _ => 0,
        }
    }
}

/// A block has a card exactly when its card is drawn with some strength.
pub proof fn law_card_strength(r: Role)
    ensures
        (r is User || r is Tool || r is Queued || r is Notice) == ((match r {
            Role::User | Role::Notice => 10u8,
            Role::Tool => 6u8,
            Role::Queued => 5u8,
            _ => 0u8,
        }) > 0),
{
}

/// A block of the transcript.
pub struct Block {
    pub role: Role,
    /// Header text (the folded view for a tool; the whole body otherwise).
    pub text: String,
    /// Tool blocks only: the toolUseId (stable fold-state key), a short one-line
    /// input preview shown next to the header, and the unfolded detail (full input +
    /// result output). Empty/None for every other role.
    pub tool_id: Option<String>,
    pub tool_preview: String,
    pub tool_detail: String,
    /// Separators only: the unix second that the block behind it was added at. 0 for
    /// every other role.
    pub stamp: u64,
}

/// A block of the transcript.
#[verifier::ext_equal]
pub struct BlockV {
    pub role: Role,
    pub text: Seq<char>,
    pub tool_id: Option<Seq<char>>,
    pub tool_preview: Seq<char>,
    pub tool_detail: Seq<char>,
    pub stamp: u64,
}

impl View for Block {
    type V = BlockV;

    open spec fn view(&self) -> BlockV {
        BlockV {
            role: self.role,
            text: self.text@,
            tool_id: match self.tool_id {
                Some(s) => Some(s@),
                None => None,
            },
            tool_preview: self.tool_preview@,
            tool_detail: self.tool_detail@,
            stamp: self.stamp,
        }
    }
}

/// The blocks of a sequence.
pub open spec fn blocks_v(v: Seq<Block>) -> Seq<BlockV> {
    Seq::new(v.len(), |i: int| v[i]@)
}

/// A block that is no tool's.
pub open spec fn plain(role: Role, text: Seq<char>) -> BlockV {
    BlockV { role, text, tool_id: None, tool_preview: Seq::empty(), tool_detail: Seq::empty(), stamp: 0 }
}

/// A separator with its label and the stamp of the block behind it.
pub open spec fn mark(text: Seq<char>, stamp: u64) -> BlockV {
    BlockV { stamp, ..plain(Role::Separator, text) }
}

/// The stamp behind a separator's tag, and 0 where there is none.
pub open spec fn tag_stamp(tag: Seq<char>) -> u64 {
    match u64_of(tag.skip(1)) {
        Some(n) => n,
        None => 0,
    }
}

/// What stands before the first field separator.
pub open spec fn head(s: Seq<char>) -> Seq<char> {
    s.take(run(s, not_char(US)) as int)
}

/// What stands behind the first field separator, and nothing where there is none.
pub open spec fn tail(s: Seq<char>) -> Seq<char> {
    if run(s, not_char(US)) < s.len() {
        s.skip(run(s, not_char(US)) as int + 1)
    } else {
        Seq::empty()
    }
}

/// A tool's block: `<id>{US}<header>{US}<preview>{US}<detail>`.
pub open spec fn tool_block(body: Seq<char>) -> BlockV {
    let id = head(body);
    let rest = tail(body);
    BlockV {
        role: Role::Tool,
        text: head(rest),
        tool_id: if id.len() > 0 { Some(id) } else { None },
        tool_preview: head(tail(rest)),
        tool_detail: tail(tail(rest)),
        stamp: 0,
    }
}

/// The block of one chunk of the transcript: a role tag, and the body.
pub open spec fn block_of(chunk: Seq<char>) -> BlockV {
    let tag = if head(chunk).len() > 0 { head(chunk)[0] } else { 'a' };
    if role_of(tag) == Role::Tool {
        tool_block(tail(chunk))
    } else if role_of(tag) == Role::Separator {
        mark(tail(chunk), tag_stamp(head(chunk)))
    } else {
        plain(role_of(tag), tail(chunk))
    }
}

/// The blocks of the first `n` chunks, empty ones left out.
pub open spec fn blocks_of(chunks: Seq<Seq<char>>, n: int) -> Seq<BlockV>
    decreases n,
{
    if n <= 0 || n > chunks.len() {
        Seq::empty()
    } else if chunks[n - 1].len() > 0 {
        blocks_of(chunks, n - 1).push(block_of(chunks[n - 1]))
    } else {
        blocks_of(chunks, n - 1)
    }
}

/// The blocks of a transcript. Plain text with neither separator is a single agent
/// block.
pub open spec fn parsed(text: Seq<char>) -> Seq<BlockV> {
    if !text.contains(RS) && !text.contains(US) {
        if text.len() == 0 {
            Seq::empty()
        } else {
            seq![plain(Role::Agent, text)]
        }
    } else {
        blocks_of(split(text, RS), split(text, RS).len() as int)
    }
}

/// Cut a text at the first field separator from `from` on.
fn cut(v: &Vec<char>, from: usize) -> (r: (String, usize))
    requires
        from <= v@.len(),
    ensures
        r.0@ == head(v@.skip(from as int)),
        from <= r.1 <= v@.len(),
        v@.skip(r.1 as int) == tail(v@.skip(from as int)),
{
    let n: usize = v.len();
    let ghost s = v@.skip(from as int);
    let mut i: usize = from;
    while i < n && v[i] != US
        invariant
            from <= i <= n == v@.len(),
            s == v@.skip(from as int),
            forall|k: int| 0 <= k < i - from ==> not_char(US)(#[trigger] s[k]),
        decreases n - i,
    {
        assert(s[i - from] == v@[i as int]);
        i = i + 1;
    }
    proof {
        if i < n {
            assert(s[i - from] == v@[i as int]);
        }
        lemma_run(s, not_char(US), (i - from) as nat);
    }
    let h = from_range(v, from, i);
    assert(h@ =~= head(s));
    if i < n {
        assert(v@.skip(i + 1) =~= s.skip(i - from + 1));
        (h, i + 1)
    } else {
        assert(v@.skip(n as int) =~= Seq::empty());
        (h, n)
    }
}

fn parse_chunk(chunk: &str) -> (r: Block)
    ensures
        r@ == block_of(chunk@),
{
    let v = chars(chunk);
    let n: usize = v.len();
    assert(v@.skip(0) =~= v@);
    let (h, b) = cut(&v, 0);
    let tag = if h.as_str().is_empty() {
        'a'
    } else {
        v[0]
    };
    proof {
        lemma_run_is(chunk@, not_char(US));
    }
    assert(tag == if head(chunk@).len() > 0 { head(chunk@)[0] } else { 'a' });
    let role = Role::from_tag(tag);
    match role {
        Role::Tool => {
            let (id, b1) = cut(&v, b);
            let (header, b2) = cut(&v, b1);
            let (preview, b3) = cut(&v, b2);
            let detail = from_range(&v, b3, n);
            assert(detail@ =~= v@.skip(b3 as int));
            let tool_id = if id.as_str().is_empty() {
                None
            } else {
                Some(id)
            };
            let r = Block { role, text: header, tool_id, tool_preview: preview, tool_detail: detail, stamp: 0 };
            assert(r@.tool_id == tool_block(tail(chunk@)).tool_id);
            assert(r@ =~= tool_block(tail(chunk@)));
            r
        },
        _ => {
            let text = from_range(&v, b, n);
            assert(text@ =~= v@.skip(b as int));
            let stamp: u64 = if role == Role::Separator {
                let hv = chars(h.as_str());
                match parse_u64(&hv, 1) {
                    Some(t) => t,
                    None => 0,
                }
            } else {
                0
            };
            Block { role, text, tool_id: None, tool_preview: String::new(), tool_detail: String::new(), stamp }
        },
    }
}

fn has_char(v: &Vec<char>, c: char) -> (r: bool)
    ensures
        r == v@.contains(c),
{
    let mut i: usize = 0;
    while i < v.len()
        invariant
            i <= v@.len(),
            forall|k: int| 0 <= k < i ==> v@[k] != c,
        decreases v@.len() - i,
    {
        if v[i] == c {
            return true;
        }
        i = i + 1;
    }
    false
}

/// The blocks of a transcript.
pub fn parse_blocks(text: &str) -> (r: Vec<Block>)
    ensures
        blocks_v(r@) == parsed(text@),
{
    let v = chars(text);
    let mut out: Vec<Block> = Vec::new();
    assert(blocks_v(out@) =~= Seq::empty());
    if !has_char(&v, RS) && !has_char(&v, US) {
        if !text.is_empty() {
            let b = Block {
                role: Role::Agent,
                text: text.to_owned(),
                tool_id: None,
                tool_preview: String::new(),
                tool_detail: String::new(),
                stamp: 0,
            };
            out.push(b);
            assert(blocks_v(out@) =~= seq![plain(Role::Agent, text@)]);
        }
        return out;
    }
    let chunks = split_str(text, RS);
    let ghost cs = texts(chunks@);
    let mut i: usize = 0;
    while i < chunks.len()
        invariant
            i <= chunks@.len(),
            cs == texts(chunks@),
            blocks_v(out@) == blocks_of(cs, i as int),
        decreases chunks@.len() - i,
    {
        assert(cs[i as int] == chunks@[i as int]@);
        if !chunks[i].as_str().is_empty() {
            let ghost before = blocks_v(out@);
            let b = parse_chunk(chunks[i].as_str());
            out.push(b);
            assert(blocks_v(out@) =~= before.push(b@));
        }
        i = i + 1;
    }
    out
}

/// The stamp of the separator at an index of the blocks, or 0 when there is none.
pub fn stamp_at(blocks: &Vec<Block>, hit: Option<usize>) -> (r: u64)
    ensures
        r == (match hit {
            Some(i) if i < blocks@.len() => blocks_v(blocks@)[i as int].stamp,
            _ => 0,
        }),
{
    match hit {
        Some(i) if i < blocks.len() => {
            assert(blocks_v(blocks@)[i as int] == blocks@[i as int]@);
            blocks[i].stamp
        },
        _ => 0,
    }
}

// ---------------------------------------------------------------------------
// Reading back what was written
// ---------------------------------------------------------------------------

/// The block that a conversation's block is shown as.
pub open spec fn shown(b: (char, Seq<char>, u64)) -> BlockV {
    if role_of(b.0) == Role::Tool {
        tool_block(b.1)
    } else {
        plain(role_of(b.0), b.1)
    }
}

/// What the first `n` blocks of a conversation are shown as at a time, each lull marked
/// by a separator.
pub open spec fn shown_at(c: ConvV, locale: Option<Seq<char>>, now: u64, n: int) -> Seq<BlockV>
    decreases n,
{
    if n <= 0 || n > c.blocks.len() {
        Seq::empty()
    } else {
        let before = shown_at(c, locale, now, n - 1);
        (if lull(c.blocks, n - 1) {
            before.push(mark(label(locale, age(c.blocks[n - 1].2, now)), c.blocks[n - 1].2))
        } else {
            before
        }).push(shown(c.blocks[n - 1]))
    }
}

proof fn lemma_block_of_encoded(b: (char, Seq<char>, u64))
    requires
        b.0 != US,
    ensures
        block_of(encoded(b)) == shown(b),
{
    let e = encoded(b);
    assert(e[0] == b.0 && e[1] == US);
    assert forall|k: int| 0 <= k < 1 implies not_char(US)(#[trigger] e[k]) by {}
    lemma_run(e, not_char(US), 1);
    assert(head(e) =~= seq![b.0]);
    assert(tail(e) =~= b.1);
    assert(seq![b.0].skip(1).len() == 0);
}

/// A separator is read back with its label and its stamp.
pub proof fn law_separator_reads_back(stamp: u64, text: Seq<char>)
    ensures
        block_of(separator(stamp, text)) == mark(text, stamp),
        separator(stamp, text).len() > 0,
        !text.contains(RS) ==> !separator(stamp, text).contains(RS),
{
    let d = decimal(stamp as nat);
    let s = separator(stamp, text);
    let n = d.len() + 1;
    law_decimal_reads_back(stamp as nat);
    assert forall|k: int| 0 <= k < n implies not_char(US)(#[trigger] s[k]) && s[k] != RS by {
        if k > 0 {
            assert(s[k] == d[k - 1]);
            assert(ascii_digit(d[k - 1]));
        }
    }
    assert(s[n as int] == US);
    lemma_run(s, not_char(US), n);
    assert(head(s) =~= seq!['s'] + d);
    assert(tail(s) =~= text);
    assert((seq!['s'] + d).skip(1) =~= d);
    if !text.contains(RS) {
        assert forall|k: int| 0 <= k < s.len() implies s[k] != RS by {
            if k > n {
                assert(s[k] == text[k - n - 1]);
                assert(text.contains(text[k - n - 1]));
            }
        }
    }
}

proof fn lemma_chunks_read_back(c: ConvV, locale: Option<Seq<char>>, now: u64, n: int)
    requires
        0 <= n <= c.blocks.len(),
        conv_wf(c),
        labels_plain(c, locale, now),
        forall|i: int| 0 <= i < c.blocks.len() ==> !(#[trigger] c.blocks[i]).1.contains(RS),
    ensures
        ({
            let cs = chunks_at(c, locale, now, n);
            &&& blocks_of(cs, cs.len() as int) == shown_at(c, locale, now, n)
            &&& forall|i: int, k: int| 0 <= i < cs.len() && 0 <= k < cs[i].len() ==> #[trigger] cs[i][k] != RS
            &&& n > 0 ==> cs.len() > 0 && cs[0].len() > 1 && cs[0].contains(US)
        }),
    decreases n,
{
    let cs = chunks_at(c, locale, now, n);
    if n > 0 {
        lemma_chunks_read_back(c, locale, now, n - 1);
        let b = c.blocks[n - 1];
        let before = chunks_at(c, locale, now, n - 1);
        let mid = if lull(c.blocks, n - 1) {
            let text = label(locale, age(b.2, now));
            assert(lull_label(c.blocks, n - 1, locale, now) == text);
            law_separator_reads_back(b.2, text);
            let sep = separator(b.2, text);
            assert forall|k: int| 0 <= k < sep.len() implies sep[k] != RS by {
                assert(sep.contains(sep[k]));
            }
            lemma_blocks_push(before, sep);
            before.push(sep)
        } else {
            before
        };
        assert(taggable(b.0));
        lemma_block_of_encoded(b);
        let e = encoded(b);
        assert forall|k: int| 0 <= k < e.len() implies e[k] != RS by {
            if k >= 2 {
                assert(e[k] == b.1[k - 2]);
                assert(b.1.contains(b.1[k - 2]));
            }
        }
        lemma_blocks_push(mid, e);
        assert(e[1] == US);
        assert(e.contains(US));
        assert(cs == mid.push(e));
    }
}

proof fn lemma_blocks_push(cs: Seq<Seq<char>>, chunk: Seq<char>)
    requires
        chunk.len() > 0,
    ensures
        blocks_of(cs.push(chunk), cs.len() as int + 1) == blocks_of(cs, cs.len() as int).push(block_of(chunk)),
{
    lemma_blocks_prefix(cs, chunk, cs.len() as int);
}

proof fn lemma_blocks_prefix(cs: Seq<Seq<char>>, chunk: Seq<char>, n: int)
    requires
        0 <= n <= cs.len(),
    ensures
        blocks_of(cs.push(chunk), n) == blocks_of(cs, n),
    decreases n,
{
    if n > 0 {
        lemma_blocks_prefix(cs, chunk, n - 1);
    }
}

/// The panel shows every block of a conversation, in order, and marks every lull with
/// the later block's age and stamp, as long as no block holds the separator of blocks.
pub proof fn law_transcript_reads_back(c: ConvV, locale: Option<Seq<char>>, now: u64)
    requires
        conv_wf(c),
        labels_plain(c, locale, now),
        forall|i: int| 0 <= i < c.blocks.len() ==> !(#[trigger] c.blocks[i]).1.contains(RS),
    ensures
        parsed(serialized_at(c, locale, now)) == shown_at(c, locale, now, c.blocks.len() as int),
{
    let n = c.blocks.len() as int;
    let cs = chunks_at(c, locale, now, n);
    let t = serialized_at(c, locale, now);
    lemma_chunks_read_back(c, locale, now, n);
    if n == 0 {
        assert(t =~= Seq::empty());
        assert(!t.contains(RS) && !t.contains(US));
    } else {
        law_split_join(cs, RS);
        assert(t.contains(US)) by {
            let k = choose|k: int| 0 <= k < cs[0].len() && cs[0][k] == US;
            if cs.len() == 1 {
                assert(t == cs[0]);
            } else {
                assert(t == cs[0].push(RS) + join(cs.skip(1), RS));
            }
            assert(t[k] == US);
        }
    }
}

proof fn lemma_field(h: Seq<char>, rest: Seq<char>)
    requires
        !h.contains(US),
    ensures
        head(h.push(US) + rest) == h,
        tail(h.push(US) + rest) == rest,
{
    let s = h.push(US) + rest;
    assert forall|k: int| 0 <= k < h.len() implies not_char(US)(#[trigger] s[k]) by {
        assert(h.contains(h[k]));
    }
    assert(s[h.len() as int] == US);
    lemma_run(s, not_char(US), h.len());
    assert(head(s) =~= h);
    assert(tail(s) =~= rest);
}

/// A tool's block shows the tool's id, its status and title, a preview of its input
/// and its full detail.
pub proof fn law_tool_reads_back(t: ToolV)
    requires
        !t.id.contains(US),
        !t.title.contains(US),
        !t.glyph.contains(US),
        !t.input.contains(US),
    ensures
        tool_block(tool_body(t)) == (BlockV {
            role: Role::Tool,
            text: t.glyph.push(' ') + t.title,
            tool_id: if t.id.len() > 0 { Some(t.id) } else { None },
            tool_preview: truncated(first_line(t.input), PREVIEW_CAP as int),
            tool_detail: if t.input.len() > 0 && t.output.len() > 0 {
                t.input.push('\n') + t.output
            } else {
                t.input + t.output
            },
            stamp: 0,
        }),
{
    let header = t.glyph.push(' ') + t.title;
    let line = first_line(t.input);
    let preview = truncated(line, PREVIEW_CAP as int);
    let detail = if t.input.len() > 0 && t.output.len() > 0 {
        t.input.push('\n') + t.output
    } else {
        t.input + t.output
    };
    lemma_run_is(t.input, not_char('\n'));
    assert(!header.contains(US)) by {
        if header.contains(US) {
            let k = choose|k: int| 0 <= k < header.len() && header[k] == US;
            if k < t.glyph.len() {
                assert(t.glyph.contains(t.glyph[k]));
            } else if k > t.glyph.len() {
                assert(t.title.contains(t.title[k - t.glyph.len() - 1]));
            }
        }
    }
    assert(!preview.contains(US)) by {
        if preview.contains(US) {
            let k = choose|k: int| 0 <= k < preview.len() && preview[k] == US;
            if k < line.len() && k < PREVIEW_CAP {
                assert(preview[k] == t.input[k]);
                assert(t.input.contains(t.input[k]));
            }
        }
    }
    let r1 = header.push(US) + (preview.push(US) + detail);
    assert(tool_body(t) =~= t.id.push(US) + r1);
    lemma_field(t.id, r1);
    lemma_field(header, preview.push(US) + detail);
    lemma_field(preview, detail);
}

// ---------------------------------------------------------------------------
// Folding tools
// ---------------------------------------------------------------------------

/// A stable hash of a text.
pub open spec fn hashed(s: Seq<char>) -> u64 {
    DefaultHasher::spec_finish(seq![encode_utf8(s), seq![0xffu8]])
}

/// Stable content hash, used to key a block's fold state and scroll: the bytes of
/// the text and a byte that no text holds.
pub fn hash_str(s: &str) -> (r: u64)
    ensures
        r == hashed(s@),
{
    let mut h = DefaultHasher::new();
    h.write(s.as_bytes());
    let end: [u8; 1] = [0xff];
    assert(end@ =~= seq![0xffu8]);
    h.write(end.as_slice());
    assert(h@ =~= seq![encode_utf8(s@), seq![0xffu8]]);
    h.finish()
}

/// The fold key of a tool's block: only a tool with content to reveal has one.
pub open spec fn fold_key(b: BlockV) -> Option<u64> {
    if b.role == Role::Tool && b.tool_id is Some && b.tool_detail.len() > 0 {
        Some(hashed(b.tool_id->0))
    } else {
        None
    }
}

/// Whether a tool's block is unfolded.
pub open spec fn unfolded(b: BlockV, open: Set<u64>) -> bool {
    fold_key(b) is Some && open.contains(fold_key(b)->0)
}

/// The text of a tool's block: the header, the preview, and what is unfolded.
pub open spec fn tool_text(b: BlockV, open: Set<u64>) -> Seq<char> {
    b.text + (if b.tool_preview.len() > 0 {
        "  "@ + b.tool_preview
    } else {
        Seq::empty()
    }) + (if unfolded(b, open) {
        "\n"@ + b.tool_detail
    } else {
        Seq::empty()
    })
}

/// The fold keys of the first `n` blocks.
pub open spec fn live_keys(bs: Seq<BlockV>, n: int) -> Set<u64>
    decreases n,
{
    if n <= 0 || n > bs.len() {
        Set::empty()
    } else {
        match fold_key(bs[n - 1]) {
            Some(k) => live_keys(bs, n - 1).insert(k),
            None => live_keys(bs, n - 1),
        }
    }
}

/// The pieces a tool's block is drawn with.
pub struct ToolView {
    pub key: Option<u64>,
    /// The header, then the preview and the detail where they are shown.
    pub pieces: Vec<String>,
    /// The disclosure triangle, where there is something to unfold.
    pub marker: Option<&'static str>,
}

/// Which tools are unfolded.
pub struct Folds {
    open: HashSet<u64>,
}

impl View for Folds {
    type V = Set<u64>;

    closed spec fn view(&self) -> Set<u64> {
        self.open@
    }
}

/// All the texts, one after the other.
pub open spec fn concat(ts: Seq<Seq<char>>) -> Seq<char>
    decreases ts.len(),
{
    if ts.len() == 0 {
        Seq::empty()
    } else {
        concat(ts.drop_last()) + ts.last()
    }
}

impl Folds {
    pub fn new() -> (r: Self)
        ensures
            r@ == Set::<u64>::empty(),
    {
        Folds { open: HashSet::new() }
    }

    /// Toggle a tool block's folded/unfolded state.
    pub fn toggle_tool(&mut self, key: u64)
        ensures
            final(self)@ == (if old(self)@.contains(key) {
                old(self)@.remove(key)
            } else {
                old(self)@.insert(key)
            }),
    {
        if self.open.contains(&key) {
            let _ = self.open.remove(&key);
        } else {
            let _ = self.open.insert(key);
        }
    }

    /// The fold key of a block, if there is something to reveal.
    pub fn key_of(b: &Block) -> (r: Option<u64>)
        ensures
            r == fold_key(b@),
    {
        if let Role::Tool = b.role {
            if !b.tool_detail.as_str().is_empty() {
                if let Some(id) = &b.tool_id {
                    return Some(hash_str(id.as_str()));
                }
            }
        }
        None
    }

    /// Forget the tools that are no longer in the transcript.
    pub fn retain(&mut self, blocks: &Vec<Block>)
        ensures
            final(self)@ == old(self)@.intersect(live_keys(blocks_v(blocks@), blocks@.len() as int)),
    {
        let ghost bs = blocks_v(blocks@);
        let ghost open = self.open@;
        let mut kept: HashSet<u64> = HashSet::new();
        assert(kept@ =~= open.intersect(live_keys(bs, 0)));
        let mut i: usize = 0;
        while i < blocks.len()
            invariant
                i <= blocks@.len(),
                bs == blocks_v(blocks@),
                open == self.open@,
                kept@ == open.intersect(live_keys(bs, i as int)),
            decreases blocks@.len() - i,
        {
            assert(bs[i as int] == blocks@[i as int]@);
            if let Some(k) = Folds::key_of(&blocks[i]) {
                if self.open.contains(&k) {
                    let _ = kept.insert(k);
                }
            }
            i = i + 1;
            assert(kept@ =~= open.intersect(live_keys(bs, i as int)));
        }
        self.open = kept;
    }

    /// How a tool's block is drawn.
    pub fn tool_view(&self, b: &Block) -> (r: ToolView)
        ensures
            r.key == fold_key(b@),
            concat(texts(r.pieces@)) == tool_text(b@, self@),
            r.pieces@.len() > 0 && r.pieces@[0]@ == b@.text,
            b@.role == Role::Tool ==> (r.marker is Some <==> fold_key(b@) is Some),
            match r.marker {
                Some(m) => m@ == (if unfolded(b@, self@) {
                    "▼"@
                } else {
                    "▶"@
                }),
                None => fold_key(b@) is None,
            },
    {
        let key = Folds::key_of(b);
        let mut pieces: Vec<String> = Vec::new();
        let ghost p0 = texts(pieces@);
        pieces.push(b.text.clone());
        let ghost p1 = texts(pieces@);
        assert(p1 =~= seq![b.text@]);
        assert(p1.drop_last() =~= Seq::empty());
        assert(concat(p1.drop_last()) =~= Seq::empty());
        assert(concat(p1) =~= b.text@);
        if !b.tool_preview.as_str().is_empty() {
            let t = join2("  ", b.tool_preview.as_str());
            pieces.push(t);
            assert(texts(pieces@) =~= p1.push(t@));
            assert(texts(pieces@).drop_last() =~= p1);
        }
        let ghost p2 = texts(pieces@);
        assert(concat(p2) =~= b.text@ + (if b@.tool_preview.len() > 0 {
            "  "@ + b@.tool_preview
        } else {
            Seq::empty()
        }));
        let open = match key {
            Some(k) => self.open.contains(&k),
            None => false,
        };
        if open {
            let t = join2("\n", b.tool_detail.as_str());
            pieces.push(t);
            assert(texts(pieces@) =~= p2.push(t@));
            assert(texts(pieces@).drop_last() =~= p2);
        }
        assert(concat(texts(pieces@)) =~= tool_text(b@, self@));
        let marker = match key {
            Some(_) => if open {
                Some("▼")
            } else {
                Some("▶")
            },
            None => None,
        };
        ToolView { key, pieces, marker }
    }
}

/// Toggling a tool twice leaves it as it was.
pub proof fn law_toggle_tool_twice(open: Set<u64>, key: u64)
    ensures
        ({
            let once = if open.contains(key) {
                open.remove(key)
            } else {
                open.insert(key)
            };
            (if once.contains(key) {
                once.remove(key)
            } else {
                once.insert(key)
            }) == open
        }),
{
    let once = if open.contains(key) {
        open.remove(key)
    } else {
        open.insert(key)
    };
    let twice = if once.contains(key) {
        once.remove(key)
    } else {
        once.insert(key)
    };
    assert(twice =~= open);
}

// ---------------------------------------------------------------------------
// Selection
// ---------------------------------------------------------------------------

/// A caret position: byte offset into block `block`'s text.
#[derive(Clone, Copy, PartialEq, Eq, Structural, Debug)]
pub struct TextPos {
    pub block: usize,
    pub offset: usize,
}

/// Whether a position is not behind another.
pub open spec fn not_behind(a: TextPos, b: TextPos) -> bool {
    a.block < b.block || (a.block == b.block && a.offset <= b.offset)
}

impl TextPos {
    pub fn le(self, o: TextPos) -> (r: bool)
        ensures
            r == not_behind(self, o),
    {
        self.block < o.block || (self.block == o.block && self.offset <= o.offset)
    }
}

/// The order of positions is total.
pub proof fn law_positions_are_ordered(a: TextPos, b: TextPos, c: TextPos)
    ensures
        not_behind(a, b) || not_behind(b, a),
        not_behind(a, b) && not_behind(b, a) ==> a == b,
        not_behind(a, b) && not_behind(b, c) ==> not_behind(a, c),
{
}

/// The part of a block between two byte offsets, each at the char boundary at or
/// below it.
pub open spec fn between(t: Seq<char>, start: int, end: int) -> Seq<char> {
    let a = index(t, start);
    let lo = offset(t, a) as int;
    t.subrange(a, index(t, if end < lo { lo } else { end }))
}

/// The part of block `i` that lies in a selection.
pub open spec fn part(laid: Seq<Seq<char>>, lo: TextPos, hi: TextPos, i: int) -> Seq<char> {
    between(
        laid[i],
        if i == lo.block { lo.offset as int } else { 0 },
        if i == hi.block { hi.offset as int } else { size(laid[i]) as int },
    )
}

/// The selected text up to block `i`, joined across blocks with newlines.
pub open spec fn selected_to(laid: Seq<Seq<char>>, lo: TextPos, hi: TextPos, i: int) -> Seq<char>
    decreases i - lo.block,
{
    if i < lo.block {
        Seq::empty()
    } else if i == lo.block {
        part(laid, lo, hi, i)
    } else {
        selected_to(laid, lo, hi, i - 1).push('\n') + part(laid, lo, hi, i)
    }
}

/// The earlier of two positions, and the later.
pub open spec fn ordered(a: TextPos, b: TextPos) -> (TextPos, TextPos) {
    if not_behind(a, b) {
        (a, b)
    } else {
        (b, a)
    }
}

/// The selected text.
pub open spec fn selected(laid: Seq<Seq<char>>, sel: Option<(TextPos, TextPos)>) -> Seq<char> {
    match sel {
        None => Seq::empty(),
        Some((a, b)) => {
            let (lo, hi) = ordered(a, b);
            if lo == hi || laid.len() == 0 {
                Seq::empty()
            } else {
                selected_to(laid, lo, hi, if hi.block < laid.len() { hi.block as int } else { laid.len() - 1 })
            }
        },
    }
}

fn slice_between(t: &str, start: usize, end: Option<usize>) -> (r: String)
    ensures
        r@ == between(
            t@,
            start as int,
            match end {
                Some(e) => e as int,
                None => size(t@) as int,
            },
        ),
{
    let v = chars(t);
    let a: usize = index_at(&v, start);
    proof {
        lemma_index(t@, start as int);
        lemma_index_is(t@, size(t@) as int, t@.len() as int);
        lemma_offset_mono(t@, a as int, t@.len() as int);
    }
    let lo: usize = offset_of(&v, a);
    let b: usize = match end {
        Some(e) => index_at(&v, if e < lo { lo } else { e }),
        None => v.len(),
    };
    proof {
        let e = match end {
            Some(e) => e as int,
            None => size(t@) as int,
        };
        let m = if e < lo { lo as int } else { e };
        lemma_index(t@, m);
        if b < a {
            lemma_offset_mono(t@, b + 1, a as int);
        }
    }
    from_range(&v, a, b)
}

/// The selection of everything: from the start of the first block to the end of the
/// last.
pub open spec fn whole(laid: Seq<Seq<char>>) -> Option<(TextPos, TextPos)> {
    if laid.len() == 0 {
        None
    } else {
        Some(
            (
                TextPos { block: 0, offset: 0 },
                TextPos { block: (laid.len() - 1) as usize, offset: size(laid.last()) as usize },
            ),
        )
    }
}

/// The texts of the blocks on screen, and the selection in them.
pub struct Selection {
    /// The texts of the blocks, as they were last laid out.
    pub laid: Vec<String>,
    /// Active text selection (anchor, focus), as block+offset positions.
    pub sel: Option<(TextPos, TextPos)>,
}

impl Selection {
    pub fn new() -> (r: Self)
        ensures
            texts(r.laid@) == Seq::<Seq<char>>::empty(),
            r.sel is None,
    {
        let s = Selection { laid: Vec::new(), sel: None };
        assert(texts(s.laid@) =~= Seq::<Seq<char>>::empty());
        s
    }

    /// Begin a selection at a position, if the pointer is over one.
    pub fn selection_begin(&mut self, p: Option<TextPos>)
        ensures
            final(self).laid == old(self).laid,
            final(self).sel == (match p {
                Some(q) => Some((q, q)),
                None => None,
            }),
    {
        self.sel = match p {
            Some(q) => Some((q, q)),
            None => None,
        };
    }

    /// Extend the active selection to a position.
    pub fn selection_update(&mut self, p: Option<TextPos>)
        ensures
            final(self).laid == old(self).laid,
            final(self).sel == (match (old(self).sel, p) {
                (Some((a, _)), Some(q)) => Some((a, q)),
                _ => old(self).sel,
            }),
    {
        if let Some((a, _)) = self.sel {
            if let Some(q) = p {
                self.sel = Some((a, q));
            }
        }
    }

    pub fn selection_clear(&mut self)
        ensures
            final(self).laid == old(self).laid,
            final(self).sel is None,
    {
        self.sel = None;
    }

    pub fn has_selection(&self) -> (r: bool)
        ensures
            r == (match self.sel {
                Some((a, b)) => a != b,
                None => false,
            }),
    {
        match self.sel {
            Some((a, b)) => a != b,
            None => false,
        }
    }

    /// Select everything.
    pub fn select_all(&mut self)
        ensures
            final(self).laid == old(self).laid,
            final(self).sel == whole(texts(old(self).laid@)),
            old(self).laid@.len() > 0 ==> size(texts(old(self).laid@).last()) <= usize::MAX,
    {
        let n: usize = self.laid.len();
        if n == 0 {
            self.sel = None;
            return;
        }
        let end: usize = self.laid[n - 1].as_str().as_bytes().len();
        proof {
            law_size_counts_bytes(self.laid@[n - 1]@);
            assert(texts(self.laid@).last() == self.laid@[n - 1]@);
        }
        self.sel = Some((TextPos { block: 0, offset: 0 }, TextPos { block: n - 1, offset: end }));
    }

    /// The selected text (joining across blocks with newlines), or empty.
    pub fn selected_text(&self) -> (r: String)
        requires
            self.laid@.len() == 0 ==> match self.sel {
                Some((a, b)) => a == b || (a.block > 0 && b.block > 0),
                None => true,
            },
        ensures
            r@ == selected(texts(self.laid@), self.sel),
    {
        let ghost laid = texts(self.laid@);
        let (lo, hi) = match self.sel {
            None => return String::new(),
            Some((a, b)) => if a.le(b) {
                (a, b)
            } else {
                (b, a)
            },
        };
        let n: usize = self.laid.len();
        if lo == hi || n == 0 {
            return String::new();
        }
        let last: usize = if hi.block < n {
            hi.block
        } else {
            n - 1
        };
        let mut out = String::new();
        if lo.block > last {
            return out;
        }
        let mut i: usize = lo.block;
        assert(out@ =~= selected_to(laid, lo, hi, i - 1));
        while i <= last
            invariant
                laid == texts(self.laid@),
                n == self.laid@.len(),
                lo.block <= i <= last + 1,
                last < n,
                last <= hi.block,
                out@ == selected_to(laid, lo, hi, i - 1),
            decreases last + 1 - i,
        {
            assert(laid[i as int] == self.laid@[i as int]@);
            let start: usize = if i == lo.block {
                lo.offset
            } else {
                0
            };
            let end = if i == hi.block {
                Some(hi.offset)
            } else {
                None
            };
            let t = slice_between(self.laid[i].as_str(), start, end);
            if i != lo.block {
                out.push('\n');
            }
            out.append(t.as_str());
            assert(out@ =~= selected_to(laid, lo, hi, i as int));
            i = i + 1;
        }
        out
    }
}

proof fn lemma_selected_to_whole(laid: Seq<Seq<char>>, i: int)
    requires
        laid.len() > 0,
        0 <= i < laid.len(),
        laid.len() <= usize::MAX,
        size(laid.last()) <= usize::MAX,
    ensures
        ({
            let lo = TextPos { block: 0, offset: 0 };
            let hi = TextPos { block: (laid.len() - 1) as usize, offset: size(laid.last()) as usize };
            selected_to(laid, lo, hi, i) == join(laid.take(i + 1), '\n')
        }),
    decreases i,
{
    let lo = TextPos { block: 0, offset: 0 };
    let hi = TextPos { block: (laid.len() - 1) as usize, offset: size(laid.last()) as usize };
    let t = laid[i];
    lemma_index_is(t, 0, 0);
    lemma_index_is(t, size(t) as int, t.len() as int);
    assert(part(laid, lo, hi, i) =~= t);
    if i > 0 {
        lemma_selected_to_whole(laid, i - 1);
        crate::text::lemma_join_push(laid.take(i), '\n', t);
        assert(laid.take(i + 1) =~= laid.take(i).push(t));
    } else {
        assert(laid.take(1) =~= seq![t]);
    }
}

/// Selecting everything and copying gives the texts of all blocks, line by line.
pub proof fn law_select_all_selects_everything(laid: Seq<Seq<char>>)
    requires
        0 < laid.len() <= usize::MAX,
        size(laid.last()) <= usize::MAX,
    ensures
        selected(laid, whole(laid)) == join(laid, '\n'),
{
    let n = laid.len() as int;
    lemma_selected_to_whole(laid, n - 1);
    assert(laid.take(n) =~= laid);
    let (a, b) = whole(laid)->0;
    if a == b {
        let t = laid[0];
        law_size_counts_bytes(t);
        lemma_index_is(t, 0, 0);
        lemma_index_is(t, 0, t.len() as int);
        assert(t =~= Seq::empty());
        assert(laid =~= seq![t]);
    }
}

// ---------------------------------------------------------------------------
// The panel
// ---------------------------------------------------------------------------

/// The state of the transcript panel.
#[verifier::ext_equal]
pub ghost struct PanelV {
    /// The names of the pending prompt's buttons.
    pub buttons: Seq<Seq<char>>,
    /// The fold keys of the tools that are unfolded.
    pub open: Set<u64>,
    /// The texts of the blocks, as they were last laid out.
    pub laid: Seq<Seq<char>>,
    pub sel: Option<(TextPos, TextPos)>,
}

/// What drawing the transcript needs beside its text.
pub struct PanelRenderer {
    pub buttons: Vec<String>,
    pub folds: Folds,
    pub selection: Selection,
}

impl View for PanelRenderer {
    type V = PanelV;

    open spec fn view(&self) -> PanelV {
        PanelV {
            buttons: texts(self.buttons@),
            open: self.folds@,
            laid: texts(self.selection.laid@),
            sel: self.selection.sel,
        }
    }
}

/// A panel that shows nothing.
pub open spec fn blank_panel() -> PanelV {
    PanelV { buttons: Seq::empty(), open: Set::empty(), laid: Seq::empty(), sel: None }
}

/// With a selection begun at a position.
pub open spec fn begun(p: PanelV, at: Option<TextPos>) -> PanelV {
    PanelV {
        sel: match at {
            Some(q) => Some((q, q)),
            None => None,
        },
        ..p
    }
}

/// With the selection extended to a position.
pub open spec fn dragged(p: PanelV, at: Option<TextPos>) -> PanelV {
    PanelV {
        sel: match (p.sel, at) {
            (Some((a, _)), Some(q)) => Some((a, q)),
            _ => p.sel,
        },
        ..p
    }
}

/// With a tool folded or unfolded.
pub open spec fn folded(p: PanelV, key: u64) -> PanelV {
    PanelV {
        open: if p.open.contains(key) {
            p.open.remove(key)
        } else {
            p.open.insert(key)
        },
        ..p
    }
}

impl PanelRenderer {
    pub fn new() -> (r: Self)
        ensures
            r@ == blank_panel(),
    {
        let p = PanelRenderer { buttons: Vec::new(), folds: Folds::new(), selection: Selection::new() };
        assert(p@ =~= blank_panel());
        p
    }

    /// The buttons of the pending prompt, by their names.
    pub fn set_buttons(&mut self, labels: Vec<String>)
        ensures
            final(self)@ == (PanelV { buttons: texts(labels@), ..old(self)@ }),
    {
        self.buttons = labels;
    }

    /// The blocks were laid out: their texts are what a selection is made in, and the
    /// tools that are gone are forgotten.
    pub fn laid_out(&mut self, blocks: &Vec<Block>, shown: Vec<String>)
        ensures
            final(self)@ == (PanelV {
                laid: texts(shown@),
                open: old(self)@.open.intersect(live_keys(blocks_v(blocks@), blocks@.len() as int)),
                ..old(self)@
            }),
    {
        self.folds.retain(blocks);
        self.selection.laid = shown;
    }

    /// Begin a selection at a position, if the pointer is over one.
    pub fn selection_begin(&mut self, p: Option<TextPos>)
        ensures
            final(self)@ == begun(old(self)@, p),
    {
        self.selection.selection_begin(p);
    }

    /// Extend the active selection to a position.
    pub fn selection_update(&mut self, p: Option<TextPos>)
        ensures
            final(self)@ == dragged(old(self)@, p),
    {
        self.selection.selection_update(p);
    }

    pub fn selection_clear(&mut self)
        ensures
            final(self)@ == (PanelV { sel: None, ..old(self)@ }),
    {
        self.selection.selection_clear();
    }

    pub fn has_selection(&self) -> (r: bool)
        ensures
            r == (match self@.sel {
                Some((a, b)) => a != b,
                None => false,
            }),
    {
        self.selection.has_selection()
    }

    /// Select everything.
    pub fn select_all(&mut self)
        ensures
            final(self)@ == (PanelV { sel: whole(old(self)@.laid), ..old(self)@ }),
    {
        self.selection.select_all();
    }

    /// The selected text (joining across blocks with newlines), or empty.
    pub fn selected_text(&self) -> (r: String)
        requires
            selection_sound(self@),
        ensures
            r@ == selected(self@.laid, self@.sel),
    {
        self.selection.selected_text()
    }

    /// Toggle a tool block's folded/unfolded state.
    pub fn toggle_tool(&mut self, key: u64)
        ensures
            final(self)@ == folded(old(self)@, key),
    {
        self.folds.toggle_tool(key);
    }
}

/// Whether there is something to take a selection's text from: a panel without any
/// block has no first one to begin in.
pub open spec fn selection_sound(p: PanelV) -> bool {
    p.laid.len() == 0 ==> match p.sel {
        Some((a, b)) => a == b || (a.block > 0 && b.block > 0),
        None => true,
    }
}

// ---------------------------------------------------------------------------
// Places in laid-out text
// ---------------------------------------------------------------------------

/// The byte offset in the full text where a line starts, a line ending counting one.
pub open spec fn byte_start(ls: Seq<Seq<char>>, l: int) -> int
    decreases l,
{
    if l <= 0 || l > ls.len() {
        0
    } else {
        byte_start(ls, l - 1) + size(ls[l - 1]) + 1
    }
}

proof fn lemma_byte_start_mono(ls: Seq<Seq<char>>, a: int, b: int)
    requires
        0 <= a <= b <= ls.len(),
    ensures
        0 <= byte_start(ls, a) <= byte_start(ls, b),
    decreases b,
{
    if a < b {
        lemma_byte_start_mono(ls, a, b - 1);
    } else if a > 0 {
        lemma_byte_start_mono(ls, a - 1, a - 1);
    }
}

/// Convert a position (a line, and a byte in it) to a byte offset in the full text. A
/// line that is not there counts as starting at 0.
pub fn cursor_to_offset(lines: &Vec<String>, line: usize, index: usize) -> (r: usize)
    requires
        (if line < lines@.len() {
            byte_start(texts(lines@), line as int)
        } else {
            0
        }) + index <= usize::MAX,
    ensures
        r == (if line < lines@.len() {
            byte_start(texts(lines@), line as int)
        } else {
            0
        }) + index,
{
    if line >= lines.len() {
        return index;
    }
    let ghost ls = texts(lines@);
    let mut off: usize = 0;
    let mut i: usize = 0;
    while i < line
        invariant
            i <= line < lines@.len(),
            ls == texts(lines@),
            off == byte_start(ls, i as int),
            byte_start(ls, line as int) <= usize::MAX,
        decreases line - i,
    {
        proof {
            lemma_byte_start_mono(ls, i + 1, line as int);
            crate::utf8::law_size_counts_bytes(lines@[i as int]@);
            assert(ls[i as int] == lines@[i as int]@);
        }
        let bytes = lines[i].as_str().as_bytes();
        let n: usize = bytes.len();
        off = off + n + 1;
        i = i + 1;
    }
    off + index
}

/// The columns of a table among the first `n` rows and the header.
pub open spec fn columns_in(header: usize, rows: Seq<usize>, n: int) -> usize
    decreases n,
{
    if n <= 0 || n > rows.len() {
        header
    } else {
        let c = columns_in(header, rows, n - 1);
        if rows[n - 1] > c {
            rows[n - 1]
        } else {
            c
        }
    }
}

/// How many columns a table has: as many as its longest row, by the cells of the header
/// and of each row.
pub fn table_columns(header: usize, rows: &Vec<usize>) -> (r: usize)
    ensures
        r == columns_in(header, rows@, rows@.len() as int),
{
    let n: usize = rows.len();
    let mut c: usize = header;
    let mut i: usize = 0;
    while i < n
        invariant
            i <= n == rows@.len(),
            c == columns_in(header, rows@, i as int),
        decreases n - i,
    {
        if rows[i] > c {
            c = rows[i];
        }
        i = i + 1;
    }
    c
}

/// Every row of a table fits its columns.
pub proof fn law_rows_fit_columns(header: usize, rows: Seq<usize>, n: int)
    requires
        0 <= n <= rows.len(),
    ensures
        header <= columns_in(header, rows, n),
        forall|i: int| 0 <= i < n ==> #[trigger] rows[i] <= columns_in(header, rows, n),
    decreases n,
{
    if n > 0 {
        law_rows_fit_columns(header, rows, n - 1);
    }
}

// ---------------------------------------------------------------------------
// What the panel shows
// ---------------------------------------------------------------------------

/// A prompt is shown as the user's, the agent's words as the agent's, a thought as a
/// thought, a waiting prompt as queued, and each with its whole text.
pub proof fn law_blocks_are_shown_by_their_role(text: Seq<char>, stamp: u64)
    ensures
        shown(('u', text, stamp)).role == Role::User && shown(('u', text, stamp)).text == text,
        shown(('a', text, stamp)).role == Role::Agent && shown(('a', text, stamp)).text == text,
        shown(('t', text, stamp)).role == Role::Thought && shown(('t', text, stamp)).text == text,
        shown(('q', text, stamp)).role == Role::Queued && shown(('q', text, stamp)).text == text,
        shown(('x', text, stamp)).role == Role::Tool,
        role_of('p') == Role::Plan && role_of('n') == Role::Notice && role_of('s') == Role::Separator,
        shown(('u', text, stamp)).tool_id is None && shown(('u', text, stamp)).stamp == 0,
{
}

/// A tool shows its header and a preview; unfolded also its detail on lines of their own,
/// and folded nothing of it.
pub proof fn law_unfolding_shows_the_detail(b: BlockV, open: Set<u64>)
    requires
        fold_key(b) is Some,
    ensures
        ({
            let key = fold_key(b)->0;
            let folded = tool_text(b, open.remove(key));
            let unfolded = tool_text(b, open.insert(key));
            &&& folded.take(b.text.len() as int) == b.text
            &&& b.tool_preview.len() > 0 ==> folded == b.text + "  "@ + b.tool_preview
            &&& b.tool_preview.len() == 0 ==> folded == b.text
            &&& unfolded == folded + "\n"@ + b.tool_detail
        }),
{
    let key = fold_key(b)->0;
    let f = tool_text(b, open.remove(key));
    assert(f.take(b.text.len() as int) =~= b.text);
    if b.tool_preview.len() > 0 {
        assert(f =~= b.text + "  "@ + b.tool_preview);
    } else {
        assert(f =~= b.text);
    }
    assert(tool_text(b, open.insert(key)) =~= f + "\n"@ + b.tool_detail);
}

/// Only a tool that has an id and a detail can be unfolded, and tools of the same id are
/// unfolded together.
pub proof fn law_tools_fold_by_their_id(b: BlockV, c: BlockV)
    ensures
        fold_key(b) is Some <==> b.role == Role::Tool && b.tool_id is Some && b.tool_detail.len() > 0,
        fold_key(b) is Some && fold_key(c) is Some && b.tool_id == c.tool_id ==> fold_key(b) == fold_key(c),
{
}

/// What stays unfolded are the tools that are still there.
pub proof fn law_live_keys_are_those_of_the_blocks(bs: Seq<BlockV>, n: int, k: u64)
    requires
        0 <= n <= bs.len(),
    ensures
        live_keys(bs, n).contains(k) <==> exists|i: int| 0 <= i < n && fold_key(#[trigger] bs[i]) == Some(k),
    decreases n,
{
    if n > 0 {
        law_live_keys_are_those_of_the_blocks(bs, n - 1, k);
    }
}

/// A press begins a selection where it is, a drag extends it from there, and which end
/// came first makes no difference to what is selected.
pub proof fn law_selection_follows_the_pointer(p: PanelV, a: TextPos, b: TextPos)
    ensures
        begun(p, Some(a)).sel == Some((a, a)),
        dragged(begun(p, Some(a)), Some(b)).sel == Some((a, b)),
        begun(p, None).sel is None,
        dragged(PanelV { sel: None, ..p }, Some(b)).sel is None,
        selected(p.laid, Some((a, b))) == selected(p.laid, Some((b, a))),
        selected(p.laid, Some((a, a))).len() == 0,
        selected(p.laid, None).len() == 0,
        dragged(p, Some(b)).laid == p.laid && dragged(p, Some(b)).open == p.open,
{
}

/// Folding a tool changes its own state and that of no other.
pub proof fn law_folding_changes_one_tool(p: PanelV, key: u64, other: u64)
    ensures
        folded(p, key).open.contains(key) == !p.open.contains(key),
        other != key ==> folded(p, key).open.contains(other) == p.open.contains(other),
        folded(p, key).laid == p.laid && folded(p, key).sel == p.sel && folded(p, key).buttons == p.buttons,
{
}

/// Inside one block, what is selected between two characters is what stands there.
pub proof fn law_selection_in_a_block(laid: Seq<Seq<char>>, block: usize, i: int, j: int)
    requires
        block < laid.len(),
        0 <= i < j <= laid[block as int].len(),
        size(laid[block as int]) <= usize::MAX,
    ensures
        ({
            let t = laid[block as int];
            let lo = TextPos { block, offset: offset(t, i) as usize };
            let hi = TextPos { block, offset: offset(t, j) as usize };
            selected(laid, Some((lo, hi))) == t.subrange(i, j)
        }),
{
    let t = laid[block as int];
    lemma_offset_mono(t, i, j);
    lemma_offset_mono(t, j, t.len() as int);
    lemma_index_is(t, offset(t, i) as int, i);
    lemma_index_is(t, offset(t, j) as int, j);
    lemma_offset_less(t, i, j);
    let lo = TextPos { block, offset: offset(t, i) as usize };
    let hi = TextPos { block, offset: offset(t, j) as usize };
    assert(part(laid, lo, hi, block as int) == t.subrange(i, j));
}

proof fn lemma_offset_less(t: Seq<char>, i: int, j: int)
    requires
        0 <= i < j <= t.len(),
    ensures
        offset(t, i) < offset(t, j),
    decreases j - i,
{
    if i + 1 < j {
        lemma_offset_less(t, i, j - 1);
    }
}

/// Across blocks, what is selected is the rest of the first, the blocks between, and the
/// start of the last, line by line.
pub proof fn law_selection_across_blocks(laid: Seq<Seq<char>>, a: usize, i: int, b: usize, j: int)
    requires
        a < b < laid.len() <= usize::MAX,
        0 <= i <= laid[a as int].len(),
        0 <= j <= laid[b as int].len(),
        size(laid[a as int]) <= usize::MAX,
        size(laid[b as int]) <= usize::MAX,
    ensures
        ({
            let lo = TextPos { block: a, offset: offset(laid[a as int], i) as usize };
            let hi = TextPos { block: b, offset: offset(laid[b as int], j) as usize };
            selected(laid, Some((lo, hi))) == join(
                seq![laid[a as int].skip(i)] + laid.subrange(a + 1, b as int) + seq![laid[b as int].take(j)],
                '\n',
            )
        }),
{
    let lo = TextPos { block: a, offset: offset(laid[a as int], i) as usize };
    let hi = TextPos { block: b, offset: offset(laid[b as int], j) as usize };
    let s = laid[a as int];
    let t = laid[b as int];
    lemma_offset_mono(s, i, s.len() as int);
    lemma_offset_mono(t, j, t.len() as int);
    lemma_offset_mono(t, 0, j);
    lemma_index_is(s, offset(s, i) as int, i);
    lemma_index_is(s, size(s) as int, s.len() as int);
    lemma_index_is(t, 0, 0);
    lemma_index_is(t, offset(t, j) as int, j);
    assert(part(laid, lo, hi, a as int) =~= s.skip(i));
    assert(part(laid, lo, hi, b as int) =~= t.take(j));
    lemma_selected_between(laid, lo, hi, i, b - 1);
    let front = seq![s.skip(i)] + laid.subrange(a + 1, b as int);
    crate::text::lemma_join_push(front, '\n', t.take(j));
    assert(front.push(t.take(j)) =~= front + seq![t.take(j)]);
}

proof fn lemma_selected_between(laid: Seq<Seq<char>>, lo: TextPos, hi: TextPos, i: int, k: int)
    requires
        lo.block <= k < hi.block < laid.len(),
        part(laid, lo, hi, lo.block as int) == laid[lo.block as int].skip(i),
    ensures
        selected_to(laid, lo, hi, k) == join(
            seq![laid[lo.block as int].skip(i)] + laid.subrange(lo.block + 1, k + 1),
            '\n',
        ),
    decreases k,
{
    let first = seq![laid[lo.block as int].skip(i)];
    if k == lo.block {
        assert(first + laid.subrange(lo.block + 1, k + 1) =~= first);
    } else {
        lemma_selected_between(laid, lo, hi, i, k - 1);
        let t = laid[k];
        lemma_index_is(t, 0, 0);
        lemma_index_is(t, size(t) as int, t.len() as int);
        assert(part(laid, lo, hi, k) =~= t);
        let front = first + laid.subrange(lo.block + 1, k);
        crate::text::lemma_join_push(front, '\n', t);
        assert(front.push(t) =~= first + laid.subrange(lo.block + 1, k + 1));
    }
}

/// A table has as many columns as its widest row, and no more.
pub proof fn law_columns_are_needed(header: usize, rows: Seq<usize>, n: int)
    requires
        0 <= n <= rows.len(),
    ensures
        columns_in(header, rows, n) == header || exists|i: int|
            0 <= i < n && #[trigger] rows[i] == columns_in(header, rows, n),
    decreases n,
{
    if n > 0 {
        law_columns_are_needed(header, rows, n - 1);
        assert(rows[n - 1] == rows[n - 1]);
    }
}

/// A transcript without separators is a single block of the agent.
pub proof fn law_plain_text_is_the_agents(text: Seq<char>)
    requires
        !text.contains(RS),
        !text.contains(US),
        text.len() > 0,
    ensures
        parsed(text).len() == 1,
        parsed(text)[0].role == Role::Agent && parsed(text)[0].text == text,
        parsed(Seq::empty()).len() == 0,
{
}

} // verus!

//! Grammars, and the incremental highlighter over them.

use streaming_iterator::StreamingIterator;
use tree_sitter::QueryCursor;
use vstd::prelude::*;

use crate::highlight::colors::{best_name, name_to_index};
use crate::highlight::delta::{
    describes, edit_between, ends, law_edit_describes_change, law_edit_of_small_texts_is_narrow, narrow, text_edit, Point,
    TextEdit,
};
use crate::highlight::spans::{clip, line_starts, spans_of, spans_v, LineSpans, Paint};
use crate::text::{same, texts};
use crate::utf8::size;

verus! {

/// `tree_sitter`'s syntax tree, which stays closed.
#[verifier::external_type_specification]
#[verifier::external_body]
pub struct ExTree(tree_sitter::Tree);

/// `tree_sitter`'s compiled query, which stays closed.
#[verifier::external_type_specification]
#[verifier::external_body]
pub struct ExQuery(tree_sitter::Query);

/// The grammars that come with the program. Markdown needs two: a block grammar
/// (headings, fenced code, lists, tables) and an inline grammar (emphasis, code
/// spans, links) parsed over each block's inline ranges.
#[derive(Clone, Copy, PartialEq, Eq, Structural, Debug)]
pub enum Grammar {
    CSharp,
    Markdown,
    MarkdownInline,
}

/// A grammar by number.
pub open spec fn number(g: Grammar) -> int {
    match g {
        Grammar::CSharp => 0,
        Grammar::Markdown => 1,
        Grammar::MarkdownInline => 2,
    }
}

/// A stretch of the text, by bytes and by positions.
#[derive(Clone, Copy, PartialEq, Eq, Structural, Debug)]
pub struct Extent {
    pub start_byte: usize,
    pub end_byte: usize,
    pub start_point: Point,
    pub end_point: Point,
}

impl View for Extent {
    type V = Seq<int>;

    open spec fn view(&self) -> Seq<int> {
        seq![
            self.start_byte as int,
            self.end_byte as int,
            self.start_point.row as int,
            self.start_point.column as int,
            self.end_point.row as int,
            self.end_point.column as int,
        ]
    }
}

/// A node of a syntax tree, with its depth below the root.
pub struct NodeInfo {
    pub kind: String,
    pub depth: u32,
    pub extent: Extent,
}

/// The nodes of a syntax tree, each before its children.
pub open spec fn nodes_v(v: Seq<NodeInfo>) -> Seq<(Seq<char>, u32, Seq<int>)> {
    Seq::new(v.len(), |i: int| (v[i].kind@, v[i].depth, v[i].extent@))
}

// ---------------------------------------------------------------------------
// The parser
// ---------------------------------------------------------------------------

/// All that a tree holds, as numbers: the number of its grammar first.
pub uninterp spec fn syntax(tree: tree_sitter::Tree) -> Seq<int>;

/// The texts that a tree lines up with: the one that it was parsed from, and after
/// edits those that the edits led to.
pub uninterp spec fn texts_of(tree: tree_sitter::Tree) -> Set<Seq<char>>;

/// The patterns that a query holds, as the number of the grammar whose highlight
/// query it is.
pub uninterp spec fn patterns(query: tree_sitter::Query) -> Seq<int>;

/// Whether a grammar's highlight query compiles, by the grammar's number.
pub uninterp spec fn compiles(grammar: int) -> bool;

/// The names of the captures of a grammar's highlight query.
pub uninterp spec fn capture_names(grammar: int) -> Seq<Seq<char>>;

/// Whether the parser takes a grammar.
pub uninterp spec fn accepted(grammar: int) -> bool;

/// The tree that the parser makes of a text, or of an extent of it, starting from an
/// edited tree if there is one.
pub uninterp spec fn parsed(
    grammar: int,
    extent: Option<Seq<int>>,
    text: Seq<char>,
    tree: Option<Seq<int>>,
) -> Option<Seq<int>>;

/// A tree with an edit applied.
pub uninterp spec fn reshaped(tree: Seq<int>, edit: Seq<int>) -> Seq<int>;

/// The captures of a tree by its grammar's highlight query: the index of the capture
/// and the bytes it covers.
pub uninterp spec fn caught(tree: Seq<int>, text: Seq<char>) -> Seq<(u32, usize, usize)>;

/// The nodes of a tree, each before its children: its kind, its depth and its
/// extent.
pub uninterp spec fn outlined(tree: Seq<int>) -> Seq<(Seq<char>, u32, Seq<int>)>;

/// `Query::new` on a grammar and the highlight query that the grammar's crate ships.
/// Both are fixed, so whether it succeeds goes by the grammar alone; the query then
/// holds that grammar's patterns.
#[verifier::external_body]
fn compile(g: Grammar) -> (r: Option<tree_sitter::Query>)
    ensures
        r is Some == compiles(number(g)),
        r matches Some(q) ==> patterns(q) == seq![number(g)],
{
    match g {
        Grammar::CSharp => tree_sitter::Query::new(&tree_sitter_c_sharp::LANGUAGE.into(), tree_sitter_c_sharp::HIGHLIGHTS_QUERY),
        Grammar::Markdown => tree_sitter::Query::new(&tree_sitter_md::LANGUAGE.into(), tree_sitter_md::HIGHLIGHT_QUERY_BLOCK),
        Grammar::MarkdownInline => tree_sitter::Query::new(
            &tree_sitter_md::INLINE_LANGUAGE.into(),
            tree_sitter_md::HIGHLIGHT_QUERY_INLINE,
        ),
    }.ok()
}

/// `Query::capture_names`: the names of the captures of the query, by index.
#[verifier::external_body]
fn names_of(query: &tree_sitter::Query) -> (r: Vec<String>)
    requires
        patterns(*query).len() == 1,
    ensures
        texts(r@) == capture_names(patterns(*query)[0]),
{
    query.capture_names().iter().map(|n| n.to_string()).collect()
}

/// `Parser::set_language` on a new parser: whether the grammar has a version that the
/// parser takes.
#[verifier::external_body]
fn accepts(g: Grammar) -> (r: bool)
    ensures
        r == accepted(number(g)),
{
    let language: tree_sitter::Language = match g {
        Grammar::CSharp => tree_sitter_c_sharp::LANGUAGE.into(),
        Grammar::Markdown => tree_sitter_md::LANGUAGE.into(),
        Grammar::MarkdownInline => tree_sitter_md::INLINE_LANGUAGE.into(),
    };
    tree_sitter::Parser::new().set_language(&language).is_ok()
}

/// `Parser::parse` by a new parser with a grammar, within one extent of the text if
/// it is given one (`Parser::set_included_ranges`). The answer goes by the grammar,
/// the extent, the text and the tree that is handed back; an old tree has to be one
/// of the grammar and to line up with the text. A grammar that the parser takes
/// gives a tree for every whole text. The parser counts bytes in 32 bits.
#[verifier::external_body]
fn parse(g: Grammar, extent: Option<Extent>, text: &str, old_tree: Option<&tree_sitter::Tree>) -> (r: Option<tree_sitter::Tree>)
    requires
        size(text@) <= u32::MAX,
        old_tree matches Some(t) ==> texts_of(*t).contains(text@) && syntax(*t).len() > 0 && syntax(*t)[0] == number(g),
    ensures
        match r {
            Some(t) => {
                &&& parsed(number(g), extent_v(extent), text@, tree_v(old_tree)) == Some(syntax(t))
                &&& texts_of(t).contains(text@)
                &&& syntax(t).len() > 0
                &&& syntax(t)[0] == number(g)
            },
            None => parsed(number(g), extent_v(extent), text@, tree_v(old_tree)) is None,
        },
        extent is None && accepted(number(g)) ==> r is Some,
{
    let mut parser = tree_sitter::Parser::new();
    parser.set_language(&match g {
        Grammar::CSharp => tree_sitter_c_sharp::LANGUAGE.into(),
        Grammar::Markdown => tree_sitter_md::LANGUAGE.into(),
        Grammar::MarkdownInline => tree_sitter_md::INLINE_LANGUAGE.into(),
    }).ok()?;
    if let Some(e) = extent {
        let start_point = tree_sitter::Point { row: e.start_point.row, column: e.start_point.column };
        let end_point = tree_sitter::Point { row: e.end_point.row, column: e.end_point.column };
        let range = tree_sitter::Range { start_byte: e.start_byte, end_byte: e.end_byte, start_point, end_point };
        parser.set_included_ranges(&[range]).ok()?;
    }
    parser.parse(text, old_tree)
}

/// `Tree::edit`: the tree keeps its grammar, and lines up with every text that the
/// edit leads to from one that it lined up with. The tree takes bytes, rows and
/// columns in 32 bits.
#[verifier::external_body]
fn edit(tree: &mut tree_sitter::Tree, e: &TextEdit)
    requires
        syntax(*old(tree)).len() > 0,
        narrow(e@),
    ensures
        syntax(*final(tree)) == reshaped(syntax(*old(tree)), e@),
        syntax(*final(tree)).len() > 0,
        syntax(*final(tree))[0] == syntax(*old(tree))[0],
        forall|was: Seq<char>, now: Seq<char>| #[trigger]
            describes(e@, was, now) && texts_of(*old(tree)).contains(was) ==> texts_of(*final(tree)).contains(now),
{
    tree.edit(&tree_sitter::InputEdit {
        start_byte: e.start_byte,
        old_end_byte: e.old_end_byte,
        new_end_byte: e.new_end_byte,
        start_position: tree_sitter::Point { row: e.start_position.row, column: e.start_position.column },
        old_end_position: tree_sitter::Point { row: e.old_end_position.row, column: e.old_end_position.column },
        new_end_position: tree_sitter::Point { row: e.new_end_position.row, column: e.new_end_position.column },
    });
}

/// `QueryCursor::captures` over a whole tree: every capture in order, with the bytes
/// of its node. The query has to be one of the tree's grammar, and the tree to line
/// up with the text, whose bytes the query's text predicates read.
#[verifier::external_body]
fn captures(query: &tree_sitter::Query, tree: &tree_sitter::Tree, text: &str) -> (r: Vec<(u32, usize, usize)>)
    requires
        texts_of(*tree).contains(text@),
        syntax(*tree).len() > 0,
        patterns(*query) == seq![syntax(*tree)[0]],
    ensures
        r@ == caught(syntax(*tree), text@),
{
    let mut cursor = QueryCursor::new();
    let mut found = cursor.captures(query, tree.root_node(), text.as_bytes());
    let mut out = Vec::new();
    while let Some((m, i)) = found.next() {
        let c = m.captures()[*i];
        out.push((c.index, c.node.start_byte(), c.node.end_byte()));
    }
    out
}

/// `TreeCursor` over a whole tree, each node before its children: the kind, the depth
/// and the range of each.
#[verifier::external_body]
fn outline(tree: &tree_sitter::Tree) -> (r: Vec<NodeInfo>)
    ensures
        nodes_v(r@) == outlined(syntax(*tree)),
{
    let mut c = tree.walk();
    let mut out = Vec::new();
    loop {
        let r = c.node().range();
        let start_point = Point { row: r.start_point.row, column: r.start_point.column };
        let end_point = Point { row: r.end_point.row, column: r.end_point.column };
        let extent = Extent { start_byte: r.start_byte, end_byte: r.end_byte, start_point, end_point };
        out.push(NodeInfo { kind: c.node().kind().to_string(), depth: c.depth(), extent });
        if !c.goto_first_child() {
            while !c.goto_next_sibling() {
                if !c.goto_parent() { return out; }
            }
        }
    }
}

/// An extent, if there is one.
pub open spec fn extent_v(e: Option<Extent>) -> Option<Seq<int>> {
    match e {
        Some(x) => Some(x@),
        None => None,
    }
}

/// All that a tree holds, if there is one.
pub open spec fn tree_v(t: Option<&tree_sitter::Tree>) -> Option<Seq<int>> {
    match t {
        Some(x) => Some(syntax(*x)),
        None => None,
    }
}

// ---------------------------------------------------------------------------
// Inline ranges
// ---------------------------------------------------------------------------

/// The first node from `i` on that is no descendant of a node at a depth.
pub open spec fn past(nodes: Seq<(Seq<char>, u32, Seq<int>)>, i: int, depth: u32) -> int
    decreases nodes.len() - i,
{
    if 0 <= i < nodes.len() && nodes[i].1 > depth {
        past(nodes, i + 1, depth)
    } else {
        i
    }
}

/// The extents of the `inline` nodes from `i` on. Below one, no other is looked for.
pub open spec fn inline_extents(nodes: Seq<(Seq<char>, u32, Seq<int>)>, i: int) -> Seq<Seq<int>>
    decreases nodes.len() - i,
{
    if i < 0 || i >= nodes.len() {
        Seq::empty()
    } else if nodes[i].0 == "inline"@ {
        let next = past(nodes, i + 1, nodes[i].1);
        if i < next <= nodes.len() {
            seq![nodes[i].2] + inline_extents(nodes, next)
        } else {
            Seq::empty()
        }
    } else {
        inline_extents(nodes, i + 1)
    }
}

/// Extents as numbers.
pub open spec fn extents_v(v: Seq<Extent>) -> Seq<Seq<int>> {
    Seq::new(v.len(), |i: int| v[i]@)
}

/// Collect the ranges of every `inline` node in a Markdown block tree, given each
/// node before its children. An `inline` node is a leaf of the block grammar carrying
/// raw text that the inline grammar re-parses (emphasis, code spans, links), so the
/// search stops at one.
pub fn collect_inline_ranges(nodes: &Vec<NodeInfo>) -> (r: Vec<Extent>)
    ensures
        extents_v(r@) == inline_extents(nodes_v(nodes@), 0),
{
    let ghost nv = nodes_v(nodes@);
    let n: usize = nodes.len();
    let mut out: Vec<Extent> = Vec::new();
    let mut i: usize = 0;
    assert(extents_v(out@) + inline_extents(nv, 0) =~= inline_extents(nv, 0));
    while i < n
        invariant
            i <= n == nodes@.len(),
            nv == nodes_v(nodes@),
            extents_v(out@) + inline_extents(nv, i as int) == inline_extents(nv, 0),
        decreases n - i,
    {
        if same(nodes[i].kind.as_str(), "inline") {
            let depth: u32 = nodes[i].depth;
            let ghost before = extents_v(out@);
            out.push(nodes[i].extent);
            assert(extents_v(out@) =~= before.push(nv[i as int].2));
            let mut j: usize = i + 1;
            while j < n && nodes[j].depth > depth
                invariant
                    i < j <= n == nodes@.len(),
                    nv == nodes_v(nodes@),
                    past(nv, i + 1, depth) == past(nv, j as int, depth),
                decreases n - j,
            {
                j = j + 1;
            }
            assert(past(nv, i + 1, depth) == j);
            assert(extents_v(out@) + inline_extents(nv, j as int) =~= before + inline_extents(nv, i as int));
            i = j;
        } else {
            i = i + 1;
        }
    }
    assert(extents_v(out@) + inline_extents(nv, n as int) =~= extents_v(out@));
    out
}

// ---------------------------------------------------------------------------
// The highlighter
// ---------------------------------------------------------------------------

/// The color-table index of each capture of a grammar's query.
pub open spec fn cap_colors(g: Grammar) -> Seq<Option<int>> {
    let names = capture_names(number(g));
    Seq::new(names.len(), |i: int| best_name(names[i], 24))
}

/// The colored captures among the first `n`, in their order.
pub open spec fn paints(caps: Seq<Option<int>>, found: Seq<(u32, usize, usize)>, n: int) -> Seq<Paint>
    decreases n,
{
    if n <= 0 || n > found.len() {
        Seq::empty()
    } else {
        let before = paints(caps, found, n - 1);
        let (index, start, end) = found[n - 1];
        if index < caps.len() && caps[index as int] is Some {
            before.push(Paint { color: caps[index as int]->0 as usize, start, end })
        } else {
            before
        }
    }
}

/// The colored captures of a tree.
pub open spec fn tree_paints(g: Grammar, tree: Seq<int>, text: Seq<char>) -> Seq<Paint> {
    let found = caught(tree, text);
    paints(cap_colors(g), found, found.len() as int)
}

/// The colored captures of the inline trees of the first `n` extents.
pub open spec fn inline_paints(extents: Seq<Seq<int>>, text: Seq<char>, n: int) -> Seq<Paint>
    decreases n,
{
    if n <= 0 || n > extents.len() {
        Seq::empty()
    } else {
        let before = inline_paints(extents, text, n - 1);
        match parsed(number(Grammar::MarkdownInline), Some(extents[n - 1]), text, None) {
            Some(t) => before + tree_paints(Grammar::MarkdownInline, t, text),
            None => before,
        }
    }
}

/// All stretches to color: those of the tree, then, for Markdown, those of each
/// inline range, so that the more specific inline spans win any overlap.
pub open spec fn all_paints(g: Grammar, tree: Option<Seq<int>>, text: Seq<char>) -> Seq<Paint> {
    match tree {
        None => Seq::empty(),
        Some(t) => if g == Grammar::Markdown {
            let extents = inline_extents(outlined(t), 0);
            tree_paints(g, t, text) + inline_paints(extents, text, extents.len() as int)
        } else {
            tree_paints(g, t, text)
        },
    }
}

/// The tree of a text, reparsed from the tree of the text before it.
pub open spec fn reparsed(g: Grammar, tree: Option<Seq<int>>, prev: Seq<char>, text: Seq<char>) -> Option<Seq<int>> {
    let (p, e) = ends(prev, text);
    let from = match tree {
        Some(t) => Some(
            if prev == text {
                t
            } else {
                reshaped(t, edit_between(prev, text, p, e))
            },
        ),
        None => None,
    };
    parsed(number(g), None, text, from)
}

/// The grammar of a language id.
pub open spec fn grammar_of(lang_id: Seq<char>) -> Option<Grammar> {
    if lang_id == "md"@ || lang_id == "markdown"@ {
        Some(Grammar::Markdown)
    } else if lang_id == "cs"@ || lang_id == "c_sharp"@ || lang_id == "csharp"@ {
        Some(Grammar::CSharp)
    } else {
        None
    }
}

/// Whether a grammar can be highlighted with.
pub open spec fn usable(g: Grammar) -> bool {
    compiles(number(g)) && accepted(number(g)) && (g == Grammar::Markdown ==> compiles(
        number(Grammar::MarkdownInline),
    ) && accepted(number(Grammar::MarkdownInline)))
}

/// Captures' colors as integers.
pub open spec fn caps_v(v: Seq<Option<usize>>) -> Seq<Option<int>> {
    Seq::new(
        v.len(),
        |i: int|
            match v[i] {
                Some(c) => Some(c as int),
                None => None,
            },
    )
}

/// A compiled query, with the color of each capture.
pub struct Colored {
    query: tree_sitter::Query,
    caps: Vec<Option<usize>>,
}

impl Colored {
    /// Whether the query and the colors are those of a grammar.
    pub closed spec fn of(&self, g: Grammar) -> bool {
        patterns(self.query) == seq![number(g)] && caps_v(self.caps@) == cap_colors(g)
    }

    fn build(g: Grammar) -> (r: Option<Self>)
        ensures
            r is Some == compiles(number(g)),
            r matches Some(c) ==> c.of(g),
    {
        let query = match compile(g) {
            Some(q) => q,
            None => return None,
        };
        let names = names_of(&query);
        let mut caps: Vec<Option<usize>> = Vec::new();
        let n: usize = names.len();
        let ghost all = capture_names(number(g));
        let mut i: usize = 0;
        while i < n
            invariant
                i <= n == names@.len(),
                all == texts(names@),
                caps@.len() == i,
                forall|k: int|
                    0 <= k < i ==> match #[trigger] caps@[k] {
                        Some(c) => best_name(all[k], 24) == Some(c as int),
                        None => best_name(all[k], 24) is None,
                    },
            decreases n - i,
        {
            assert(all[i as int] == names@[i as int]@);
            caps.push(name_to_index(names[i].as_str()));
            i = i + 1;
        }
        assert(caps_v(caps@) =~= cap_colors(g)) by {
            assert forall|k: int| 0 <= k < caps@.len() implies caps_v(caps@)[k] == #[trigger] cap_colors(g)[k] by {
                let c = caps@[k];
            }
        }
        Some(Colored { query, caps })
    }

    /// Put the colored captures of a tree behind `out`.
    fn paint(&self, g: Grammar, tree: &tree_sitter::Tree, text: &str, out: &mut Vec<Paint>)
        requires
            self.of(g),
            texts_of(*tree).contains(text@),
            syntax(*tree).len() > 0,
            syntax(*tree)[0] == number(g),
        ensures
            final(out)@ == old(out)@ + tree_paints(g, syntax(*tree), text@),
    {
        let found = captures(&self.query, tree, text);
        pick(&self.caps, &found, out);
        assert(out@ =~= old(out)@ + tree_paints(g, syntax(*tree), text@));
    }
}

/// Put the captures that have a color behind `out`.
pub fn pick(caps: &Vec<Option<usize>>, found: &Vec<(u32, usize, usize)>, out: &mut Vec<Paint>)
    ensures
        final(out)@ == old(out)@ + paints(caps_v(caps@), found@, found@.len() as int),
{
    let n: usize = found.len();
    let m: usize = caps.len();
    let ghost base = out@;
    let ghost cv = caps_v(caps@);
    let mut i: usize = 0;
    assert(out@ =~= base + paints(cv, found@, 0));
    while i < n
        invariant
            i <= n == found@.len(),
            m == caps@.len(),
            cv == caps_v(caps@),
            out@ == base + paints(cv, found@, i as int),
        decreases n - i,
    {
        let (index, start, end) = found[i];
        let ghost before = paints(cv, found@, i as int);
        let k: usize = index as usize;
        if k < m {
            assert(cv[k as int] == match caps@[k as int] {
                Some(c) => Some(c as int),
                None => None,
            });
            if let Some(color) = caps[k] {
                let p = Paint { color, start, end };
                out.push(p);
                assert(out@ =~= base + before.push(p));
            }
        }
        i = i + 1;
    }
}

/// Stateful incremental highlighter for one editor buffer. Single-grammar languages
/// (C#) parse one tree; Markdown parses a block tree plus one inline tree per inline
/// node. Either way successive [`Highlighter::highlight`] calls reparse only the
/// region that changed (the previous tree is edited by the delta and handed back to
/// the parser).
pub struct Highlighter {
    grammar: Grammar,
    colored: Colored,
    inline: Option<Colored>,
    tree: Option<tree_sitter::Tree>,
    prev: String,
}

/// What a highlighter goes by: its grammar, and the last text with its tree.
#[verifier::ext_equal]
pub ghost struct HighlighterV {
    pub grammar: Grammar,
    pub tree: Option<Seq<int>>,
    pub prev: Seq<char>,
}

impl View for Highlighter {
    type V = HighlighterV;

    closed spec fn view(&self) -> HighlighterV {
        HighlighterV {
            grammar: self.grammar,
            tree: match self.tree {
                Some(t) => Some(syntax(t)),
                None => None,
            },
            prev: self.prev@,
        }
    }
}

impl Highlighter {
    /// Whether the queries are those of the grammar, the tree is that of the last text,
    /// and that text's bytes can be counted in 32 bits.
    pub closed spec fn wf(&self) -> bool {
        &&& usable(self.grammar)
        &&& self.grammar != Grammar::MarkdownInline
        &&& self.colored.of(self.grammar)
        &&& self.inline is Some == (self.grammar == Grammar::Markdown)
        &&& self.inline matches Some(c) ==> c.of(Grammar::MarkdownInline)
        &&& size(self.prev@) <= u32::MAX
        &&& self.tree matches Some(t) ==> texts_of(t).contains(self.prev@) && syntax(t).len() > 0 && syntax(t)[0]
            == number(self.grammar)
    }

    /// Build a highlighter for `lang_id`, or None if we have no grammar for it.
    pub fn new(lang_id: &str) -> (r: Option<Highlighter>)
        ensures
            match r {
                Some(h) => {
                    &&& h.wf()
                    &&& grammar_of(lang_id@) == Some(h@.grammar)
                    &&& usable(h@.grammar)
                    &&& h@.tree is None
                    &&& h@.prev.len() == 0
                },
                None => grammar_of(lang_id@) is None || !usable(grammar_of(lang_id@)->0),
            },
    {
        if same(lang_id, "md") || same(lang_id, "markdown") {
            let colored = match Colored::build(Grammar::Markdown) {
                Some(c) => c,
                None => return None,
            };
            let inline = match Colored::build(Grammar::MarkdownInline) {
                Some(c) => c,
                None => return None,
            };
            if !accepts(Grammar::Markdown) || !accepts(Grammar::MarkdownInline) {
                return None;
            }
            return Some(
                Highlighter {
                    grammar: Grammar::Markdown,
                    colored,
                    inline: Some(inline),
                    tree: None,
                    prev: String::new(),
                },
            );
        }
        if !(same(lang_id, "cs") || same(lang_id, "c_sharp") || same(lang_id, "csharp")) {
            return None;
        }
        let colored = match Colored::build(Grammar::CSharp) {
            Some(c) => c,
            None => return None,
        };
        if !accepts(Grammar::CSharp) {
            return None;
        }
        Some(Highlighter { grammar: Grammar::CSharp, colored, inline: None, tree: None, prev: String::new() })
    }

    /// Bring the tree up to the text.
    fn reparse(&mut self, text: &str)
        requires
            old(self).wf(),
            size(text@) <= u32::MAX,
        ensures
            final(self).wf(),
            final(self)@ == (HighlighterV {
                grammar: old(self)@.grammar,
                tree: reparsed(old(self)@.grammar, old(self)@.tree, old(self)@.prev, text@),
                prev: text@,
            }),
            final(self)@.tree is Some,
    {
        let g = self.grammar;
        let ghost was = self.prev@;
        let tree = match self.tree.take() {
            Some(mut t) => {
                if let Some(e) = text_edit(self.prev.as_str(), text) {
                    proof {
                        law_edit_describes_change(was, text@);
                        law_edit_of_small_texts_is_narrow(was, text@);
                        assert(describes(e@, was, text@));
                    }
                    edit(&mut t, &e);
                }
                parse(g, None, text, Some(&t))
            },
            None => parse(g, None, text, None),
        };
        self.tree = tree;
        self.prev = text.to_owned();
    }

    /// (Re)highlight `text` into per-logical-line colored spans (split on `\n`). Reuses
    /// the previous parse tree via an incremental edit when the text changed since the
    /// last call.
    pub fn highlight(&mut self, text: &str, dark: bool) -> (r: Vec<LineSpans>)
        requires
            old(self).wf(),
            size(text@) <= u32::MAX,
        ensures
            final(self).wf(),
            final(self)@ == (HighlighterV {
                grammar: old(self)@.grammar,
                tree: reparsed(old(self)@.grammar, old(self)@.tree, old(self)@.prev, text@),
                prev: text@,
            }),
            ({
                let starts = line_starts(text@, text@.len() as int);
                let all = all_paints(final(self)@.grammar, final(self)@.tree, text@);
                &&& r@.len() == starts.len()
                &&& forall|l: int|
                    0 <= l < r@.len() ==> #[trigger] spans_v(r@[l].spans@) == spans_of(
                        all,
                        all.len() as int,
                        starts,
                        size(text@) as int,
                        dark,
                        l,
                    )
            }),
    {
        self.reparse(text);
        let mut out: Vec<Paint> = Vec::new();
        let ghost g = self.grammar;
        if let Some(t) = &self.tree {
            // Block structure first (headings, fenced code, list markers, link labels),
            // then the inline grammar over each `inline` node's range so the more
            // specific inline spans (emphasis, code, links) win any overlap.
            self.colored.paint(self.grammar, t, text, &mut out);
            if let Some(c) = &self.inline {
                let nodes = outline(t);
                let ranges = collect_inline_ranges(&nodes);
                paint_inline(c, &ranges, text, &mut out);
            }
        }
        assert(out@ =~= all_paints(self@.grammar, self@.tree, text@));
        clip(text, &out, dark)
    }
}

/// Put the colored captures of the inline trees of extents behind `out`.
fn paint_inline(c: &Colored, ranges: &Vec<Extent>, text: &str, out: &mut Vec<Paint>)
    requires
        c.of(Grammar::MarkdownInline),
        size(text@) <= u32::MAX,
    ensures
        final(out)@ == old(out)@ + inline_paints(extents_v(ranges@), text@, ranges@.len() as int),
{
    let n: usize = ranges.len();
    let ghost base = out@;
    let ghost ev = extents_v(ranges@);
    let mut i: usize = 0;
    assert(out@ =~= base + inline_paints(ev, text@, 0));
    while i < n
        invariant
            i <= n == ranges@.len(),
            ev == extents_v(ranges@),
            c.of(Grammar::MarkdownInline),
            size(text@) <= u32::MAX,
            out@ == base + inline_paints(ev, text@, i as int),
        decreases n - i,
    {
        let ghost before = inline_paints(ev, text@, i as int);
        assert(ev[i as int] == ranges@[i as int]@);
        if let Some(t) = parse(Grammar::MarkdownInline, Some(ranges[i]), text, None) {
            c.paint(Grammar::MarkdownInline, &t, text, out);
            assert(out@ =~= base + (before + tree_paints(Grammar::MarkdownInline, syntax(t), text@)));
        }
        i = i + 1;
    }
}

/// Languages are known by their ids.
pub proof fn law_languages_are_known_by_their_ids(id: Seq<char>)
    ensures
        grammar_of("md"@) == Some(Grammar::Markdown),
        grammar_of("markdown"@) == Some(Grammar::Markdown),
        grammar_of("cs"@) == Some(Grammar::CSharp),
        grammar_of("c_sharp"@) == Some(Grammar::CSharp),
        grammar_of("csharp"@) == Some(Grammar::CSharp),
        id != "md"@ && id != "markdown"@ && id != "cs"@ && id != "c_sharp"@ && id != "csharp"@ ==> grammar_of(id) is None,
{
    reveal_strlit("md");
    reveal_strlit("markdown");
    reveal_strlit("cs");
    reveal_strlit("c_sharp");
    reveal_strlit("csharp");
    assert("md"@.len() == 2 && "markdown"@.len() == 8 && "cs"@.len() == 2 && "c_sharp"@.len() == 7 && "csharp"@.len()
        == 6);
    assert("md"@[0] == 'm' && "cs"@[0] == 'c');
}

/// A capture is colored where its name has a color: over its own bytes, in its own color, in
/// the order of the captures.
pub proof fn law_captures_are_colored(caps: Seq<Option<int>>, found: Seq<(u32, usize, usize)>, n: int)
    requires
        0 < n <= found.len(),
    ensures
        ({
            let now = paints(caps, found, n);
            let before = paints(caps, found, n - 1);
            let c = found[n - 1];
            let known = c.0 < caps.len() && caps[c.0 as int] is Some;
            &&& !known ==> now == before
            &&& known ==> {
                &&& now.len() == before.len() + 1
                &&& now.drop_last() == before
                &&& now.last().color == caps[c.0 as int]->0 as usize
                &&& now.last().start == c.1
                &&& now.last().end == c.2
            }
        }),
{
    let before = paints(caps, found, n - 1);
    assert(paints(caps, found, n).len() > before.len() ==> paints(caps, found, n).drop_last() =~= before);
}

/// Markdown is colored by its blocks first and its inline ranges then, so that these win;
/// any other language by its one tree alone. Nothing is colored without a tree.
pub proof fn law_inline_ranges_win(g: Grammar, t: Seq<int>, text: Seq<char>)
    ensures
        all_paints(g, None, text).len() == 0,
        g != Grammar::Markdown ==> all_paints(g, Some(t), text) == tree_paints(g, t, text),
        g == Grammar::Markdown ==> {
            let whole = tree_paints(g, t, text);
            let all = all_paints(g, Some(t), text);
            let extents = inline_extents(outlined(t), 0);
            &&& all.len() >= whole.len()
            &&& all.take(whole.len() as int) == whole
            &&& all.skip(whole.len() as int) == inline_paints(extents, text, extents.len() as int)
        },
{
    if g == Grammar::Markdown {
        let whole = tree_paints(g, t, text);
        let all = all_paints(g, Some(t), text);
        let extents = inline_extents(outlined(t), 0);
        assert(all.take(whole.len() as int) =~= whole);
        assert(all.skip(whole.len() as int) =~= inline_paints(extents, text, extents.len() as int));
    }
}

/// An inline range is the extent of an `inline` node, and the first such node is the first
/// range.
pub proof fn law_inline_ranges_are_those_of_inline_nodes(
    nodes: Seq<(Seq<char>, u32, Seq<int>)>,
    i: int,
    k: int,
)
    requires
        0 <= i <= nodes.len(),
        0 <= k < inline_extents(nodes, i).len(),
    ensures
        exists|j: int|
            i <= j < nodes.len() && (#[trigger] nodes[j]).0 == "inline"@ && nodes[j].2 == inline_extents(nodes, i)[k],
    decreases nodes.len() - i,
{
    if i < nodes.len() {
        if nodes[i].0 == "inline"@ {
            let next = past(nodes, i + 1, nodes[i].1);
            if k > 0 && i < next <= nodes.len() {
                assert(inline_extents(nodes, i)[k] == inline_extents(nodes, next)[k - 1]);
                law_inline_ranges_are_those_of_inline_nodes(nodes, next, k - 1);
                let j = choose|j: int|
                    next <= j < nodes.len() && (#[trigger] nodes[j]).0 == "inline"@ && nodes[j].2 == inline_extents(
                        nodes,
                        next,
                    )[k - 1];
                assert(nodes[j].0 == "inline"@);
            } else {
                assert(nodes[i].0 == "inline"@);
            }
        } else {
            law_inline_ranges_are_those_of_inline_nodes(nodes, i + 1, k);
            let j = choose|j: int|
                i + 1 <= j < nodes.len() && (#[trigger] nodes[j]).0 == "inline"@ && nodes[j].2 == inline_extents(
                    nodes,
                    i + 1,
                )[k];
            assert(nodes[j].0 == "inline"@);
        }
    }
}

/// An `inline` node that lies in no other has its range among those that are found.
pub proof fn law_outer_inline_nodes_are_found(nodes: Seq<(Seq<char>, u32, Seq<int>)>, i: int, j: int)
    requires
        0 <= i <= j < nodes.len(),
        nodes[j].0 == "inline"@,
        forall|k: int| i <= k < j && (#[trigger] nodes[k]).0 == "inline"@ ==> nodes[k].1 >= nodes[j].1,
    ensures
        inline_extents(nodes, i).contains(nodes[j].2),
    decreases nodes.len() - i,
{
    if nodes[i].0 == "inline"@ {
        let next = past(nodes, i + 1, nodes[i].1);
        lemma_past(nodes, i + 1, nodes[i].1);
        if i == j {
            assert(inline_extents(nodes, i)[0] == nodes[j].2);
        } else {
            if j < next {
                assert(nodes[j].1 > nodes[i].1);
            }
            law_outer_inline_nodes_are_found(nodes, next, j);
            let rest = inline_extents(nodes, next);
            let m = choose|m: int| 0 <= m < rest.len() && rest[m] == nodes[j].2;
            assert(inline_extents(nodes, i)[m + 1] == nodes[j].2);
        }
    } else {
        law_outer_inline_nodes_are_found(nodes, i + 1, j);
    }
}

proof fn lemma_past(nodes: Seq<(Seq<char>, u32, Seq<int>)>, i: int, depth: u32)
    requires
        0 <= i <= nodes.len(),
    ensures
        i <= past(nodes, i, depth) <= nodes.len(),
        forall|k: int| i <= k < past(nodes, i, depth) ==> (#[trigger] nodes[k]).1 > depth,
    decreases nodes.len() - i,
{
    if i < nodes.len() && nodes[i].1 > depth {
        lemma_past(nodes, i + 1, depth);
    }
}

} // verus!

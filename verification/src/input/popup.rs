//! The autocomplete popup of the text box, and the rows of a peek.

use vstd::prelude::*;
use vstd::string::StringExecFns;

use crate::input::edit::{BoxV, InputBox, Peek, PeekV};
use crate::text::{chars, from_range, join, join2, join_strs, texts};

verus! {

/// At most so many rows are shown at once.
pub const MAX_ROWS: usize = 10;

/// Autocomplete popup items + selected index. The host computes the list.
pub struct Popup {
    pub items: Vec<String>,
    pub selected: usize,
}

/// Autocomplete popup items + selected index.
#[verifier::ext_equal]
pub ghost struct PopupV {
    pub items: Seq<Seq<char>>,
    pub selected: int,
}

impl View for Popup {
    type V = PopupV;

    open spec fn view(&self) -> PopupV {
        PopupV { items: texts(self.items@), selected: self.selected as int }
    }
}

/// Whether the selected index is that of an item, or 0 without items.
pub open spec fn popup_wf(p: PopupV) -> bool {
    0 <= p.selected && (p.selected < p.items.len() || p.selected == 0)
}

impl Popup {
    pub fn new() -> (r: Self)
        ensures
            r@ == (PopupV { items: Seq::empty(), selected: 0 }),
    {
        let p = Popup { items: Vec::new(), selected: 0 };
        assert(p@.items =~= Seq::empty());
        p
    }
}

/// How many rows the popup shows where `fit` rows fit.
pub open spec fn rows_shown(n: int, fit: int) -> int {
    let f = if fit < 1 { 1 } else { fit };
    let m = if n < MAX_ROWS { n } else { MAX_ROWS as int };
    if m < f {
        m
    } else {
        f
    }
}

/// The first row shown when `visible` rows are: the selected one stays in view.
pub open spec fn first_row(selected: int, visible: int) -> int {
    if selected >= visible {
        selected + 1 - visible
    } else {
        0
    }
}

/// The selected item is among the rows shown, and the rows shown are items.
pub proof fn law_selected_row_is_shown(p: PopupV, fit: int)
    requires
        popup_wf(p),
        p.items.len() > 0,
    ensures
        ({
            let v = rows_shown(p.items.len() as int, fit);
            let top = first_row(p.selected, v);
            &&& 1 <= v <= p.items.len()
            &&& 0 <= top <= p.selected < top + v <= p.items.len()
        }),
{
}

/// An item's kind tag, its first character.
pub open spec fn kind_of(item: Seq<char>) -> char {
    if item.len() > 0 {
        item[0]
    } else {
        ' '
    }
}

/// An item's label: what follows the kind tag.
pub open spec fn label_of(item: Seq<char>) -> Seq<char> {
    if item.len() > 0 {
        item.skip(1)
    } else {
        Seq::empty()
    }
}

/// Where the name of a label ends: at its parameter list or its type, from `i` on.
pub open spec fn name_end(label: Seq<char>, i: int) -> int
    decreases label.len() - i,
{
    if i < 0 || i >= label.len() {
        label.len() as int
    } else if label[i] == '(' || (i + 2 < label.len() && label[i] == ' ' && label[i + 1] == ':' && label[i + 2] == ' ') {
        i
    } else {
        name_end(label, i + 1)
    }
}

/// Kind tag → editor highlight capture (matches the in-editor token colors).
pub open spec fn capture_of(kind: char) -> Option<Seq<char>> {
    if kind == 'M' || kind == 'X' {
        Some("function"@)
    } else if kind == 'P' || kind == 'V' {
        Some("property"@)
    } else if kind == 'F' || kind == 'L' || kind == 'A' {
        Some("variable"@)
    } else if kind == 'T' || kind == 'E' || kind == 'U' {
        Some("type"@)
    } else if kind == 'N' {
        Some("namespace"@)
    } else if kind == 'C' {
        Some("constant"@)
    } else if kind == 'K' || kind == 'S' {
        Some("keyword"@)
    } else {
        None
    }
}

/// Kind tag → editor highlight capture; a slash-command "skill" is accented like a
/// keyword.
pub fn kind_capture(kind: char) -> (r: Option<&'static str>)
    ensures
        match r {
            Some(c) => capture_of(kind) == Some(c@),
            None => capture_of(kind) is None,
        },
{
    if kind == 'M' || kind == 'X' {
        Some("function")
    } else if kind == 'P' || kind == 'V' {
        Some("property")
    } else if kind == 'F' || kind == 'L' || kind == 'A' {
        Some("variable")
    } else if kind == 'T' || kind == 'E' || kind == 'U' {
        Some("type")
    } else if kind == 'N' {
        Some("namespace")
    } else if kind == 'C' {
        Some("constant")
    } else if kind == 'K' || kind == 'S' {
        Some("keyword")
    } else {
        None
    }
}

/// The captures of a popup label (`name : type`, `Foo(T) : R`), each with the
/// characters it covers: the name by the symbol's KIND, and the rest (params, `:`,
/// type) as a type.
pub open spec fn label_captures(label: Seq<char>, kind: char) -> Seq<(int, int, Seq<char>)> {
    let e = name_end(label, 0);
    (if e > 0 && capture_of(kind) is Some {
        seq![(0int, e, capture_of(kind)->0)]
    } else {
        Seq::empty()
    }) + (if e < label.len() {
        seq![(e, label.len() as int, "type"@)]
    } else {
        Seq::empty()
    })
}

/// Spans by character, each with its capture.
pub open spec fn captures_v(v: Seq<(usize, usize, &'static str)>) -> Seq<(int, int, Seq<char>)> {
    Seq::new(v.len(), |i: int| (v[i].0 as int, v[i].1 as int, v[i].2@))
}

proof fn lemma_name_end(label: Seq<char>, i: int)
    requires
        0 <= i <= label.len(),
    ensures
        i <= name_end(label, i) <= label.len(),
    decreases label.len() - i,
{
    if i < label.len() && !(label[i] == '(' || (i + 2 < label.len() && label[i] == ' ' && label[i + 1] == ':' && label[i
        + 2] == ' ')) {
        lemma_name_end(label, i + 1);
    }
}

/// The spans of a label do not overlap and lie in it.
pub proof fn law_label_spans_are_disjoint(label: Seq<char>, kind: char)
    ensures
        ({
            let s = label_captures(label, kind);
            &&& forall|i: int| 0 <= i < s.len() ==> 0 <= (#[trigger] s[i]).0 < s[i].1 <= label.len()
            &&& s.len() == 2 ==> s[0].1 == s[1].0
        }),
{
    lemma_name_end(label, 0);
}

/// Build the spans of a completion popup label: the name is coloured by the
/// symbol's KIND (from the host) using the editor's theme captures, and the rest
/// (params, `:`, type) in the type colour.
pub fn popup_label_spans(label: &str, kind: char) -> (r: Vec<(usize, usize, &'static str)>)
    ensures
        captures_v(r@) == label_captures(label@, kind),
{
    let v = chars(label);
    let n: usize = v.len();
    let mut e: usize = 0;
    while e < n && !(v[e] == '(' || (n - e > 2 && v[e] == ' ' && v[e + 1] == ':' && v[e + 2] == ' '))
        invariant
            e <= n == v@.len(),
            name_end(v@, 0) == name_end(v@, e as int),
        decreases n - e,
    {
        e = e + 1;
    }
    assert(name_end(v@, 0) == e);
    let mut out: Vec<(usize, usize, &'static str)> = Vec::new();
    if e > 0 {
        if let Some(c) = kind_capture(kind) {
            out.push((0, e, c));
        }
    }
    if e < n {
        out.push((e, n, "type"));
    }
    assert(captures_v(out@) =~= label_captures(label@, kind));
    out
}

/// The label of an item.
fn label_text(item: &str) -> (r: (char, String))
    ensures
        r.0 == kind_of(item@),
        r.1@ == label_of(item@),
{
    let v = chars(item);
    let n: usize = v.len();
    if n == 0 {
        (' ', String::new())
    } else {
        (v[0], from_range(&v, 1, n))
    }
}

/// The rows of a peek: each line behind its diff sign.
pub open spec fn peek_row(line: (bool, Seq<char>)) -> Seq<char> {
    seq![if line.0 { '+' } else { '\u{2212}' }, ' '] + line.1
}

/// The first `n` rows of a peek as one text.
pub open spec fn peek_text(p: PeekV, n: int) -> Seq<char> {
    join(Seq::new(n as nat, |i: int| peek_row(p.lines[i])), '\n')
}

impl Peek {
    /// The first `max` rows of the peek as one text, one row a line.
    pub fn text(&self, max: usize) -> (r: String)
        ensures
            r@ == peek_text(self@, if max < self@.lines.len() { max as int } else { self@.lines.len() as int }),
    {
        let all: usize = self.lines.len();
        let n: usize = if max < all {
            max
        } else {
            all
        };
        let ghost rows = Seq::new(n as nat, |i: int| peek_row(self@.lines[i]));
        let mut out: Vec<String> = Vec::new();
        let mut i: usize = 0;
        assert(texts(out@) =~= rows.take(0));
        proof {
            reveal_strlit("+ ");
            reveal_strlit("\u{2212} ");
            assert("+ "@ =~= seq!['+', ' ']);
            assert("\u{2212} "@ =~= seq!['\u{2212}', ' ']);
        }
        while i < n
            invariant
                i <= n <= all == self.lines@.len(),
                rows == Seq::new(n as nat, |i: int| peek_row(self@.lines[i])),
                texts(out@) == rows.take(i as int),
                "+ "@ == seq!['+', ' '],
                "\u{2212} "@ == seq!['\u{2212}', ' '],
            decreases n - i,
        {
            let t = if self.lines[i].0 {
                join2("+ ", self.lines[i].1.as_str())
            } else {
                join2("\u{2212} ", self.lines[i].1.as_str())
            };
            let ghost before = texts(out@);
            out.push(t);
            assert(texts(out@) =~= before.push(rows[i as int]));
            i = i + 1;
            assert(texts(out@) =~= rows.take(i as int));
        }
        assert(rows.take(n as int) =~= rows);
        join_strs(&out, '\n')
    }
}

impl InputBox {
    /// Set the autocomplete popup items + selected index (empty list hides it).
    pub fn set_completions(&mut self, items: Vec<String>, selected: usize)
        ensures
            ({
                let n = items@.len();
                final(self)@ == (BoxV {
                    popup: PopupV {
                        items: texts(items@),
                        selected: if n == 0 {
                            0
                        } else if selected < n {
                            selected as int
                        } else {
                            n - 1
                        },
                    },
                    ..old(self)@
                })
            }),
            popup_wf(final(self)@.popup),
    {
        let n: usize = items.len();
        self.popup.selected = if n == 0 {
            0
        } else if selected < n {
            selected
        } else {
            n - 1
        };
        self.popup.items = items;
    }

    /// The rows of the popup where `fit` rows fit: the first one's index, and each
    /// one's kind tag and label.
    pub fn popup_rows(&self, fit: usize) -> (r: (usize, Vec<(char, String)>))
        requires
            popup_wf(self@.popup),
        ensures
            ({
                let p = self@.popup;
                let v = rows_shown(p.items.len() as int, fit as int);
                let top = first_row(p.selected, v);
                &&& p.items.len() > 0 ==> r.0 == top
                &&& r.1@.len() == v
                &&& forall|i: int| 0 <= i < v ==> (#[trigger] r.1@[i]).0 == kind_of(p.items[r.0 + i]) && r.1@[i].1@
                    == label_of(p.items[r.0 + i])
            }),
    {
        let n: usize = self.popup.items.len();
        let f: usize = if fit < 1 {
            1
        } else {
            fit
        };
        let m: usize = if n < MAX_ROWS {
            n
        } else {
            MAX_ROWS
        };
        let v: usize = if m < f {
            m
        } else {
            f
        };
        let mut out: Vec<(char, String)> = Vec::new();
        if n == 0 {
            return (0, out);
        }
        proof {
            law_selected_row_is_shown(self@.popup, fit as int);
        }
        let top: usize = if self.popup.selected >= v {
            self.popup.selected - v + 1
        } else {
            0
        };
        let mut i: usize = 0;
        while i < v
            invariant
                i <= v,
                top + v <= n == self.popup.items@.len(),
                out@.len() == i,
                forall|k: int| 0 <= k < i ==> (#[trigger] out@[k]).0 == kind_of(self@.popup.items[top + k]) && out@[k].1@
                    == label_of(self@.popup.items[top + k]),
            decreases v - i,
        {
            out.push(label_text(self.popup.items[top + i].as_str()));
            i = i + 1;
        }
        (top, out)
    }
}

/// The popup shows as many rows as there are items, but no more than ten and no more than
/// fit; one always fits.
pub proof fn law_rows_that_fit_are_shown(n: int, fit: int)
    requires
        n >= 0,
    ensures
        rows_shown(n, fit) <= n,
        rows_shown(n, fit) <= 10,
        fit >= 1 ==> rows_shown(n, fit) <= fit,
        fit < 1 ==> rows_shown(n, fit) <= 1,
        n > 0 ==> rows_shown(n, fit) >= 1,
        n <= 10 && n <= fit ==> rows_shown(n, fit) == n,
        n >= 10 && fit >= 10 ==> rows_shown(n, fit) == 10,
        1 <= fit <= n && fit <= 10 ==> rows_shown(n, fit) == fit,
{
}

/// An item is its kind, one character, and its label.
pub proof fn law_items_are_kind_and_label(item: Seq<char>)
    ensures
        item.len() > 0 ==> seq![kind_of(item)] + label_of(item) == item,
        item.len() == 0 ==> kind_of(item) == ' ' && label_of(item).len() == 0,
{
    if item.len() > 0 {
        assert(seq![kind_of(item)] + label_of(item) =~= item);
    }
}

/// The name of a label ends before its parameter list or its type, whichever comes first,
/// and is the whole label where it has neither.
pub proof fn law_name_ends_before_parameters_and_type(label: Seq<char>, e: int)
    requires
        0 <= e <= label.len(),
        e < label.len() ==> label[e] == '(' || (e + 2 < label.len() && label[e] == ' ' && label[e + 1] == ':' && label[e
            + 2] == ' '),
        forall|i: int|
            0 <= i < e ==> (#[trigger] label[i]) != '(' && !(i + 2 < label.len() && label[i] == ' ' && label[i + 1] == ':'
                && label[i + 2] == ' '),
    ensures
        name_end(label, 0) == e,
{
    lemma_name_ends(label, 0, e);
}

proof fn lemma_name_ends(label: Seq<char>, i: int, e: int)
    requires
        0 <= i <= e <= label.len(),
        e < label.len() ==> label[e] == '(' || (e + 2 < label.len() && label[e] == ' ' && label[e + 1] == ':' && label[e
            + 2] == ' '),
        forall|k: int|
            i <= k < e ==> (#[trigger] label[k]) != '(' && !(k + 2 < label.len() && label[k] == ' ' && label[k + 1] == ':'
                && label[k + 2] == ' '),
    ensures
        name_end(label, i) == e,
    decreases e - i,
{
    if i < e {
        assert(label[i] != '(');
        lemma_name_ends(label, i + 1, e);
    }
}

/// The name of a label has the color of its kind, and what follows it that of a type.
pub proof fn law_name_has_the_color_of_its_kind(label: Seq<char>, kind: char)
    ensures
        ({
            let e = name_end(label, 0);
            let s = label_captures(label, kind);
            &&& e > 0 && capture_of(kind) is Some ==> s.len() > 0 && s[0] == (0int, e, capture_of(kind)->0)
            &&& e < label.len() ==> s.len() > 0 && s.last() == (e, label.len() as int, "type"@)
            &&& s.len() <= 2
            &&& (e <= 0 || capture_of(kind) is None) ==> s.len() <= 1
            &&& e >= label.len() ==> s.len() <= 1
        }),
{
}

/// Methods have the color of functions, properties and events that of properties, fields,
/// locals and arguments that of variables, types that of types, and so on; a kind that is
/// not known has none.
pub proof fn law_kinds_have_colors()
    ensures
        capture_of('M') == Some("function"@) && capture_of('X') == Some("function"@),
        capture_of('P') == Some("property"@) && capture_of('V') == Some("property"@),
        capture_of('F') == Some("variable"@) && capture_of('L') == Some("variable"@) && capture_of('A') == Some(
            "variable"@,
        ),
        capture_of('T') == Some("type"@) && capture_of('E') == Some("type"@) && capture_of('U') == Some("type"@),
        capture_of('N') == Some("namespace"@),
        capture_of('C') == Some("constant"@),
        capture_of('K') == Some("keyword"@) && capture_of('S') == Some("keyword"@),
        capture_of(' ') is None,
{
}

/// A row of a peek shows a plus before an added line and a minus before a removed one.
pub proof fn law_peek_rows_show_signs(line: (bool, Seq<char>))
    ensures
        peek_row(line).len() == line.1.len() + 2,
        line.0 ==> peek_row(line)[0] == '+',
        !line.0 ==> peek_row(line)[0] == '\u{2212}',
        peek_row(line)[1] == ' ',
        peek_row(line).skip(2) == line.1,
{
    assert(peek_row(line).skip(2) =~= line.1);
}

} // verus!

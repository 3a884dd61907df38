//! The terminal grid as it is drawn: cells resolved to glyphs and colors, rows cut
//! into pieces of text, and the composition at the cursor laid out in columns.

use unicode_width::UnicodeWidthChar;
use vstd::prelude::*;

use crate::palette::{resolve, resolved, CellColor, Theme};
use crate::text::{chars, from_range};

verus! {

// ---------------------------------------------------------------------------
// Cells
// ---------------------------------------------------------------------------

/// A cell of the grid.
#[derive(Clone, Copy)]
pub struct Cell {
    pub ch: char,
    pub fg: CellColor,
    pub bg: CellColor,
    pub inverse: bool,
    pub dim: bool,
    pub hidden: bool,
    pub bold: bool,
    pub italic: bool,
    /// A double-width (CJK/emoji) lead cell — occupies two columns.
    pub wide: bool,
    /// The trailing half of a wide glyph — drawn by its lead cell.
    pub spacer: bool,
    /// Whether it lies in the selection.
    pub selected: bool,
}

/// A single cell resolved for drawing.
#[derive(Clone, Copy)]
pub struct CellVis {
    pub ch: char,
    pub fg: [u8; 3],
    pub bg: [u8; 3],
    pub bold: bool,
    pub italic: bool,
    pub wide: bool,
    pub spacer: bool,
    /// Whether `bg` differs from the default and needs a fill quad.
    pub bg_fill: bool,
}

/// A single cell resolved for drawing.
#[verifier::ext_equal]
pub ghost struct CellV {
    pub ch: char,
    pub fg: Seq<u8>,
    pub bg: Seq<u8>,
    pub bold: bool,
    pub italic: bool,
    pub wide: bool,
    pub spacer: bool,
    pub bg_fill: bool,
}

impl View for CellVis {
    type V = CellV;

    open spec fn view(&self) -> CellV {
        CellV {
            ch: self.ch,
            fg: self.fg@,
            bg: self.bg@,
            bold: self.bold,
            italic: self.italic,
            wide: self.wide,
            spacer: self.spacer,
            bg_fill: self.bg_fill,
        }
    }
}

/// Three quarters of a color, half and a quarter each rounded down.
pub open spec fn faded(c: Seq<u8>) -> Seq<u8> {
    Seq::new(c.len(), |i: int| (c[i] / 2 + c[i] / 4) as u8)
}

/// A cell as it is drawn: inverse cells swap their colors, dim ones fade their text,
/// selected ones take the highlight background (text color is kept), and hidden ones
/// show no glyph.
pub open spec fn cell_shown(cell: Cell, theme: Theme) -> CellV {
    let a = resolved(cell.fg, theme);
    let b = resolved(cell.bg, theme);
    let fg = if cell.inverse { b } else { a };
    let bg = if cell.inverse { a } else { b };
    let back = if cell.selected { theme.selection@ } else { bg };
    CellV {
        ch: if cell.hidden { ' ' } else { cell.ch },
        fg: if cell.dim { faded(fg) } else { fg },
        bg: back,
        bold: cell.bold,
        italic: cell.italic,
        wide: cell.wide,
        spacer: cell.spacer,
        bg_fill: back != theme.bg@,
    }
}

fn same_color(a: [u8; 3], b: [u8; 3]) -> (r: bool)
    ensures
        r == (a@ == b@),
{
    let r = a[0] == b[0] && a[1] == b[1] && a[2] == b[2];
    proof {
        if r {
            assert(a@ =~= b@);
        }
    }
    r
}

/// Resolve a cell for drawing.
pub fn resolve_cell(cell: &Cell, theme: &Theme) -> (r: CellVis)
    ensures
        r@ == cell_shown(*cell, *theme),
        r.bold == cell.bold,
        r.italic == cell.italic,
        r.wide == cell.wide,
        r.spacer == cell.spacer,
{
    let a = resolve(cell.fg, theme);
    let b = resolve(cell.bg, theme);
    let (fg, bg) = if cell.inverse {
        (b, a)
    } else {
        (a, b)
    };
    let fore = if cell.dim {
        let f: [u8; 3] = [fg[0] / 2 + fg[0] / 4, fg[1] / 2 + fg[1] / 4, fg[2] / 2 + fg[2] / 4];
        assert(f@ =~= faded(fg@));
        f
    } else {
        fg
    };
    let back = if cell.selected {
        theme.selection
    } else {
        bg
    };
    CellVis {
        ch: if cell.hidden {
            ' '
        } else {
            cell.ch
        },
        fg: fore,
        bg: back,
        bold: cell.bold,
        italic: cell.italic,
        wide: cell.wide,
        spacer: cell.spacer,
        bg_fill: !same_color(back, theme.bg),
    }
}

/// The cell under a focused block cursor: its glyph is inverted for contrast.
pub fn under_cursor(c: CellVis, theme: &Theme) -> (r: CellVis)
    ensures
        r@ == (CellV { fg: theme.bg@, bold: false, ..c@ }),
{
    CellVis { fg: theme.bg, bold: false, ..c }
}

/// Whether the cursor is drawn: the program shows it, and the view is not scrolled
/// back.
pub fn shows_cursor(wanted: bool, display_offset: usize) -> (r: bool)
    ensures
        r == (wanted && display_offset == 0),
{
    wanted && display_offset == 0
}

/// How many columns the cursor spans on a cell: two on a wide (CJK) glyph.
pub fn cursor_columns(c: &CellVis) -> (r: u8)
    ensures
        r == (if c@.wide {
            2int
        } else {
            1
        }),
{
    if c.wide {
        2
    } else {
        1
    }
}

// ---------------------------------------------------------------------------
// Rows
// ---------------------------------------------------------------------------

/// How a stretch of text is drawn.
#[derive(Clone, Copy)]
pub struct TextStyle {
    pub fg: [u8; 3],
    pub bold: bool,
    pub italic: bool,
}

/// How a stretch of text is drawn.
#[verifier::ext_equal]
pub ghost struct StyleV {
    pub fg: Seq<u8>,
    pub bold: bool,
    pub italic: bool,
}

impl View for TextStyle {
    type V = StyleV;

    open spec fn view(&self) -> StyleV {
        StyleV { fg: self.fg@, bold: self.bold, italic: self.italic }
    }
}

/// A piece of a row, drawn from a column on: stretches of text with their styles.
/// Pieces are anchored at their starting column rather than continuously shaped, so a
/// wide (CJK) glyph whose advance differs from the cell width can't shift the rest of
/// the row.
pub struct Piece {
    pub col: usize,
    pub runs: Vec<(String, TextStyle)>,
}

/// A piece of a row.
#[verifier::ext_equal]
pub ghost struct PieceV {
    pub col: int,
    pub runs: Seq<(Seq<char>, StyleV)>,
}

/// Stretches of text with their styles.
pub open spec fn runs_v(v: Seq<(String, TextStyle)>) -> Seq<(Seq<char>, StyleV)> {
    Seq::new(v.len(), |i: int| (v[i].0@, v[i].1@))
}

impl View for Piece {
    type V = PieceV;

    open spec fn view(&self) -> PieceV {
        PieceV { col: self.col as int, runs: runs_v(self.runs@) }
    }
}

/// Pieces of rows.
pub open spec fn pieces_v(v: Seq<Piece>) -> Seq<PieceV> {
    Seq::new(v.len(), |i: int| v[i]@)
}

/// Cells of a row.
pub open spec fn cells_v(v: Seq<CellVis>) -> Seq<CellV> {
    Seq::new(v.len(), |i: int| v[i]@)
}

/// The style of a cell's text.
pub open spec fn style_of(c: CellV) -> StyleV {
    StyleV { fg: c.fg, bold: c.bold, italic: c.italic }
}

/// Where the single-width cells from `i` on end.
pub open spec fn narrow_end(row: Seq<CellV>, i: int) -> int
    decreases row.len() - i,
{
    if 0 <= i < row.len() && !row[i].spacer && !row[i].wide {
        narrow_end(row, i + 1)
    } else {
        i
    }
}

/// Where the ink of the cells from `a` up to `b` ends: trailing blanks have none.
pub open spec fn ink_end(row: Seq<CellV>, a: int, b: int) -> int
    decreases b - a,
{
    if b <= a || row[b - 1].ch != ' ' {
        b
    } else {
        ink_end(row, a, b - 1)
    }
}

/// Where the cells of one style from `i` on end, at most at `b`.
pub open spec fn style_end(row: Seq<CellV>, style: StyleV, i: int, b: int) -> int
    decreases b - i,
{
    if 0 <= i < b && style_of(row[i]) == style {
        style_end(row, style, i + 1, b)
    } else {
        i
    }
}

/// The glyphs of cells.
pub open spec fn glyphs(row: Seq<CellV>, a: int, b: int) -> Seq<char> {
    Seq::new((b - a) as nat, |i: int| row[a + i].ch)
}

/// The stretches of one style each from cell `a` up to cell `b`.
pub open spec fn styled_runs(row: Seq<CellV>, a: int, b: int) -> Seq<(Seq<char>, StyleV)>
    decreases b - a,
{
    if a < 0 || a >= b {
        Seq::empty()
    } else {
        let e = style_end(row, style_of(row[a]), a, b);
        if a < e <= b {
            seq![(glyphs(row, a, e), style_of(row[a]))] + styled_runs(row, e, b)
        } else {
            Seq::empty()
        }
    }
}

/// The pieces of a row from a column on: each double-width glyph, and each maximal run
/// of single-width cells up to its last ink.
pub open spec fn row_pieces(row: Seq<CellV>, col: int) -> Seq<PieceV>
    decreases row.len() - col,
{
    if col < 0 || col >= row.len() {
        Seq::empty()
    } else if row[col].spacer {
        row_pieces(row, col + 1)
    } else if row[col].wide {
        (if row[col].ch != ' ' {
            seq![PieceV { col, runs: seq![(seq![row[col].ch], style_of(row[col]))] }]
        } else {
            Seq::empty()
        }) + row_pieces(row, col + 1)
    } else {
        let end = narrow_end(row, col);
        if col < end <= row.len() {
            let ink = ink_end(row, col, end);
            (if ink > col {
                seq![PieceV { col, runs: styled_runs(row, col, ink) }]
            } else {
                Seq::empty()
            }) + row_pieces(row, end)
        } else {
            Seq::empty()
        }
    }
}

fn same_style(a: &CellVis, b: &CellVis) -> (r: bool)
    ensures
        r == (style_of(a@) == style_of(b@)),
{
    let r = same_color(a.fg, b.fg) && a.bold == b.bold && a.italic == b.italic;
    proof {
        if r {
            assert(style_of(a@) =~= style_of(b@));
        }
    }
    r
}

fn runs_between(row: &Vec<CellVis>, a: usize, b: usize) -> (r: Vec<(String, TextStyle)>)
    requires
        a <= b <= row@.len(),
    ensures
        runs_v(r@) == styled_runs(cells_v(row@), a as int, b as int),
{
    let ghost rv = cells_v(row@);
    let mut out: Vec<(String, TextStyle)> = Vec::new();
    let mut i: usize = a;
    assert(runs_v(out@) + styled_runs(rv, a as int, b as int) =~= styled_runs(rv, a as int, b as int));
    while i < b
        invariant
            a <= i <= b <= row@.len(),
            rv == cells_v(row@),
            runs_v(out@) + styled_runs(rv, i as int, b as int) == styled_runs(rv, a as int, b as int),
        decreases b - i,
    {
        let head = row[i];
        assert(rv[i as int] == head@);
        let ghost style = style_of(head@);
        let mut e: usize = i + 1;
        let mut text = String::new();
        text.push(head.ch);
        assert(text@ =~= glyphs(rv, i as int, e as int));
        assert(style_end(rv, style, i as int, b as int) == style_end(rv, style, e as int, b as int));
        while e < b && same_style(&row[e], &head)
            invariant
                i < e <= b <= row@.len(),
                rv == cells_v(row@),
                style == style_of(head@),
                text@ == glyphs(rv, i as int, e as int),
                style_end(rv, style, i as int, b as int) == style_end(rv, style, e as int, b as int),
            decreases b - e,
        {
            assert(rv[e as int] == row@[e as int]@);
            text.push(row[e].ch);
            e = e + 1;
            assert(text@ =~= glyphs(rv, i as int, e as int));
        }
        assert(e < b ==> rv[e as int] == row@[e as int]@);
        assert(style_end(rv, style, i as int, b as int) == e);
        let ghost before = runs_v(out@);
        let s = TextStyle { fg: head.fg, bold: head.bold, italic: head.italic };
        let ghost t = text@;
        out.push((text, s));
        assert(s@ =~= style);
        assert(runs_v(out@) =~= before.push((t, style)));
        assert(runs_v(out@) + styled_runs(rv, e as int, b as int) =~= before + styled_runs(rv, i as int, b as int));
        i = e;
    }
    assert(runs_v(out@) + styled_runs(rv, b as int, b as int) =~= runs_v(out@));
    out
}

/// Cut a row of cells into the pieces of text that it is drawn as.
pub fn cut_row(row: &Vec<CellVis>) -> (r: Vec<Piece>)
    ensures
        pieces_v(r@) == row_pieces(cells_v(row@), 0),
{
    let ghost rv = cells_v(row@);
    let n: usize = row.len();
    let mut out: Vec<Piece> = Vec::new();
    let mut col: usize = 0;
    assert(pieces_v(out@) + row_pieces(rv, 0) =~= row_pieces(rv, 0));
    while col < n
        invariant
            col <= n == row@.len(),
            rv == cells_v(row@),
            pieces_v(out@) + row_pieces(rv, col as int) == row_pieces(rv, 0),
        decreases n - col,
    {
        let cv = row[col];
        assert(rv[col as int] == cv@);
        let ghost before = pieces_v(out@);
        let ghost rest = row_pieces(rv, col as int);
        if cv.spacer {
            col = col + 1;
        } else if cv.wide {
            // A double-width glyph: its own piece, anchored at its column.
            if cv.ch != ' ' {
                let mut text = String::new();
                text.push(cv.ch);
                let s = TextStyle { fg: cv.fg, bold: cv.bold, italic: cv.italic };
                let mut runs: Vec<(String, TextStyle)> = Vec::new();
                assert(text@ =~= seq![cv.ch]);
                let ghost t = text@;
                runs.push((text, s));
                assert(s@ =~= style_of(cv@));
                assert(runs_v(runs@) =~= seq![(t, style_of(cv@))]);
                let p = Piece { col, runs };
                assert(p@ =~= PieceV { col: col as int, runs: seq![(seq![cv.ch], style_of(cv@))] });
                let ghost pv = p@;
                out.push(p);
                assert(pieces_v(out@) =~= before.push(pv));
            }
            col = col + 1;
            assert(pieces_v(out@) + row_pieces(rv, col as int) =~= before + rest);
        } else {
            // A maximal run of single-width cells, anchored at its start.
            let start: usize = col;
            let mut end: usize = col + 1;
            assert(narrow_end(rv, start as int) == narrow_end(rv, end as int));
            while end < n && !row[end].spacer && !row[end].wide
                invariant
                    start < end <= n == row@.len(),
                    rv == cells_v(row@),
                    narrow_end(rv, start as int) == narrow_end(rv, end as int),
                decreases n - end,
            {
                assert(rv[end as int] == row@[end as int]@);
                end = end + 1;
            }
            assert(end < n ==> rv[end as int] == row@[end as int]@);
            assert(narrow_end(rv, start as int) == end);
            // Trim trailing blanks (no ink) to keep the atlas small.
            let mut ink: usize = end;
            while ink > start && row[ink - 1].ch == ' '
                invariant
                    start <= ink <= end <= n == row@.len(),
                    rv == cells_v(row@),
                    ink_end(rv, start as int, end as int) == ink_end(rv, start as int, ink as int),
                decreases ink,
            {
                assert(rv[ink - 1] == row@[ink - 1]@);
                ink = ink - 1;
            }
            assert(ink > start ==> rv[ink - 1] == row@[ink - 1]@);
            assert(ink_end(rv, start as int, end as int) == ink);
            if ink > start {
                let p = Piece { col: start, runs: runs_between(row, start, ink) };
                assert(p@ =~= PieceV { col: start as int, runs: styled_runs(rv, start as int, ink as int) });
                let ghost pv = p@;
                out.push(p);
                assert(pieces_v(out@) =~= before.push(pv));
            }
            col = end;
            assert(pieces_v(out@) + row_pieces(rv, col as int) =~= before + rest);
        }
    }
    assert(pieces_v(out@) + row_pieces(rv, n as int) =~= pieces_v(out@));
    out
}

// ---------------------------------------------------------------------------
// The composition at the cursor
// ---------------------------------------------------------------------------

/// The columns that a character takes, if it is no control character.
pub uninterp spec fn columns(c: char) -> Option<usize>;

/// `UnicodeWidthChar::width`: the columns that a character takes, by the rules of the
/// crate's documentation, which give at most three.
#[verifier::external_body]
fn width_of(c: char) -> (r: Option<usize>)
    ensures
        r == columns(c),
        r matches Some(w) ==> w <= 3,
{
    UnicodeWidthChar::width(c)
}

/// The columns that the characters of a text take.
pub open spec fn widths_of(s: Seq<char>) -> Seq<usize> {
    Seq::new(
        s.len(),
        |i: int|
            match columns(s[i]) {
                Some(w) => w,
                None => 0,
            },
    )
}

/// The columns that the characters of a text take, a control character none.
pub fn widths(s: &str) -> (r: Vec<usize>)
    ensures
        r@ == widths_of(s@),
        forall|i: int| 0 <= i < r@.len() ==> #[trigger] r@[i] <= 3,
{
    let v = chars(s);
    let n: usize = v.len();
    let mut out: Vec<usize> = Vec::new();
    let mut i: usize = 0;
    while i < n
        invariant
            i <= n == v@.len(),
            out@ == widths_of(v@).take(i as int),
            forall|k: int| 0 <= k < out@.len() ==> #[trigger] out@[k] <= 3,
        decreases n - i,
    {
        let w: usize = match width_of(v[i]) {
            Some(w) => w,
            None => 0,
        };
        out.push(w);
        i = i + 1;
        assert(out@ =~= widths_of(v@).take(i as int));
    }
    assert(widths_of(v@).take(n as int) =~= widths_of(v@));
    out
}

/// A stretch of the composition on one row: the row, the first column, the text by its
/// first and last character, and the columns it takes.
#[derive(Clone, Copy, PartialEq, Eq, Structural, Debug)]
pub struct Segment {
    pub line: usize,
    pub col: usize,
    pub from: usize,
    pub to: usize,
    pub width: usize,
}

/// The composition broken into rows from character `i` on, the current row having
/// started at character `from` and column `start` and reached column `col`; and the
/// row and the column behind it. It wraps to the next row at the right edge so it
/// never runs off the side.
pub open spec fn broken(ws: Seq<usize>, cols: int, i: int, line: int, from: int, start: int, col: int) -> (
    Seq<(int, int, int, int, int)>,
    (int, int),
)
    decreases ws.len() - i,
{
    if i < 0 || i >= ws.len() {
        (seq![(line, start, from, i, col - start)], (line, col))
    } else {
        let w = ws[i] as int;
        let need = if w > 1 { w } else { 1 };
        if col + need > cols && col > 0 {
            let (rest, end) = broken(ws, cols, i + 1, line + 1, i, 0, w);
            (seq![(line, start, from, i, col - start)] + rest, end)
        } else {
            broken(ws, cols, i + 1, line, from, start, col + w)
        }
    }
}

/// Segments as numbers.
pub open spec fn segments_v(v: Seq<Segment>) -> Seq<(int, int, int, int, int)> {
    Seq::new(
        v.len(),
        |i: int| (v[i].line as int, v[i].col as int, v[i].from as int, v[i].to as int, v[i].width as int),
    )
}

/// Where the caret stands behind the composition: wrapped to the next row if it lands
/// exactly on the right edge.
pub open spec fn caret_behind(end: (int, int), cols: int) -> (int, int) {
    if end.1 >= cols {
        (end.0 + 1, 0)
    } else {
        end
    }
}

/// Break a composition that starts at a cell of a grid into per-row segments by the
/// columns that its characters take, and say where the caret behind it stands.
pub fn wrap_preedit(ws: &Vec<usize>, line: usize, col: usize, cols: usize) -> (r: (Vec<Segment>, (usize, usize)))
    requires
        col < cols,
        cols <= usize::MAX - 3,
        line + ws@.len() < usize::MAX,
        forall|i: int| 0 <= i < ws@.len() ==> #[trigger] ws@[i] <= 3,
    ensures
        ({
            let b = broken(ws@, cols as int, 0, line as int, 0, col as int, col as int);
            &&& segments_v(r.0@) == b.0
            &&& (r.1.0 as int, r.1.1 as int) == caret_behind(b.1, cols as int)
        }),
{
    let ghost want = broken(ws@, cols as int, 0, line as int, 0, col as int, col as int);
    let n: usize = ws.len();
    let mut out: Vec<Segment> = Vec::new();
    let mut at: usize = line;
    let mut from: usize = 0;
    let mut start: usize = col;
    let mut c: usize = col;
    let mut i: usize = 0;
    assert(segments_v(out@) + want.0 =~= want.0);
    while i < n
        invariant
            i <= n == ws@.len(),
            from <= i,
            start <= c,
            c <= cols || c <= 3,
            cols <= usize::MAX - 3,
            line <= at <= line + i,
            line + n < usize::MAX,
            forall|k: int| 0 <= k < ws@.len() ==> #[trigger] ws@[k] <= 3,
            ({
                let rest = broken(ws@, cols as int, i as int, at as int, from as int, start as int, c as int);
                segments_v(out@) + rest.0 == want.0 && rest.1 == want.1
            }),
        decreases n - i,
    {
        let w: usize = ws[i];
        let need: usize = if w > 1 {
            w
        } else {
            1
        };
        let ghost before = segments_v(out@);
        let ghost rest = broken(ws@, cols as int, i as int, at as int, from as int, start as int, c as int);
        if c > 0 && (c >= cols || need > cols - c) {
            out.push(Segment { line: at, col: start, from, to: i, width: c - start });
            assert(segments_v(out@) =~= before.push((at as int, start as int, from as int, i as int, c - start)));
            at = at + 1;
            from = i;
            start = 0;
            c = w;
            i = i + 1;
            assert(segments_v(out@) + broken(
                ws@,
                cols as int,
                i as int,
                at as int,
                from as int,
                start as int,
                c as int,
            ).0 =~= before + rest.0);
        } else {
            c = c + w;
            i = i + 1;
        }
    }
    let ghost before = segments_v(out@);
    out.push(Segment { line: at, col: start, from, to: n, width: c - start });
    assert(segments_v(out@) =~= before.push((at as int, start as int, from as int, n as int, c - start)));
    assert(segments_v(out@) =~= want.0);
    if c >= cols {
        (out, (at + 1, 0))
    } else {
        (out, (at, c))
    }
}

/// Every segment of a composition fits its row, unless a single character is wider
/// than the grid; the segments follow each other and cover the whole text.
pub proof fn law_segments_cover_the_text(ws: Seq<usize>, cols: int, line: int, col: int)
    requires
        0 <= col < cols,
        cols >= 3,
        forall|i: int| 0 <= i < ws.len() ==> #[trigger] ws[i] <= 3,
    ensures
        ({
            let s = broken(ws, cols, 0, line, 0, col, col).0;
            &&& s.len() > 0
            &&& s[0].2 == 0
            &&& s.last().3 == ws.len()
            &&& forall|k: int| 0 <= k < s.len() ==> (#[trigger] s[k]).1 + s[k].4 <= cols
            &&& forall|k: int| 0 <= k < s.len() - 1 ==> (#[trigger] s[k]).3 == s[k + 1].2 && s[k + 1].0 == s[k].0 + 1
        }),
{
    lemma_broken(ws, cols, 0, line, 0, col, col);
}

proof fn lemma_broken(ws: Seq<usize>, cols: int, i: int, line: int, from: int, start: int, col: int)
    requires
        0 <= from <= i <= ws.len(),
        0 <= start <= col <= cols,
        cols >= 3,
        forall|k: int| 0 <= k < ws.len() ==> #[trigger] ws[k] <= 3,
    ensures
        ({
            let s = broken(ws, cols, i, line, from, start, col).0;
            &&& s.len() > 0
            &&& s[0].0 == line
            &&& s[0].2 == from
            &&& s.last().3 == ws.len()
            &&& forall|k: int| 0 <= k < s.len() ==> (#[trigger] s[k]).1 + s[k].4 <= cols
            &&& forall|k: int| 0 <= k < s.len() - 1 ==> (#[trigger] s[k]).3 == s[k + 1].2 && s[k + 1].0 == s[k].0 + 1
        }),
    decreases ws.len() - i,
{
    if i < ws.len() {
        let w = ws[i] as int;
        let need = if w > 1 { w } else { 1 };
        if col + need > cols && col > 0 {
            lemma_broken(ws, cols, i + 1, line + 1, i, 0, w);
            let rest = broken(ws, cols, i + 1, line + 1, i, 0, w).0;
            let s = broken(ws, cols, i, line, from, start, col).0;
            assert(s =~= seq![(line, start, from, i, col - start)] + rest);
            assert(s.last() == rest.last());
            assert forall|k: int| 0 <= k < s.len() implies (#[trigger] s[k]).1 + s[k].4 <= cols by {
                if k > 0 {
                    assert(s[k] == rest[k - 1]);
                }
            }
            assert forall|k: int| 0 <= k < s.len() - 1 implies (#[trigger] s[k]).3 == s[k + 1].2 && s[k + 1].0 == s[k].0
                + 1 by {
                assert(s[k + 1] == rest[k]);
                if k > 0 {
                    assert(s[k] == rest[k - 1]);
                }
            }
        } else {
            lemma_broken(ws, cols, i + 1, line, from, start, col + w);
        }
    }
}

/// The glyph runs of the characters from `i` up to `end`, the first at a column: each
/// as its column and its first and last character. Narrow characters are shaped
/// together; a wide (CJK) glyph stands alone at its column, for its advance differs
/// from its cells.
pub open spec fn glyph_runs(ws: Seq<usize>, i: int, end: int, col: int) -> Seq<(int, int, int)>
    decreases end - i,
{
    if i < 0 || i >= end {
        Seq::empty()
    } else if ws[i] >= 2 {
        seq![(col, i, i + 1)] + glyph_runs(ws, i + 1, end, col + ws[i])
    } else {
        let (e, c) = narrow_run(ws, i, end, col);
        if i < e <= end {
            seq![(col, i, e)] + glyph_runs(ws, e, end, c)
        } else {
            Seq::empty()
        }
    }
}

/// Where the narrow characters from `i` on end, and the column there.
pub open spec fn narrow_run(ws: Seq<usize>, i: int, end: int, col: int) -> (int, int)
    decreases end - i,
{
    if 0 <= i < end && ws[i] < 2 {
        narrow_run(ws, i + 1, end, col + ws[i])
    } else {
        (i, col)
    }
}

/// Glyph runs as numbers.
pub open spec fn glyph_runs_v(v: Seq<(usize, usize, usize)>) -> Seq<(int, int, int)> {
    Seq::new(v.len(), |i: int| (v[i].0 as int, v[i].1 as int, v[i].2 as int))
}

/// Cut a segment of a composition into glyph runs: the column of each, and its first
/// and last character.
pub fn cut_segment(ws: &Vec<usize>, s: &Segment) -> (r: Vec<(usize, usize, usize)>)
    requires
        s.from <= s.to <= ws@.len(),
        s.col + 3 * ws@.len() <= usize::MAX,
        forall|i: int| 0 <= i < ws@.len() ==> #[trigger] ws@[i] <= 3,
    ensures
        glyph_runs_v(r@) == glyph_runs(ws@, s.from as int, s.to as int, s.col as int),
{
    let ghost want = glyph_runs(ws@, s.from as int, s.to as int, s.col as int);
    let mut out: Vec<(usize, usize, usize)> = Vec::new();
    let mut c: usize = s.col;
    let mut i: usize = s.from;
    assert(glyph_runs_v(out@) + want =~= want);
    while i < s.to
        invariant
            s.from <= i <= s.to <= ws@.len(),
            c <= s.col + 3 * (i - s.from),
            s.col + 3 * ws@.len() <= usize::MAX,
            forall|k: int| 0 <= k < ws@.len() ==> #[trigger] ws@[k] <= 3,
            glyph_runs_v(out@) + glyph_runs(ws@, i as int, s.to as int, c as int) == want,
        decreases s.to - i,
    {
        let ghost before = glyph_runs_v(out@);
        let ghost rest = glyph_runs(ws@, i as int, s.to as int, c as int);
        if ws[i] >= 2 {
            out.push((c, i, i + 1));
            assert(glyph_runs_v(out@) =~= before.push((c as int, i as int, i + 1)));
            c = c + ws[i];
            i = i + 1;
            assert(glyph_runs_v(out@) + glyph_runs(ws@, i as int, s.to as int, c as int) =~= before + rest);
        } else {
            let first: usize = i;
            let col: usize = c;
            while i < s.to && ws[i] < 2
                invariant
                    first <= i <= s.to <= ws@.len(),
                    s.from <= first,
                    col <= s.col + 3 * (first - s.from),
                    c <= s.col + 3 * (i - s.from),
                    s.col + 3 * ws@.len() <= usize::MAX,
                    forall|k: int| 0 <= k < ws@.len() ==> #[trigger] ws@[k] <= 3,
                    narrow_run(ws@, first as int, s.to as int, col as int) == narrow_run(
                        ws@,
                        i as int,
                        s.to as int,
                        c as int,
                    ),
                    i == first ==> first < s.to && ws@[first as int] < 2,
                decreases s.to - i,
            {
                c = c + ws[i];
                i = i + 1;
            }
            assert(narrow_run(ws@, first as int, s.to as int, col as int) == (i as int, c as int));
            out.push((col, first, i));
            assert(glyph_runs_v(out@) =~= before.push((col as int, first as int, i as int)));
            assert(glyph_runs_v(out@) + glyph_runs(ws@, i as int, s.to as int, c as int) =~= before + rest);
        }
    }
    assert(glyph_runs_v(out@) + glyph_runs(ws@, s.to as int, s.to as int, c as int) =~= glyph_runs_v(out@));
    out
}

/// The text of a segment of a composition.
pub fn segment_text(preedit: &str, s: &Segment) -> (r: String)
    requires
        s.from <= s.to <= preedit@.len(),
    ensures
        r@ == preedit@.subrange(s.from as int, s.to as int),
{
    let v = chars(preedit);
    from_range(&v, s.from, s.to)
}

/// A drawn cell is bold exactly when the cell is bold, italic exactly when it is italic,
/// and as wide as it is. It shows the cell's glyph unless that is hidden.
pub proof fn law_cell_keeps_its_style(cell: Cell, theme: Theme)
    ensures
        cell_shown(cell, theme).bold == cell.bold,
        cell_shown(cell, theme).italic == cell.italic,
        cell_shown(cell, theme).wide == cell.wide,
        cell_shown(cell, theme).spacer == cell.spacer,
        !cell.hidden ==> cell_shown(cell, theme).ch == cell.ch,
        cell.hidden ==> cell_shown(cell, theme).ch == ' ',
{
}

/// A cell is drawn in its own colors, exchanged if it is inverse; a selected one keeps
/// its text color and has the highlight behind it. Only a background other than the
/// default is filled.
pub proof fn law_cell_keeps_its_colors(cell: Cell, theme: Theme)
    ensures
        ({
            let c = cell_shown(cell, theme);
            &&& !cell.inverse && !cell.dim ==> c.fg == resolved(cell.fg, theme)
            &&& cell.inverse && !cell.dim ==> c.fg == resolved(cell.bg, theme)
            &&& !cell.inverse && !cell.selected ==> c.bg == resolved(cell.bg, theme)
            &&& cell.inverse && !cell.selected ==> c.bg == resolved(cell.fg, theme)
            &&& cell.selected ==> c.bg == theme.selection@
            &&& c.fg == cell_shown(Cell { selected: !cell.selected, ..cell }, theme).fg
            &&& c.bg == cell_shown(Cell { dim: !cell.dim, ..cell }, theme).bg
            &&& c.bg_fill <==> c.bg != theme.bg@
        }),
{
}

/// Inverting a cell exchanges its two colors: the text takes the background's and the
/// background the text's.
pub proof fn law_inverse_exchanges_colors(cell: Cell, theme: Theme)
    ensures
        cell_shown(Cell { inverse: !cell.inverse, ..cell }, theme) == cell_shown(
            Cell { fg: cell.bg, bg: cell.fg, ..cell },
            theme,
        ),
{
}

/// Dim text has three quarters of its brightness, short of rounding.
pub proof fn law_dim_text_fades(cell: Cell, theme: Theme, i: int)
    requires
        cell.dim,
        0 <= i < cell_shown(cell, theme).fg.len(),
    ensures
        ({
            let full = cell_shown(Cell { dim: false, ..cell }, theme).fg;
            let c = cell_shown(cell, theme).fg;
            &&& c.len() == full.len()
            &&& 3 * full[i] - 8 < 4 * c[i] <= 3 * full[i]
        }),
{
}

/// What a view of a drawn cell says of it is what the cell holds.
pub proof fn law_drawn_cell_is_what_it_holds(c: CellVis)
    ensures
        c@.ch == c.ch && c@.fg == c.fg@ && c@.bg == c.bg@,
        c@.bold == c.bold && c@.italic == c.italic,
        c@.wide == c.wide && c@.spacer == c.spacer && c@.bg_fill == c.bg_fill,
{
}

/// The glyphs of stretches of text, each with its style.
pub open spec fn inked(runs: Seq<(Seq<char>, StyleV)>) -> Seq<(char, StyleV)>
    decreases runs.len(),
{
    if runs.len() == 0 {
        Seq::empty()
    } else {
        inked(runs.drop_last()) + Seq::new(runs.last().0.len(), |i: int| (runs.last().0[i], runs.last().1))
    }
}

proof fn lemma_inked_front(r: (Seq<char>, StyleV), rest: Seq<(Seq<char>, StyleV)>)
    ensures
        inked(seq![r] + rest) == Seq::new(r.0.len(), |i: int| (r.0[i], r.1)) + inked(rest),
    decreases rest.len(),
{
    let all = seq![r] + rest;
    let first = Seq::new(r.0.len(), |i: int| (r.0[i], r.1));
    if rest.len() == 0 {
        reveal_with_fuel(inked, 2);
        assert(all.drop_last() =~= Seq::empty());
        assert(all.last() == r);
        assert(inked(all) =~= first + inked(rest));
    } else {
        lemma_inked_front(r, rest.drop_last());
        assert(all.drop_last() =~= seq![r] + rest.drop_last());
        assert(all.last() == rest.last());
        assert(inked(all) =~= first + inked(rest));
    }
}

proof fn lemma_style_end(row: Seq<CellV>, style: StyleV, i: int, b: int)
    requires
        0 <= i <= b,
    ensures
        i <= style_end(row, style, i, b) <= b,
        forall|k: int| i <= k < style_end(row, style, i, b) ==> style_of(#[trigger] row[k]) == style,
    decreases b - i,
{
    if i < b && style_of(row[i]) == style {
        lemma_style_end(row, style, i + 1, b);
    }
}

proof fn lemma_styled_runs(row: Seq<CellV>, a: int, b: int)
    requires
        0 <= a <= b <= row.len(),
    ensures
        inked(styled_runs(row, a, b)) == Seq::new((b - a) as nat, |i: int| (row[a + i].ch, style_of(row[a + i]))),
    decreases b - a,
{
    if a < b {
        let style = style_of(row[a]);
        let e = style_end(row, style, a, b);
        lemma_style_end(row, style, a, b);
        assert(style_end(row, style, a, b) == style_end(row, style, a + 1, b));
        lemma_style_end(row, style, a + 1, b);
        lemma_styled_runs(row, e, b);
        lemma_inked_front((glyphs(row, a, e), style), styled_runs(row, e, b));
    }
    assert(inked(styled_runs(row, a, b)) =~= Seq::new(
        (b - a) as nat,
        |i: int| (row[a + i].ch, style_of(row[a + i])),
    ));
}

proof fn lemma_narrow_end(row: Seq<CellV>, i: int)
    requires
        0 <= i <= row.len(),
    ensures
        i <= narrow_end(row, i) <= row.len(),
        forall|k: int| i <= k < narrow_end(row, i) ==> !(#[trigger] row[k]).spacer && !row[k].wide,
    decreases row.len() - i,
{
    if i < row.len() && !row[i].spacer && !row[i].wide {
        lemma_narrow_end(row, i + 1);
    }
}

proof fn lemma_ink_end(row: Seq<CellV>, a: int, b: int)
    requires
        0 <= a <= b <= row.len(),
    ensures
        a <= ink_end(row, a, b) <= b,
        forall|k: int| ink_end(row, a, b) <= k < b ==> (#[trigger] row[k]).ch == ' ',
    decreases b - a,
{
    if a < b && row[b - 1].ch == ' ' {
        lemma_ink_end(row, a, b - 1);
    }
}

/// Whether a piece draws a column, and does so with the cell's glyph and the cell's
/// color, weight and slant.
pub open spec fn draws(p: PieceV, row: Seq<CellV>, c: int) -> bool {
    let ink = inked(p.runs);
    &&& 0 <= c - p.col < ink.len()
    &&& ink[c - p.col].0 == row[c].ch
    &&& ink[c - p.col].1.fg == row[c].fg
    &&& ink[c - p.col].1.bold == row[c].bold
    &&& ink[c - p.col].1.italic == row[c].italic
}

/// Every cell that has ink is drawn by a piece, at its own column, with its glyph, its
/// color, its weight and its slant.
pub proof fn law_row_is_drawn_where_it_stands(row: Seq<CellV>, c: int)
    requires
        0 <= c < row.len(),
        !row[c].spacer,
        row[c].ch != ' ',
    ensures
        exists|k: int|
            0 <= k < row_pieces(row, 0).len() && draws(#[trigger] row_pieces(row, 0)[k], row, c),
{
    lemma_row_pieces(row, 0, c);
}

proof fn lemma_row_pieces(row: Seq<CellV>, col: int, c: int)
    requires
        0 <= col <= c < row.len(),
        !row[c].spacer,
        row[c].ch != ' ',
    ensures
        exists|k: int|
            0 <= k < row_pieces(row, col).len() && draws(#[trigger] row_pieces(row, col)[k], row, c),
    decreases row.len() - col,
{
    let all = row_pieces(row, col);
    if row[col].spacer {
        lemma_row_pieces(row, col + 1, c);
    } else if row[col].wide {
        if c == col {
            let p = PieceV { col, runs: seq![(seq![row[col].ch], style_of(row[col]))] };
            assert(all[0] == p);
            lemma_inked_front((seq![row[col].ch], style_of(row[col])), Seq::empty());
            assert(seq![(seq![row[col].ch], style_of(row[col]))] + Seq::empty() =~= p.runs);
            assert(draws(all[0], row, c));
        } else {
            lemma_row_pieces(row, col + 1, c);
            let rest = row_pieces(row, col + 1);
            let k = choose|k: int| 0 <= k < rest.len() && draws(#[trigger] rest[k], row, c);
            assert(all[k + all.len() - rest.len()] == rest[k]);
        }
    } else {
        let end = narrow_end(row, col);
        lemma_narrow_end(row, col);
        assert(narrow_end(row, col) == narrow_end(row, col + 1));
        lemma_narrow_end(row, col + 1);
        let ink = ink_end(row, col, end);
        lemma_ink_end(row, col, end);
        if c < end {
            assert(c < ink);
            let p = PieceV { col, runs: styled_runs(row, col, ink) };
            assert(all[0] == p);
            lemma_styled_runs(row, col, ink);
            assert(draws(all[0], row, c));
        } else {
            lemma_row_pieces(row, end, c);
            let rest = row_pieces(row, end);
            let k = choose|k: int| 0 <= k < rest.len() && draws(#[trigger] rest[k], row, c);
            assert(all[k + all.len() - rest.len()] == rest[k]);
        }
    }
}

/// A piece draws nothing but cells of the row, each where it stands, and never the
/// trailing half of a wide glyph.
pub proof fn law_pieces_draw_only_cells(row: Seq<CellV>, k: int, i: int)
    requires
        0 <= k < row_pieces(row, 0).len(),
        0 <= i < inked(row_pieces(row, 0)[k].runs).len(),
    ensures
        ({
            let p = row_pieces(row, 0)[k];
            &&& 0 <= p.col + i < row.len()
            &&& !row[p.col + i].spacer
            &&& draws(p, row, p.col + i)
        }),
{
    lemma_pieces_draw(row, 0, k, i);
}

proof fn lemma_pieces_draw(row: Seq<CellV>, col: int, k: int, i: int)
    requires
        0 <= col <= row.len(),
        0 <= k < row_pieces(row, col).len(),
        0 <= i < inked(row_pieces(row, col)[k].runs).len(),
    ensures
        ({
            let p = row_pieces(row, col)[k];
            &&& 0 <= p.col + i < row.len()
            &&& !row[p.col + i].spacer
            &&& draws(p, row, p.col + i)
        }),
    decreases row.len() - col,
{
    let all = row_pieces(row, col);
    if col == row.len() {
    } else if row[col].spacer {
        lemma_pieces_draw(row, col + 1, k, i);
    } else if row[col].wide {
        let rest = row_pieces(row, col + 1);
        if k < all.len() - rest.len() {
            let p = PieceV { col, runs: seq![(seq![row[col].ch], style_of(row[col]))] };
            assert(all[0] == p);
            lemma_inked_front((seq![row[col].ch], style_of(row[col])), Seq::empty());
            assert(seq![(seq![row[col].ch], style_of(row[col]))] + Seq::empty() =~= p.runs);
        } else {
            assert(all[k] == rest[k - (all.len() - rest.len())]);
            lemma_pieces_draw(row, col + 1, k - (all.len() - rest.len()), i);
        }
    } else {
        let end = narrow_end(row, col);
        lemma_narrow_end(row, col);
        assert(narrow_end(row, col) == narrow_end(row, col + 1));
        lemma_narrow_end(row, col + 1);
        let ink = ink_end(row, col, end);
        lemma_ink_end(row, col, end);
        let rest = row_pieces(row, end);
        if k < all.len() - rest.len() {
            assert(all[0] == PieceV { col, runs: styled_runs(row, col, ink) });
            lemma_styled_runs(row, col, ink);
        } else {
            assert(all[k] == rest[k - (all.len() - rest.len())]);
            lemma_pieces_draw(row, end, k - (all.len() - rest.len()), i);
        }
    }
}

/// The columns that characters take together.
pub open spec fn columns_of(ws: Seq<usize>, from: int, to: int) -> int
    decreases to - from,
{
    if from >= to {
        0
    } else {
        columns_of(ws, from, to - 1) + ws[to - 1]
    }
}

/// A composition starts at the cursor and goes on at the left edge of each next row; a
/// stretch takes the columns of its characters, and a row is left only where the next
/// character does not fit. The caret stands right behind the last stretch, on the next
/// row if that ends at the edge.
pub proof fn law_composition_wraps_at_the_edge(ws: Seq<usize>, cols: int, line: int, col: int, k: int)
    requires
        0 <= col < cols,
        cols >= 3,
        forall|i: int| 0 <= i < ws.len() ==> #[trigger] ws[i] <= 3,
        0 <= k < broken(ws, cols, 0, line, 0, col, col).0.len(),
    ensures
        ({
            let (s, end) = broken(ws, cols, 0, line, 0, col, col);
            let caret = caret_behind(end, cols);
            let last = s.last();
            &&& s[0].0 == line && s[0].1 == col
            &&& s[k].0 == line + k
            &&& k > 0 ==> s[k].1 == 0
            &&& s[k].4 == columns_of(ws, s[k].2, s[k].3)
            &&& k < s.len() - 1 ==> s[k].1 + s[k].4 + (if ws[s[k].3] > 1 { ws[s[k].3] as int } else { 1 }) > cols
            &&& if last.1 + last.4 >= cols {
                caret == (last.0 + 1, 0int)
            } else {
                caret == (last.0, last.1 + last.4)
            }
        }),
{
    lemma_stretches(ws, cols, 0, line, 0, col, col, k);
    lemma_stretches(ws, cols, 0, line, 0, col, col, 0);
}

proof fn lemma_stretches(ws: Seq<usize>, cols: int, i: int, line: int, from: int, start: int, col: int, k: int)
    requires
        0 <= from <= i <= ws.len(),
        start >= 0,
        col == start + columns_of(ws, from, i),
        forall|i: int| 0 <= i < ws.len() ==> #[trigger] ws[i] <= 3,
        cols >= 3,
        0 <= k < broken(ws, cols, i, line, from, start, col).0.len(),
    ensures
        ({
            let (s, end) = broken(ws, cols, i, line, from, start, col);
            &&& s[0].0 == line && s[0].1 == start && s[0].2 == from
            &&& s[k].0 == line + k
            &&& k > 0 ==> s[k].1 == 0
            &&& s[k].4 == columns_of(ws, s[k].2, s[k].3)
            &&& i <= s[k].3 <= ws.len()
            &&& k < s.len() - 1 ==> s[k].3 < ws.len()
            &&& k < s.len() - 1 ==> s[k].1 + s[k].4 + (if ws[s[k].3] > 1 { ws[s[k].3] as int } else { 1 }) > cols
            &&& end == (s.last().0, s.last().1 + s.last().4)
        }),
    decreases ws.len() - i,
{
    if i < ws.len() {
        let w = ws[i] as int;
        let need = if w > 1 { w } else { 1 };
        if col + need > cols && col > 0 {
            let rest = broken(ws, cols, i + 1, line + 1, i, 0, w).0;
            let all = broken(ws, cols, i, line, from, start, col).0;
            assert(columns_of(ws, i, i) == 0);
            assert(columns_of(ws, i, i + 1) == w);
            assert(rest.len() > 0) by {
                lemma_broken_len(ws, cols, i + 1, line + 1, i, 0, w);
            }
            assert(all =~= seq![(line, start, from, i, col - start)] + rest);
            if k > 0 {
                lemma_stretches(ws, cols, i + 1, line + 1, i, 0, w, k - 1);
                lemma_stretches(ws, cols, i + 1, line + 1, i, 0, w, 0);
            } else {
                lemma_stretches(ws, cols, i + 1, line + 1, i, 0, w, 0);
            }
            assert(all.last() == rest.last());
        } else {
            lemma_stretches(ws, cols, i + 1, line, from, start, col + w, k);
        }
    }
}

proof fn lemma_broken_len(ws: Seq<usize>, cols: int, i: int, line: int, from: int, start: int, col: int)
    ensures
        broken(ws, cols, i, line, from, start, col).0.len() > 0,
    decreases ws.len() - i,
{
    if 0 <= i < ws.len() {
        let w = ws[i] as int;
        lemma_broken_len(ws, cols, i + 1, line + 1, i, 0, w);
        lemma_broken_len(ws, cols, i + 1, line, from, start, col + w);
    }
}

/// The glyph runs of a stretch follow each other without a gap, each at the column that
/// the characters before it leave; a wide glyph stands alone, and no other run holds one.
pub proof fn law_glyph_runs_stand_at_their_columns(ws: Seq<usize>, from: int, end: int, col: int, k: int)
    requires
        0 <= from <= end <= ws.len(),
        0 <= k < glyph_runs(ws, from, end, col).len(),
    ensures
        ({
            let g = glyph_runs(ws, from, end, col);
            &&& g[0].1 == from && g.last().2 == end
            &&& from <= g[k].1 < g[k].2 <= end
            &&& g[k].0 == col + columns_of(ws, from, g[k].1)
            &&& k < g.len() - 1 ==> g[k + 1].1 == g[k].2
            &&& if ws[g[k].1] >= 2 {
                g[k].2 == g[k].1 + 1
            } else {
                forall|j: int| g[k].1 <= j < g[k].2 ==> #[trigger] ws[j] < 2
            }
        }),
{
    lemma_glyph_runs(ws, from, from, end, col, k);
}

proof fn lemma_columns_split(ws: Seq<usize>, a: int, b: int, c: int)
    requires
        a <= b <= c,
    ensures
        columns_of(ws, a, c) == columns_of(ws, a, b) + columns_of(ws, b, c),
    decreases c - b,
{
    if b < c {
        lemma_columns_split(ws, a, b, c - 1);
    }
}

proof fn lemma_narrow_run(ws: Seq<usize>, i: int, end: int, col: int)
    requires
        0 <= i <= end <= ws.len(),
    ensures
        ({
            let (e, c) = narrow_run(ws, i, end, col);
            &&& i <= e <= end
            &&& c == col + columns_of(ws, i, e)
            &&& forall|j: int| i <= j < e ==> #[trigger] ws[j] < 2
            &&& i < end && ws[i] < 2 ==> i < e
        }),
    decreases end - i,
{
    if i < end && ws[i] < 2 {
        lemma_narrow_run(ws, i + 1, end, col + ws[i]);
        let e = narrow_run(ws, i + 1, end, col + ws[i]).0;
        lemma_columns_split(ws, i, i + 1, e);
        assert(columns_of(ws, i, i) == 0);
        assert(columns_of(ws, i, i + 1) == ws[i]);
    }
}

proof fn lemma_glyph_runs(ws: Seq<usize>, from: int, i: int, end: int, col: int, k: int)
    requires
        0 <= from == i <= end <= ws.len(),
        0 <= k < glyph_runs(ws, i, end, col).len(),
    ensures
        ({
            let g = glyph_runs(ws, i, end, col);
            &&& g[0].1 == i && g.last().2 == end
            &&& i <= g[k].1 < g[k].2 <= end
            &&& g[k].0 == col + columns_of(ws, i, g[k].1)
            &&& k < g.len() - 1 ==> g[k + 1].1 == g[k].2
            &&& if ws[g[k].1] >= 2 {
                g[k].2 == g[k].1 + 1
            } else {
                forall|j: int| g[k].1 <= j < g[k].2 ==> #[trigger] ws[j] < 2
            }
        }),
    decreases end - i,
{
    let g = glyph_runs(ws, i, end, col);
    let (e, c) = if ws[i] >= 2 {
        (i + 1, col + ws[i])
    } else {
        narrow_run(ws, i, end, col)
    };
    assert(columns_of(ws, i, i) == 0);
    assert(columns_of(ws, i, i + 1) == ws[i]);
    lemma_narrow_run(ws, i, end, col);
    let rest = glyph_runs(ws, e, end, c);
    assert(g =~= seq![(col, i, e)] + rest);
    if e < end {
        assert(rest.len() > 0) by {
            lemma_narrow_run(ws, e, end, c);
        }
        lemma_glyph_runs(ws, e, e, end, c, 0);
        assert(g[1] == rest[0]);
        assert(g.last() == rest.last());
    }
    if k > 0 {
        lemma_glyph_runs(ws, e, e, end, c, k - 1);
        lemma_columns_split(ws, i, e, rest[k - 1].1);
        assert(g[k] == rest[k - 1]);
        if k < g.len() - 1 {
            assert(g[k + 1] == rest[k]);
        }
    }
}

} // verus!

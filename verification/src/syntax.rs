//! The colors of code in the agent panel: syntax highlighting of fenced blocks,
//! diffs, and the spans of Markdown text.

use syntect::easy::HighlightLines;
use syntect::highlighting::ThemeSet;
use syntect::parsing::SyntaxSet;
use syntect::util::LinesWithEndings;
use vstd::prelude::*;

use crate::panel::concat;
use crate::text::{chars, from_range, lemma_run, lemma_run_is, not_char, run, starts_with, str_starts_with};

verus! {

/// `syntect`'s syntax definitions, which stay closed.
#[verifier::external_type_specification]
#[verifier::external_body]
pub struct ExSyntaxSet(SyntaxSet);

/// `syntect`'s color themes, which stay closed.
#[verifier::external_type_specification]
#[verifier::external_body]
pub struct ExThemeSet(ThemeSet);

/// A color, as red, green and blue.
pub type Rgb = (u8, u8, u8);

/// Pieces of text with their colors.
pub open spec fn pieces_v(v: Seq<(String, Rgb)>) -> Seq<(Seq<char>, Rgb)> {
    Seq::new(v.len(), |i: int| (v[i].0@, v[i].1))
}

/// The texts of colored pieces.
pub open spec fn piece_texts(v: Seq<(Seq<char>, Rgb)>) -> Seq<Seq<char>> {
    Seq::new(v.len(), |i: int| v[i].0)
}

/// The colored pieces that `syntect` makes of a text, by the language's token and
/// the theme's name, with the definitions and themes it comes with.
pub uninterp spec fn colored(text: Seq<char>, lang: Seq<char>, theme: Seq<char>) -> Option<Seq<(Seq<char>, Rgb)>>;

/// The theme that goes with a background.
pub open spec fn theme_for(dark: bool) -> Seq<char> {
    if dark {
        "base16-ocean.dark"@
    } else {
        "InspiredGitHub"@
    }
}

/// The bundled syntax definitions and themes.
pub struct Syntaxes {
    set: SyntaxSet,
    themes: ThemeSet,
}

/// `SyntaxSet::load_defaults_newlines`: the bundled definitions, for lines that
/// keep their line endings.
#[verifier::external_body]
fn bundled_syntaxes() -> SyntaxSet {
    SyntaxSet::load_defaults_newlines()
}

/// `ThemeSet::load_defaults`: the bundled themes.
#[verifier::external_body]
fn bundled_themes() -> ThemeSet {
    ThemeSet::load_defaults()
}

impl Syntaxes {
    /// Load the bundled definitions and themes.
    pub fn load() -> Self {
        Syntaxes { set: bundled_syntaxes(), themes: bundled_themes() }
    }

    /// Highlights a text line by line with `HighlightLines::highlight_line`, in the
    /// syntax that `find_syntax_by_token` finds. A value of this type always holds the
    /// bundled definitions, so the answer goes by the text, the token and the theme's
    /// name; it is none where there is no such syntax or theme, or the parser gives up.
    /// The pieces of a line make up the line, as `HighlightIterator` documents.
    #[verifier::external_body]
    fn highlight(&self, text: &str, lang: &str, theme: &str) -> (r: Option<Vec<(String, Rgb)>>)
        ensures
            match r {
                Some(v) => colored(text@, lang@, theme@) == Some(pieces_v(v@)) && concat(piece_texts(pieces_v(v@)))
                    == text@,
                None => colored(text@, lang@, theme@) is None,
            },
    {
        let syntax = self.set.find_syntax_by_token(lang)?;
        let mut lines = HighlightLines::new(syntax, self.themes.themes.get(theme)?);
        let mut out = Vec::new();
        for line in LinesWithEndings::from(text) {
            for (style, piece) in lines.highlight_line(line, &self.set).ok()? {
                let c = style.foreground;
                out.push((piece.to_owned(), (c.r, c.g, c.b)));
            }
        }
        Some(out)
    }

    /// Syntax-highlight a code block into colored pieces, or None for an unknown
    /// language (caller falls back to plain monospace). The pieces make up the text.
    pub fn highlight_code(&self, text: &str, lang: &str, dark: bool) -> (r: Option<Vec<(String, Rgb)>>)
        ensures
            match r {
                Some(v) => colored(text@, lang@, theme_for(dark)) == Some(pieces_v(v@)) && concat(
                    piece_texts(pieces_v(v@)),
                ) == text@,
                None => colored(text@, lang@, theme_for(dark)) is None,
            },
    {
        if dark {
            self.highlight(text, lang, "base16-ocean.dark")
        } else {
            self.highlight(text, lang, "InspiredGitHub")
        }
    }
}

/// The color of a diff line: added lines green, removed lines red.
pub open spec fn line_color(line: Seq<char>, text_color: Rgb) -> Rgb {
    if starts_with(line, "+"@) {
        (120u8, 200u8, 120u8)
    } else if starts_with(line, "-"@) {
        (220u8, 120u8, 120u8)
    } else {
        text_color
    }
}

/// The color of a diff line: added lines green, removed lines red.
pub fn diff_color(line: &str, text_color: Rgb) -> (r: Rgb)
    ensures
        r == line_color(line@, text_color),
{
    if str_starts_with(line, "+") {
        (120, 200, 120)
    } else if str_starts_with(line, "-") {
        (220, 120, 120)
    } else {
        text_color
    }
}

/// The lines of a text, each with its line ending; nothing behind the last ending is
/// no line.
pub open spec fn ended_lines(s: Seq<char>) -> Seq<Seq<char>>
    decreases s.len(),
{
    let n = run(s, not_char('\n')) as int;
    if s.len() == 0 {
        Seq::empty()
    } else if n + 1 < s.len() {
        seq![s.take(n + 1)] + ended_lines(s.skip(n + 1))
    } else {
        seq![s]
    }
}

/// A diff's lines, each in its color.
pub open spec fn diff_parts(text: Seq<char>, base: Rgb) -> Seq<(Seq<char>, Rgb)> {
    let ls = ended_lines(text);
    Seq::new(ls.len(), |i: int| (ls[i], line_color(ls[i], base)))
}

/// The colored parts of a block of code: a diff's lines by what they do, a known
/// language's tokens by the theme, and anything else whole in the base color.
pub open spec fn parts_of(
    text: Seq<char>,
    lang: Option<Seq<char>>,
    diff: bool,
    dark: bool,
    base: Rgb,
) -> Seq<(Seq<char>, Rgb)> {
    let known = match lang {
        Some(l) => colored(text, l, theme_for(dark)),
        None => None,
    };
    if diff {
        diff_parts(text, base)
    } else {
        match known {
            Some(parts) => parts,
            None => seq![(text, base)],
        }
    }
}

proof fn lemma_concat_cons(first: Seq<char>, rest: Seq<Seq<char>>)
    ensures
        concat(seq![first] + rest) == first + concat(rest),
    decreases rest.len(),
{
    let all = seq![first] + rest;
    reveal_with_fuel(concat, 2);
    if rest.len() == 0 {
        assert(all.drop_last() =~= Seq::empty());
        assert(all.last() == first);
        assert(concat(all) =~= first + concat(rest));
    } else {
        assert(all.drop_last() =~= seq![first] + rest.drop_last());
        lemma_concat_cons(first, rest.drop_last());
        assert(all.last() == rest.last());
        assert(concat(all) =~= first + concat(rest));
    }
}

/// The lines of a text make it up.
pub proof fn law_ended_lines_make_up_text(s: Seq<char>)
    ensures
        concat(ended_lines(s)) == s,
    decreases s.len(),
{
    let n = run(s, not_char('\n')) as int;
    if s.len() > 0 {
        if n + 1 < s.len() {
            law_ended_lines_make_up_text(s.skip(n + 1));
            lemma_concat_cons(s.take(n + 1), ended_lines(s.skip(n + 1)));
            assert(s.take(n + 1) + s.skip(n + 1) =~= s);
        } else {
            lemma_concat_cons(s, Seq::empty());
            assert(seq![s] + Seq::<Seq<char>>::empty() =~= seq![s]);
        }
    }
}

fn color_lines(text: &str, base: Rgb) -> (r: Vec<(String, Rgb)>)
    ensures
        pieces_v(r@) == diff_parts(text@, base),
{
    let v = chars(text);
    let n: usize = v.len();
    let ghost all = diff_parts(text@, base);
    let mut out: Vec<(String, Rgb)> = Vec::new();
    let mut i: usize = 0;
    assert(v@.skip(0) =~= v@);
    assert(all =~= pieces_v(out@) + diff_parts(v@.skip(0), base));
    while i < n
        invariant
            i <= n == v@.len(),
            all == pieces_v(out@) + diff_parts(v@.skip(i as int), base),
        decreases n - i,
    {
        let ghost rest = v@.skip(i as int);
        let mut e: usize = i;
        while e < n && v[e] != '\n'
            invariant
                i <= e <= n == v@.len(),
                rest == v@.skip(i as int),
                forall|k: int| 0 <= k < e - i ==> not_char('\n')(#[trigger] rest[k]),
            decreases n - e,
        {
            assert(rest[e - i] == v@[e as int]);
            e = e + 1;
        }
        proof {
            if e < n {
                assert(rest[e - i] == v@[e as int]);
            }
            lemma_run(rest, not_char('\n'), (e - i) as nat);
        }
        let to: usize = if e < n { e + 1 } else { n };
        let line = from_range(&v, i, to);
        let c = diff_color(line.as_str(), base);
        proof {
            let ls = ended_lines(rest);
            let more = ended_lines(v@.skip(to as int));
            assert(line@ =~= rest.take(to - i));
            if to < n {
                assert(rest.skip(to - i) =~= v@.skip(to as int));
            } else {
                assert(rest.take(to - i) =~= rest);
                assert(v@.skip(to as int).len() == 0);
            }
            assert(ls =~= seq![line@] + more);
            assert(diff_parts(rest, base) =~= seq![(line@, c)] + diff_parts(v@.skip(to as int), base));
        }
        let ghost before = pieces_v(out@);
        let ghost piece = (line@, c);
        out.push((line, c));
        assert(pieces_v(out@) =~= before.push(piece));
        assert(all =~= pieces_v(out@) + diff_parts(v@.skip(to as int), base));
        i = to;
    }
    assert(v@.skip(i as int).len() == 0);
    assert(diff_parts(v@.skip(i as int), base) =~= Seq::empty());
    assert(pieces_v(out@) =~= all);
    out
}

/// The colored parts of a block of code, in order; they make up the text.
pub fn code_parts(s: &Syntaxes, text: &str, lang: Option<&str>, diff: bool, dark: bool, base: Rgb) -> (r: Vec<
    (String, Rgb),
>)
    ensures
        pieces_v(r@) == parts_of(
            text@,
            match lang {
                Some(l) => Some(l@),
                None => None,
            },
            diff,
            dark,
            base,
        ),
        concat(piece_texts(pieces_v(r@))) == text@,
{
    if diff {
        let r = color_lines(text, base);
        proof {
            law_ended_lines_make_up_text(text@);
            assert(piece_texts(pieces_v(r@)) =~= ended_lines(text@));
        }
        return r;
    }
    if let Some(l) = lang {
        if let Some(parts) = s.highlight_code(text, l, dark) {
            return parts;
        }
    }
    let mut r: Vec<(String, Rgb)> = Vec::new();
    r.push((text.to_owned(), base));
    proof {
        assert(pieces_v(r@) =~= seq![(text@, base)]);
        assert(piece_texts(pieces_v(r@)) =~= seq![text@]);
        lemma_concat_cons(text@, Seq::empty());
        assert(seq![text@] + Seq::<Seq<char>>::empty() =~= seq![text@]);
        assert(concat(Seq::<Seq<char>>::empty()) =~= Seq::empty());
        assert(text@ + Seq::<char>::empty() =~= text@);
    }
    r
}

/// How a span of Markdown text is drawn.
#[derive(Clone, Copy, Debug)]
pub struct SpanStyle {
    pub color: Rgb,
    /// The color's opacity; none keeps the base's.
    pub alpha: Option<u8>,
    pub bold: bool,
    pub italic: bool,
    /// In the family for code, not in the face that bold and italic pick.
    pub code: bool,
}

/// How a span of Markdown text is drawn: links have a color of their own, inline
/// code is dimmed, and headings are bold throughout.
pub fn span_style(bold: bool, italic: bool, code: bool, link: bool, force_bold: bool, base: Rgb) -> (r: SpanStyle)
    ensures
        r == (SpanStyle {
            color: if link { (90u8, 160u8, 250u8) } else { base },
            alpha: if code && !link { Some(235u8) } else { None },
            bold: bold || force_bold,
            italic,
            code,
        }),
{
    SpanStyle {
        color: if link {
            (90, 160, 250)
        } else {
            base
        },
        alpha: if code && !link {
            Some(235)
        } else {
            None
        },
        bold: bold || force_bold,
        italic,
        code,
    }
}

/// The scale of a heading, in hundredths of the body's.
pub fn heading_scale(level: u8) -> (r: u32)
    ensures
        r == (match level {
            1 => 150u32,
            2 => 130u32,
            3 => 115u32,
            _ => 105u32,
        }),
{
    match level {
        1 => 150,
        2 => 130,
        3 => 115,
        _ => 105,
    }
}

/// A dark background has the dark theme.
pub proof fn law_theme_goes_with_the_background()
    ensures
        theme_for(true) == "base16-ocean.dark"@,
        theme_for(false) == "InspiredGitHub"@,
{
}

/// Of a diff, an added line is green, a removed line red, and any other has the color of the
/// text.
pub proof fn law_diff_lines_have_their_colors(line: Seq<char>, base: Rgb)
    ensures
        line.len() > 0 && line[0] == '+' ==> line_color(line, base) == (120u8, 200u8, 120u8),
        line.len() > 0 && line[0] == '-' ==> line_color(line, base) == (220u8, 120u8, 120u8),
        line.len() == 0 || (line[0] != '+' && line[0] != '-') ==> line_color(line, base) == base,
{
    reveal_strlit("+");
    reveal_strlit("-");
    if line.len() > 0 {
        let first = line.take(1);
        assert(first[0] == line[0]);
        if line[0] == '+' {
            assert(first =~= "+"@);
        }
        if line[0] == '-' {
            assert(first =~= "-"@);
        }
        assert("+"@[0] == '+' && "-"@[0] == '-');
    }
}

/// A diff is colored by its lines. Other code is colored by its language where that is
/// known, and is one piece in the color of the text where it is not.
pub proof fn law_code_is_colored_by_its_language(
    text: Seq<char>,
    lang: Seq<char>,
    dark: bool,
    base: Rgb,
    i: int,
)
    ensures
        colored(text, lang, theme_for(dark)) is Some ==> Some(parts_of(text, Some(lang), false, dark, base)) == colored(
            text,
            lang,
            theme_for(dark),
        ),
        colored(text, lang, theme_for(dark)) is None ==> parts_of(text, Some(lang), false, dark, base) == seq![
            (text, base),
        ],
        parts_of(text, None, false, dark, base) == seq![(text, base)],
        parts_of(text, Some(lang), true, dark, base).len() == ended_lines(text).len(),
        0 <= i < ended_lines(text).len() ==> parts_of(text, Some(lang), true, dark, base)[i] == (
            ended_lines(text)[i],
            line_color(ended_lines(text)[i], base),
        ),
{
}

/// A line ends with its line ending, and holds no other; only the last may have none.
pub proof fn law_lines_keep_their_endings(s: Seq<char>, i: int, k: int)
    requires
        0 <= i < ended_lines(s).len(),
        0 <= k < ended_lines(s)[i].len(),
    ensures
        ended_lines(s)[i][k] == '\n' ==> k == ended_lines(s)[i].len() - 1,
        i + 1 < ended_lines(s).len() && k == ended_lines(s)[i].len() - 1 ==> ended_lines(s)[i][k] == '\n',
    decreases s.len(),
{
    let n = run(s, not_char('\n')) as int;
    lemma_run_is(s, not_char('\n'));
    if n + 1 < s.len() && i > 0 {
        assert(ended_lines(s)[i] == ended_lines(s.skip(n + 1))[i - 1]);
        law_lines_keep_their_endings(s.skip(n + 1), i - 1, k);
    }
}

} // verus!

//! The colors of the code editor, by highlight capture name.

use vstd::prelude::*;

use crate::syntax::Rgb;
use crate::text::{chars, same, starts_with, str_starts_with};

verus! {

/// Highlight capture names we recognize. Capture names in a grammar's
/// `highlights.scm` match by dotted-prefix, so `keyword.control` maps to `keyword`
/// here. The last six are Markdown's: headings, code spans / fenced code, italic,
/// bold, links / autolinks, and link labels / references.
pub const HL_NAMES: [&'static str; 24] = [
    "keyword",
    "function",
    "function.method",
    "type",
    "string",
    "comment",
    "number",
    "constant",
    "constant.builtin",
    "property",
    "variable",
    "operator",
    "punctuation",
    "attribute",
    "constructor",
    "namespace",
    "label",
    "escape",
    "text.title",
    "text.literal",
    "text.emphasis",
    "text.strong",
    "text.uri",
    "text.reference",
];

/// Foreground colors for the dark theme, parallel to [`HL_NAMES`] (One Dark-ish).
pub const DARK: [(u8, u8, u8); 24] = [
    (198, 120, 221),
    (97, 175, 239),
    (97, 175, 239),
    (229, 192, 123),
    (152, 195, 121),
    (92, 99, 112),
    (209, 154, 102),
    (209, 154, 102),
    (209, 154, 102),
    (224, 108, 117),
    (224, 108, 117),
    (86, 182, 194),
    (171, 178, 191),
    (229, 192, 123),
    (229, 192, 123),
    (229, 192, 123),
    (97, 175, 239),
    (86, 182, 194),
    (224, 108, 117),
    (152, 195, 121),
    (198, 120, 221),
    (229, 192, 123),
    (97, 175, 239),
    (86, 182, 194),
];

/// Foreground colors for the light theme, parallel to [`HL_NAMES`] (GitHub-ish).
pub const LIGHT: [(u8, u8, u8); 24] = [
    (207, 34, 46),
    (130, 80, 223),
    (130, 80, 223),
    (149, 56, 0),
    (10, 48, 105),
    (110, 119, 129),
    (5, 80, 174),
    (5, 80, 174),
    (5, 80, 174),
    (17, 99, 41),
    (31, 35, 40),
    (5, 80, 174),
    (31, 35, 40),
    (17, 99, 41),
    (149, 56, 0),
    (36, 41, 47),
    (130, 80, 223),
    (5, 80, 174),
    (207, 34, 46),
    (17, 99, 41),
    (130, 80, 223),
    (149, 56, 0),
    (5, 80, 174),
    (5, 80, 174),
];

/// The color of what has no name in the table.
pub open spec fn plain_color() -> Rgb {
    (200, 200, 200)
}

/// The color at an index of the theme's table.
pub open spec fn color_at(index: int, dark: bool) -> Rgb {
    if !(0 <= index < 24) {
        plain_color()
    } else if dark {
        DARK@[index]
    } else {
        LIGHT@[index]
    }
}

/// The color at an index of the theme's table.
pub fn color_for(index: usize, dark: bool) -> (r: Rgb)
    ensures
        r == color_at(index as int, dark),
{
    if index >= 24 {
        (200, 200, 200)
    } else if dark {
        DARK[index]
    } else {
        LIGHT[index]
    }
}

/// The index of a name in the table, from `i` on.
pub open spec fn index_of_name(name: Seq<char>, i: int) -> Option<int>
    decreases 24 - i,
{
    if i < 0 || i >= 24 {
        None
    } else if HL_NAMES@[i]@ == name {
        Some(i)
    } else {
        index_of_name(name, i + 1)
    }
}

/// The theme color for a highlight name (e.g. "function", "type", "property"), so
/// other UI (the completion popup) can color tokens like the editor does.
pub fn color_of(name: &str, dark: bool) -> (r: Rgb)
    ensures
        r == (match index_of_name(name@, 0) {
            Some(i) => color_at(i, dark),
            None => plain_color(),
        }),
{
    let mut i: usize = 0;
    while i < 24
        invariant
            i <= 24,
            index_of_name(name@, 0) == index_of_name(name@, i as int),
        decreases 24 - i,
    {
        if same(HL_NAMES[i], name) {
            return color_for(i, dark);
        }
        i = i + 1;
    }
    (200, 200, 200)
}

/// Whether a capture name is a name of the table or lies below it.
pub open spec fn name_hit(name: Seq<char>, n: Seq<char>) -> bool {
    name == n || (starts_with(name, n) && name.len() > n.len() && name[n.len() as int] == '.')
}

/// The longest of the first `n` names that a capture name lies below.
pub open spec fn best_name(name: Seq<char>, n: int) -> Option<int>
    decreases n,
{
    if n <= 0 || n > 24 {
        None
    } else {
        let b = best_name(name, n - 1);
        if name_hit(name, HL_NAMES@[n - 1]@) && (b is None || HL_NAMES@[n - 1]@.len() > HL_NAMES@[b->0]@.len()) {
            Some(n - 1)
        } else {
            b
        }
    }
}

/// The color of a capture goes by the longest name that it lies below; it has none
/// only where it lies below no name.
pub proof fn law_longest_name_wins(name: Seq<char>)
    ensures
        match best_name(name, 24) {
            Some(b) => 0 <= b < 24 && name_hit(name, HL_NAMES@[b]@) && forall|i: int|
                0 <= i < 24 && name_hit(name, #[trigger] HL_NAMES@[i]@) ==> HL_NAMES@[i]@.len() <= HL_NAMES@[b]@.len(),
            None => forall|i: int| 0 <= i < 24 ==> !name_hit(name, #[trigger] HL_NAMES@[i]@),
        },
{
    lemma_best_name(name, 24);
}

proof fn lemma_best_name(name: Seq<char>, n: int)
    requires
        0 <= n <= 24,
    ensures
        match best_name(name, n) {
            Some(b) => 0 <= b < n && name_hit(name, HL_NAMES@[b]@) && forall|i: int|
                0 <= i < n && name_hit(name, #[trigger] HL_NAMES@[i]@) ==> HL_NAMES@[i]@.len() <= HL_NAMES@[b]@.len(),
            None => forall|i: int| 0 <= i < n ==> !name_hit(name, #[trigger] HL_NAMES@[i]@),
        },
    decreases n,
{
    if n > 0 {
        lemma_best_name(name, n - 1);
    }
}

fn is_name_hit(name: &str, n: &str) -> (r: bool)
    ensures
        r == name_hit(name@, n@),
{
    if same(name, n) {
        return true;
    }
    if !str_starts_with(name, n) {
        return false;
    }
    let v = chars(name);
    let k: usize = chars(n).len();
    v.len() > k && v[k] == '.'
}

/// Map a query capture name to a color-table index by longest dotted-prefix match
/// against [`HL_NAMES`] (so "keyword.control" → "keyword", "function.method" →
/// "function.method"). None for names we don't color.
pub fn name_to_index(name: &str) -> (r: Option<usize>)
    ensures
        match r {
            Some(i) => best_name(name@, 24) == Some(i as int) && i < 24,
            None => best_name(name@, 24) is None,
        },
{
    let mut best: Option<usize> = None;
    let mut len: usize = 0;
    let mut i: usize = 0;
    while i < 24
        invariant
            i <= 24,
            match best {
                Some(b) => best_name(name@, i as int) == Some(b as int) && b < 24 && len == HL_NAMES@[b as int]@.len(),
                None => best_name(name@, i as int) is None,
            },
        decreases 24 - i,
    {
        let n = HL_NAMES[i];
        let k: usize = chars(n).len();
        if is_name_hit(name, n) && (best.is_none() || k > len) {
            best = Some(i);
            len = k;
        }
        i = i + 1;
    }
    best
}

/// The dark theme colors by the dark table, the light theme by the light one, and what is
/// in neither is plain.
pub proof fn law_themes_have_their_colors(i: int)
    ensures
        0 <= i < 24 ==> color_at(i, true) == DARK@[i] && color_at(i, false) == LIGHT@[i],
        !(0 <= i < 24) ==> color_at(i, true) == (200u8, 200u8, 200u8) && color_at(i, false) == (200u8, 200u8, 200u8),
{
}

/// A capture name goes by a name of the table that it equals, or that it lies below by a
/// dot.
pub proof fn law_names_match_by_their_parts(name: Seq<char>, n: Seq<char>)
    ensures
        name_hit(n, n),
        name_hit(name, n) && name != n ==> name.len() > n.len() && name[n.len() as int] == '.',
        name_hit(name, n) ==> name.len() >= n.len() && forall|i: int| 0 <= i < n.len() ==> #[trigger] name[i] == n[i],
        name.len() > n.len() && name[n.len() as int] == '.' && name.take(n.len() as int) == n ==> name_hit(name, n),
        name.len() < n.len() ==> !name_hit(name, n),
{
    if name_hit(name, n) && name != n {
        assert forall|i: int| 0 <= i < n.len() implies #[trigger] name[i] == n[i] by {
            assert(name.take(n.len() as int)[i] == name[i]);
        }
    }
}

} // verus!

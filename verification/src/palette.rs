//! Terminal color resolution: ANSI/256/truecolor -> RGB.
//!
//! A cell's color is a named ANSI slot, a 256-color palette index, or a direct
//! truecolor value. The host supplies the themeable parts (default fg/bg/cursor
//! and the 16 ANSI colors, typically derived from the editor skin); everything
//! else is the standard xterm 6x6x6 cube + grayscale ramp.

use vstd::prelude::*;

verus! {

/// The themeable colors. Defaults are a dark scheme close to common terminals.
#[derive(Clone, Copy)]
pub struct Theme {
    pub fg: [u8; 3],
    pub bg: [u8; 3],
    pub cursor: [u8; 3],
    /// Selection highlight background (derived from the background, see
    /// [`selection_bg`]).
    pub selection: [u8; 3],
    /// The 16 base ANSI colors (0..7 normal, 8..15 bright).
    pub ansi: [[u8; 3]; 16],
}

/// The color of a terminal cell.
#[derive(Clone, Copy, PartialEq, Eq, Structural, Debug)]
pub enum CellColor {
    /// A direct truecolor value.
    Spec(u8, u8, u8),
    /// A 256-color palette index.
    Indexed(u8),
    /// A named slot: the 16 ANSI colors, then from 256 on the foreground,
    /// background and cursor, the eight dim colors, and the bright and dim
    /// foreground.
    Named(u16),
}

/// Fifty-five parts in a hundred of `b`, the rest of `a`, to the nearest step.
pub open spec fn mixed(a: u8, b: u8) -> u8 {
    ((45 * a + 55 * b + 50) / 100) as u8
}

fn mix(a: u8, b: u8) -> (r: u8)
    ensures
        r == mixed(a, b),
{
    ((45 * a as u32 + 55 * b as u32 + 50) / 100) as u8
}

/// Derive a selection-highlight background from the terminal background: blend
/// it toward a blue accent so the result adapts to dark/light themes while
/// staying a distinct, legible tint under the (unchanged) cell text color.
pub fn selection_bg(bg: [u8; 3]) -> (r: [u8; 3])
    ensures
        r@ == seq![mixed(bg@[0], 0x4d), mixed(bg@[1], 0x7a), mixed(bg@[2], 0xc7)],
{
    [mix(bg[0], 0x4d), mix(bg[1], 0x7a), mix(bg[2], 0xc7)]
}

/// The 16 base colors of the default theme.
pub open spec fn default_ansi() -> Seq<Seq<u8>> {
    seq![
        seq![0x1du8, 0x1f, 0x21],
        seq![0xccu8, 0x66, 0x66],
        seq![0xb5u8, 0xbd, 0x68],
        seq![0xf0u8, 0xc6, 0x74],
        seq![0x81u8, 0xa2, 0xbe],
        seq![0xb2u8, 0x94, 0xbb],
        seq![0x8au8, 0xbe, 0xb7],
        seq![0xc5u8, 0xc8, 0xc6],
        seq![0x66u8, 0x66, 0x66],
        seq![0xd5u8, 0x4e, 0x53],
        seq![0xb9u8, 0xca, 0x4a],
        seq![0xe7u8, 0xc5, 0x47],
        seq![0x7au8, 0xa6, 0xda],
        seq![0xc3u8, 0x97, 0xd8],
        seq![0x70u8, 0xc0, 0xb1],
        seq![0xeau8, 0xea, 0xea],
    ]
}

impl Default for Theme {
    fn default() -> (r: Self)
        ensures
            r.fg@ == seq![0xd0u8, 0xd0, 0xd4],
            r.bg@ == seq![0x12u8, 0x12, 0x12],
            r.cursor@ == seq![0xd0u8, 0xd0, 0xd4],
            r.selection@ == seq![mixed(0x12, 0x4d), mixed(0x12, 0x7a), mixed(0x12, 0xc7)],
            forall|i: int| 0 <= i < 16 ==> (#[trigger] r.ansi@[i])@ == default_ansi()[i],
    {
        Theme {
            fg: [0xd0, 0xd0, 0xd4],
            bg: [0x12, 0x12, 0x12],
            cursor: [0xd0, 0xd0, 0xd4],
            selection: selection_bg([0x12, 0x12, 0x12]),
            // A classic, legible 16-color set.
            ansi: [
                [0x1d, 0x1f, 0x21],  // black
                [0xcc, 0x66, 0x66],  // red
                [0xb5, 0xbd, 0x68],  // green
                [0xf0, 0xc6, 0x74],  // yellow
                [0x81, 0xa2, 0xbe],  // blue
                [0xb2, 0x94, 0xbb],  // magenta
                [0x8a, 0xbe, 0xb7],  // cyan
                [0xc5, 0xc8, 0xc6],  // white
                [0x66, 0x66, 0x66],  // bright black
                [0xd5, 0x4e, 0x53],  // bright red
                [0xb9, 0xca, 0x4a],  // bright green
                [0xe7, 0xc5, 0x47],  // bright yellow
                [0x7a, 0xa6, 0xda],  // bright blue
                [0xc3, 0x97, 0xd8],  // bright magenta
                [0x70, 0xc0, 0xb1],  // bright cyan
                [0xea, 0xea, 0xea],  // bright white
            ],
        }
    }
}

/// A step of the xterm color cube.
pub open spec fn cube_step(n: int) -> u8 {
    if n == 0 {
        0
    } else {
        (55 + n * 40) as u8
    }
}

/// Two thirds of a color.
pub open spec fn dimmed(c: Seq<u8>) -> Seq<u8> {
    Seq::new(c.len(), |i: int| (c[i] * 2 / 3) as u8)
}

/// The color of a palette index: the 16 base colors, the 6x6x6 cube, and the
/// grayscale ramp.
pub open spec fn palette_color(i: u8, theme: Theme) -> Seq<u8> {
    if i < 16 {
        theme.ansi@[i as int]@
    } else if i < 232 {
        seq![cube_step((i - 16) / 36), cube_step((i - 16) % 36 / 6), cube_step((i - 16) % 6)]
    } else {
        seq![(8 + (i - 232) * 10) as u8, (8 + (i - 232) * 10) as u8, (8 + (i - 232) * 10) as u8]
    }
}

/// The color of a named slot.
pub open spec fn named_color(n: u16, theme: Theme) -> Seq<u8> {
    if n < 16 {
        theme.ansi@[n as int]@
    } else if n == 257 {
        theme.bg@
    } else if n == 258 {
        theme.cursor@
    } else if 259 <= n <= 266 {
        dimmed(theme.ansi@[n - 259]@)
    } else if n == 268 {
        dimmed(theme.fg@)
    } else {
        theme.fg@
    }
}

/// The color of a cell.
pub open spec fn resolved(color: CellColor, theme: Theme) -> Seq<u8> {
    match color {
        CellColor::Spec(r, g, b) => seq![r, g, b],
        CellColor::Indexed(i) => palette_color(i, theme),
        CellColor::Named(n) => named_color(n, theme),
    }
}

/// Resolve a cell color to RGB against the theme.
pub fn resolve(color: CellColor, theme: &Theme) -> (r: [u8; 3])
    ensures
        r@ == resolved(color, *theme),
{
    match color {
        CellColor::Spec(r, g, b) => [r, g, b],
        CellColor::Indexed(i) => indexed(i, theme),
        CellColor::Named(n) => if n < 16 {
            theme.ansi[n as usize]
        } else if n == 257 {
            theme.bg
        } else if n == 258 {
            theme.cursor
        } else if 259 <= n && n <= 266 {
            dim(theme.ansi[n as usize - 259])
        } else if n == 268 {
            dim(theme.fg)
        } else {
            theme.fg
        },
    }
}

/// Map a 0..255 palette index to RGB: 16 base + 6x6x6 cube + grayscale ramp.
pub fn indexed(i: u8, theme: &Theme) -> (r: [u8; 3])
    ensures
        r@ == palette_color(i, *theme),
{
    if i < 16 {
        theme.ansi[i as usize]
    } else if i < 232 {
        let k: u8 = i - 16;
        let red: u8 = k / 36;
        let green: u8 = (k % 36) / 6;
        let blue: u8 = k % 6;
        [cube(red), cube(green), cube(blue)]
    } else {
        let v: u8 = 8 + (i - 232) * 10;
        [v, v, v]
    }
}

/// xterm color-cube step (0,95,135,175,215,255).
pub fn cube(n: u8) -> (r: u8)
    requires
        n <= 5,
    ensures
        r == cube_step(n as int),
{
    if n == 0 {
        0
    } else {
        55 + n * 40
    }
}

/// Dim a color toward black (used for the dim ANSI variants).
pub fn dim(c: [u8; 3]) -> (r: [u8; 3])
    ensures
        r@ == dimmed(c@),
{
    let d: [u8; 3] = [(c[0] as u16 * 2 / 3) as u8, (c[1] as u16 * 2 / 3) as u8, (c[2] as u16 * 2 / 3) as u8];
    assert(d@ =~= dimmed(c@));
    d
}

/// Each step of the cube and of the gray ramp is a color of its own: no two
/// indices of the cube give the same color, nor do two of the ramp.
pub proof fn law_palette_is_injective(i: u8, j: u8, theme: Theme)
    requires
        16 <= i < j,
        i < 232 <==> j < 232,
    ensures
        palette_color(i, theme) != palette_color(j, theme),
{
    let a = palette_color(i, theme);
    let b = palette_color(j, theme);
    if j < 232 {
        if a == b {
            assert(a[0] == b[0] && a[1] == b[1] && a[2] == b[2]);
            assert((i - 16) / 36 == (j - 16) / 36);
            assert((i - 16) % 36 / 6 == (j - 16) % 36 / 6);
            assert((i - 16) % 6 == (j - 16) % 6);
        }
    } else {
        if a == b {
            assert(a[0] == b[0]);
        }
    }
}

/// Dimming never brightens.
pub proof fn law_dim_darkens(c: Seq<u8>, i: int)
    requires
        0 <= i < c.len(),
    ensures
        dimmed(c)[i] <= c[i],
{
}

/// A selection lies between the background and the accent.
pub proof fn law_mix_is_between(a: u8, b: u8)
    ensures
        a <= b ==> a <= mixed(a, b) <= b,
        b <= a ==> b <= mixed(a, b) <= a,
{
}

/// A truecolor value is itself. The first sixteen colors are the theme's, by whichever
/// way they are named.
pub proof fn law_base_colors_are_the_themes(n: u8, r: u8, g: u8, b: u8, theme: Theme)
    ensures
        resolved(CellColor::Spec(r, g, b), theme) == seq![r, g, b],
        n < 16 ==> resolved(CellColor::Indexed(n), theme) == theme.ansi@[n as int]@,
        n < 16 ==> resolved(CellColor::Named(n as u16), theme) == theme.ansi@[n as int]@,
{
}

/// The named colors behind the base ones are the theme's foreground, background and
/// cursor, the dim base colors, and the foreground once more, plain and dim.
pub proof fn law_named_slots(n: u16, theme: Theme)
    ensures
        resolved(CellColor::Named(256), theme) == theme.fg@,
        resolved(CellColor::Named(257), theme) == theme.bg@,
        resolved(CellColor::Named(258), theme) == theme.cursor@,
        n < 8 ==> resolved(CellColor::Named((259 + n) as u16), theme) == dimmed(
            resolved(CellColor::Named(n), theme),
        ),
        resolved(CellColor::Named(267), theme) == theme.fg@,
        resolved(CellColor::Named(268), theme) == dimmed(theme.fg@),
{
}

/// The cube has a color for each triple of steps, red first and blue last, and the ramp
/// is gray, ten apart.
pub proof fn law_cube_and_ramp(r: int, g: int, b: int, k: int, theme: Theme)
    requires
        0 <= r < 6,
        0 <= g < 6,
        0 <= b < 6,
        0 <= k < 24,
    ensures
        ({
            let steps = seq![0u8, 95, 135, 175, 215, 255];
            resolved(CellColor::Indexed((16 + 36 * r + 6 * g + b) as u8), theme) == seq![steps[r], steps[g], steps[b]]
        }),
        ({
            let v = (8 + 10 * k) as u8;
            resolved(CellColor::Indexed((232 + k) as u8), theme) == seq![v, v, v]
        }),
{
    let i = 16 + 36 * r + 6 * g + b;
    assert((i - 16) / 36 == r && (i - 16) % 36 == 6 * g + b);
    assert((6 * g + b) / 6 == g && (i - 16) % 6 == b);
    let steps = seq![0u8, 95, 135, 175, 215, 255];
    assert forall|n: int| 0 <= n < 6 implies #[trigger] steps[n] == cube_step(n) by {
    }
    assert(resolved(CellColor::Indexed(i as u8), theme) =~= seq![steps[r], steps[g], steps[b]]);
}

/// A dim color has two thirds of each part, rounded down, and a mixed one is nearest to
/// 55 parts in a hundred of the second.
pub proof fn law_shares_are_exact(c: Seq<u8>, i: int, a: u8, b: u8)
    requires
        0 <= i < c.len(),
    ensures
        dimmed(c).len() == c.len(),
        2 * c[i] - 3 < 3 * dimmed(c)[i] <= 2 * c[i],
        -50 <= 100 * mixed(a, b) - (45 * a + 55 * b) <= 50,
{
}

} // verus!

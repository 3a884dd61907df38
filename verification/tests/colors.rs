use unterm::palette::{cube, dim, indexed, resolve, selection_bg, CellColor, Theme};
use unterm::registry::{alloc_id, clamp_size, match_adapter, restore_id, rgb};
use unterm::renderer::{
    cursor_columns, cut_row, cut_segment, resolve_cell, segment_text, shows_cursor, under_cursor, widths, wrap_preedit,
    Cell, CellVis, Segment,
};
use unterm::syntax::{code_parts, diff_color, heading_scale, span_style, Syntaxes};

// --- Palette --------------------------------------------------------------------

#[test]
fn selection_leans_towards_the_accent() {
    assert_eq!(selection_bg([0x12, 0x12, 0x12]), [50, 75, 118]);
    // The accent weighs 55 parts in a hundred, rounded to the nearest.
    let mix = |a: u8, b: u8| (a as f32 * (1.0 - 0.55f32) + b as f32 * 0.55f32).round() as u8;
    for v in 0..=255u8 {
        assert_eq!(selection_bg([v, v, v]), [mix(v, 0x4d), mix(v, 0x7a), mix(v, 0xc7)], "background {v}");
    }
}

#[test]
fn the_cube_and_the_ramp() {
    let t = Theme::default();
    assert_eq!(indexed(1, &t), [0xcc, 0x66, 0x66]);
    assert_eq!(indexed(16, &t), [0, 0, 0]);
    assert_eq!(indexed(231, &t), [255, 255, 255]);
    assert_eq!(indexed(16 + 36 + 2 * 6 + 3, &t), [95, 135, 175]);
    assert_eq!(indexed(232, &t), [8, 8, 8]);
    assert_eq!(indexed(255, &t), [238, 238, 238]);
    assert_eq!((cube(0), cube(1), cube(5)), (0, 95, 255));
    assert_eq!(dim([30, 200, 255]), [20, 133, 170]);
}

#[test]
fn named_colors_come_from_the_theme() {
    let t = Theme::default();
    assert_eq!(resolve(CellColor::Spec(1, 2, 3), &t), [1, 2, 3]);
    assert_eq!(resolve(CellColor::Indexed(232), &t), [8, 8, 8]);
    for (n, want) in [
        (0u16, t.ansi[0]), (15, t.ansi[15]), (256, t.fg), (257, t.bg), (258, t.cursor), (259, dim(t.ansi[0])),
        (266, dim(t.ansi[7])), (267, t.fg), (268, dim(t.fg)), (100, t.fg),
    ] {
        assert_eq!(resolve(CellColor::Named(n), &t), want, "name {n}");
    }
}

// --- Cells ------------------------------------------------------------------------

fn cell(ch: char) -> Cell {
    Cell {
        ch,
        fg: CellColor::Named(256),
        bg: CellColor::Named(257),
        inverse: false,
        dim: false,
        hidden: false,
        bold: false,
        italic: false,
        wide: false,
        spacer: false,
        selected: false,
    }
}

#[test]
fn cells_resolve_their_attributes() {
    let t = Theme::default();
    let c = resolve_cell(&cell('x'), &t);
    assert_eq!((c.ch, c.fg, c.bg, c.bg_fill), ('x', t.fg, t.bg, false));
    let c = resolve_cell(&Cell { inverse: true, ..cell('x') }, &t);
    assert_eq!((c.fg, c.bg, c.bg_fill), (t.bg, t.fg, true));
    let c = resolve_cell(&Cell { selected: true, ..cell('x') }, &t);
    assert_eq!((c.bg, c.bg_fill), (t.selection, true));
    let c = resolve_cell(&Cell { hidden: true, ..cell('x') }, &t);
    assert_eq!(c.ch, ' ');
    assert!(shows_cursor(true, 0) && !shows_cursor(true, 1) && !shows_cursor(false, 0));
    assert_eq!(cursor_columns(&c), 1);
    assert_eq!(cursor_columns(&CellVis { wide: true, ..c }), 2);
    let u = under_cursor(resolve_cell(&cell('x'), &t), &t);
    assert_eq!(u.fg, t.bg);
}

#[test]
fn rows_are_cut_into_pieces() {
    let t = Theme::default();
    let plain = resolve_cell(&cell('a'), &t);
    let bold = CellVis { ch: 'b', bold: true, ..plain };
    let wide = CellVis { ch: '漢', wide: true, ..plain };
    let spacer = CellVis { ch: ' ', spacer: true, ..plain };
    let pieces = cut_row(&vec![plain, bold, wide, spacer, plain]);
    let texts: Vec<(usize, String)> = pieces
        .iter()
        .map(|p| (p.col, p.runs.iter().map(|r| r.0.as_str()).collect::<Vec<_>>().join("|")))
        .collect();
    assert_eq!(texts, vec![(0, "a|b".to_string()), (2, "漢".to_string()), (4, "a".to_string())]);
}

// --- Composing text in the grid -----------------------------------------------------

#[test]
fn columns_are_those_of_the_width_tables() {
    assert_eq!(widths("aか\u{301}é"), vec![1, 2, 0, 1]);
    assert_eq!(widths("\u{7}"), vec![0]);
    assert!(widths("").is_empty());
}

#[test]
fn composed_text_wraps_at_the_margin() {
    let ws = widths("かなab");
    let (segments, end) = wrap_preedit(&ws, 3, 7, 10);
    assert_eq!(
        segments,
        vec![
            Segment { line: 3, col: 7, from: 0, to: 1, width: 2 },
            Segment { line: 4, col: 0, from: 1, to: 4, width: 4 },
        ]
    );
    assert_eq!(end, (4, 4));
    let text: String = segments.iter().map(|s| segment_text("かなab", s)).collect();
    assert_eq!(text, "かなab");
    assert_eq!(cut_segment(&ws, &segments[1]), vec![(0, 1, 2), (2, 2, 4)]);
}

// --- Ids, packed colors, adapters ---------------------------------------------------

#[test]
fn ids_follow_the_highest_live_one() {
    assert_eq!(alloc_id(&vec![]), 1);
    assert_eq!(alloc_id(&vec![1, 4, 2]), 5);
    assert_eq!(restore_id(&vec![1], 7), 7);
    assert_eq!(restore_id(&vec![1, 7], 7), 8);
    assert_eq!(restore_id(&vec![3], 0), 4);
}

#[test]
fn packed_colors_unpack() {
    assert_eq!(rgb(0x010203), [1, 2, 3]);
    assert_eq!(rgb(0xff112233), [0x11, 0x22, 0x33]);
}

#[test]
fn sizes_stay_drawable() {
    assert_eq!(clamp_size(0, 0, 100), (1, 1));
    assert_eq!(clamp_size(500, 50, 100), (100, 50));
}

#[test]
fn the_adapter_is_the_hosts() {
    let infos = vec![(1, 2), (3, 4), (3, 5)];
    assert_eq!(match_adapter(&infos, Some((3, 5))), Some(2));
    assert_eq!(match_adapter(&infos, Some((9, 9))), None);
    assert_eq!(match_adapter(&infos, None), None);
}

// --- Code blocks --------------------------------------------------------------------

#[test]
fn code_is_colored_by_its_language() {
    let s = Syntaxes::load();
    let spans = s.highlight_code("let x = 1;\n", "rust", true).unwrap();
    let text: String = spans.iter().map(|p| p.0.as_str()).collect();
    assert_eq!(text, "let x = 1;\n");
    let mut colors: Vec<_> = spans.iter().map(|p| p.1).collect();
    colors.dedup();
    assert!(colors.len() > 1);
    let light = s.highlight_code("let x = 1;\n", "rust", false).unwrap();
    assert_ne!(light[0].1, spans[0].1);
    assert!(s.highlight_code("x", "", true).is_none());
    assert!(s.highlight_code("x", "no-such-language", true).is_none());
}

#[test]
fn diff_lines_have_their_colors() {
    let text = (1, 2, 3);
    assert_eq!(diff_color("plain", text), text);
    assert_eq!(diff_color("+ added", text), (120, 200, 120));
    assert_eq!(diff_color("- removed", text), (220, 120, 120));
    assert_eq!(diff_color("@@ -1 +1 @@", text), text);
}

#[test]
fn blocks_of_code_are_colored_in_parts() {
    let s = Syntaxes::load();
    let base = (1, 2, 3);
    let part = |t: &str, c| (t.to_string(), c);
    assert_eq!(
        code_parts(&s, "+a\n-b\n c", Some("rust"), true, true, base),
        vec![part("+a\n", (120, 200, 120)), part("-b\n", (220, 120, 120)), part(" c", base)]
    );
    assert_eq!(code_parts(&s, "+a\n", None, true, true, base), vec![part("+a\n", (120, 200, 120))]);
    assert_eq!(code_parts(&s, "", None, true, true, base), vec![]);
    let text = "let x = 1;\n";
    assert_eq!(code_parts(&s, text, Some("rust"), false, true, base), s.highlight_code(text, "rust", true).unwrap());
    assert_eq!(code_parts(&s, text, Some("no-such-language"), false, true, base), vec![part(text, base)]);
    assert_eq!(code_parts(&s, text, None, false, false, base), vec![part(text, base)]);
}

#[test]
fn headings_and_spans_are_styled() {
    let scales: Vec<u32> = (1..=6).map(heading_scale).collect();
    assert_eq!(scales, vec![150, 130, 115, 105, 105, 105]);
    let base = (9, 9, 9);
    let s = span_style(false, false, false, false, true, base);
    assert!(s.bold && !s.italic && !s.code);
    assert_eq!(s.color, base);
    assert!(span_style(false, true, false, false, false, base).italic);
    assert!(span_style(false, false, true, false, false, base).code);
    assert_eq!(span_style(false, false, true, false, false, base).alpha, Some(235));
    let link = span_style(false, false, true, true, false, base);
    assert_eq!((link.color, link.alpha), ((90, 160, 250), None));
}

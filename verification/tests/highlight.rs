use unterm::highlight::colors::{color_for, color_of, name_to_index};
use unterm::highlight::delta::{text_edit, Point};
use unterm::highlight::grammar::{collect_inline_ranges, pick, Extent, Highlighter, NodeInfo};
use unterm::highlight::spans::{build_line_starts, clip, Bytes, LineSpans, Paint};

fn assert_well_formed(src: &str, lines: &[LineSpans]) {
    let line_lens: Vec<usize> = src.split('\n').map(|l| l.len()).collect();
    assert_eq!(lines.len(), line_lens.len());
    for (i, ls) in lines.iter().enumerate() {
        for (r, _) in &ls.spans {
            assert!(r.end <= line_lens[i], "line {i} span {:?} > {}", r, line_lens[i]);
            assert!(r.start < r.end);
        }
    }
}

#[test]
fn csharp_highlights_keywords_and_strings() {
    let src = "public class Foo {\n    void Bar() { var s = \"hi\"; }\n}\n";
    let mut hl = Highlighter::new("cs").expect("c# should highlight");
    let lines = hl.highlight(src, true);
    // The first line ("public class Foo {") must get at least a couple of
    // colored spans (keyword `public`/`class`, type `Foo`).
    assert!(lines[0].spans.len() >= 2, "spans: {:?}", lines[0].spans.len());
    assert_well_formed(src, &lines);
}

#[test]
fn incremental_reparse_matches_fresh() {
    let src0 = "class Foo {\n    int x;\n}\n";
    let src1 = "class Foo {\n    int xy;\n}\n"; // edit line 1
    let mut inc = Highlighter::new("cs").unwrap();
    let _ = inc.highlight(src0, true); // seed the tree
    let after_edit = inc.highlight(src1, true); // incremental reparse
    let fresh = Highlighter::new("cs").unwrap().highlight(src1, true);
    // Incremental reparse must produce the same spans as a from-scratch parse.
    assert_eq!(after_edit.len(), fresh.len());
    for (a, f) in after_edit.iter().zip(fresh.iter()) {
        assert_eq!(a.spans.len(), f.spans.len());
        for ((ar, _), (fr, _)) in a.spans.iter().zip(f.spans.iter()) {
            assert_eq!(ar, fr);
        }
    }
    assert_well_formed(src1, &after_edit);
}

#[test]
fn unknown_language_is_none() {
    assert!(Highlighter::new("no-such-lang").is_none());
}

#[test]
fn markdown_highlights_heading_and_inline() {
    // Heading (block grammar) on line 0; **bold** + `code` (inline grammar) on
    // line 2 — exercises the block+inline coordination.
    let src = "# Title\n\nSome **bold** and `code` here.\n";
    let mut hl = Highlighter::new("md").expect("markdown should highlight");
    let lines = hl.highlight(src, true);
    assert_well_formed(src, &lines);
    // The heading line gets colored spans (the `# ` marker and/or the title text).
    assert!(!lines[0].spans.is_empty(), "heading line had no spans");
    // The inline line gets spans from the inline grammar (bold + code span).
    assert!(lines[2].spans.len() >= 2, "inline spans: {}", lines[2].spans.len());
    // An incremental edit must match a from-scratch parse.
    let src2 = "# Title!\n\nSome **bold** and `code` here.\n";
    let inc = hl.highlight(src2, true);
    let fresh = Highlighter::new("md").unwrap().highlight(src2, true);
    assert_eq!(inc.len(), fresh.len());
    for (a, f) in inc.iter().zip(fresh.iter()) {
        assert_eq!(a.spans.len(), f.spans.len(), "line span-count mismatch after edit");
    }
}

#[test]
fn language_aliases_share_a_grammar() {
    for id in ["cs", "c_sharp", "csharp", "md", "markdown"] {
        assert!(Highlighter::new(id).is_some(), "{id}");
    }
    assert!(Highlighter::new("CS").is_none());
    assert!(Highlighter::new("").is_none());
}

#[test]
fn keyword_is_colored_where_it_stands() {
    let mut hl = Highlighter::new("cs").unwrap();
    let lines = hl.highlight("class A {}", true);
    let keyword = color_of("keyword", true);
    assert!(lines[0].spans.contains(&(Bytes { start: 0, end: 5 }, keyword)));
    // The light theme paints the same bytes in its own color.
    let light = hl.highlight("class A {}", false);
    assert!(light[0].spans.contains(&(Bytes { start: 0, end: 5 }, color_of("keyword", false))));
}

#[test]
fn edits_before_multibyte_text_keep_lines_aligned() {
    let mut hl = Highlighter::new("cs").unwrap();
    hl.highlight("// é\nclass A {}", true);
    let src = "// éé\nclass B {}";
    let inc = hl.highlight(src, true);
    let fresh = Highlighter::new("cs").unwrap().highlight(src, true);
    assert_well_formed(src, &inc);
    for (a, f) in inc.iter().zip(fresh.iter()) {
        assert_eq!(a.spans, f.spans);
    }
}

#[test]
fn colors_go_by_the_longest_dotted_prefix() {
    assert_eq!(name_to_index("keyword"), Some(0));
    assert_eq!(name_to_index("keyword.control"), Some(0));
    assert_eq!(name_to_index("function.method"), Some(2));
    assert_eq!(name_to_index("function.method.call"), Some(2));
    assert_eq!(name_to_index("function.builtin"), Some(1));
    assert_eq!(name_to_index("keywords"), None);
    assert_eq!(name_to_index("text"), None);
    assert_eq!(name_to_index("text.uri"), Some(22));
}

#[test]
fn theme_colors_are_exact() {
    assert_eq!(color_of("keyword", true), (198, 120, 221));
    assert_eq!(color_of("keyword", false), (207, 34, 46));
    assert_eq!(color_of("text.reference", true), (86, 182, 194));
    assert_eq!(color_of("text.reference", false), (5, 80, 174));
    assert_eq!(color_of("nothing", true), (200, 200, 200));
    assert_eq!(color_for(24, false), (200, 200, 200));
    assert_eq!(color_for(5, true), (92, 99, 112));
}

#[test]
fn line_starts_count_bytes() {
    assert_eq!(build_line_starts(""), vec![0]);
    assert_eq!(build_line_starts("ab\n\né\n"), vec![0, 3, 4, 7]);
}

#[test]
fn stretches_are_clipped_onto_lines() {
    // "ab\ncd\n": one stretch over both lines, its line ending left out.
    let out = clip("ab\ncd\n", &vec![Paint { color: 0, start: 1, end: 5 }, Paint { color: 3, start: 3, end: 4 }], true);
    assert_eq!(out.len(), 3);
    assert_eq!(out[0].spans, vec![(Bytes { start: 1, end: 2 }, (198, 120, 221))]);
    assert_eq!(
        out[1].spans,
        vec![
            (Bytes { start: 0, end: 2 }, (198, 120, 221)),
            (Bytes { start: 0, end: 1 }, (229, 192, 123)),
        ]
    );
    assert!(out[2].spans.is_empty());
    // A stretch of the line ending alone leaves nothing, nor does an empty one.
    let none = clip("ab\ncd", &vec![Paint { color: 0, start: 2, end: 3 }, Paint { color: 0, start: 4, end: 4 }], true);
    assert!(none.iter().all(|l| l.spans.is_empty()));
}

#[test]
fn uncolored_captures_are_left_out() {
    let mut out = vec![];
    pick(&vec![None, Some(7)], &vec![(0, 1, 2), (1, 3, 4), (9, 5, 6)], &mut out);
    assert_eq!(out, vec![Paint { color: 7, start: 3, end: 4 }]);
}

#[test]
fn edit_is_the_changed_middle() {
    assert!(text_edit("same", "same").is_none());
    let e = text_edit("int x;\n}", "int xy;\n}").unwrap();
    assert_eq!((e.start_byte, e.old_end_byte, e.new_end_byte), (5, 5, 6));
    assert_eq!(e.start_position, Point { row: 0, column: 5 });
    // Never inside a character: "é" and "è" share their first byte.
    let e = text_edit("a\né", "a\nè").unwrap();
    assert_eq!((e.start_byte, e.old_end_byte, e.new_end_byte), (2, 4, 4));
    assert_eq!(e.old_end_position, Point { row: 1, column: 2 });
    // Repeated text: the common end stops at the common beginning.
    let e = text_edit("aa", "aaa").unwrap();
    assert_eq!((e.start_byte, e.old_end_byte, e.new_end_byte), (2, 2, 3));
}

fn node(kind: &str, depth: u32, start: usize) -> NodeInfo {
    let p = Point { row: 0, column: start };
    NodeInfo {
        kind: kind.to_string(),
        depth,
        extent: Extent { start_byte: start, end_byte: start + 1, start_point: p, end_point: p },
    }
}

#[test]
fn inline_nodes_are_not_searched_below() {
    let nodes = vec![
        node("document", 0, 0),
        node("paragraph", 1, 0),
        node("inline", 2, 1),
        node("inline", 3, 2),
        node("text", 4, 2),
        node("inline", 2, 3),
        node("section", 1, 4),
    ];
    let starts: Vec<usize> = collect_inline_ranges(&nodes).iter().map(|e| e.start_byte).collect();
    assert_eq!(starts, vec![1, 3]);
    assert!(collect_inline_ranges(&vec![]).is_empty());
}

use unterm::input::doc::{split_lines, Cursor, Selection};
use unterm::input::edit::{matching_close, InputBox};
use unterm::input::hunks::{Hunk, ShownHunk};
use unterm::input::keys::{prefix_in, KeyStep, Motion};
use unterm::input::popup::{kind_capture, popup_label_spans};

fn at(line: usize, col: usize) -> Cursor {
    Cursor { line, col }
}

fn boxed(text: &str) -> InputBox {
    let mut b = InputBox::new();
    b.set_text(text);
    b
}

fn code(text: &str, line: usize, col: usize) -> InputBox {
    let mut b = boxed(text);
    b.set_code_mode(true);
    b.mouse(Some(at(line, col)), 0);
    b
}

fn caret(b: &InputBox) -> (usize, usize) {
    (b.doc.cursor.line, b.doc.cursor.col)
}

// --- Text ---------------------------------------------------------------------

#[test]
fn lines_end_at_every_kind_of_line_ending() {
    assert_eq!(split_lines("a\nb\r\nc\rd"), vec!["a", "b", "c", "d"]);
    assert_eq!(split_lines(""), vec![""]);
    assert_eq!(split_lines("a\n"), vec!["a", ""]);
}

#[test]
fn set_text_puts_the_caret_at_the_end() {
    let b = boxed("one\ntwo");
    assert_eq!(b.text(), "one\ntwo");
    assert_eq!(caret(&b), (1, 3));
    assert_eq!(b.line_count(), 2);
}

#[test]
fn typing_replaces_the_selection() {
    let mut b = boxed("hello world");
    b.mouse(Some(at(0, 0)), 0);
    b.mouse(Some(at(0, 5)), 1);
    assert_eq!(b.copy(), Some("hello".to_string()));
    b.insert("bye");
    assert_eq!(b.text(), "bye world");
    assert_eq!(caret(&b), (0, 3));
}

#[test]
fn brackets_close_in_code_mode_only() {
    let mut b = code("", 0, 0);
    b.insert("(");
    assert_eq!(b.text(), "()");
    assert_eq!(caret(&b), (0, 1));
    let mut plain = boxed("");
    plain.insert("(");
    assert_eq!(plain.text(), "(");
    assert_eq!(matching_close("{"), Some("}"));
    assert_eq!(matching_close("\""), Some("\""));
    assert_eq!(matching_close("ab"), None);
}

#[test]
fn read_only_keeps_the_text() {
    let mut b = code("abc", 0, 1);
    b.set_read_only(true);
    b.insert("x");
    for key in ["Return", "KeypadEnter", "Backspace", "Delete", "DeleteWordBack", "DeleteWordForward", "DeleteToLineStart"] {
        assert_eq!(b.key(key, false), KeyStep::Done);
    }
    assert_eq!(b.text(), "abc");
    assert_eq!(b.key("LeftArrow", false), KeyStep::Move(Motion::Left));
}

#[test]
fn read_only_ignores_every_edit() {
    let mut b = code("abc\nabd", 0, 0);
    b.insert("x");
    b.insert("y");
    b.undo();
    let (text, serial) = (b.text(), b.edit_serial());
    assert_eq!(text, "xabc\nabd");
    assert!(b.set_diff(Some("q".to_string()), Some("q".to_string()), vec![]));
    b.show_hunks(vec![hunk(0, 1, 0, 1)]);
    b.set_read_only(true);
    b.select_all();
    assert_eq!(b.cut(), Some(text.clone()));
    assert_eq!(b.text(), text);
    b.replace_selection("z");
    b.indent();
    b.outdent();
    b.toggle_comment();
    b.duplicate_line();
    b.delete_line();
    assert_eq!(b.replace_all("ab", "z", true), 0);
    b.mouse(Some(at(0, 2)), 0);
    b.move_line_down();
    b.complete(1, "zz");
    b.delete_cluster(0, 1);
    b.mouse(Some(at(1, 0)), 0);
    b.move_line_up();
    b.add_using("N");
    b.splice_lines(0, 0, &vec!["z".to_string()], at(0, 0), None);
    b.revert_hunk(0);
    assert!(!b.can_undo() && !b.can_redo());
    b.undo();
    b.redo();
    assert_eq!((b.text(), b.edit_serial()), (text, serial));
    b.set_read_only(false);
    assert!(b.can_undo() && b.can_redo());
    b.redo();
    assert_eq!(b.text(), "xyabc\nabd");
}

// --- Composing ----------------------------------------------------------------

#[test]
fn composing_leaves_no_trace() {
    let mut b = boxed("ab");
    b.mouse(Some(at(0, 1)), 0);
    let serial = b.edit_serial();
    b.set_preedit("か");
    assert!(b.composing());
    assert_eq!(b.text(), "aかb");
    assert_eq!(b.preedit_start(), Some(at(0, 1)));
    b.set_preedit("かん");
    assert_eq!(b.text(), "aかんb");
    b.set_preedit("");
    assert_eq!(b.text(), "ab");
    assert_eq!(caret(&b), (0, 1));
    assert_eq!(b.edit_serial(), serial);
    assert!(!b.composing());
}

#[test]
fn a_composition_takes_the_selections_place() {
    let mut b = boxed("abcdef");
    b.mouse(Some(at(0, 1)), 0);
    b.mouse(Some(at(0, 4)), 1);
    b.set_preedit("k");
    assert_eq!(b.text(), "akef");
    assert_eq!(b.preedit_start(), Some(at(0, 1)));
    b.set_preedit("kan");
    assert_eq!(b.text(), "akanef");
    b.set_preedit("");
    assert_eq!((b.text(), caret(&b)), ("aef".to_string(), (0, 1)));
}

#[test]
fn committing_replaces_the_composition() {
    let mut b = boxed("");
    b.set_preedit("kan");
    b.insert("漢");
    assert_eq!(b.text(), "漢");
    b.undo();
    assert_eq!(b.text(), "");
}

// --- Undo ---------------------------------------------------------------------

#[test]
fn undo_and_redo_walk_the_history() {
    let mut b = boxed("");
    let clean = b.edit_serial();
    b.insert("a");
    b.insert("b");
    let dirty = b.edit_serial();
    assert_ne!(clean, dirty);
    b.undo();
    assert_eq!(b.text(), "a");
    b.undo();
    assert_eq!(b.text(), "");
    assert_eq!(b.edit_serial(), clean);
    b.redo();
    b.redo();
    assert_eq!(b.text(), "ab");
    assert_eq!(b.edit_serial(), dirty);
    // A new edit cuts the redo branch off.
    b.undo();
    b.insert("c");
    b.redo();
    assert_eq!(b.text(), "ac");
}

#[test]
fn undo_is_offered_where_it_can_be_done() {
    let mut b = boxed("");
    assert!(!b.can_undo() && !b.can_redo());
    b.insert("abcdef");
    assert!(b.can_undo() && !b.can_redo());
    // A composition over the typed text leaves the step nowhere to go.
    b.select_all();
    b.set_preedit("k");
    assert!(!b.can_undo());
    b.set_preedit("");
    assert_eq!(b.text(), "");
    assert!(!b.can_undo());
    // One at the end leaves it where it was.
    let mut c = boxed("");
    c.insert("ab");
    c.set_preedit("k");
    assert!(c.can_undo());
    c.undo();
    assert_eq!(c.text(), "k");
    // Steps of one change follow one another.
    let mut d = boxed("one two");
    d.select_all();
    d.insert("three");
    assert!(d.can_undo());
    d.undo();
    assert!(!d.can_undo() && d.can_redo());
    assert_eq!(d.text(), "one two");
}

#[test]
fn every_edit_has_a_version_of_its_own() {
    let mut b = boxed("");
    let mut seen = vec![b.edit_serial()];
    for s in ["a", "b", "c"] {
        b.insert(s);
        assert!(!seen.contains(&b.edit_serial()));
        seen.push(b.edit_serial());
    }
    b.undo();
    assert_eq!(b.edit_serial(), seen[2]);
    b.insert("d");
    assert!(!seen.contains(&b.edit_serial()));
}

#[test]
fn undo_limit_drops_the_oldest() {
    let mut b = boxed("");
    b.set_undo_limit(2);
    for s in ["a", "b", "c"] {
        b.insert(s);
    }
    for _ in 0..5 {
        b.undo();
    }
    assert_eq!(b.text(), "a");
}

#[test]
fn setting_the_text_starts_the_history_afresh() {
    let mut b = boxed("");
    b.insert("x");
    b.set_text("y");
    b.undo();
    assert_eq!(b.text(), "y");
}

#[test]
fn stale_selection_is_reported() {
    let mut b = boxed("a long line");
    b.select_all();
    b.set_text("");
    assert!(b.selection_fits());
    let mut b = boxed("one\ntwo");
    b.mouse(Some(at(1, 2)), 0);
    b.mouse(Some(at(0, 0)), 1);
    b.set_text("x");
    assert!(!b.selection_fits());
    b.clear_selection();
    assert!(b.selection_fits());
}

// --- Keys ---------------------------------------------------------------------

#[test]
fn keys_that_need_the_layout_ask_for_it() {
    let mut b = boxed("ab");
    for (key, motion) in [
        ("LeftArrow", Motion::Left),
        ("RightArrow", Motion::Right),
        ("UpArrow", Motion::Up),
        ("DownArrow", Motion::Down),
        ("PageUp", Motion::PageUp),
        ("PageDown", Motion::PageDown),
    ] {
        assert_eq!(b.key(key, false), KeyStep::Move(motion));
    }
    b.key("LeftArrow", true);
    b.moved(at(0, 1));
    assert_eq!(b.copy(), Some("b".to_string()));
    // Without shift the selection is dropped.
    b.key("LeftArrow", false);
    assert_eq!(b.copy(), None);
}

#[test]
fn line_and_document_motions() {
    let mut b = boxed("one\ntwo");
    b.key("Home", false);
    assert_eq!(caret(&b), (1, 0));
    b.key("End", false);
    assert_eq!(caret(&b), (1, 3));
    b.key("DocStart", true);
    assert_eq!(b.copy(), Some("one\ntwo".to_string()));
    b.key("DocEnd", false);
    assert_eq!(caret(&b), (1, 3));
    assert_eq!(b.key("F5", false), KeyStep::Done);
    assert_eq!(b.text(), "one\ntwo");
}

#[test]
fn enter_backspace_and_delete() {
    let mut b = boxed("ab");
    b.mouse(Some(at(0, 1)), 0);
    b.key("Return", false);
    assert_eq!(b.text(), "a\nb");
    assert_eq!(caret(&b), (1, 0));
    b.key("Backspace", false);
    assert_eq!(b.text(), "ab");
    assert_eq!(caret(&b), (0, 1));
    assert_eq!(b.key("Delete", false), KeyStep::Cluster);
    b.delete_cluster(1, 2);
    assert_eq!(b.text(), "a");
    // At the end of a line Delete joins the next one.
    let mut b = boxed("a\nb");
    b.mouse(Some(at(0, 1)), 0);
    assert_eq!(b.key("Delete", false), KeyStep::Done);
    assert_eq!(b.text(), "ab");
    // At the end of the text it deletes nothing.
    b.key("End", false);
    assert_eq!(b.key("Delete", false), KeyStep::Done);
    assert_eq!(b.text(), "ab");
    // At the start of the text Backspace deletes nothing.
    b.key("Home", false);
    b.key("Backspace", false);
    assert_eq!(b.text(), "ab");
}

#[test]
fn delete_to_line_start() {
    let mut b = boxed("one\ntwo");
    b.mouse(Some(at(1, 2)), 0);
    b.key("DeleteToLineStart", false);
    assert_eq!(b.text(), "one\no");
    assert_eq!(caret(&b), (1, 0));
    b.undo();
    assert_eq!(b.text(), "one\ntwo");
}

#[test]
fn word_keys_are_code_aware() {
    let mut b = boxed("foo.bar baz");
    b.key("WordLeft", false);
    assert_eq!(caret(&b), (0, 8));
    b.mouse(Some(at(0, 0)), 0);
    b.key("WordRight", false);
    assert_eq!(caret(&b), (0, 3));
    b.key("DeleteWordBack", false);
    assert_eq!(b.text(), ".bar baz");
    // Over the line edges.
    let mut b = boxed("a\nb");
    b.mouse(Some(at(0, 1)), 0);
    b.key("WordRight", true);
    assert_eq!(caret(&b), (1, 0));
    b.key("WordLeft", false);
    assert_eq!(caret(&b), (0, 1));
    b.key("DeleteWordForward", false);
    assert_eq!(b.text(), "ab");
}

#[test]
fn enter_carries_the_indentation() {
    let mut b = code("    if (x) {", 0, 12);
    b.key("Return", false);
    assert_eq!(b.text(), "    if (x) {\n        ");
    assert_eq!(caret(&b), (1, 8));
}

#[test]
fn smart_home_toggles() {
    let mut b = code("    foo", 0, 7);
    b.key("LineStart", false);
    assert_eq!(caret(&b), (0, 4));
    b.key("LineStart", false);
    assert_eq!(caret(&b), (0, 0));
    b.key("LineStart", true);
    assert_eq!(caret(&b), (0, 4));
    assert_eq!(b.copy(), Some("    ".to_string()));
    // A blank line has no first character.
    let mut blank = code("    ", 0, 2);
    blank.key("LineStart", false);
    assert_eq!(caret(&blank), (0, 0));
}

#[test]
fn smart_backspace_stops_at_tab_stops() {
    for (col, left) in [(8, 4), (7, 4), (5, 4), (4, 0), (1, 0)] {
        let mut b = code(&" ".repeat(col), 0, col);
        b.key("Backspace", false);
        assert_eq!(b.text().len(), left, "from column {col}");
    }
    let mut b = code("    a ", 0, 6);
    b.key("Backspace", false);
    assert_eq!(b.text(), "    a");
    for (before, left) in [("\t  ", "\t"), ("\t", ""), ("  \t", ""), ("      ", "    "), ("\t\t ", "\t\t"), (" \t     ", " \t    ")] {
        let mut b = code(before, 0, before.len());
        b.key("Backspace", false);
        assert_eq!(b.text(), left);
    }
    // Other white space counts as a column too.
    for (before, left) in [("\u{3000}  ", ""), (" \u{a0}   ", " \u{a0}  "), ("\t\u{2003}", "\t")] {
        let mut b = code(before, 0, before.chars().count());
        b.key("Backspace", false);
        assert_eq!(b.text(), left);
    }
    let mut c = code("x  ", 0, 3);
    c.key("Backspace", false);
    assert_eq!(c.text(), "x ");
}

// --- Pointer ------------------------------------------------------------------

#[test]
fn clicks_place_and_select() {
    let mut b = boxed("x = foo.bar;\nsecond");
    b.mouse(Some(at(0, 5)), 2);
    assert_eq!(b.copy(), Some("foo".to_string()));
    b.mouse(Some(at(1, 2)), 3);
    assert!(matches!(b.doc.sel, Selection::Line(_)));
    assert_eq!(b.copy(), Some("second".to_string()));
    b.mouse(Some(at(0, 1)), 0);
    assert_eq!(b.copy(), None);
    b.mouse(None, 1);
    assert_eq!(caret(&b), (0, 1));
}

#[test]
fn cut_and_paste_restore_the_text() {
    let mut b = boxed("one\ntwo\nthree");
    b.mouse(Some(at(0, 1)), 0);
    b.mouse(Some(at(2, 2)), 1);
    let cut = b.cut().unwrap();
    assert_eq!(cut, "ne\ntwo\nth");
    assert_eq!(b.text(), "oree");
    b.insert(&cut);
    assert_eq!(b.text(), "one\ntwo\nthree");
    assert_eq!(b.cut(), None);
}

#[test]
fn select_all_selects_the_text() {
    let mut b = boxed("a\n\nb");
    b.select_all();
    assert_eq!(b.copy(), Some("a\n\nb".to_string()));
}

// --- Offsets, prefixes, completion -----------------------------------------------

#[test]
fn caret_offset_counts_characters() {
    let mut b = boxed("aé\nb");
    assert_eq!(b.caret_offset(), 4);
    for off in 0..=4 {
        let c = b.doc.cursor_at(off);
        assert_eq!(b.doc.offset_of(c), off);
    }
    assert_eq!(b.doc.cursor_at(99), at(1, 1));
    b.goto_line(0);
    assert_eq!(b.caret_offset(), 0);
    b.goto_line(99);
    assert_eq!(caret(&b), (1, 0));
}

#[test]
fn prefixes_before_the_caret() {
    let b = boxed("x.foo_1");
    assert_eq!(b.word_prefix(), "foo_1");
    assert_eq!(boxed("a ").word_prefix(), "");
    assert_eq!(boxed("日本").word_prefix(), "日本");
    assert_eq!(prefix_in("abc", &vec![true, false, true], 3), "c");
    assert_eq!(boxed("/code-review").slash_prefix(), "/code-review");
    assert_eq!(boxed("/").slash_prefix(), "/");
    assert_eq!(boxed("/co de").slash_prefix(), "");
    assert_eq!(boxed("co").slash_prefix(), "");
    assert_eq!(boxed("x\n/co").slash_prefix(), "");
}

#[test]
fn completion_replaces_the_prefix_in_one_step() {
    let mut b = boxed("x.fo");
    b.complete(2, "foo()");
    assert_eq!(b.text(), "x.foo()");
    b.undo();
    assert_eq!(b.text(), "x.fo");
}

// --- Find and replace --------------------------------------------------------------

#[test]
fn find_selects_the_next_match() {
    let mut b = boxed("ab ab\nab");
    b.mouse(Some(at(0, 0)), 0);
    assert!(b.find("ab", true, true));
    assert_eq!(caret(&b), (0, 2));
    assert!(b.find("ab", true, true));
    assert_eq!(caret(&b), (0, 5));
    assert!(b.find("AB", true, false));
    assert_eq!(caret(&b), (1, 2));
    assert!(b.find("ab", true, true));
    assert_eq!(caret(&b), (0, 2));
    assert!(!b.find("AB", true, true));
    assert!(!b.find("", true, true));
    assert!(b.find("ab", false, true));
    assert_eq!(caret(&b), (1, 2));
}

#[test]
fn replace_selection_and_all() {
    let mut b = boxed("one two one");
    b.replace_selection("x");
    assert_eq!(b.text(), "one two one");
    assert!(b.find("two", true, true));
    b.replace_selection("2");
    assert_eq!(b.text(), "one 2 one");
    assert_eq!(b.replace_all("one", "1\n", true), 2);
    assert_eq!(b.text(), "1\n 2 1\n");
    assert_eq!(caret(&b), (0, 0));
    b.undo();
    assert_eq!(b.text(), "one 2 one");
    assert_eq!(b.replace_all("zzz", "", true), 0);
    assert_eq!(b.replace_all("", "x", true), 0);
}

// --- Line operations -----------------------------------------------------------------

#[test]
fn line_operations_follow_the_selection() {
    let mut b = code("a\nb\nc", 0, 0);
    b.mouse(Some(at(1, 1)), 1);
    b.indent();
    assert_eq!(b.text(), "    a\n    b\nc");
    b.outdent();
    assert_eq!(b.text(), "a\nb\nc");
    b.toggle_comment();
    assert_eq!(b.text(), "// a\n// b\nc");
    b.toggle_comment();
    assert_eq!(b.text(), "a\nb\nc");
    b.undo();
    assert_eq!(b.text(), "// a\n// b\nc");
}

#[test]
fn lines_move_and_double() {
    let mut b = code("a\nb\nc", 1, 1);
    b.move_line_up();
    assert_eq!(b.text(), "b\na\nc");
    assert_eq!(caret(&b), (0, 1));
    b.move_line_up();
    assert_eq!(b.text(), "b\na\nc");
    b.move_line_down();
    assert_eq!(b.text(), "a\nb\nc");
    b.duplicate_line();
    assert_eq!(b.text(), "a\nb\nb\nc");
    b.delete_line();
    assert_eq!(b.text(), "a\nb\nc");
    let mut one = code("only", 0, 2);
    one.delete_line();
    assert_eq!(one.text(), "");
}

#[test]
fn splicing_replaces_exactly_those_lines() {
    let mut b = boxed("a\nb\nc");
    b.splice_lines(2, 2, &vec!["x".to_string(), "y".to_string()], at(2, 0), None);
    assert_eq!(b.text(), "a\nb\nx\ny");
    b.splice_lines(0, 9, &vec![], at(0, 0), None);
    assert_eq!(b.text(), "");
    assert_eq!(b.lines_in_range(0, 0), vec![""]);
}

#[test]
fn using_goes_behind_the_last_one() {
    let mut b = boxed("using A;\nusing B;\n\nclass C {}");
    b.add_using("D.E");
    assert_eq!(b.text(), "using A;\nusing B;\nusing D.E;\n\nclass C {}");
    b.add_using("A");
    assert_eq!(b.text(), "using A;\nusing B;\nusing D.E;\n\nclass C {}");
    b.add_using("  ");
    assert_eq!(b.text(), "using A;\nusing B;\nusing D.E;\n\nclass C {}");
}

#[test]
fn a_using_at_the_end_becomes_the_last_line() {
    let mut b = boxed("using A;");
    b.add_using("B");
    assert_eq!(b.text(), "using A;\nusing B;");
    b.add_using("B");
    assert_eq!(b.text(), "using A;\nusing B;");
    assert_eq!(caret(&b), (0, 8));
    b.undo();
    assert_eq!(b.text(), "using A;");
    let mut c = boxed("// header\nclass C {}");
    c.add_using("B");
    assert_eq!(c.text(), "// header\nusing B;\nclass C {}");
    let mut d = boxed("// header");
    d.add_using("B");
    assert_eq!(d.text(), "// header\nusing B;");
    // What is selected stays in the text.
    let mut e = boxed("using A;\nclass C {}");
    e.select_all();
    e.add_using("B");
    assert_eq!((e.text(), caret(&e)), ("using A;\nusing B;\nclass C {}".to_string(), (2, 10)));
    assert_eq!(e.copy(), None);
}

// --- Diff blocks --------------------------------------------------------------------

fn hunk(old_start: usize, old_len: usize, new_start: usize, new_len: usize) -> ShownHunk {
    ShownHunk { hunk: Hunk { old_start, old_len, new_start, new_len }, staged: false, index_new: None }
}

fn diffed(text: &str, head: &str, hunks: Vec<ShownHunk>) -> InputBox {
    let mut b = boxed(text);
    assert!(b.set_diff(Some(head.to_string()), Some(head.to_string()), vec![]));
    assert!(b.diff_is_stale());
    b.show_hunks(hunks);
    assert!(!b.diff_is_stale());
    b
}

#[test]
fn unchanged_versions_keep_the_peek() {
    let mut b = diffed("x", "a", vec![hunk(0, 1, 0, 1)]);
    assert!(b.hover(true, Some(0)));
    assert!(!b.hover(true, Some(0)));
    assert!(!b.set_diff(Some("a".to_string()), Some("a".to_string()), vec![]));
    assert!(b.peek.is_some());
    assert!(b.set_diff(None, Some("a".to_string()), vec![]));
    assert!(b.peek.is_none());
}

#[test]
fn peek_shows_removed_then_added() {
    let mut b = diffed("a\nX\nc", "a\nb\nc", vec![hunk(1, 1, 1, 1)]);
    assert!(b.hover(true, Some(1)));
    assert_eq!(b.peek.as_ref().unwrap().text(10), "\u{2212} b\n+ X");
    assert_eq!(b.peek.as_ref().unwrap().text(1), "\u{2212} b");
    assert!(b.hover(false, Some(1)));
    assert!(b.peek.is_none());
    assert!(!b.hover(true, None));
    // A change that lives in the index alone shows the lines of the index.
    let mut b = boxed("a");
    b.set_diff(Some("a".to_string()), Some("a\nstaged".to_string()), vec![]);
    b.show_hunks(vec![ShownHunk { staged: true, index_new: Some((1, 1)), ..hunk(1, 0, 1, 0) }]);
    assert!(b.hunk_staged(0) && b.hunk_staged_only(0) && !b.hunk_staged(1));
    assert!(b.hover(true, Some(0)));
    assert_eq!(b.peek.as_ref().unwrap().text(5), "+ staged");
}

#[test]
fn hunks_are_hit_with_a_line_of_slack() {
    let b = diffed("0\n1\n2\n3\n4\n5", "0", vec![hunk(1, 0, 2, 2)]);
    for (line, hit) in [(0, None), (1, Some(0)), (2, Some(0)), (3, Some(0)), (4, Some(0)), (5, None)] {
        assert_eq!(b.hunk_at(true, Some(line)), hit, "line {line}");
    }
    assert_eq!(b.hunk_at(false, Some(2)), None);
    // A deletion behind the last line is shown at the last line.
    let d = diffed("0\n1\n2", "0\n1\n2\n3", vec![hunk(3, 1, 3, 0)]);
    assert_eq!(d.hunk_index_for_line(2), Some(0));
    assert_eq!(d.hunk_index_for_line(1), Some(0));
    assert_eq!(d.hunk_index_for_line(0), None);
}

#[test]
fn reverting_restores_the_base() {
    let mut b = diffed("a\nX\nY\nc", "a\nb\nc", vec![hunk(1, 1, 1, 2)]);
    b.revert_hunk(0);
    assert_eq!(b.text(), "a\nb\nc");
    b.undo();
    assert_eq!(b.text(), "a\nX\nY\nc");
    // An addition is deleted, a deletion comes back, before a line or behind the last.
    let mut b = diffed("a\nX\nc", "a\nc", vec![hunk(1, 0, 1, 1)]);
    b.revert_hunk(0);
    assert_eq!(b.text(), "a\nc");
    let mut b = diffed("a\nc", "a\nb\nc", vec![hunk(1, 1, 1, 0)]);
    b.revert_hunk(0);
    assert_eq!(b.text(), "a\nb\nc");
    let mut b = diffed("a", "a\nb", vec![hunk(1, 1, 1, 0)]);
    b.revert_hunk(0);
    assert_eq!(b.text(), "a\nb");
    b.revert_hunk(7);
    assert_eq!(b.text(), "a\nb");
}

#[test]
fn staged_blocks_overlap_or_not() {
    let mut b = boxed("a\nb\nc\nd\ne\nf");
    let staged = |old_start, old_len| Hunk { old_start, old_len, new_start: 0, new_len: 1 };
    assert!(b.set_diff(Some("x".to_string()), Some("y".to_string()), vec![staged(1, 2), staged(5, 0)]));
    b.show_hunks(vec![hunk(2, 1, 2, 1), hunk(3, 1, 3, 2), hunk(5, 0, 5, 1), hunk(3, 0, 3, 1), hunk(4, 0, 4, 1), hunk(4, 1, 4, 2)]);
    let has: Vec<bool> = (0..7).map(|i| b.hunk_has_staged(i)).collect();
    assert_eq!(has, vec![true, false, true, true, false, true, false]);
    assert!(!b.hunk_staged(0));
}

#[test]
fn the_gutter_marks_lines() {
    let mut b = boxed("a\nb\nc\nd");
    let mut cut = hunk(9, 2, 4, 0);
    cut.staged = true;
    let mut fresh = hunk(2, 0, 2, 1);
    fresh.staged = true;
    b.show_hunks(vec![hunk(0, 1, 0, 2), fresh, hunk(5, 1, 1, 0), cut]);
    let m = b.marker_at(0);
    assert!(m.modified && !m.added && !m.staged && !m.deleted_above && !m.deleted_below);
    let m = b.marker_at(1);
    assert!(m.modified && m.deleted_above && !m.staged_deletion);
    let m = b.marker_at(2);
    assert!(m.added && !m.modified && m.staged);
    let m = b.marker_at(3);
    assert!(!m.added && !m.modified && m.deleted_below && m.staged_deletion && !m.deleted_above);
}

#[test]
fn staging_hands_over_index_and_lines() {
    let b = diffed("a\nX", "a\nb", vec![hunk(1, 1, 1, 1)]);
    assert_eq!(b.stage_hunk_content(0), Some(("a\nb".to_string(), "a\nX".to_string(), (1, 1))));
    assert_eq!(b.unstage_hunk_content(0), Some(("a\nb".to_string(), "a\nb".to_string(), (1, 1))));
    assert_eq!(b.stage_hunk_content(1), None);
    assert_eq!(boxed("x").unstage_hunk_content(0), None);
}

// --- Gutter and look ------------------------------------------------------------------

#[test]
fn breakpoints_are_a_sorted_set() {
    let mut b = boxed("");
    b.set_breakpoints(&vec![7, 3, 7, 1]);
    assert_eq!(b.breakpoints(), vec![1, 3, 7]);
    b.toggle_breakpoint(3);
    b.toggle_breakpoint(4);
    assert_eq!(b.breakpoints(), vec![1, 4, 7]);
    assert!(b.has_breakpoint(4) && !b.has_breakpoint(3));
    b.toggle_breakpoint(4);
    b.toggle_breakpoint(4);
    assert_eq!(b.breakpoints(), vec![1, 4, 7]);
}

#[test]
fn gutter_and_exec_line() {
    let mut b = boxed("x");
    b.set_gutter(true);
    b.set_bp_gutter(true);
    b.set_exec_line(Some(4));
    assert!(b.gutter.shown && b.gutter.bp_column);
    assert_eq!(b.gutter.exec_line, Some(4));
    b.set_exec_line(None);
    assert_eq!(b.gutter.exec_line, None);
}

#[test]
fn scrolling_drops_the_peek() {
    let mut b = diffed("x", "a", vec![hunk(0, 1, 0, 1)]);
    b.hover(true, Some(0));
    b.scrolled();
    assert!(b.peek.is_none());
}

#[test]
fn highlighting_is_due_once_per_edit() {
    let mut b = boxed("x");
    assert!(b.highlight_is_stale());
    b.highlighted();
    assert!(!b.highlight_is_stale());
    assert!(b.take_attrs_dirty());
    assert!(!b.take_attrs_dirty());
    b.insert("y");
    assert!(b.highlight_is_stale());
    b.highlighted();
    assert!(b.set_language(Some("cs".to_string())));
    assert!(!b.set_language(Some("cs".to_string())));
    assert!(b.highlight_is_stale());
    b.highlighted();
    b.set_dark(true);
    assert!(!b.highlight_is_stale());
    b.set_dark(false);
    assert!(b.highlight_is_stale());
    b.take_attrs_dirty();
    b.restyle();
    assert!(b.take_attrs_dirty());
}

// --- Popup --------------------------------------------------------------------------

#[test]
fn popup_keeps_the_selected_row_in_view() {
    let mut b = boxed("");
    let items: Vec<String> = (0..20).map(|i| format!("Mitem{i}")).collect();
    b.set_completions(items, 15);
    let (top, rows) = b.popup_rows(30);
    assert_eq!((top, rows.len()), (6, 10));
    assert_eq!(rows[9], ('M', "item15".to_string()));
    let (top, rows) = b.popup_rows(0);
    assert_eq!((top, rows.len()), (15, 1));
    b.set_completions(vec!["Kx".to_string(), String::new()], 9);
    let (top, rows) = b.popup_rows(5);
    assert_eq!(top, 0);
    assert_eq!(rows, vec![('K', "x".to_string()), (' ', String::new())]);
    b.set_completions(vec![], 3);
    assert!(b.popup_rows(5).1.is_empty());
}

#[test]
fn labels_are_colored_by_kind() {
    assert_eq!(popup_label_spans("Foo(T) : R", 'M'), vec![(0, 3, "function"), (3, 10, "type")]);
    assert_eq!(popup_label_spans("name : int", 'P'), vec![(0, 4, "property"), (4, 10, "type")]);
    assert_eq!(popup_label_spans("plain", 'F'), vec![(0, 5, "variable")]);
    assert_eq!(popup_label_spans("plain", '?'), vec![]);
    assert_eq!(popup_label_spans("(x)", 'M'), vec![(0, 3, "type")]);
    for (kind, capture) in [
        ('X', "function"), ('V', "property"), ('L', "variable"), ('A', "variable"), ('T', "type"), ('E', "type"),
        ('U', "type"), ('N', "namespace"), ('C', "constant"), ('K', "keyword"), ('S', "keyword"),
    ] {
        assert_eq!(kind_capture(kind), Some(capture));
    }
}

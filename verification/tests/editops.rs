use unterm::editops::{
    auto_indent, duplicate, find, indent, move_down, move_up, outdent, replace_all, to_lines, toggle_comment, word_at,
    word_left, word_right,
};

#[test]
fn word_boundaries_are_code_aware() {
    // '.' splits member access...
    assert_eq!(word_left("foo.bar", 7), 4); // delete "bar"
    assert_eq!(word_left("foo.bar", 4), 3); // delete "."
    assert_eq!(word_left("a.b.c", 5), 4);
    // ...but a float literal stays one word.
    assert_eq!(word_left("1.0f", 4), 0);
    assert_eq!(word_left("x = 1.0f", 8), 4);
    // forward
    assert_eq!(word_right("foo.bar", 0), 3);
    assert_eq!(word_right("1.0f;", 0), 4);
    // whitespace skipping
    assert_eq!(word_left("foo   ", 6), 0);
}

#[test]
fn word_at_selects_code_token() {
    assert_eq!(word_at("foo.bar", 5), (4, 7)); // "bar"
    assert_eq!(word_at("foo.bar", 0), (0, 3)); // "foo"
    assert_eq!(word_at("foo.bar", 3), (3, 4)); // "."
    assert_eq!(word_at("x = 1.0f;", 6), (4, 8)); // "1.0f"
}

#[test]
fn replace_all_counts() {
    assert_eq!(replace_all("a.a.a", "a", "X", true), ("X.X.X".to_string(), 3));
    assert_eq!(replace_all("Foo foo", "foo", "bar", false), ("bar bar".to_string(), 2));
    assert_eq!(replace_all("abc", "x", "y", true), ("abc".to_string(), 0));
}

#[test]
fn auto_indent_carries_and_opens() {
    assert_eq!(auto_indent("    foo", 7), "\n    ");
    assert_eq!(auto_indent("    if (x) {", 12), "\n        "); // +1 level after {
    assert_eq!(auto_indent("noindent", 8), "\n");
}

#[test]
fn indent_outdent_roundtrip() {
    let mut l = to_lines("a\n  b\n");
    indent(&mut l, 0, 2);
    // Blank lines aren't indented (no trailing whitespace).
    assert_eq!(l, vec!["    a", "      b", ""]);
    outdent(&mut l, 0, 2);
    assert_eq!(l, vec!["a", "  b", ""]);
}

#[test]
fn outdent_handles_tab_and_short() {
    let mut tab = to_lines("\tx");
    outdent(&mut tab, 0, 0);
    assert_eq!(tab, vec!["x"]);
    let mut short = to_lines("  y");
    outdent(&mut short, 0, 0); // 2 spaces < 4
    assert_eq!(short, vec!["y"]);
}

#[test]
fn comment_toggle() {
    let mut l = to_lines("  a\n  b");
    toggle_comment(&mut l, 0, 1, "// ");
    assert_eq!(l, vec!["  // a", "  // b"]);
    toggle_comment(&mut l, 0, 1, "// ");
    assert_eq!(l, vec!["  a", "  b"]);
}

#[test]
fn line_ops() {
    let mut up = to_lines("a\nb\nc");
    move_up(&mut up, 2);
    assert_eq!(up, vec!["a", "c", "b"]);
    let mut down = to_lines("a\nb\nc");
    move_down(&mut down, 0);
    assert_eq!(down, vec!["b", "a", "c"]);
    let mut dup = to_lines("a\nb\nc");
    duplicate(&mut dup, 1, 1);
    assert_eq!(dup, vec!["a", "b", "b", "c"]);
}

#[test]
fn find_wraps_and_cases() {
    let t = "abc ABC abc";
    assert_eq!(find(t, "abc", 0, true, true), Some((0, 3)));
    assert_eq!(find(t, "abc", 1, true, true), Some((8, 11)));
    assert_eq!(find(t, "abc", 9, true, true), Some((0, 3))); // wrap
    assert_eq!(find(t, "abc", 0, true, false), Some((0, 3)));
    assert_eq!(find(t, "ABC", 1, false, true), Some((4, 7)));
    assert_eq!(find(t, "zzz", 0, true, true), None);
}

#[test]
fn tokens_part_the_line() {
    assert_eq!(word_at("", 3), (0, 0));
    for line in ["foo.bar(1.5f, x)  // é", "  a", "a b", "..", " ", "日本\u{3000}語\u{a0}x", "é2٣ \u{2003}_"] {
        let n = line.chars().count();
        for col in 0..n + 2 {
            let (s, e) = word_at(line, col);
            let i = col.min(n - 1);
            assert!(s <= i && i < e && e <= n, "{line} {col}");
            for j in s..e {
                assert_eq!(word_at(line, j), (s, e));
            }
            if e < n {
                assert_eq!(word_at(line, e).0, e);
            }
        }
    }
}

#[test]
fn replacing_counts_what_a_search_finds() {
    for (text, query, repl) in [("aaaa", "aa", "b"), ("abc", "x", "yy"), ("ababab", "ab", ""), ("", "a", "b")] {
        let (out, n) = replace_all(text, query, repl, true);
        assert_eq!(n == 0, find(text, query, 0, true, true).is_none());
        assert_eq!(out, text.replace(query, repl));
        assert_eq!(n as usize, text.matches(query).count());
        assert_eq!(out.len() + n as usize * query.len(), text.len() + n as usize * repl.len());
    }
}

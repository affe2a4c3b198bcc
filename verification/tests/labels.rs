use thoughtgraph::label::{escape_label, wrap_label};

#[test]
fn escaping_quotes_backslashes_and_line_breaks() {
    assert_eq!(escape_label("plain"), "plain");
    assert_eq!(escape_label("say \"hi\""), "say \\\"hi\\\"");
    assert_eq!(escape_label("a\\b"), "a\\\\b");
    assert_eq!(escape_label("a\r\nb\r"), "a\\nb");
    assert_eq!(escape_label(""), "");
    assert_eq!(escape_label("产品\"速度\""), "产品\\\"速度\\\"");
}

#[test]
fn escaping_goes_piece_by_piece() {
    let a = "one \"two\\";
    let b = "\"\n three";
    let both = format!("{}{}", a, b);
    assert_eq!(escape_label(&both), format!("{}{}", escape_label(a), escape_label(b)));
}

#[test]
fn short_labels_are_only_escaped() {
    for text in ["", "hello", "two\nlines", "a \"b\" \\c", "fifteen letters"] {
        assert_eq!(wrap_label(text, 16), escape_label(text));
    }
    assert_eq!(wrap_label("a\r\nb", 16), "a\\nb");
}

#[test]
fn full_lines_are_broken_at_the_last_space() {
    assert_eq!(wrap_label("hello world foo bar", 10), "hello\\nworld foo\\nbar");
    assert_eq!(wrap_label("the quick brown fox jumps", 16), "the quick brown\\nfox jumps");
}

#[test]
fn a_line_with_a_space_is_broken_there() {
    assert_eq!(wrap_label("a bcdefgh", 8), "a\\nbcdefgh");
    assert_eq!(wrap_label("a bcdefghijkl", 10), "a\\nbcdefghijk\\nl");
    assert_eq!(wrap_label("abcde fghijkl", 10), "abcde\\nfghijkl");
    assert_eq!(wrap_label("abcd efghijkl", 10), "abcd\\nefghijkl");
    assert_eq!(wrap_label(" abcdefgh", 4), "\\nabcd\\nefgh\\n");
}

#[test]
fn only_the_space_character_counts_as_space() {
    assert_eq!(wrap_label("ab\tcdef", 4), "ab\tc\\ndef");
    assert_eq!(wrap_label("ab\u{3000}cdef", 4), "ab\u{3000}c\\ndef");
}

#[test]
fn text_without_spaces_is_broken_where_the_line_is_full() {
    assert_eq!(wrap_label("12345678901234567", 16), "1234567890123456\\n7");
    assert_eq!(
        wrap_label("一二三四五六七八九十一二三四五六七八", 16),
        "一二三四五六七八九十一二三四五六\\n七八"
    );
}

#[test]
fn a_line_that_is_just_full_is_followed_by_an_empty_one() {
    assert_eq!(wrap_label("1234567890123456", 16), "1234567890123456\\n");
    assert_eq!(wrap_label("1234567890123456\nx", 16), "1234567890123456\\n\\nx");
}

#[test]
fn escapes_do_not_count_as_width() {
    assert_eq!(wrap_label("\"\"\"\"", 4), "\\\"\\\"\\\"\\\"\\n");
    assert_eq!(wrap_label("\\\\\\x", 3), "\\\\\\\\\\\\\\nx");
}

#[test]
fn a_label_without_width_has_one_character_a_line() {
    assert_eq!(wrap_label("ab", 0), "a\\nb\\n");
    assert_eq!(wrap_label("a b", 0), "a\\n\\nb\\n");
    assert_eq!(wrap_label("", 0), "");
}

#[test]
fn lines_fit_and_keep_their_text() {
    let text = "It was the best of times, it was the worst of times, it was the age of wisdom";
    for width in [1, 2, 5, 16, 40, 200] {
        let out = wrap_label(text, width);
        for line in out.split("\\n") {
            assert!(line.chars().count() <= width);
        }
        let shown: String = out.replace("\\n", "").replace(' ', "");
        assert_eq!(shown, text.replace(' ', ""));
    }
}

fn unescape(text: &str) -> String {
    let mut out = String::new();
    let mut chars = text.chars();
    while let Some(c) = chars.next() {
        match c {
            '\\' => match chars.next() {
                Some('n') => out.push('\n'),
                Some(d) => out.push(d),
                None => panic!("a backslash is left over"),
            },
            '"' => panic!("a quote ends the string"),
            _ => out.push(c),
        }
    }
    out
}

#[test]
fn escaping_loses_only_carriage_returns() {
    for text in ["", "a\"b\\c\nd", "\\n", "\r\n\r", "\\\"", "图 \"记忆\" 中心"] {
        assert_eq!(unescape(&escape_label(text)), text.replace('\r', ""));
    }
}

#[test]
fn labels_can_stand_between_quotes() {
    let text = "\"\\\"\\ \"quoted\" \\ and \\\\ more\n\"\\";
    for width in 0..20 {
        unescape(&wrap_label(text, width));
    }
}

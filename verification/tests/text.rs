use velnor_actions_generator::text::{
    cat2, cat3, cat4, cat5, chars_of, comes_before, cut, decimal_text, find_char, has_char,
    has_suffix, has_text, join_texts, lists, replace_text, same_text, split_lines, trim_text,
    white_space,
};

fn strings(items: &[&str]) -> Vec<String> {
    items.iter().map(|item| item.to_string()).collect()
}

#[test]
fn white_space_is_the_unicode_property() {
    for code in 0..=0x10ffff_u32 {
        if let Some(c) = char::from_u32(code) {
            assert_eq!(white_space(c), c.is_whitespace(), "U+{code:04X}");
        }
    }
}

#[test]
fn trims_both_ends_only() {
    for text in ["", " ", "a", " a b\t\n", "\u{3000}x\u{a0}", "\t\t", "commit\tabc\n"] {
        assert_eq!(trim_text(text), text.trim());
    }
    assert_eq!(trim_text("\u{2028} a b \u{85}"), "a b");
}

#[test]
fn splits_lines_as_the_standard_library_does() {
    let samples = [
        "", "\n", "\r\n", "\r", "a", "a\n", "a\nb", "a\r\nb\r\n", "a\r\r\nb\r", "\n\n\na\n\nb",
        "é\nü\r\n", "\r\n\r\nx",
    ];
    for text in samples {
        let expected: Vec<String> =
            text.lines().filter(|line| !line.is_empty()).map(str::to_string).collect();
        assert_eq!(split_lines(text), expected, "{text:?}");
    }
    assert_eq!(split_lines("a\r\n\nb\r"), strings(&["a", "b\r"]));
}

#[test]
fn cuts_at_the_first_separator() {
    assert_eq!(cut("path\tmode\tsha", '\t'), ("path", "mode\tsha"));
    assert_eq!(cut("no tab", '\t'), ("no tab", ""));
    assert_eq!(cut("", '/'), ("", ""));
    assert_eq!(cut("/x", '/'), ("", "x"));
    assert_eq!(cut("é/ü/ß", '/'), ("é", "ü/ß"));
    assert_eq!(find_char("é/ü", '/'), 1);
    assert_eq!(find_char("éü", '/'), 2);
    assert!(has_char("éü", 'ü'));
    assert!(!has_char("", 'ü'));
}

#[test]
fn replaces_from_the_left_without_overlaps() {
    let samples = [
        ("aaaa", "aa", "b"),
        ("aaa", "aa", "b"),
        ("", "a", "b"),
        ("@X@ and @X@", "@X@", "@X@@X@"),
        ("é@X@ü", "@X@", "ß"),
        ("@X@", "@X@", ""),
        ("abc", "abcd", "x"),
        ("@@X@X@@", "@X@", "-"),
    ];
    for (text, pattern, with) in samples {
        assert_eq!(replace_text(text, pattern, with), text.replace(pattern, with));
    }
    assert_eq!(replace_text("aaaaa", "aa", "b"), "bba");
}

#[test]
fn searches_texts() {
    for (text, pattern) in [("a..b", ".."), ("a.b.", ".."), ("", ""), ("", "x"), ("xyz", "")] {
        assert_eq!(has_text(text, pattern), text.contains(pattern));
        assert_eq!(has_suffix(text, pattern), text.ends_with(pattern));
    }
    assert!(has_suffix("tool.tar.gz", ".tar.gz"));
    assert!(!has_suffix("tar.gz", ".tar.gz"));
    assert!(has_text("end..", ".."));
}

#[test]
fn orders_texts_as_string_slices_are_ordered() {
    let samples = ["", "a", "ab", "abc", "b", "A", "é", "\u{ffff}", "\u{10000}", "a\u{10000}", "a/b", "a.b"];
    for left in samples {
        for right in samples {
            assert_eq!(comes_before(left, right), left < right, "{left:?} {right:?}");
            assert_eq!(same_text(left, right), left == right);
        }
    }
}

#[test]
fn prints_numbers_in_decimal() {
    for n in [0, 1, 9, 10, 99, 100, 1234567890, usize::MAX] {
        assert_eq!(decimal_text(n), n.to_string());
    }
}

#[test]
fn joins_and_concatenates() {
    assert_eq!(join_texts(&strings(&[]), ", "), "");
    assert_eq!(join_texts(&strings(&["a"]), ", "), "a");
    assert_eq!(join_texts(&strings(&["a", "", "c"]), ", "), "a, , c");
    assert_eq!(cat2("a", "b"), "ab");
    assert_eq!(cat3("a", "", "c"), "ac");
    assert_eq!(cat4("a", "b", "c", "d"), "abcd");
    assert_eq!(cat5("a", "b", "c", "d", "é"), "abcdé");
    assert_eq!(chars_of("aé"), vec!['a', 'é']);
    assert!(lists(&strings(&["a", "b"]), "b"));
    assert!(!lists(&strings(&["a", "b"]), "c"));
}

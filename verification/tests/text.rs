use dirtree::text::{is_blank, join_strings, split_words};

fn strings(parts: &[&str]) -> Vec<String> {
    let mut all = Vec::new();
    for part in parts {
        all.push(part.to_string());
    }
    all
}

#[test]
fn join_puts_the_separator_between_neighbours() {
    assert_eq!(join_strings(&strings(&[]), '/'), "");
    assert_eq!(join_strings(&strings(&["a"]), '/'), "a");
    assert_eq!(join_strings(&strings(&["a", "b"]), '/'), "a/b");
    assert_eq!(join_strings(&strings(&["a", "", "b"]), '\n'), "a\n\nb");
    assert_eq!(join_strings(&strings(&["", ""]), '/'), "/");
}

#[test]
fn words_are_the_stretches_without_white_space() {
    assert_eq!(split_words("CREATE a"), strings(&["CREATE", "a"]));
    assert_eq!(split_words("  MOVE   a/b \t c  "), strings(&["MOVE", "a/b", "c"]));
    assert_eq!(split_words("LIST"), strings(&["LIST"]));
    assert_eq!(split_words("a\nb\r\nc"), strings(&["a", "b", "c"]));
}

#[test]
fn words_are_parted_by_any_white_space() {
    assert_eq!(split_words("a\u{a0}b\u{3000}c\u{2003}d"), strings(&["a", "b", "c", "d"]));
    assert_eq!(split_words("a\u{200b}b"), strings(&["a\u{200b}b"]));
}

#[test]
fn text_without_words_has_none() {
    assert_eq!(split_words(""), strings(&[]));
    assert_eq!(split_words("   "), strings(&[]));
    assert_eq!(split_words(" \t\n"), strings(&[]));
}

#[test]
fn words_agree_with_the_standard_split() {
    for text in ["", " ", "a", " a", "a ", "a b", "  a  b  ", "a\tb c\u{a0}d", "😀 é"] {
        let mut expected = Vec::new();
        for word in text.split_whitespace() {
            expected.push(word.to_string());
        }
        assert_eq!(split_words(text), expected);
    }
}

#[test]
fn blank_is_empty_or_white_space() {
    assert!(is_blank(""));
    assert!(is_blank(" "));
    assert!(is_blank(" \t \u{a0}\n"));
    assert!(!is_blank("a"));
    assert!(!is_blank("  a  "));
    assert!(!is_blank("   ."));
}

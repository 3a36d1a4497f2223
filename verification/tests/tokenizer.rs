use searchdb::text::tokenize;

#[test]
fn tokenizer_splits_on_non_word_bytes() {
    assert_eq!(tokenize("abc_def 12 ghi"), vec!["abc_def", "12", "ghi"]);
}

#[test]
fn tokenizer_lowercases_ascii() {
    assert_eq!(tokenize("HELLO, world!"), vec!["hello", "world"]);
}

#[test]
fn tokenizer_empty_text_has_no_terms() {
    assert_eq!(tokenize(""), Vec::<String>::new());
}

#[test]
fn tokenizer_separators_only_has_no_terms() {
    assert_eq!(tokenize(" ,;!?-\t\n()"), Vec::<String>::new());
}

#[test]
fn tokenizer_keeps_duplicates_in_order() {
    assert_eq!(tokenize("b a b"), vec!["b", "a", "b"]);
}

#[test]
fn tokenizer_term_at_start_and_end() {
    assert_eq!(tokenize("x"), vec!["x"]);
    assert_eq!(tokenize("one.two"), vec!["one", "two"]);
    assert_eq!(tokenize("..tail"), vec!["tail"]);
    assert_eq!(tokenize("head.."), vec!["head"]);
}

#[test]
fn tokenizer_underscore_and_digits_are_word_bytes() {
    assert_eq!(tokenize("__init__ v2_0-rc1"), vec!["__init__", "v2_0", "rc1"]);
}

#[test]
fn tokenizer_non_ascii_separates() {
    // each byte of a non-ASCII character is a separator
    assert_eq!(tokenize("h\u{e9}llo w\u{f6}rld"), vec!["h", "llo", "w", "rld"]);
    assert_eq!(tokenize("\u{c9}COLE"), vec!["cole"]);
    assert_eq!(tokenize("a\u{4e2d}\u{6587}b"), vec!["a", "b"]);
}

#[test]
fn tokenizer_bytes_next_to_the_ranges_separate() {
    // '@' is just below 'A', '[' just above 'Z', '`' just below 'a',
    // '{' just above 'z', '/' just below '0', ':' just above '9'
    assert_eq!(tokenize("a@b[c`d{e/f:g"), vec!["a", "b", "c", "d", "e", "f", "g"]);
    assert_eq!(tokenize("AZaz09"), vec!["azaz09"]);
}

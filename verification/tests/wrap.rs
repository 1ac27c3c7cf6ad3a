use rsslide::layout::wrap_text;

#[test]
fn wrap_text_short_fits_one_line() {
    assert_eq!(wrap_text("hello world", 20), vec!["hello world"]);
}

#[test]
fn wrap_text_breaks_at_max_chars() {
    assert_eq!(
        wrap_text("one two three four five", 10),
        vec!["one two", "three four", "five"]
    );
}

#[test]
fn wrap_text_empty_input() {
    assert!(wrap_text("", 20).is_empty());
}

#[test]
fn wrap_text_single_word_longer_than_limit() {
    assert_eq!(
        wrap_text("superlongwordthatexceedslimit", 10),
        vec!["superlongwordthatexceedslimit"]
    );
}

#[test]
fn wrap_text_preserves_paragraph_breaks() {
    assert_eq!(
        wrap_text("line one\nline two", 40),
        vec!["line one", "line two"]
    );
}

#[test]
fn wrap_text_counts_bytes_not_chars() {
    // "é" is two bytes: "éé éé" is 9 bytes, over a limit of 8.
    assert_eq!(wrap_text("éé éé", 8), vec!["éé", "éé"]);
    assert_eq!(wrap_text("éé éé", 9), vec!["éé éé"]);
}

#[test]
fn wrap_text_collapses_whitespace_and_skips_blank_lines() {
    assert_eq!(wrap_text("  a \t b  \n\n c ", 40), vec!["a b", "c"]);
    assert_eq!(wrap_text("a\r\nb", 40), vec!["a", "b"]);
}

#[test]
fn wrap_text_keeps_every_word_in_order() {
    let text = "the quick brown fox jumps over the lazy dog\nand keeps running far away";
    let lines = wrap_text(text, 12);
    let out: Vec<String> = lines
        .iter()
        .flat_map(|l| l.split_whitespace().map(|w| w.to_string()))
        .collect();
    let input: Vec<String> = text.split_whitespace().map(|w| w.to_string()).collect();
    assert_eq!(out, input);
    for l in &lines {
        assert!(!l.is_empty());
        assert!(l.len() <= 12 || !l.contains(' '), "{l}");
    }
}

#[test]
fn wrapped_lines_join_words_with_single_spaces() {
    assert_eq!(wrap_text("  one \t two   three  ", 40), vec!["one two three"]);
    assert_eq!(wrap_text("aa bb\ncc dd", 40), vec!["aa bb", "cc dd"]);
}

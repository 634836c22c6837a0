use breeze_asr::tokenizer::Tokenizer;

fn lines(items: &[&str]) -> Vec<Vec<u8>> {
    items.iter().map(|s| s.as_bytes().to_vec()).collect()
}

#[test]
fn test_tokenizer_loading() {
    let tokenizer = Tokenizer::from_lines(&lines(&["hello", "world"]));
    assert_eq!(tokenizer.decode(&[0, 1]), "helloworld");
}

#[test]
fn base64_entries_are_decoded() {
    // "aGVsbG8=" is standard base64 for "hello"; "IHdvcmxk 7" carries an id column.
    let tokenizer = Tokenizer::from_lines(&lines(&["aGVsbG8=", "IHdvcmxk 7"]));
    assert_eq!(tokenizer.decode(&[0, 1]), "hello world");
}

#[test]
fn unpadded_and_url_safe_entries_are_decoded() {
    // "aGk" is "hi" without padding; "-_8" is URL-safe for [0xfb, 0xff].
    let tokenizer = Tokenizer::from_lines(&lines(&["aGk", "-_8"]));
    assert_eq!(tokenizer.decode_bytes(&[0]), b"hi".to_vec());
    assert_eq!(tokenizer.decode_bytes(&[1]), vec![0xfb, 0xff]);
}

#[test]
fn padding_is_repaired() {
    // "aGVsbG8" needs one `=`: the unpadded engine accepts it as well.
    let tokenizer = Tokenizer::from_lines(&lines(&["aGVsbG8"]));
    assert_eq!(tokenizer.decode(&[0]), "hello");
}

#[test]
fn control_tokens_are_skipped() {
    // "PHxlbnw+" is "<|en|>"; "<|x|>" stays raw and is a control token too.
    let tokenizer = Tokenizer::from_lines(&lines(&["PHxlbnw+", "aGk=", "<|x|>", "<||>", "<|>", "<|", "|>"]));
    assert_eq!(tokenizer.decode(&[0, 1, 2]), "hi");
    // Short entries that start with `<|` and end with `|>` are control tokens too.
    assert_eq!(tokenizer.decode(&[3]), "");
    assert_eq!(tokenizer.decode(&[4]), "");
    assert_eq!(tokenizer.decode(&[5, 6]), "<||>");
}

#[test]
fn removing_control_ids_changes_nothing() {
    let tokenizer = Tokenizer::from_lines(&lines(&["PHxlbnw+", "aGk=", "IHdvcmxk"]));
    assert_eq!(tokenizer.decode(&[0, 1, 0, 2, 0]), tokenizer.decode(&[1, 2]));
}

#[test]
fn decoding_splits_over_concatenation() {
    let tokenizer = Tokenizer::from_lines(&lines(&["aGk=", "IHdvcmxk", "_w"]));
    let mut both = tokenizer.decode_bytes(&[0, 2]);
    both.extend(tokenizer.decode_bytes(&[1, 0]));
    assert_eq!(tokenizer.decode_bytes(&[0, 2, 1, 0]), both);
}

#[test]
fn unicode_whitespace_separates_fields() {
    // U+00A0 before the field, U+3000 and U+2003 after it.
    let tokenizer = Tokenizer::from_lines(&lines(&["\u{a0}aGk=\u{3000}5", "IHdvcmxk\u{2003}9", "\u{2028}"]));
    assert_eq!(tokenizer.decode(&[0, 1]), "hi world");
    assert_eq!(tokenizer.decode_bytes(&[2]), Vec::<u8>::new());
}

#[test]
fn unknown_ids_and_blank_lines_give_nothing() {
    let tokenizer = Tokenizer::from_lines(&lines(&["aGk=", "   ", "aGk="]));
    assert_eq!(tokenizer.decode(&[0, 1, 2, 99, -1]), "hihi");
    assert_eq!(tokenizer.decode(&[]), "");
}

#[test]
fn invalid_utf8_is_replaced() {
    // "_w" is URL-safe base64 for the single byte 0xff.
    let tokenizer = Tokenizer::from_lines(&lines(&["_w", "aGk="]));
    assert_eq!(tokenizer.decode(&[1, 0]), "hi\u{FFFD}");
}

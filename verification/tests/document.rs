use plaka::document::{Document, Error, Item};

fn strings(words: &[&str]) -> Vec<String> {
    words.iter().map(|w| w.to_string()).collect()
}

#[test]
fn empty_input_is_an_empty_document() {
    let doc = Document::parse_str("").unwrap();
    assert!(doc.items.is_empty());
}

#[test]
fn keyword_and_arguments_are_kept() {
    let doc = Document::parse_str("fingerprint AAAA BBBB\n").unwrap();
    assert_eq!(doc.items.len(), 1);
    assert_eq!(doc.items[0].keyword, "fingerprint");
    assert_eq!(doc.items[0].arguments, strings(&["AAAA", "BBBB"]));
    assert_eq!(doc.items[0].object, None);
}

#[test]
fn keyword_alone_has_no_arguments() {
    let doc = Document::parse_str("network-status-version\n").unwrap();
    assert_eq!(doc.items.len(), 1);
    assert_eq!(doc.items[0].keyword, "network-status-version");
    assert!(doc.items[0].arguments.is_empty());
    assert_eq!(doc.items[0].object, None);
}

#[test]
fn arguments_are_separated_by_runs_of_spaces_and_tabs() {
    let doc = Document::parse_str("r  one\t two \t\tthree\n").unwrap();
    assert_eq!(doc.items[0].keyword, "r");
    assert_eq!(doc.items[0].arguments, strings(&["one", "two", "three"]));
}

#[test]
fn arguments_may_hold_any_character_but_whitespace() {
    let doc = Document::parse_str("contact Zo\u{eb} <zoe@example.org> \u{1f9c5}=42\n").unwrap();
    assert_eq!(doc.items[0].keyword, "contact");
    assert_eq!(
        doc.items[0].arguments,
        strings(&["Zo\u{eb}", "<zoe@example.org>", "\u{1f9c5}=42"])
    );
}

#[test]
fn object_is_decoded() {
    let doc =
        Document::parse_str("signature x\n-----BEGIN X-----\nAAAA\n-----END X-----\n").unwrap();
    assert_eq!(doc.items.len(), 1);
    assert_eq!(doc.items[0].keyword, "signature");
    assert_eq!(doc.items[0].arguments, strings(&["x"]));
    assert_eq!(doc.items[0].object, Some(vec![0u8, 0, 0]));
}

#[test]
fn object_of_several_lines_is_decoded_as_one_text() {
    let input = "id ed25519\n-----BEGIN SIGNATURE-----\naGVsbG8g\nd29y\nbGQ=\n-----END SIGNATURE-----\n";
    let doc = Document::parse_str(input).unwrap();
    assert_eq!(doc.items[0].object, Some(b"hello world".to_vec()));
}

#[test]
fn object_lines_need_not_be_whole_groups() {
    let input = "k\n-----BEGIN X-----\naGVsb\nG8gd29ybG\nQ=\n-----END X-----\n";
    let doc = Document::parse_str(input).unwrap();
    assert_eq!(doc.items[0].object, Some(b"hello world".to_vec()));
}

#[test]
fn object_without_lines_is_empty() {
    let doc = Document::parse_str("k\n-----BEGIN X-----\n-----END X-----\n").unwrap();
    assert_eq!(doc.items[0].object, Some(Vec::new()));
}

#[test]
fn object_labels_may_hold_dashes_and_differ() {
    let input = "k\n-----BEGIN A-B-------\n/+8=\n-----END other-----\n";
    let doc = Document::parse_str(input).unwrap();
    assert_eq!(doc.items.len(), 1);
    assert_eq!(doc.items[0].object, Some(vec![0xff, 0xef]));
}

#[test]
fn item_without_object_has_none() {
    let doc = Document::parse_str("published 2024-01-01 00:00:00\n").unwrap();
    assert_eq!(doc.items[0].object, None);
}

#[test]
fn three_items_come_in_source_order() {
    let input = "first 1\nsecond\n-----BEGIN X-----\nAQID\n-----END X-----\nthird a b c\n";
    let doc = Document::parse_str(input).unwrap();
    assert_eq!(doc.items.len(), 3);
    assert_eq!(doc.items[0].keyword, "first");
    assert_eq!(doc.items[0].arguments, strings(&["1"]));
    assert_eq!(doc.items[0].object, None);
    assert_eq!(doc.items[1].keyword, "second");
    assert!(doc.items[1].arguments.is_empty());
    assert_eq!(doc.items[1].object, Some(vec![1u8, 2, 3]));
    assert_eq!(doc.items[2].keyword, "third");
    assert_eq!(doc.items[2].arguments, strings(&["a", "b", "c"]));
    assert_eq!(doc.items[2].object, None);
}

#[test]
fn equal_items_are_not_merged() {
    let doc = Document::parse_str("a 1\na 1\na 1\n").unwrap();
    assert_eq!(doc.items.len(), 3);
    assert_eq!(doc.items[0], doc.items[1]);
    assert_eq!(doc.items[1], doc.items[2]);
}

#[test]
fn parsing_twice_gives_equal_documents() {
    let input = "a 1 2\nb\n-----BEGIN X-----\nAAAA\n-----END X-----\n";
    let first = Document::parse_str(input).unwrap();
    let second = Document::parse_str(input).unwrap();
    assert_eq!(first, second);
    assert_eq!(Document::parse_str("a\nb").err(), Document::parse_str("a\nb").err());
}

#[test]
fn missing_last_newline_is_a_syntax_error() {
    assert_eq!(Document::parse_str("fingerprint AAAA BBBB").err(), Some(Error::PestFailure));
    assert_eq!(Document::parse_str("a\nb c").err(), Some(Error::PestFailure));
    assert_eq!(
        Document::parse_str("k\n-----BEGIN X-----\nAAAA\n-----END X-----").err(),
        Some(Error::PestFailure)
    );
}

#[test]
fn unterminated_object_is_a_syntax_error() {
    assert_eq!(
        Document::parse_str("signature x\n-----BEGIN X-----\nAA==\n").err(),
        Some(Error::PestFailure)
    );
    assert_eq!(
        Document::parse_str("signature x\n-----BEGIN X-----\nAAAA\n-----END X").err(),
        Some(Error::PestFailure)
    );
    assert_eq!(
        Document::parse_str("a 1\nsignature x\n-----BEGIN X-----\nAAAA\nA+/A\nnext item\n").err(),
        Some(Error::PestFailure)
    );
    assert_eq!(
        Document::parse_str("signature x\n-----BEGIN X-----\nAA==\n-----END X----\n").err(),
        Some(Error::PestFailure)
    );
}

#[test]
fn opening_line_without_a_complete_object_is_a_keyword_line() {
    let doc = Document::parse_str("a\n-----BEGIN X-----\nAAAA\n").unwrap();
    assert_eq!(doc.items.len(), 3);
    assert_eq!(doc.items[0].keyword, "a");
    assert_eq!(doc.items[1].keyword, "-----BEGIN");
    assert_eq!(doc.items[1].arguments, strings(&["X-----"]));
    assert_eq!(doc.items[2].keyword, "AAAA");
    assert_eq!(doc.items[0].object, None);
    assert_eq!(doc.items[1].object, None);
    assert_eq!(doc.items[2].object, None);
}

#[test]
fn malformed_lines_are_syntax_errors() {
    assert_eq!(Document::parse_str("\n").err(), Some(Error::PestFailure));
    assert_eq!(Document::parse_str(" a\n").err(), Some(Error::PestFailure));
    assert_eq!(Document::parse_str("a \n").err(), Some(Error::PestFailure));
    assert_eq!(Document::parse_str("a\n\nb\n").err(), Some(Error::PestFailure));
    assert_eq!(Document::parse_str("key_word 1\n").err(), Some(Error::PestFailure));
    assert_eq!(Document::parse_str("a b\n!\n").err(), Some(Error::PestFailure));
}

#[test]
fn body_outside_the_base64_characters_is_a_syntax_error() {
    let input = "a\n-----BEGIN X-----\n!!!!\n-----END X-----\n";
    assert_eq!(Document::parse_str(input).err(), Some(Error::PestFailure));
}

#[test]
fn body_that_cannot_be_decoded_is_invalid_base64() {
    let input = "a\n-----BEGIN X-----\nA===\n-----END X-----\n";
    assert_eq!(Document::parse_str(input).err(), Some(Error::InvalidBase64));
    let input = "a\n-----BEGIN X-----\nAAAAA\n-----END X-----\n";
    assert_eq!(Document::parse_str(input).err(), Some(Error::InvalidBase64));
    let input = "a\n-----BEGIN X-----\nAA=A\n-----END X-----\n";
    assert_eq!(Document::parse_str(input).err(), Some(Error::InvalidBase64));
}

#[test]
fn one_invalid_object_fails_the_whole_document() {
    let input = "good 1\n-----BEGIN X-----\nAAAA\n-----END X-----\nbad\n-----BEGIN X-----\nAAA\n-----END X-----\nlater 2\n";
    assert_eq!(Document::parse_str(input).err(), Some(Error::InvalidBase64));
}

#[test]
fn body_is_not_handed_on_undecoded() {
    let doc = Document::parse_str("k\n-----BEGIN X-----\nTWFu\n-----END X-----\n").unwrap();
    assert_eq!(doc.items[0].object, Some(b"Man".to_vec()));
    assert_ne!(doc.items[0].object, Some(b"TWFu".to_vec()));
}

#[test]
fn error_messages() {
    assert_eq!(Error::InvalidBase64.message(), "invalid base64 in object");
    assert_eq!(Error::PestFailure.message(), "the parser failed");
    assert_eq!(Error::Unknown.message(), "unknown parsing error occurred");
}

#[test]
fn items_can_be_compared_and_cloned() {
    let item = Item { keyword: "k".to_string(), arguments: strings(&["a"]), object: None };
    assert_eq!(item.clone(), item);
}

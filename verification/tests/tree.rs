use base64::Engine;
use plaka::decoding::decoded_object;
use plaka::document::{Document, Error, Item};
use plaka::recognizer::parse;
use plaka::tree::{Pair, Rule};

fn leaf(rule: Rule, text: &str) -> Pair<'_> {
    Pair { rule, text, inner: Vec::new() }
}

fn line<'a>(text: &'a str, words: &[&'a str]) -> Pair<'a> {
    let mut inner = vec![leaf(Rule::Keyword, words[0])];
    for word in &words[1..] {
        inner.push(leaf(Rule::Argument, word));
    }
    Pair { rule: Rule::KeywordLine, text, inner }
}

fn object<'a>(text: &'a str, begin: &'a str, body: &'a str, end: &'a str) -> Pair<'a> {
    Pair {
        rule: Rule::Object,
        text,
        inner: vec![leaf(Rule::Keyword, begin), leaf(Rule::Base64, body), leaf(Rule::Keyword, end)],
    }
}

#[test]
fn item_from_a_tree_without_object() {
    let tree = Pair {
        rule: Rule::Item,
        text: "fingerprint AAAA BBBB\n",
        inner: vec![line("fingerprint AAAA BBBB\n", &["fingerprint", "AAAA", "BBBB"])],
    };
    let item = Item::parse_token(tree).unwrap();
    assert_eq!(item.keyword, "fingerprint");
    assert_eq!(item.arguments, vec!["AAAA".to_string(), "BBBB".to_string()]);
    assert_eq!(item.object, None);
}

#[test]
fn item_from_a_tree_with_object() {
    let text = "k\n-----BEGIN X-----\nAQID\nBAUG\n-----END X-----\n";
    let tree = Pair {
        rule: Rule::Item,
        text,
        inner: vec![line("k\n", &["k"]), object(&text[2..], "X", "AQID\nBAUG\n", "X")],
    };
    let item = Item::parse_token(tree).unwrap();
    assert_eq!(item.keyword, "k");
    assert!(item.arguments.is_empty());
    assert_eq!(item.object, Some(vec![1u8, 2, 3, 4, 5, 6]));
}

#[test]
fn item_from_a_tree_with_an_object_that_cannot_be_decoded() {
    let tree = Pair {
        rule: Rule::Item,
        text: "",
        inner: vec![line("k\n", &["k"]), object("", "X", "AQI\n", "X")],
    };
    assert_eq!(Item::parse_token(tree).err(), Some(Error::InvalidBase64));
}

#[test]
fn document_from_a_tree_keeps_the_order_of_its_items() {
    let item = |text| Pair { rule: Rule::Item, text, inner: vec![line(text, &[&text[..1]])] };
    let tree = Pair { rule: Rule::Document, text: "c\na\nb\n", inner: vec![item("c\n"), item("a\n"), item("b\n")] };
    let doc = Document::parse_token(tree).unwrap();
    let keywords: Vec<&str> = doc.items.iter().map(|i| i.keyword.as_str()).collect();
    assert_eq!(keywords, vec!["c", "a", "b"]);
}

#[test]
fn document_from_a_tree_fails_on_the_first_invalid_object() {
    let good = Pair { rule: Rule::Item, text: "", inner: vec![line("a\n", &["a"])] };
    let bad = Pair {
        rule: Rule::Item,
        text: "",
        inner: vec![line("b\n", &["b"]), object("", "X", "A\n", "X")],
    };
    let tree = Pair { rule: Rule::Document, text: "", inner: vec![good, bad] };
    assert_eq!(Document::parse_token(tree).err(), Some(Error::InvalidBase64));
}

#[test]
fn document_from_a_tree_without_items_is_empty() {
    let tree = Pair { rule: Rule::Document, text: "", inner: Vec::new() };
    assert!(Document::parse_token(tree).unwrap().items.is_empty());
}

#[test]
fn parse_tree_of_a_document() {
    let input = "a 1  2\nb\n-----BEGIN L1-----\nAAAA\nBBBB\n-----END L2-----\n";
    let tree = parse(input).unwrap();
    assert_eq!(tree.rule, Rule::Document);
    assert_eq!(tree.text, input);
    assert_eq!(tree.inner.len(), 2);

    let first = &tree.inner[0];
    assert_eq!(first.rule, Rule::Item);
    assert_eq!(first.text, "a 1  2\n");
    assert_eq!(first.inner.len(), 1);
    let first_line = &first.inner[0];
    assert_eq!(first_line.rule, Rule::KeywordLine);
    assert_eq!(first_line.text, "a 1  2\n");
    let words: Vec<(Rule, &str)> = first_line.inner.iter().map(|p| (p.rule, p.text)).collect();
    assert_eq!(words, vec![(Rule::Keyword, "a"), (Rule::Argument, "1"), (Rule::Argument, "2")]);
    assert!(first_line.inner.iter().all(|p| p.inner.is_empty()));

    let second = &tree.inner[1];
    assert_eq!(second.rule, Rule::Item);
    assert_eq!(second.text, &input[7..]);
    assert_eq!(second.inner.len(), 2);
    assert_eq!(second.inner[0].rule, Rule::KeywordLine);
    assert_eq!(second.inner[0].text, "b\n");
    let found = &second.inner[1];
    assert_eq!(found.rule, Rule::Object);
    assert_eq!(found.text, &input[9..]);
    let parts: Vec<(Rule, &str)> = found.inner.iter().map(|p| (p.rule, p.text)).collect();
    assert_eq!(
        parts,
        vec![(Rule::Keyword, "L1"), (Rule::Base64, "AAAA\nBBBB\n"), (Rule::Keyword, "L2")]
    );
}

#[test]
fn parse_tree_of_the_empty_document() {
    let tree = parse("").unwrap();
    assert_eq!(tree.rule, Rule::Document);
    assert!(tree.inner.is_empty());
}

#[test]
fn no_parse_tree_for_what_is_no_document() {
    assert!(parse("a").is_none());
    assert!(parse("a\n b\n").is_none());
    assert!(parse("a\n-----BEGIN X-----\n=\n").is_none());
}

#[test]
fn parse_tree_keeps_characters_of_several_bytes_whole() {
    let tree = parse("k \u{e9}\u{4e2d}x \u{1f600}\n").unwrap();
    let words: Vec<&str> = tree.inner[0].inner[0].inner.iter().map(|p| p.text).collect();
    assert_eq!(words, vec!["k", "\u{e9}\u{4e2d}x", "\u{1f600}"]);
}

#[test]
fn decoder_answers_become_objects_or_errors() {
    let engine = base64::engine::general_purpose::STANDARD;
    assert_eq!(decoded_object(engine.decode("AAEC")), Ok(vec![0u8, 1, 2]));
    assert_eq!(decoded_object(engine.decode("AAE")), Err(Error::InvalidBase64));
    assert_eq!(decoded_object(engine.decode("A?==")), Err(Error::InvalidBase64));
}

#[test]
fn shape_of_the_trees_that_the_recognizer_hands_out() {
    let tree = parse("a 1\nb\n-----BEGIN X-----\nAAAA\n-----END X-----\n").unwrap();
    assert!(tree.has_document_shape());
    assert!(tree.inner[0].has_item_shape());
    assert!(tree.inner[1].has_item_shape());
    assert!(tree.inner[0].inner[0].has_keyword_line_shape());
    assert!(tree.inner[1].inner[1].has_object_shape());
    assert!(tree.inner[0].inner[0].inner[0].has_leaf_shape(Rule::Keyword));
    assert!(tree.inner[0].inner[0].inner[1].has_leaf_shape(Rule::Argument));
    assert!(!tree.has_item_shape());
    assert!(!tree.inner[0].has_document_shape());
    assert!(!tree.inner[0].inner[0].has_object_shape());
    assert!(!tree.inner[0].inner[0].inner[0].has_leaf_shape(Rule::Argument));
}

#[test]
fn shape_of_an_item_is_one_keyword_line_and_at_most_one_object() {
    let none = Pair { rule: Rule::Item, text: "", inner: Vec::new() };
    assert!(!none.has_item_shape());
    let only_object = Pair { rule: Rule::Item, text: "", inner: vec![object("", "X", "", "X")] };
    assert!(!only_object.has_item_shape());
    let object_first = Pair {
        rule: Rule::Item,
        text: "",
        inner: vec![object("", "X", "", "X"), line("k\n", &["k"])],
    };
    assert!(!object_first.has_item_shape());
    let two_lines =
        Pair { rule: Rule::Item, text: "", inner: vec![line("k\n", &["k"]), line("k\n", &["k"])] };
    assert!(!two_lines.has_item_shape());
    let two_objects = Pair {
        rule: Rule::Item,
        text: "",
        inner: vec![line("k\n", &["k"]), object("", "X", "", "X"), object("", "X", "", "X")],
    };
    assert!(!two_objects.has_item_shape());
    let full =
        Pair { rule: Rule::Item, text: "", inner: vec![line("k\n", &["k"]), object("", "X", "", "X")] };
    assert!(full.has_item_shape());
}

#[test]
fn shape_of_other_trees() {
    let nested = Pair { rule: Rule::Keyword, text: "k", inner: vec![leaf(Rule::Keyword, "k")] };
    assert!(!nested.has_leaf_shape(Rule::Keyword));
    let no_keyword = Pair { rule: Rule::KeywordLine, text: "", inner: Vec::new() };
    assert!(!no_keyword.has_keyword_line_shape());
    let argument_first =
        Pair { rule: Rule::KeywordLine, text: "", inner: vec![leaf(Rule::Argument, "a")] };
    assert!(!argument_first.has_keyword_line_shape());
    let two_keywords = Pair {
        rule: Rule::KeywordLine,
        text: "",
        inner: vec![leaf(Rule::Keyword, "a"), leaf(Rule::Keyword, "b")],
    };
    assert!(!two_keywords.has_keyword_line_shape());
    let no_body = Pair {
        rule: Rule::Object,
        text: "",
        inner: vec![leaf(Rule::Keyword, "X"), leaf(Rule::Keyword, "X")],
    };
    assert!(!no_body.has_object_shape());
    let item_in_item = Pair {
        rule: Rule::Document,
        text: "",
        inner: vec![Pair { rule: Rule::Document, text: "", inner: Vec::new() }],
    };
    assert!(!item_in_item.has_document_shape());
}

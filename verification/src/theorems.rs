//! What holds of every input: the shape of what the grammar accepts, and
//! how the document that comes out relates to the input.

use vstd::prelude::*;
use vstd::string::StringSliceAdditionalSpecFns;
use crate::charset::{CharClass, NEWLINE};
use crate::decoding::base64_decoded;
use crate::document::{joined_lines, Document, Error, Item, ItemView};
use crate::grammar::{
    arguments_at, begin_marker, body_end, delimiter_at, document, end_marker, item_at, items_at,
    keyword_line_at, lemma_run_end, object_at, run_end, text, ItemSyntax, Span,
};
use crate::shape::{
    are_adjacent, is_body, is_item, lemma_body_shape, lemma_item_ends_line, lemma_items_before,
    theorem_document, theorem_item,
};
use crate::text::{ascii_text, lemma_text_of_ascii};
use crate::tree::Pair;

verus! {

/// The items of a document are the items that stand in the input, each
/// once and in the order of the input: they lie one after the other from
/// the start of the input to its end, and each is the item that the
/// grammar finds where it starts.
pub proof fn lemma_items_fill_document(s: Seq<u8>)
    requires
        document(s) is Some,
    ensures
        ({
            let items = document(s).unwrap();
            &&& items.len() == 0 <==> s.len() == 0
            &&& items.len() > 0 ==> items[0].span.start == 0 && items.last().span.end == s.len()
            &&& forall|i: int|
                0 <= i < items.len() ==> item_at(s, (#[trigger] items[i]).span.start) == Some(
                    items[i],
                )
            &&& forall|i: int|
                0 < i < items.len() ==> (#[trigger] items[i]).span.start == items[i - 1].span.end
        }),
{
    reveal(are_adjacent);
    let items = document(s).unwrap();
    theorem_document(s, items);
    assert forall|i: int| 0 <= i < items.len() implies item_at(
        s,
        (#[trigger] items[i]).span.start,
    ) == Some(items[i]) by {
        theorem_item(s, items[i].span.start, items[i]);
    }
}

/// An input that is not empty and does not end with a newline is no
/// document.
pub proof fn lemma_last_line_needs_newline(s: Seq<u8>)
    requires
        s.len() > 0,
        s.last() != NEWLINE,
    ensures
        document(s) is None,
        Document::of_input(s) == Err::<Seq<ItemView>, Error>(Error::PestFailure),
{
    if document(s) is Some {
        let items = document(s).unwrap();
        lemma_items_fill_document(s);
        lemma_item_ends_line(s, items.last().span.start);
    }
}

/// Between the start of the arguments of a line and the newline that ends
/// the line stands no other newline.
pub proof fn lemma_arguments_hold_no_newline(s: Seq<u8>, from: int)
    requires
        arguments_at(s, from) is Some,
    ensures
        from < arguments_at(s, from).unwrap().1 <= s.len(),
        s[arguments_at(s, from).unwrap().1 - 1] == NEWLINE,
        forall|k: int| from <= k < arguments_at(s, from).unwrap().1 - 1 ==> #[trigger] s[k] != NEWLINE,
    decreases s.len() - from,
{
    if s[from] != NEWLINE {
        let start = run_end(s, CharClass::Space, from);
        let stop = run_end(s, CharClass::Argument, start);
        lemma_run_end(s, CharClass::Space, from);
        lemma_run_end(s, CharClass::Argument, start);
        lemma_arguments_hold_no_newline(s, stop);
    }
}

/// A keyword line ends with the first newline after its start.
pub proof fn lemma_line_holds_one_newline(s: Seq<u8>, at: int)
    requires
        keyword_line_at(s, at) is Some,
    ensures
        0 <= at < keyword_line_at(s, at).unwrap().span.end <= s.len(),
        s[keyword_line_at(s, at).unwrap().span.end - 1] == NEWLINE,
        forall|k: int|
            at <= k < keyword_line_at(s, at).unwrap().span.end - 1 ==> #[trigger] s[k] != NEWLINE,
{
    lemma_run_end(s, CharClass::Keyword, at);
    lemma_arguments_hold_no_newline(s, run_end(s, CharClass::Keyword, at));
}

/// Lines of base64 text are no items where one of them holds a byte that
/// no keyword holds.
pub proof fn lemma_body_holds_no_items(s: Seq<u8>, from: int, to: int, k: int)
    requires
        is_body(s, Span { start: from, end: to }),
        from <= k < to,
        s[k] != NEWLINE,
        !CharClass::Keyword.contains(s[k]),
    ensures
        items_at(s, from) is None,
    decreases s.len() - from,
{
    reveal(is_body);
    if item_at(s, from) is Some {
        let stop = run_end(s, CharClass::Keyword, from);
        lemma_run_end(s, CharClass::Keyword, from);
        assert(arguments_at(s, stop) is Some);
        assert(stop <= k);
        if s[stop] != NEWLINE {
            assert(CharClass::Base64.contains(s[stop]));
            assert(run_end(s, CharClass::Space, stop) == stop);
        }
        let next = stop + 1;
        assert(keyword_line_at(s, from).unwrap().span.end == next);
        assert(object_at(s, next) is None) by {
            assert(s[next] != 0x2d);
            if delimiter_at(s, next, begin_marker()) is Some {
                assert(s.subrange(next, next + 11)[0] == 0x2d);
            }
        }
        assert(is_body(s, Span { start: next, end: to })) by {
            assert forall|j: int| next <= j < to && #[trigger] s[j] == NEWLINE implies next < j
                && CharClass::Base64.contains(s[j - 1]) by {
                if j == next {
                    assert(CharClass::Base64.contains(s[j - 1]));
                }
            }
        }
        lemma_body_holds_no_items(s, next, to, k);
    }
}

/// An input with an object that no line closes is no document: where items
/// fill the input up to a keyword line, a line that opens an object
/// follows that line, and no closing line stands where the lines of base64
/// text after it end, parsing gives `PestFailure`, if one of those lines
/// holds a byte that no keyword holds (`+`, `/` or `=`). Without such a
/// byte the opening line and the lines after it are keyword lines
/// themselves.
pub proof fn lemma_unterminated_object(s: Seq<u8>, before: Seq<ItemSyntax>, at: int, k: int)
    requires
        forall|i: int| 0 <= i < before.len() ==> is_item(s, #[trigger] before[i]),
        are_adjacent(before, 0, at),
        keyword_line_at(s, at) is Some,
        delimiter_at(s, keyword_line_at(s, at).unwrap().span.end, begin_marker()) is Some,
        delimiter_at(
            s,
            body_end(
                s,
                delimiter_at(
                    s,
                    keyword_line_at(s, at).unwrap().span.end,
                    begin_marker(),
                ).unwrap().end + 6,
            ),
            end_marker(),
        ) is None,
        delimiter_at(s, keyword_line_at(s, at).unwrap().span.end, begin_marker()).unwrap().end + 6
            <= k,
        k < body_end(
            s,
            delimiter_at(s, keyword_line_at(s, at).unwrap().span.end, begin_marker()).unwrap().end
                + 6,
        ),
        s[k] != NEWLINE,
        !CharClass::Keyword.contains(s[k]),
    ensures
        document(s) is None,
        Document::of_input(s) == Err::<Seq<ItemView>, Error>(Error::PestFailure),
{
    let open = keyword_line_at(s, at).unwrap().span.end;
    let label = delimiter_at(s, open, begin_marker()).unwrap();
    let from = label.end + 6;
    lemma_line_holds_one_newline(s, at);
    lemma_run_end(s, CharClass::Keyword, open + 11);
    lemma_body_shape(s, from);
    assert(object_at(s, open) is None);
    assert(item_at(s, at).unwrap().span.end == open);
    if item_at(s, open) is Some {
        lemma_line_holds_one_newline(s, open);
        let end = keyword_line_at(s, open).unwrap().span.end;
        assert forall|j: int| open <= j < label.end + 5 implies #[trigger] s[j] != NEWLINE by {
            if j < open + 11 {
                assert(s.subrange(open, open + 11)[j - open] == begin_marker()[j - open]);
            } else if j < label.end {
                assert(CharClass::Keyword.contains(s[j]));
            } else {
                assert(s.subrange(label.end, label.end + 5)[j - label.end] == 0x2d);
            }
        }
        assert(end == from) by {
            if end - 1 < label.end + 5 {
                assert(s[end - 1] != NEWLINE);
            }
            if label.end + 5 < end - 1 {
                assert(s[label.end + 5] != NEWLINE);
            }
        }
        assert(object_at(s, from) is None) by {
            reveal(is_body);
            if delimiter_at(s, from, begin_marker()) is Some {
                assert(s.subrange(from, from + 11)[0] == 0x2d);
                assert(s[from] == 0x2d);
            }
        }
        lemma_body_holds_no_items(s, from, body_end(s, from), k);
        assert(item_at(s, open).unwrap().span.end == from);
    }
    assert(open + 11 <= s.len());
    assert(items_at(s, open) is None);
    assert(items_at(s, at) is None);
    lemma_items_before(s, 0, at, before);
}

/// A document that is built has one item for each item of the input, in
/// the order of the input, and each is what its piece of the input stands
/// for.
pub proof fn lemma_document_keeps_items(s: Seq<u8>, built: Seq<ItemView>)
    requires
        Document::of_input(s) == Ok::<Seq<ItemView>, Error>(built),
    ensures
        document(s) is Some,
        built.len() == document(s).unwrap().len(),
        forall|i: int|
            0 <= i < built.len() ==> Item::of_syntax(s, document(s).unwrap()[i]) == Ok::<
                ItemView,
                Error,
            >(#[trigger] built[i]),
{
}

/// A document that is built from a tree has one item for each item of the
/// tree, in the order of the tree.
pub proof fn lemma_tree_keeps_items(tree: Pair, built: Seq<ItemView>)
    requires
        Document::of_tree(tree) == Ok::<Seq<ItemView>, Error>(built),
    ensures
        built.len() == tree.inner@.len(),
        forall|i: int|
            0 <= i < built.len() ==> Item::of_tree(tree.inner@[i]) == Ok::<ItemView, Error>(
                #[trigger] built[i],
            ),
{
}

/// The keyword of an item is the text of its piece of the input, one
/// character for each byte: a byte of a keyword is a letter, a digit or `-`.
pub proof fn lemma_item_keyword(s: Seq<u8>, item: ItemSyntax, built: ItemView)
    requires
        is_item(s, item),
        Item::of_syntax(s, item) == Ok::<ItemView, Error>(built),
    ensures
        built.keyword == ascii_text(text(s, item.line.keyword)),
        built.keyword.len() > 0,
        forall|i: int|
            0 <= i < built.keyword.len() ==> CharClass::Keyword.contains(
                #[trigger] s[item.line.keyword.start + i],
            ),
{
    let bytes = text(s, item.line.keyword);
    assert forall|i: int| 0 <= i < bytes.len() implies #[trigger] bytes[i] <= 0x7f by {
        assert(CharClass::Keyword.contains(s[item.line.keyword.start + i]));
    }
    lemma_text_of_ascii(bytes);
}

/// An item has an object just where an object follows its keyword line,
/// and the object is what the lines of the body, put together without
/// their newlines, decode to.
pub proof fn lemma_item_object(s: Seq<u8>, item: ItemSyntax, built: ItemView)
    requires
        Item::of_syntax(s, item) == Ok::<ItemView, Error>(built),
    ensures
        match item.object {
            None => built.object is None,
            Some(object) => base64_decoded(joined_lines(text(s, object.body))) is Some
                && built.object == base64_decoded(joined_lines(text(s, object.body))),
        },
{
}

/// Where the input follows the grammar and the body of one object cannot
/// be decoded, parsing gives `InvalidBase64`, whatever the other items are.
pub proof fn lemma_one_invalid_object_fails(s: Seq<u8>, i: int)
    requires
        document(s) is Some,
        0 <= i < document(s).unwrap().len(),
        document(s).unwrap()[i].object is Some,
        base64_decoded(
            joined_lines(text(s, document(s).unwrap()[i].object.unwrap().body)),
        ) is None,
    ensures
        Document::of_input(s) == Err::<Seq<ItemView>, Error>(Error::InvalidBase64),
{
    assert(!(Item::of_syntax(s, document(s).unwrap()[i]) is Ok));
}

/// The body of an object of a document holds only base64 bytes and
/// newlines: text with any other byte between an opening and a closing
/// line is refused by the grammar and never reaches the decoder.
pub proof fn lemma_body_is_base64_text(s: Seq<u8>, i: int, k: int)
    requires
        document(s) is Some,
        0 <= i < document(s).unwrap().len(),
        document(s).unwrap()[i].object is Some,
        document(s).unwrap()[i].object.unwrap().body.start <= k,
        k < document(s).unwrap()[i].object.unwrap().body.end,
    ensures
        0 <= k < s.len(),
        CharClass::Base64.contains(s[k]) || s[k] == NEWLINE,
{
    reveal(is_body);
    theorem_document(s, document(s).unwrap());
    assert(is_item(s, document(s).unwrap()[i]));
}

/// The errors of parsing, each with the inputs on which it comes:
/// `PestFailure` just where the input does not follow the grammar,
/// `InvalidBase64` just where it does and the body of the object of one of
/// its items cannot be decoded, and `Unknown` never.
pub proof fn lemma_errors(s: Seq<u8>)
    ensures
        Document::of_input(s) == Err::<Seq<ItemView>, Error>(Error::PestFailure) <==> document(
            s,
        ) is None,
        Document::of_input(s) == Err::<Seq<ItemView>, Error>(Error::InvalidBase64) <==> document(
            s,
        ) is Some && exists|i: int|
            0 <= i < document(s).unwrap().len() && (#[trigger] document(s).unwrap()[i]).object
                is Some && base64_decoded(
                joined_lines(text(s, document(s).unwrap()[i].object.unwrap().body)),
            ) is None,
        Document::of_input(s) != Err::<Seq<ItemView>, Error>(Error::Unknown),
{
    if let Some(items) = document(s) {
        if Document::of_input(s) is Err {
            let i = choose|i: int|
                0 <= i < items.len() && !(Item::of_syntax(s, #[trigger] items[i]) is Ok);
            assert(items[i].object is Some);
        }
        if exists|i: int|
            0 <= i < items.len() && (#[trigger] items[i]).object is Some && base64_decoded(
                joined_lines(text(s, items[i].object.unwrap().body)),
            ) is None {
            let i = choose|i: int|
                0 <= i < items.len() && (#[trigger] items[i]).object is Some && base64_decoded(
                    joined_lines(text(s, items[i].object.unwrap().body)),
                ) is None;
            lemma_one_invalid_object_fails(s, i);
        }
    }
}

/// Parsing is a function of the text: two results of parsing inputs with
/// the same text hold the same document or the same error.
pub proof fn lemma_parsing_is_a_function(
    a: &str,
    b: &str,
    first: Result<Document, Error>,
    second: Result<Document, Error>,
)
    requires
        a@ == b@,
        Document::outcome(first) == Document::of_input(a.spec_bytes()),
        Document::outcome(second) == Document::of_input(b.spec_bytes()),
    ensures
        Document::outcome(first) == Document::outcome(second),
{
}

} // verus!

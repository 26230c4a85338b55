//! The grammar said once more, as conditions on the pieces of an input, and
//! the proof that the functions of the grammar find just the pieces that
//! meet them.

use vstd::prelude::*;
use crate::charset::{CharClass, NEWLINE};
use crate::grammar::{
    arguments_at, begin_marker, body_end, closing_dashes, delimiter_at, document, end_marker,
    item_at, items_at, keyword_line_at, lemma_run_end, lemma_run_end_resume, object_at,
    occurs_at, run_end, ItemSyntax, LineSyntax, ObjectSyntax, Span,
};

verus! {

/// The piece `span` of `s` is not empty and holds only bytes of `class`.
pub open spec fn is_run(s: Seq<u8>, span: Span, class: CharClass) -> bool {
    &&& 0 <= span.start < span.end <= s.len()
    &&& forall|k: int| span.start <= k < span.end ==> class.contains(#[trigger] s[k])
}

/// The words `words` stand in `s` one after the other from `from` on, a
/// run of spaces and tabs before each.
#[verifier::opaque]
pub open spec fn are_spaced_words(s: Seq<u8>, from: int, words: Seq<Span>) -> bool {
    &&& forall|i: int| 0 <= i < words.len() ==> is_run(s, #[trigger] words[i], CharClass::Argument)
    &&& forall|i: int|
        0 <= i < words.len() ==> is_run(
            s,
            Span { start: if i == 0 { from } else { words[i - 1].end }, end: (#[trigger] words[i]).start },
            CharClass::Space,
        )
}

/// Where the last of the words `words` ends, or `from` where there is none.
pub open spec fn words_end(from: int, words: Seq<Span>) -> int {
    if words.len() == 0 {
        from
    } else {
        words.last().end
    }
}

/// `line` is a keyword line of `s`: a keyword, then arguments with spaces
/// and tabs before each, then a newline.
pub open spec fn is_keyword_line(s: Seq<u8>, line: LineSyntax) -> bool {
    &&& is_run(s, line.keyword, CharClass::Keyword)
    &&& line.span.start == line.keyword.start
    &&& are_spaced_words(s, line.keyword.end, line.arguments)
    &&& words_end(line.keyword.end, line.arguments) < s.len()
    &&& s[words_end(line.keyword.end, line.arguments)] == NEWLINE
    &&& line.span.end == words_end(line.keyword.end, line.arguments) + 1
}

/// At `at` stands a line that opens or closes an object: `marker`, the
/// label `label` made of the bytes of a keyword, five dashes and a newline.
pub open spec fn is_delimiter(s: Seq<u8>, at: int, marker: Seq<u8>, label: Span) -> bool {
    &&& occurs_at(s, at, marker)
    &&& label.start == at + marker.len()
    &&& is_run(s, label, CharClass::Keyword)
    &&& occurs_at(s, label.end, closing_dashes())
    &&& label.end + 5 < s.len()
    &&& s[label.end + 5] == NEWLINE
}

/// The piece `span` of `s` is made of lines of base64 text: each a run of
/// base64 bytes, not empty, and a newline.
#[verifier::opaque]
pub open spec fn is_body(s: Seq<u8>, span: Span) -> bool {
    &&& 0 <= span.start <= span.end <= s.len()
    &&& forall|k: int|
        span.start <= k < span.end ==> CharClass::Base64.contains(#[trigger] s[k]) || s[k]
            == NEWLINE
    &&& forall|k: int|
        span.start <= k < span.end && #[trigger] s[k] == NEWLINE ==> span.start < k
            && CharClass::Base64.contains(s[k - 1])
    &&& span.start < span.end ==> s[span.end - 1] == NEWLINE
}

/// `object` is an object of `s`: an opening line, a body of lines of base64
/// text and a closing line, one after the other.
pub open spec fn is_object(s: Seq<u8>, object: ObjectSyntax) -> bool {
    &&& is_delimiter(s, object.span.start, begin_marker(), object.begin_label)
    &&& object.body.start == object.begin_label.end + 6
    &&& is_body(s, object.body)
    &&& is_delimiter(s, object.body.end, end_marker(), object.end_label)
    &&& object.span.end == object.end_label.end + 6
}

/// `item` is an item of `s`: a keyword line, and the object that follows
/// the line wherever an object does.
pub open spec fn is_item(s: Seq<u8>, item: ItemSyntax) -> bool {
    &&& is_keyword_line(s, item.line)
    &&& item.span.start == item.line.span.start
    &&& match item.object {
        Some(object) => {
            &&& is_object(s, object)
            &&& object.span.start == item.line.span.end
            &&& item.span.end == object.span.end
        },
        None => {
            &&& item.span.end == item.line.span.end
            &&& forall|object: ObjectSyntax|
                !(#[trigger] is_object(s, object) && object.span.start == item.line.span.end)
        },
    }
}

/// The pieces `items` lie one after the other and fill `s` from `from` to
/// `to`: the first starts at `from`, each next one where the one before it
/// ends, and the last ends at `to`.
#[verifier::opaque]
pub open spec fn are_adjacent(items: Seq<ItemSyntax>, from: int, to: int) -> bool {
    &&& if items.len() == 0 {
        from == to
    } else {
        items[0].span.start == from && items.last().span.end == to
    }
    &&& forall|i: int|
        0 < i < items.len() ==> (#[trigger] items[i]).span.start == items[i - 1].span.end
}

/// `items` are the items of the document `s`: each is an item of `s`, and
/// one after the other they fill `s`.
pub open spec fn is_document(s: Seq<u8>, items: Seq<ItemSyntax>) -> bool {
    &&& forall|i: int| 0 <= i < items.len() ==> is_item(s, #[trigger] items[i])
    &&& are_adjacent(items, 0, s.len() as int)
}

/// A run that holds only bytes of `class` up to `to`, where a byte of
/// another class or the end of the input stands, ends at `to`.
pub proof fn lemma_run_found(s: Seq<u8>, class: CharClass, from: int, to: int)
    requires
        0 <= from <= to <= s.len(),
        forall|k: int| from <= k < to ==> class.contains(#[trigger] s[k]),
        to < s.len() ==> !class.contains(s[to]),
    ensures
        run_end(s, class, from) == to,
{
    lemma_run_end_resume(s, class, from, to);
}

/// What `arguments_at` finds are words with spaces and tabs before each,
/// and a newline after the last.
pub proof fn lemma_arguments_shape(s: Seq<u8>, from: int)
    requires
        arguments_at(s, from) is Some,
    ensures
        are_spaced_words(s, from, arguments_at(s, from).unwrap().0),
        0 <= from <= words_end(from, arguments_at(s, from).unwrap().0) < s.len(),
        s[words_end(from, arguments_at(s, from).unwrap().0)] == NEWLINE,
        arguments_at(s, from).unwrap().1 == words_end(from, arguments_at(s, from).unwrap().0) + 1,
    decreases s.len() - from,
{
    reveal(are_spaced_words);
    if s[from] != NEWLINE {
        let start = run_end(s, CharClass::Space, from);
        let stop = run_end(s, CharClass::Argument, start);
        lemma_run_end(s, CharClass::Space, from);
        lemma_run_end(s, CharClass::Argument, start);
        lemma_arguments_shape(s, stop);
        let word = Span { start, end: stop };
        let rest = arguments_at(s, stop).unwrap().0;
        let words = arguments_at(s, from).unwrap().0;
        assert(words == seq![word] + rest);
        assert(words[0] == word);
        assert forall|i: int| 1 <= i < words.len() implies #[trigger] words[i] == rest[i - 1] by {}
        assert forall|i: int| 0 <= i < words.len() implies is_run(
            s,
            #[trigger] words[i],
            CharClass::Argument,
        ) by {
            if i > 0 {
                assert(is_run(s, rest[i - 1], CharClass::Argument));
            }
        }
        assert forall|i: int| 0 <= i < words.len() implies is_run(
            s,
            Span { start: if i == 0 { from } else { words[i - 1].end }, end: (#[trigger] words[i]).start },
            CharClass::Space,
        ) by {
            if i > 0 {
                assert(is_run(
                    s,
                    Span {
                        start: if i - 1 == 0 { stop } else { rest[i - 2].end },
                        end: rest[i - 1].start,
                    },
                    CharClass::Space,
                ));
                if i > 1 {
                    assert(words[i - 1] == rest[i - 2]);
                }
            }
        }
        if rest.len() > 0 {
            assert(words.last() == rest.last());
        }
    }
}

/// Words with spaces and tabs before each and a newline after the last
/// are what `arguments_at` finds.
pub proof fn lemma_arguments_found(s: Seq<u8>, from: int, words: Seq<Span>)
    requires
        0 <= from,
        are_spaced_words(s, from, words),
        words_end(from, words) < s.len(),
        s[words_end(from, words)] == NEWLINE,
    ensures
        arguments_at(s, from) == Some((words, words_end(from, words) + 1)),
    decreases words.len(),
{
    reveal(are_spaced_words);
    if words.len() == 0 {
        assert(words =~= Seq::empty());
    } else {
        let word = words[0];
        let rest = words.drop_first();
        assert(is_run(s, word, CharClass::Argument));
        assert(is_run(s, Span { start: from, end: word.start }, CharClass::Space));
        assert(CharClass::Space.contains(s[from]));
        assert(CharClass::Argument.contains(s[word.start]));
        lemma_run_found(s, CharClass::Space, from, word.start);
        if rest.len() == 0 {
            assert(words.last() == word);
        } else {
            assert(is_run(s, Span { start: word.end, end: words[1].start }, CharClass::Space));
            assert(CharClass::Space.contains(s[word.end]));
            assert(words.last() == rest.last());
        }
        lemma_run_found(s, CharClass::Argument, word.start, word.end);
        assert forall|i: int| 0 <= i < rest.len() implies is_run(
            s,
            #[trigger] rest[i],
            CharClass::Argument,
        ) by {
            assert(rest[i] == words[i + 1]);
        }
        assert forall|i: int| 0 <= i < rest.len() implies is_run(
            s,
            Span { start: if i == 0 { word.end } else { rest[i - 1].end }, end: (#[trigger] rest[i]).start },
            CharClass::Space,
        ) by {
            assert(rest[i] == words[i + 1]);
            if i > 0 {
                assert(rest[i - 1] == words[i]);
            }
            assert(is_run(
                s,
                Span { start: words[i].end, end: words[i + 1].start },
                CharClass::Space,
            ));
        }
        lemma_arguments_found(s, word.end, rest);
        assert(seq![word] + rest =~= words);
    }
}

/// `keyword_line_at` finds at `at` just the keyword line that stands there.
pub proof fn theorem_keyword_line(s: Seq<u8>, at: int, line: LineSyntax)
    ensures
        keyword_line_at(s, at) == Some(line) <==> is_keyword_line(s, line) && line.span.start
            == at,
{
    if keyword_line_at(s, at) == Some(line) {
        lemma_run_end(s, CharClass::Keyword, at);
        lemma_arguments_shape(s, run_end(s, CharClass::Keyword, at));
    }
    if is_keyword_line(s, line) && line.span.start == at {
        let stop = line.keyword.end;
        lemma_arguments_found(s, stop, line.arguments);
        assert(!CharClass::Keyword.contains(s[stop])) by {
            reveal(are_spaced_words);
            if line.arguments.len() > 0 {
                assert(is_run(
                    s,
                    Span { start: stop, end: line.arguments[0].start },
                    CharClass::Space,
                ));
                assert(CharClass::Space.contains(s[stop]));
            }
        }
        lemma_run_found(s, CharClass::Keyword, at, stop);
    }
}

/// `delimiter_at` finds at `at` just the label of the line that stands
/// there and that `marker` opens.
pub proof fn theorem_delimiter(s: Seq<u8>, at: int, marker: Seq<u8>, label: Span)
    ensures
        delimiter_at(s, at, marker) == Some(label) <==> is_delimiter(s, at, marker, label),
{
    let from = at + marker.len();
    if delimiter_at(s, at, marker) == Some(label) {
        lemma_run_end(s, CharClass::Keyword, from);
    }
    if is_delimiter(s, at, marker, label) {
        let stop = label.end + 5;
        assert forall|k: int| from <= k < stop implies CharClass::Keyword.contains(
            #[trigger] s[k],
        ) by {
            if k >= label.end {
                assert(s.subrange(label.end, label.end + 5)[k - label.end] == 0x2d);
            }
        }
        lemma_run_found(s, CharClass::Keyword, from, stop);
    }
}

/// What `body_end` passes over are lines of base64 text.
pub proof fn lemma_body_shape(s: Seq<u8>, from: int)
    requires
        0 <= from <= s.len(),
    ensures
        from <= body_end(s, from) <= s.len(),
        is_body(s, Span { start: from, end: body_end(s, from) }),
    decreases s.len() - from,
{
    reveal(is_body);
    let stop = run_end(s, CharClass::Base64, from);
    lemma_run_end(s, CharClass::Base64, from);
    if from < stop < s.len() && s[stop] == NEWLINE {
        lemma_body_shape(s, stop + 1);
        let end = body_end(s, from);
        assert forall|k: int| from <= k < end implies CharClass::Base64.contains(#[trigger] s[k])
            || s[k] == NEWLINE by {}
        assert forall|k: int| from <= k < end && #[trigger] s[k] == NEWLINE implies from < k
            && CharClass::Base64.contains(s[k - 1]) by {
            if k == stop {
                assert(CharClass::Base64.contains(s[stop - 1]));
            } else if k > stop {
                if k - 1 == stop {
                    assert(false);
                }
            }
        }
    }
}

/// Lines of base64 text after which no base64 byte stands are what
/// `body_end` passes over.
pub proof fn lemma_body_found(s: Seq<u8>, span: Span)
    requires
        is_body(s, span),
        span.end < s.len() ==> !CharClass::Base64.contains(s[span.end]),
    ensures
        body_end(s, span.start) == span.end,
    decreases span.end - span.start,
{
    reveal(is_body);
    let stop = run_end(s, CharClass::Base64, span.start);
    lemma_run_end(s, CharClass::Base64, span.start);
    if span.start < span.end {
        assert(CharClass::Base64.contains(s[span.start]));
        if stop >= span.end {
            assert(CharClass::Base64.contains(s[span.end - 1]));
        }
        assert(s[stop] == NEWLINE);
        let rest = Span { start: stop + 1, end: span.end };
        assert(is_body(s, rest)) by {
            assert forall|k: int| rest.start <= k < rest.end && #[trigger] s[k]
                == NEWLINE implies rest.start < k && CharClass::Base64.contains(s[k - 1]) by {
                if k == rest.start {
                    assert(CharClass::Base64.contains(s[k - 1]));
                }
            }
        }
        lemma_body_found(s, rest);
    }
}

/// `object_at` finds at `at` just the object that stands there.
pub proof fn theorem_object(s: Seq<u8>, at: int, object: ObjectSyntax)
    ensures
        object_at(s, at) == Some(object) <==> is_object(s, object) && object.span.start == at,
{
    if object_at(s, at) == Some(object) {
        theorem_delimiter(s, at, begin_marker(), object.begin_label);
        lemma_run_end(s, CharClass::Keyword, at + begin_marker().len());
        lemma_body_shape(s, object.body.start);
        theorem_delimiter(s, object.body.end, end_marker(), object.end_label);
    }
    if is_object(s, object) && object.span.start == at {
        theorem_delimiter(s, at, begin_marker(), object.begin_label);
        theorem_delimiter(s, object.body.end, end_marker(), object.end_label);
        assert(s.subrange(object.body.end, object.body.end + 9)[0] == 0x2d);
        assert(!CharClass::Base64.contains(s[object.body.end]));
        lemma_body_found(s, object.body);
    }
}

/// `item_at` finds at `at` just the item that stands there.
pub proof fn theorem_item(s: Seq<u8>, at: int, item: ItemSyntax)
    ensures
        item_at(s, at) == Some(item) <==> is_item(s, item) && item.span.start == at,
{
    theorem_keyword_line(s, at, item.line);
    let next = item.line.span.end;
    match item.object {
        Some(object) => {
            theorem_object(s, next, object);
        },
        None => {
            if item_at(s, at) == Some(item) {
                assert forall|object: ObjectSyntax|
                    !(#[trigger] is_object(s, object) && object.span.start == next) by {
                    theorem_object(s, next, object);
                }
            }
            if is_item(s, item) && item.span.start == at {
                if object_at(s, next) is Some {
                    theorem_object(s, next, object_at(s, next).unwrap());
                    assert(is_object(s, object_at(s, next).unwrap()));
                }
            }
        },
    }
}

/// An item is not empty, lies inside the input and ends with a newline.
pub proof fn lemma_item_ends_line(s: Seq<u8>, at: int)
    requires
        item_at(s, at) is Some,
    ensures
        item_at(s, at).unwrap().span.start == at,
        0 <= at < item_at(s, at).unwrap().span.end <= s.len(),
        s[item_at(s, at).unwrap().span.end - 1] == NEWLINE,
{
    let item = item_at(s, at).unwrap();
    let stop = run_end(s, CharClass::Keyword, at);
    lemma_run_end(s, CharClass::Keyword, at);
    lemma_arguments_shape(s, stop);
    if let Some(object) = item.object {
        let opened = delimiter_at(s, item.line.span.end, begin_marker()).unwrap();
        assert(opened == object.begin_label);
        lemma_body_shape(s, object.body.start);
        let closed = delimiter_at(s, object.body.end, end_marker()).unwrap();
        assert(closed == object.end_label);
        lemma_run_end(s, CharClass::Keyword, object.body.end + end_marker().len());
    }
}

/// `items_at` finds from `at` on just the items that fill the input from
/// there to its end.
pub proof fn lemma_items(s: Seq<u8>, at: int, items: Seq<ItemSyntax>)
    requires
        0 <= at <= s.len(),
    ensures
        items_at(s, at) == Some(items) <==> (forall|i: int|
            0 <= i < items.len() ==> is_item(s, #[trigger] items[i])) && are_adjacent(
            items,
            at,
            s.len() as int,
        ),
    decreases items.len(),
{
    reveal(are_adjacent);
    if items.len() == 0 {
        if items_at(s, at) == Some(items) && at != s.len() {
            let found = items_at(s, item_at(s, at).unwrap().span.end).unwrap();
            assert((seq![item_at(s, at).unwrap()] + found).len() > 0);
        }
        if at == s.len() {
            assert(items =~= Seq::empty());
        }
    } else {
        let item = items[0];
        let rest = items.drop_first();
        theorem_item(s, at, item);
        if items_at(s, at) == Some(items) {
            let found = items_at(s, item_at(s, at).unwrap().span.end).unwrap();
            assert(items == seq![item_at(s, at).unwrap()] + found);
            assert(items[0] == item_at(s, at).unwrap());
            assert(rest =~= found);
            lemma_items(s, item.span.end, rest);
            assert forall|i: int| 0 <= i < items.len() implies is_item(s, #[trigger] items[i]) by {
                if i > 0 {
                    assert(items[i] == rest[i - 1]);
                }
            }
            assert forall|i: int| 0 < i < items.len() implies (#[trigger] items[i]).span.start
                == items[i - 1].span.end by {
                assert(items[i] == rest[i - 1]);
                if i > 1 {
                    assert(items[i - 1] == rest[i - 2]);
                }
            }
            if rest.len() > 0 {
                assert(items.last() == rest.last());
            }
        }
        if (forall|i: int| 0 <= i < items.len() ==> is_item(s, #[trigger] items[i]))
            && are_adjacent(items, at, s.len() as int) {
            assert(is_item(s, items[0]));
            lemma_item_ends_line(s, at);
            assert forall|i: int| 0 <= i < rest.len() implies is_item(s, #[trigger] rest[i]) by {
                assert(rest[i] == items[i + 1]);
            }
            assert(are_adjacent(rest, item.span.end, s.len() as int)) by {
                if rest.len() > 0 {
                    assert(rest[0] == items[1]);
                    assert(rest.last() == items.last());
                }
                assert forall|i: int| 0 < i < rest.len() implies (#[trigger] rest[i]).span.start
                    == rest[i - 1].span.end by {
                    assert(rest[i] == items[i + 1]);
                    assert(rest[i - 1] == items[i]);
                }
            }
            lemma_items(s, item.span.end, rest);
            assert(seq![item] + rest =~= items);
        }
    }
}

/// Items that fill the input from `from` to `at` are found there whatever
/// follows them: the items from `from` on are these and then the items
/// from `at` on.
pub proof fn lemma_items_before(s: Seq<u8>, from: int, at: int, before: Seq<ItemSyntax>)
    requires
        0 <= from,
        at <= s.len(),
        forall|i: int| 0 <= i < before.len() ==> is_item(s, #[trigger] before[i]),
        are_adjacent(before, from, at),
    ensures
        items_at(s, from) == match items_at(s, at) {
            Some(after) => Some(before + after),
            None => None,
        },
    decreases before.len(),
{
    reveal(are_adjacent);
    if before.len() == 0 {
        if let Some(after) = items_at(s, at) {
            assert(before + after =~= after);
        }
    } else {
        let item = before[0];
        let rest = before.drop_first();
        theorem_item(s, from, item);
        lemma_item_ends_line(s, from);
        assert forall|i: int| 0 <= i < rest.len() implies is_item(s, #[trigger] rest[i]) by {
            assert(rest[i] == before[i + 1]);
        }
        assert(are_adjacent(rest, item.span.end, at)) by {
            if rest.len() > 0 {
                assert(rest[0] == before[1]);
                assert(rest.last() == before.last());
            }
            assert forall|i: int| 0 < i < rest.len() implies (#[trigger] rest[i]).span.start
                == rest[i - 1].span.end by {
                assert(rest[i] == before[i + 1]);
                assert(rest[i - 1] == before[i]);
            }
        }
        lemma_items_before(s, item.span.end, at, rest);
        if let Some(after) = items_at(s, at) {
            assert(seq![item] + (rest + after) =~= before + after);
        }
    }
}

/// `document` finds just the items of the document that an input is.
pub proof fn theorem_document(s: Seq<u8>, items: Seq<ItemSyntax>)
    ensures
        document(s) == Some(items) <==> is_document(s, items),
{
    lemma_items(s, 0, items);
}

} // verus!

//! The recognizer: it holds an input to the grammar and hands out its parse
//! tree.

use vstd::prelude::*;
use vstd::string::StringSliceAdditionalSpecFns;
use vstd::utf8::{encode_utf8_valid_utf8, is_char_boundary, is_char_boundary_start_end_of_seq};
use crate::charset::{CharClass, NEWLINE};
use crate::grammar::{
    arguments_at, begin_marker, body_end, closing_dashes, delimiter_at, document, end_marker,
    item_at, items_at, keyword_line_at, lemma_run_end, object_at, occurs_at, run_end, text,
    ItemSyntax, Span,
};
use crate::text::{lemma_boundary_after_ascii, lemma_boundary_at_ascii, slice};
use crate::tree::{Pair, Rule};

verus! {

/// Finds the end of the run of bytes of `class` that starts at `from`.
fn scan(bytes: &[u8], class: CharClass, from: usize) -> (stop: usize)
    requires
        from <= bytes@.len(),
    ensures
        stop == run_end(bytes@, class, from as int),
        from <= stop <= bytes@.len(),
{
    let mut i: usize = from;
    while i < bytes.len() && class.has(bytes[i])
        invariant
            from <= i <= bytes@.len(),
            run_end(bytes@, class, from as int) == run_end(bytes@, class, i as int),
        decreases bytes@.len() - i,
    {
        i += 1;
    }
    i
}

/// Tests whether `word` stands in `bytes` at position `at`.
fn stands_at(bytes: &[u8], at: usize, word: &[u8]) -> (r: bool)
    ensures
        r == occurs_at(bytes@, at as int, word@),
{
    let n = bytes.len();
    if word.len() > n || at > n - word.len() {
        return false;
    }
    let mut i: usize = 0;
    while i < word.len()
        invariant
            n == bytes@.len(),
            at + word@.len() <= bytes@.len(),
            i <= word@.len(),
            forall|k: int| 0 <= k < i ==> bytes@[at + k] == word@[k],
        decreases word@.len() - i,
    {
        if bytes[at + i] != word[i] {
            return false;
        }
        i += 1;
    }
    assert(bytes@.subrange(at as int, at + word@.len()) =~= word@);
    true
}

/// Finds the delimiter line at `at`, which `marker` opens: where its label
/// starts, where the label ends, and where the line ends.
fn delimiter(input: &str, at: usize, marker: &[u8]) -> (r: Option<(usize, usize, usize)>)
    ensures
        match r {
            Some(label) => {
                &&& delimiter_at(input.spec_bytes(), at as int, marker@) == Some(
                    Span { start: label.0 as int, end: label.1 as int },
                )
                &&& at <= label.0 < label.1
                &&& label.2 == label.1 + 6
                &&& label.2 <= input.spec_bytes().len()
                &&& input.spec_bytes()[label.1 + 5] == NEWLINE
                &&& is_char_boundary(input.spec_bytes(), label.0 as int)
                &&& is_char_boundary(input.spec_bytes(), label.1 as int)
            },
            None => delimiter_at(input.spec_bytes(), at as int, marker@) is None,
        },
{
    let bytes = input.as_bytes();
    if !stands_at(bytes, at, marker) {
        return None;
    }
    let n = bytes.len();
    let from = at + marker.len();
    let stop = scan(bytes, CharClass::Keyword, from);
    if stop - from <= 5 {
        return None;
    }
    let dashes: [u8; 5] = [0x2d, 0x2d, 0x2d, 0x2d, 0x2d];
    if !stands_at(bytes, stop - 5, dashes.as_slice()) {
        return None;
    }
    if stop >= n || bytes[stop] != NEWLINE {
        return None;
    }
    proof {
        let s = input.spec_bytes();
        encode_utf8_valid_utf8(input@);
        lemma_run_end(s, CharClass::Keyword, from as int);
        lemma_boundary_at_ascii(s, from as int);
        lemma_boundary_at_ascii(s, stop - 5);
    }
    Some((from, stop - 5, stop + 1))
}

/// Finds the end of the lines of base64 text that start at `from`.
fn body(bytes: &[u8], from: usize) -> (stop: usize)
    requires
        from <= bytes@.len(),
    ensures
        stop == body_end(bytes@, from as int),
        from <= stop <= bytes@.len(),
{
    let mut i: usize = from;
    loop
        invariant
            from <= i <= bytes@.len(),
            body_end(bytes@, from as int) == body_end(bytes@, i as int),
        ensures
            from <= i <= bytes@.len(),
            body_end(bytes@, from as int) == i,
        decreases bytes@.len() - i,
    {
        let stop = scan(bytes, CharClass::Base64, i);
        if i < stop && stop < bytes.len() && bytes[stop] == NEWLINE {
            i = stop + 1;
        } else {
            break;
        }
    }
    i
}

/// Recognizes the object at `at` and hands out its tree and where it ends.
fn object<'a>(input: &'a str, at: usize) -> (r: Option<(Pair<'a>, usize)>)
    requires
        at <= input.spec_bytes().len(),
        is_char_boundary(input.spec_bytes(), at as int),
    ensures
        match r {
            Some((node, end)) => {
                &&& object_at(input.spec_bytes(), at as int) is Some
                &&& node.spells_object(
                    input.spec_bytes(),
                    object_at(input.spec_bytes(), at as int).unwrap(),
                )
                &&& end == object_at(input.spec_bytes(), at as int).unwrap().span.end
                &&& at < end <= input.spec_bytes().len()
                &&& is_char_boundary(input.spec_bytes(), end as int)
            },
            None => object_at(input.spec_bytes(), at as int) is None,
        },
{
    let ghost s = input.spec_bytes();
    let bytes = input.as_bytes();
    proof {
        encode_utf8_valid_utf8(input@);
    }
    let opening: [u8; 11] = [0x2d, 0x2d, 0x2d, 0x2d, 0x2d, 0x42, 0x45, 0x47, 0x49, 0x4e, 0x20];
    let begin = match delimiter(input, at, opening.as_slice()) {
        Some(label) => label,
        None => { return None; },
    };
    let body_start = begin.2;
    let body_stop = body(bytes, body_start);
    let closing: [u8; 9] = [0x2d, 0x2d, 0x2d, 0x2d, 0x2d, 0x45, 0x4e, 0x44, 0x20];
    let end = match delimiter(input, body_stop, closing.as_slice()) {
        Some(label) => label,
        None => { return None; },
    };
    let stop = end.2;
    proof {
        lemma_boundary_after_ascii(s, begin.1 + 5);
        lemma_boundary_after_ascii(s, end.1 + 5);
        lemma_boundary_at_ascii(s, body_stop as int);
    }
    let mut inner: Vec<Pair<'a>> = Vec::new();
    inner.push(Pair { rule: Rule::Keyword, text: slice(input, begin.0, begin.1), inner: Vec::new() });
    inner.push(Pair { rule: Rule::Base64, text: slice(input, body_start, body_stop), inner: Vec::new() });
    inner.push(Pair { rule: Rule::Keyword, text: slice(input, end.0, end.1), inner: Vec::new() });
    let node = Pair { rule: Rule::Object, text: slice(input, at, stop), inner };
    Some((node, stop))
}

/// What `rest` becomes when `spans` are put before what it holds.
spec fn after_spans(spans: Seq<Span>, rest: Option<(Seq<Span>, int)>) -> Option<(Seq<Span>, int)> {
    match rest {
        None => None,
        Some((more, end)) => Some((spans + more, end)),
    }
}

/// What `rest` becomes when `items` are put before what it holds.
spec fn after_items(items: Seq<ItemSyntax>, rest: Option<Seq<ItemSyntax>>) -> Option<
    Seq<ItemSyntax>,
> {
    match rest {
        None => None,
        Some(more) => Some(items + more),
    }
}

/// Recognizes the keyword line at `at` and hands out its tree and where it
/// ends.
fn keyword_line<'a>(input: &'a str, at: usize) -> (r: Option<(Pair<'a>, usize)>)
    requires
        at <= input.spec_bytes().len(),
    ensures
        match r {
            Some((node, end)) => {
                &&& keyword_line_at(input.spec_bytes(), at as int) is Some
                &&& node.spells_line(
                    input.spec_bytes(),
                    keyword_line_at(input.spec_bytes(), at as int).unwrap(),
                )
                &&& end == keyword_line_at(input.spec_bytes(), at as int).unwrap().span.end
                &&& at < end <= input.spec_bytes().len()
                &&& is_char_boundary(input.spec_bytes(), at as int)
                &&& is_char_boundary(input.spec_bytes(), end as int)
            },
            None => keyword_line_at(input.spec_bytes(), at as int) is None,
        },
{
    let ghost s = input.spec_bytes();
    let bytes = input.as_bytes();
    let n = bytes.len();
    let stop = scan(bytes, CharClass::Keyword, at);
    if stop == at {
        return None;
    }
    proof {
        encode_utf8_valid_utf8(input@);
        lemma_run_end(s, CharClass::Keyword, at as int);
        lemma_boundary_at_ascii(s, at as int);
        lemma_boundary_after_ascii(s, stop - 1);
    }
    let mut inner: Vec<Pair<'a>> = Vec::new();
    inner.push(Pair { rule: Rule::Keyword, text: slice(input, at, stop), inner: Vec::new() });
    let ghost mut spans: Seq<Span> = Seq::empty();
    let mut pos: usize = stop;
    assert(after_spans(spans, arguments_at(s, pos as int)) == arguments_at(s, stop as int)) by {
        if let Some((more, end)) = arguments_at(s, pos as int) {
            assert(spans + more =~= more);
        }
    }
    loop
        invariant
            s == input.spec_bytes(),
            bytes@ == s,
            n == s.len(),
            vstd::utf8::valid_utf8(s),
            at < stop <= pos <= n,
            stop == run_end(s, CharClass::Keyword, at as int),
            is_char_boundary(s, at as int),
            is_char_boundary(s, pos as int),
            arguments_at(s, stop as int) == after_spans(spans, arguments_at(s, pos as int)),
            inner@.len() == spans.len() + 1,
            inner@[0].is_leaf(Rule::Keyword),
            inner@[0].bytes() == s.subrange(at as int, stop as int),
            forall|i: int|
                1 <= i < inner@.len() ==> (#[trigger] inner@[i]).is_leaf(Rule::Argument)
                    && inner@[i].bytes() == text(s, spans[i - 1]),
        ensures
            stop <= pos < n,
            s[pos as int] == NEWLINE,
            is_char_boundary(s, at as int),
            arguments_at(s, stop as int) == Some((spans, pos + 1)),
            inner@.len() == spans.len() + 1,
            inner@[0].is_leaf(Rule::Keyword),
            inner@[0].bytes() == s.subrange(at as int, stop as int),
            forall|i: int|
                1 <= i < inner@.len() ==> (#[trigger] inner@[i]).is_leaf(Rule::Argument)
                    && inner@[i].bytes() == text(s, spans[i - 1]),
        decreases n - pos,
    {
        if pos >= n {
            return None;
        }
        if bytes[pos] == NEWLINE {
            assert(spans + Seq::<Span>::empty() =~= spans);
            break;
        }
        let start = scan(bytes, CharClass::Space, pos);
        let next = scan(bytes, CharClass::Argument, start);
        if start == pos || next == start {
            return None;
        }
        proof {
            lemma_run_end(s, CharClass::Space, pos as int);
            lemma_run_end(s, CharClass::Argument, start as int);
            lemma_boundary_after_ascii(s, start - 1);
            if next < n {
                lemma_boundary_at_ascii(s, next as int);
            } else {
                is_char_boundary_start_end_of_seq(s);
            }
        }
        let ghost span = Span { start: start as int, end: next as int };
        let ghost before = inner@;
        inner.push(Pair { rule: Rule::Argument, text: slice(input, start, next), inner: Vec::new() });
        proof {
            assert(arguments_at(s, pos as int) == after_spans(
                seq![span],
                arguments_at(s, next as int),
            ));
            if let Some((more, end)) = arguments_at(s, next as int) {
                assert(spans + (seq![span] + more) =~= spans.push(span) + more);
            }
            assert forall|i: int| 1 <= i < inner@.len() implies (#[trigger] inner@[i]).is_leaf(
                Rule::Argument,
            ) && inner@[i].bytes() == text(s, spans.push(span)[i - 1]) by {
                if i < before.len() {
                    assert(inner@[i] == before[i]);
                }
            }
            spans = spans.push(span);
        }
        pos = next;
    }
    let end = pos + 1;
    proof {
        lemma_boundary_after_ascii(s, pos as int);
    }
    let node = Pair { rule: Rule::KeywordLine, text: slice(input, at, end), inner };
    Some((node, end))
}

/// Recognizes the item at `at` and hands out its tree and where it ends.
fn item<'a>(input: &'a str, at: usize) -> (r: Option<(Pair<'a>, usize)>)
    requires
        at <= input.spec_bytes().len(),
    ensures
        match r {
            Some((node, end)) => {
                &&& item_at(input.spec_bytes(), at as int) is Some
                &&& node.spells_item(
                    input.spec_bytes(),
                    item_at(input.spec_bytes(), at as int).unwrap(),
                )
                &&& end == item_at(input.spec_bytes(), at as int).unwrap().span.end
                &&& at < end <= input.spec_bytes().len()
            },
            None => item_at(input.spec_bytes(), at as int) is None,
        },
{
    let (line, line_end) = match keyword_line(input, at) {
        Some(found) => found,
        None => { return None; },
    };
    let mut inner: Vec<Pair<'a>> = Vec::new();
    inner.push(line);
    match object(input, line_end) {
        Some((node, end)) => {
            inner.push(node);
            Some((Pair { rule: Rule::Item, text: slice(input, at, end), inner }, end))
        },
        None => Some((Pair { rule: Rule::Item, text: slice(input, at, line_end), inner }, line_end)),
    }
}

/// Holds `input` to the grammar: hands out the parse tree of the document
/// that `input` is, or `None` where it is not a document.
pub fn parse<'a>(input: &'a str) -> (r: Option<Pair<'a>>)
    ensures
        r is Some <==> document(input.spec_bytes()) is Some,
        r is Some ==> r.unwrap().spells_document(
            input.spec_bytes(),
            document(input.spec_bytes()).unwrap(),
        ),
{
    let ghost s = input.spec_bytes();
    let n = input.as_bytes().len();
    let mut inner: Vec<Pair<'a>> = Vec::new();
    let ghost mut items: Seq<ItemSyntax> = Seq::empty();
    let mut pos: usize = 0;
    assert(after_items(items, items_at(s, 0)) == items_at(s, 0)) by {
        if let Some(more) = items_at(s, 0) {
            assert(items + more =~= more);
        }
    }
    while pos < n
        invariant
            s == input.spec_bytes(),
            n == s.len(),
            pos <= n,
            items_at(s, 0) == after_items(items, items_at(s, pos as int)),
            inner@.len() == items.len(),
            forall|i: int| 0 <= i < inner@.len() ==> (#[trigger] inner@[i]).spells_item(s, items[i]),
        decreases n - pos,
    {
        let (node, end) = match item(input, pos) {
            Some(found) => found,
            None => { return None; },
        };
        let ghost found = item_at(s, pos as int).unwrap();
        let ghost before = inner@;
        inner.push(node);
        proof {
            if let Some(more) = items_at(s, end as int) {
                assert(items + (seq![found] + more) =~= items.push(found) + more);
            }
            assert forall|i: int| 0 <= i < inner@.len() implies (#[trigger] inner@[i]).spells_item(
                s,
                items.push(found)[i],
            ) by {
                if i < before.len() {
                    assert(inner@[i] == before[i]);
                }
            }
            items = items.push(found);
        }
        pos = end;
    }
    assert(items + Seq::<ItemSyntax>::empty() =~= items);
    Some(Pair { rule: Rule::Document, text: input, inner })
}

} // verus!

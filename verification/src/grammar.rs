//! The grammar of a document, as functions on the bytes of the input.
//!
//! ```text
//! Document    := Item* end-of-input
//! Item        := KeywordLine Object?
//! KeywordLine := Keyword (Space+ Argument)* NEWLINE
//! Object      := "-----BEGIN " Keyword "-----" NEWLINE
//!                Base64Line*
//!                "-----END " Keyword "-----" NEWLINE
//! Base64Line  := Base64+ NEWLINE
//! ```
//!
//! Every repetition takes as much as it can, and an item takes the object
//! that follows its keyword line whenever a complete one stands there. A
//! keyword may hold `-`, so in a line that opens or closes an object the
//! label is what lies between the marker and the last five dashes.
//! Whether the label that closes an object equals the one that opens it is
//! not a matter of the grammar; both are handed on in the parse tree.

use vstd::prelude::*;
use crate::charset::{CharClass, NEWLINE};

verus! {

/// A piece of the input: the bytes from `start` up to, not including, `end`.
pub struct Span {
    pub start: int,
    pub end: int,
}

/// What a keyword line consists of.
pub struct LineSyntax {
    /// The whole line, newline included.
    pub span: Span,
    pub keyword: Span,
    pub arguments: Seq<Span>,
}

/// What an object consists of.
pub struct ObjectSyntax {
    /// The whole object, from the first dash to the last newline.
    pub span: Span,
    /// The label of the line that opens the object.
    pub begin_label: Span,
    /// The lines between the opening and the closing line, newlines included.
    pub body: Span,
    /// The label of the line that closes the object.
    pub end_label: Span,
}

/// What an item consists of.
pub struct ItemSyntax {
    pub span: Span,
    pub line: LineSyntax,
    pub object: Option<ObjectSyntax>,
}

/// The bytes of `s` that `span` covers.
pub open spec fn text(s: Seq<u8>, span: Span) -> Seq<u8> {
    s.subrange(span.start, span.end)
}

/// Where the longest run of bytes of `class` that starts at `from` ends.
pub open spec fn run_end(s: Seq<u8>, class: CharClass, from: int) -> int
    decreases s.len() - from,
{
    if 0 <= from < s.len() && class.contains(s[from]) {
        run_end(s, class, from + 1)
    } else {
        from
    }
}

/// `"-----BEGIN "`, which opens the first line of an object.
pub open spec fn begin_marker() -> Seq<u8> {
    seq![0x2d, 0x2d, 0x2d, 0x2d, 0x2d, 0x42, 0x45, 0x47, 0x49, 0x4e, 0x20]
}

/// `"-----END "`, which opens the last line of an object.
pub open spec fn end_marker() -> Seq<u8> {
    seq![0x2d, 0x2d, 0x2d, 0x2d, 0x2d, 0x45, 0x4e, 0x44, 0x20]
}

/// `"-----"`, which closes the first and the last line of an object.
pub open spec fn closing_dashes() -> Seq<u8> {
    seq![0x2d, 0x2d, 0x2d, 0x2d, 0x2d]
}

/// Whether the bytes of `word` stand in `s` at position `at`.
pub open spec fn occurs_at(s: Seq<u8>, at: int, word: Seq<u8>) -> bool {
    &&& 0 <= at
    &&& at + word.len() <= s.len()
    &&& s.subrange(at, at + word.len()) == word
}

/// The label of the delimiter line at `at`: the line is `marker`, a keyword,
/// five dashes and a newline. The line ends six bytes after its label.
pub open spec fn delimiter_at(s: Seq<u8>, at: int, marker: Seq<u8>) -> Option<Span> {
    let from = at + marker.len();
    let stop = run_end(s, CharClass::Keyword, from);
    if occurs_at(s, at, marker) && from < stop - 5 && occurs_at(s, stop - 5, closing_dashes())
        && stop < s.len() && s[stop] == NEWLINE {
        Some(Span { start: from, end: stop - 5 })
    } else {
        None
    }
}

/// Where the lines of base64 text that start at `from` end: each line is a
/// run of base64 bytes, not empty, and a newline.
pub open spec fn body_end(s: Seq<u8>, from: int) -> int
    decreases s.len() - from,
{
    let stop = run_end(s, CharClass::Base64, from);
    if 0 <= from < stop < s.len() && s[stop] == NEWLINE {
        body_end(s, stop + 1)
    } else {
        from
    }
}

/// The object that stands at `at`, if a complete one does.
pub open spec fn object_at(s: Seq<u8>, at: int) -> Option<ObjectSyntax> {
    match delimiter_at(s, at, begin_marker()) {
        None => None,
        Some(begin_label) => {
            let body = Span { start: begin_label.end + 6, end: body_end(s, begin_label.end + 6) };
            match delimiter_at(s, body.end, end_marker()) {
                None => None,
                Some(end_label) => Some(
                    ObjectSyntax {
                        span: Span { start: at, end: end_label.end + 6 },
                        begin_label,
                        body,
                        end_label,
                    },
                ),
            }
        },
    }
}

/// The arguments between `from`, where a keyword or an argument has ended,
/// and the end of the line, with the position after the newline.
pub open spec fn arguments_at(s: Seq<u8>, from: int) -> Option<(Seq<Span>, int)>
    decreases s.len() - from,
{
    if !(0 <= from < s.len()) {
        None
    } else if s[from] == NEWLINE {
        Some((Seq::empty(), from + 1))
    } else {
        let start = run_end(s, CharClass::Space, from);
        let stop = run_end(s, CharClass::Argument, start);
        if from < start < stop <= s.len() {
            match arguments_at(s, stop) {
                None => None,
                Some((rest, end)) => Some((seq![Span { start, end: stop }] + rest, end)),
            }
        } else {
            None
        }
    }
}

/// The keyword line that stands at `at`, if one does.
pub open spec fn keyword_line_at(s: Seq<u8>, at: int) -> Option<LineSyntax> {
    let stop = run_end(s, CharClass::Keyword, at);
    if 0 <= at < stop {
        match arguments_at(s, stop) {
            None => None,
            Some((arguments, end)) => Some(
                LineSyntax {
                    span: Span { start: at, end },
                    keyword: Span { start: at, end: stop },
                    arguments,
                },
            ),
        }
    } else {
        None
    }
}

/// The item that stands at `at`, if one does.
pub open spec fn item_at(s: Seq<u8>, at: int) -> Option<ItemSyntax> {
    match keyword_line_at(s, at) {
        None => None,
        Some(line) => {
            let object = object_at(s, line.span.end);
            let end = match object {
                Some(o) => o.span.end,
                None => line.span.end,
            };
            Some(ItemSyntax { span: Span { start: at, end }, line, object })
        },
    }
}

/// The items that fill `s` from `at` to its end, if items do.
pub open spec fn items_at(s: Seq<u8>, at: int) -> Option<Seq<ItemSyntax>>
    decreases s.len() - at,
{
    if at == s.len() {
        Some(Seq::empty())
    } else {
        match item_at(s, at) {
            None => None,
            Some(item) => if at < item.span.end <= s.len() {
                match items_at(s, item.span.end) {
                    None => None,
                    Some(rest) => Some(seq![item] + rest),
                }
            } else {
                None
            },
        }
    }
}

/// The items of the document `s`, or `None` where `s` is not a document.
pub open spec fn document(s: Seq<u8>) -> Option<Seq<ItemSyntax>> {
    items_at(s, 0)
}

/// A run stays inside the input, holds only bytes of its class, and stops
/// at the first byte that is not of the class.
pub proof fn lemma_run_end(s: Seq<u8>, class: CharClass, from: int)
    requires
        0 <= from <= s.len(),
    ensures
        from <= run_end(s, class, from) <= s.len(),
        forall|k: int| from <= k < run_end(s, class, from) ==> class.contains(#[trigger] s[k]),
        run_end(s, class, from) < s.len() ==> !class.contains(s[run_end(s, class, from)]),
    decreases s.len() - from,
{
    if from < s.len() && class.contains(s[from]) {
        lemma_run_end(s, class, from + 1);
    }
}

/// A run that passes over `mid` ends where the run from `mid` ends.
pub proof fn lemma_run_end_resume(s: Seq<u8>, class: CharClass, from: int, mid: int)
    requires
        0 <= from <= mid <= s.len(),
        forall|k: int| from <= k < mid ==> class.contains(#[trigger] s[k]),
    ensures
        run_end(s, class, from) == run_end(s, class, mid),
    decreases mid - from,
{
    if from < mid {
        lemma_run_end_resume(s, class, from + 1, mid);
    }
}

} // verus!

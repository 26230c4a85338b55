//! Documents and their items, and how they are built from a parse tree.

use vstd::prelude::*;
use vstd::string::StringSliceAdditionalSpecFns;
use vstd::utf8::{decode_utf8, encode_utf8_decode_utf8};
use crate::charset::NEWLINE;
use crate::decoding::{base64_decoded, decode_standard, decoded_object};
use crate::grammar::{document, text, ItemSyntax, Span};
use crate::recognizer::parse;
use crate::tree::Pair;

verus! {

/// A document: its items in the order in which they stand in the input.
#[derive(Clone, Debug, PartialEq, Eq)]
pub struct Document {
    pub items: Vec<Item>,
}

/// An item of a document.
#[derive(Clone, Debug, PartialEq, Eq)]
pub struct Item {
    /// The keyword with which the item's line begins.
    pub keyword: String,
    /// The arguments that follow the keyword, in their order.
    pub arguments: Vec<String>,
    /// The decoded bytes of the item's object, where it has one.
    pub object: Option<Vec<u8>>,
}

/// Why an input is no document.
#[derive(Clone, Copy, Debug, PartialEq, Eq, Structural)]
pub enum Error {
    /// The body of an object is not base64 text that can be decoded.
    InvalidBase64,
    /// The input does not follow the grammar.
    PestFailure,
    /// A parse tree does not have the shape that the grammar gives it. The
    /// functions of this library rule such trees out before they are called
    /// and never return this error.
    Unknown,
}

impl Error {
    /// The sentence that tells a reader what went wrong.
    pub fn message(&self) -> (r: String)
        ensures
            r@ == match self {
                Error::InvalidBase64 => "invalid base64 in object"@,
                Error::PestFailure => "the parser failed"@,
                Error::Unknown => "unknown parsing error occurred"@,
            },
    {
        match self {
            Error::InvalidBase64 => "invalid base64 in object".to_owned(),
            Error::PestFailure => "the parser failed".to_owned(),
            Error::Unknown => "unknown parsing error occurred".to_owned(),
        }
    }
}

/// What an item is, as plain values.
pub struct ItemView {
    pub keyword: Seq<char>,
    pub arguments: Seq<Seq<char>>,
    pub object: Option<Seq<u8>>,
}

impl View for Item {
    type V = ItemView;

    open spec fn view(&self) -> ItemView {
        ItemView {
            keyword: self.keyword@,
            arguments: self.arguments@.map_values(|argument: String| argument@),
            object: match self.object {
                Some(bytes) => Some(bytes@),
                None => None,
            },
        }
    }
}

impl View for Document {
    type V = Seq<ItemView>;

    open spec fn view(&self) -> Seq<ItemView> {
        self.items@.map_values(|item: Item| item@)
    }
}

/// The lines of an object's body put together: the body without its newlines.
pub open spec fn joined_lines(body: Seq<u8>) -> Seq<u8> {
    body.filter(|b: u8| b != NEWLINE)
}

/// What the body of an object decodes to.
pub open spec fn object_of_body(body: Seq<u8>) -> Result<Seq<u8>, Error> {
    match base64_decoded(joined_lines(body)) {
        Some(bytes) => Ok(bytes),
        None => Err(Error::InvalidBase64),
    }
}

impl Item {
    /// The item that the piece `item` of the input `s` stands for, or the
    /// error that its object gives: keyword and arguments are the text of
    /// their pieces, the object is what the body decodes to.
    pub open spec fn of_syntax(s: Seq<u8>, item: ItemSyntax) -> Result<ItemView, Error> {
        let keyword = decode_utf8(text(s, item.line.keyword));
        let arguments = item.line.arguments.map_values(|a: Span| decode_utf8(text(s, a)));
        match item.object {
            Some(object) => match object_of_body(text(s, object.body)) {
                Ok(bytes) => Ok(ItemView { keyword, arguments, object: Some(bytes) }),
                Err(e) => Err(e),
            },
            None => Ok(ItemView { keyword, arguments, object: None }),
        }
    }

    /// The item that the tree `item` of an item stands for, or the error
    /// that its object gives.
    pub open spec fn of_tree(item: Pair) -> Result<ItemView, Error> {
        let line = item.inner@[0];
        let keyword = line.inner@[0].text@;
        let arguments = Seq::new((line.inner@.len() - 1) as nat, |i: int| line.inner@[i + 1].text@);
        if item.inner@.len() == 2 {
            match object_of_body(item.inner@[1].inner@[1].bytes()) {
                Ok(bytes) => Ok(ItemView { keyword, arguments, object: Some(bytes) }),
                Err(e) => Err(e),
            }
        } else {
            Ok(ItemView { keyword, arguments, object: None })
        }
    }

    /// What is handed out for an item: its plain values, or the error.
    pub open spec fn outcome(r: Result<Item, Error>) -> Result<ItemView, Error> {
        match r {
            Ok(item) => Ok(item@),
            Err(e) => Err(e),
        }
    }

    /// Builds the item that the tree `item` of an item stands for: the
    /// keyword and the arguments are the texts of the nodes of its keyword
    /// line, the object is what the body of its object decodes to.
    pub fn parse_token(item: Pair<'_>) -> (r: Result<Item, Error>)
        requires
            item.is_item(),
        ensures
            Item::outcome(r) == Item::of_tree(item),
    {
        Item::build(&item)
    }

    /// Does what `parse_token` does, on a tree that is lent.
    pub(crate) fn build(item: &Pair<'_>) -> (r: Result<Item, Error>)
        requires
            item.is_item(),
        ensures
            Item::outcome(r) == Item::of_tree(*item),
    {
        let (keyword, arguments) = match Item::parse_keyword_line(&item.inner[0]) {
            Ok(parts) => parts,
            Err(e) => { return Err(e); },
        };
        let object = if item.inner.len() == 2 {
            match Item::parse_object(&item.inner[1]) {
                Ok(bytes) => Some(bytes),
                Err(e) => { return Err(e); },
            }
        } else {
            None
        };
        let built = Item { keyword, arguments, object };
        assert(built@.arguments =~= Item::of_tree(*item).unwrap().arguments);
        Ok(built)
    }

    /// Takes the keyword and the arguments out of the tree of a keyword line.
    fn parse_keyword_line(line: &Pair<'_>) -> (r: Result<(String, Vec<String>), Error>)
        requires
            line.is_keyword_line(),
        ensures
            r is Ok,
            r.unwrap().0@ == line.inner@[0].text@,
            r.unwrap().1@.len() == line.inner@.len() - 1,
            forall|i: int|
                0 <= i < r.unwrap().1@.len() ==> (#[trigger] r.unwrap().1@[i])@ == line.inner@[i
                    + 1].text@,
    {
        let keyword = line.inner[0].text.to_owned();
        let mut arguments: Vec<String> = Vec::new();
        let mut i: usize = 1;
        while i < line.inner.len()
            invariant
                1 <= i <= line.inner@.len(),
                arguments@.len() == i - 1,
                forall|k: int|
                    0 <= k < arguments@.len() ==> (#[trigger] arguments@[k])@ == line.inner@[k
                        + 1].text@,
            decreases line.inner@.len() - i,
        {
            arguments.push(line.inner[i].text.to_owned());
            i += 1;
        }
        Ok((keyword, arguments))
    }

    /// Decodes the body of the tree of an object.
    fn parse_object(object: &Pair<'_>) -> (r: Result<Vec<u8>, Error>)
        requires
            object.is_object(),
        ensures
            match r {
                Ok(bytes) => object_of_body(object.inner@[1].bytes()) == Ok::<Seq<u8>, Error>(
                    bytes@,
                ),
                Err(e) => object_of_body(object.inner@[1].bytes()) == Err::<Seq<u8>, Error>(e),
            },
    {
        let body = object.inner[1].text.as_bytes();
        let mut joined: Vec<u8> = Vec::new();
        let mut i: usize = 0;
        while i < body.len()
            invariant
                i <= body@.len(),
                joined@ == joined_lines(body@.subrange(0, i as int)),
            decreases body@.len() - i,
        {
            proof {
                reveal(Seq::filter);
                assert(body@.subrange(0, i + 1).drop_last() =~= body@.subrange(0, i as int));
            }
            if body[i] != NEWLINE {
                joined.push(body[i]);
            }
            i += 1;
        }
        assert(body@.subrange(0, i as int) =~= body@);
        decoded_object(decode_standard(joined.as_slice()))
    }
}

impl Document {
    /// The items that the pieces `items` of the input `s` stand for, or
    /// `InvalidBase64` where the object of one of them cannot be decoded.
    pub open spec fn of_syntax(s: Seq<u8>, items: Seq<ItemSyntax>) -> Result<Seq<ItemView>, Error> {
        if forall|i: int| 0 <= i < items.len() ==> Item::of_syntax(s, #[trigger] items[i]) is Ok {
            Ok(items.map_values(|item: ItemSyntax| Item::of_syntax(s, item).unwrap()))
        } else {
            Err(Error::InvalidBase64)
        }
    }

    /// What parsing the input `s` gives: `PestFailure` where `s` does not
    /// follow the grammar, `InvalidBase64` where it does and the object of
    /// an item cannot be decoded, and else the items of `s` in their order.
    pub open spec fn of_input(s: Seq<u8>) -> Result<Seq<ItemView>, Error> {
        match document(s) {
            None => Err(Error::PestFailure),
            Some(items) => Document::of_syntax(s, items),
        }
    }

    /// Parses `input` as a document: holds it to the grammar and builds the
    /// document from its parse tree.
    pub fn parse_str(input: &str) -> (r: Result<Document, Error>)
        ensures
            Document::outcome(r) == Document::of_input(input.spec_bytes()),
    {
        match parse(input) {
            None => Err(Error::PestFailure),
            Some(tree) => {
                proof {
                    lemma_document_of_tree(
                        input.spec_bytes(),
                        document(input.spec_bytes()).unwrap(),
                        tree,
                    );
                }
                Document::parse_token(tree)
            },
        }
    }

    /// The items that the tree `document` of a document stands for, or
    /// `InvalidBase64` where the object of one of them cannot be decoded.
    pub open spec fn of_tree(document: Pair) -> Result<Seq<ItemView>, Error> {
        if forall|i: int|
            0 <= i < document.inner@.len() ==> Item::of_tree(#[trigger] document.inner@[i]) is Ok {
            Ok(
                Seq::new(
                    document.inner@.len(),
                    |i: int| Item::of_tree(document.inner@[i]).unwrap(),
                ),
            )
        } else {
            Err(Error::InvalidBase64)
        }
    }

    /// What is handed out for a document: its items as plain values, or the
    /// error.
    pub open spec fn outcome(r: Result<Document, Error>) -> Result<Seq<ItemView>, Error> {
        match r {
            Ok(document) => Ok(document@),
            Err(e) => Err(e),
        }
    }

    /// Builds the document that the tree `document` of a document stands
    /// for: one item for each item of the tree, in the same order.
    pub fn parse_token(document: Pair<'_>) -> (r: Result<Document, Error>)
        requires
            document.is_document(),
        ensures
            Document::outcome(r) == Document::of_tree(document),
    {
        let mut items: Vec<Item> = Vec::new();
        let mut i: usize = 0;
        while i < document.inner.len()
            invariant
                document.is_document(),
                i <= document.inner@.len(),
                items@.len() == i,
                forall|k: int|
                    0 <= k < i ==> Item::of_tree(document.inner@[k]) == Ok::<ItemView, Error>(
                        (#[trigger] items@[k])@,
                    ),
            decreases document.inner@.len() - i,
        {
            match Item::build(&document.inner[i]) {
                Ok(item) => {
                    items.push(item);
                },
                Err(e) => {
                    return Err(e);
                },
            }
            i += 1;
        }
        let built = Document { items };
        proof {
            assert forall|k: int| 0 <= k < document.inner@.len() implies Item::of_tree(
                #[trigger] document.inner@[k],
            ) == Ok::<ItemView, Error>(built.items@[k]@) by {}
            assert(built@ =~= Document::of_tree(document).unwrap());
        }
        Ok(built)
    }
}

/// The tree of an item of the input stands for the item that the piece
/// itself stands for.
pub proof fn lemma_item_of_tree(s: Seq<u8>, item: ItemSyntax, node: Pair)
    requires
        node.spells_item(s, item),
    ensures
        Item::of_tree(node) == Item::of_syntax(s, item),
{
    let line = node.inner@[0];
    encode_utf8_decode_utf8(line.inner@[0].text@);
    let from_tree = Seq::new((line.inner@.len() - 1) as nat, |i: int| line.inner@[i + 1].text@);
    let from_syntax = item.line.arguments.map_values(|a: Span| decode_utf8(text(s, a)));
    assert(from_tree =~= from_syntax) by {
        assert forall|i: int| 0 <= i < from_tree.len() implies from_tree[i] == from_syntax[i] by {
            encode_utf8_decode_utf8(line.inner@[i + 1].text@);
        }
    }
}

/// The tree of a document stands for the items that the input itself
/// stands for.
pub proof fn lemma_document_of_tree(s: Seq<u8>, items: Seq<ItemSyntax>, tree: Pair)
    requires
        tree.spells_document(s, items),
    ensures
        Document::of_tree(tree) == Document::of_syntax(s, items),
{
    assert forall|i: int| 0 <= i < items.len() implies Item::of_tree(#[trigger] tree.inner@[i])
        == Item::of_syntax(s, items[i]) by {
        lemma_item_of_tree(s, items[i], tree.inner@[i]);
    }
    if Document::of_tree(tree) is Ok {
        assert forall|i: int| 0 <= i < items.len() implies Item::of_syntax(
            s,
            #[trigger] items[i],
        ) is Ok by {
            assert(Item::of_tree(tree.inner@[i]) is Ok);
        }
        assert(Document::of_tree(tree).unwrap() =~= Document::of_syntax(s, items).unwrap());
    }
}

} // verus!

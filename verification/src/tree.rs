//! The parse tree: an ordered tree of labelled pieces of the input.

use vstd::prelude::*;
use vstd::string::StringSliceAdditionalSpecFns;
use crate::grammar::{text, ItemSyntax, LineSyntax, ObjectSyntax};

verus! {

/// The rules of the grammar, by which the nodes of a parse tree are labelled.
#[derive(Clone, Copy, Debug, PartialEq, Eq, Structural)]
pub enum Rule {
    /// The whole input; inside it one `Item` for each item.
    Document,
    /// A keyword line and the object that follows it; inside it one
    /// `KeywordLine` and then at most one `Object`.
    Item,
    /// A line of a keyword and its arguments; inside it one `Keyword` and
    /// then one `Argument` for each argument.
    KeywordLine,
    /// A keyword, or the label of a line that opens or closes an object.
    Keyword,
    /// An argument of a keyword line.
    Argument,
    /// An object; inside it the `Keyword` of its opening line, the `Base64`
    /// of its body and the `Keyword` of its closing line.
    Object,
    /// The lines of base64 text of an object, newlines included.
    Base64,
}

/// A node of the parse tree: the piece of the input that a rule has matched,
/// and the nodes of the rules matched inside it, in the order of the input.
#[derive(Debug)]
pub struct Pair<'a> {
    pub rule: Rule,
    pub text: &'a str,
    pub inner: Vec<Pair<'a>>,
}

impl<'a> Pair<'a> {
    /// The bytes of the piece of input that this node stands for.
    pub open spec fn bytes(&self) -> Seq<u8> {
        self.text.spec_bytes()
    }

    /// A node of rule `rule` with no nodes inside it.
    pub open spec fn is_leaf(&self, rule: Rule) -> bool {
        self.rule == rule && self.inner@.len() == 0
    }

    /// The shape of the tree of a keyword line.
    pub open spec fn is_keyword_line(&self) -> bool {
        &&& self.rule == Rule::KeywordLine
        &&& self.inner@.len() >= 1
        &&& self.inner@[0].is_leaf(Rule::Keyword)
        &&& forall|i: int|
            1 <= i < self.inner@.len() ==> (#[trigger] self.inner@[i]).is_leaf(Rule::Argument)
    }

    /// The shape of the tree of an object.
    pub open spec fn is_object(&self) -> bool {
        &&& self.rule == Rule::Object
        &&& self.inner@.len() == 3
        &&& self.inner@[0].is_leaf(Rule::Keyword)
        &&& self.inner@[1].is_leaf(Rule::Base64)
        &&& self.inner@[2].is_leaf(Rule::Keyword)
    }

    /// The shape of the tree of an item.
    pub open spec fn is_item(&self) -> bool {
        &&& self.rule == Rule::Item
        &&& 1 <= self.inner@.len() <= 2
        &&& self.inner@[0].is_keyword_line()
        &&& self.inner@.len() == 2 ==> self.inner@[1].is_object()
    }

    /// The shape of the tree of a document.
    pub open spec fn is_document(&self) -> bool {
        &&& self.rule == Rule::Document
        &&& forall|i: int| 0 <= i < self.inner@.len() ==> (#[trigger] self.inner@[i]).is_item()
    }

    /// Tests whether this is a node of rule `rule` with no nodes inside it.
    pub fn has_leaf_shape(&self, rule: Rule) -> (r: bool)
        ensures
            r == self.is_leaf(rule),
    {
        self.inner.len() == 0 && self.rule == rule
    }

    /// Tests whether this tree has the shape of the tree of a keyword line.
    pub fn has_keyword_line_shape(&self) -> (r: bool)
        ensures
            r == self.is_keyword_line(),
    {
        if self.rule != Rule::KeywordLine || self.inner.len() < 1 {
            return false;
        }
        if !self.inner[0].has_leaf_shape(Rule::Keyword) {
            return false;
        }
        let mut i: usize = 1;
        while i < self.inner.len()
            invariant
                1 <= i <= self.inner@.len(),
                forall|k: int| 1 <= k < i ==> (#[trigger] self.inner@[k]).is_leaf(Rule::Argument),
            decreases self.inner@.len() - i,
        {
            if !self.inner[i].has_leaf_shape(Rule::Argument) {
                return false;
            }
            i += 1;
        }
        true
    }

    /// Tests whether this tree has the shape of the tree of an object.
    pub fn has_object_shape(&self) -> (r: bool)
        ensures
            r == self.is_object(),
    {
        self.rule == Rule::Object && self.inner.len() == 3 && self.inner[0].has_leaf_shape(
            Rule::Keyword,
        ) && self.inner[1].has_leaf_shape(Rule::Base64) && self.inner[2].has_leaf_shape(Rule::Keyword)
    }

    /// Tests whether this tree has the shape of the tree of an item: one
    /// keyword line and then at most one object.
    pub fn has_item_shape(&self) -> (r: bool)
        ensures
            r == self.is_item(),
    {
        if self.rule != Rule::Item || self.inner.len() < 1 || self.inner.len() > 2 {
            return false;
        }
        if !self.inner[0].has_keyword_line_shape() {
            return false;
        }
        self.inner.len() == 1 || self.inner[1].has_object_shape()
    }

    /// Tests whether this tree has the shape of the tree of a document.
    pub fn has_document_shape(&self) -> (r: bool)
        ensures
            r == self.is_document(),
    {
        if self.rule != Rule::Document {
            return false;
        }
        let mut i: usize = 0;
        while i < self.inner.len()
            invariant
                i <= self.inner@.len(),
                forall|k: int| 0 <= k < i ==> (#[trigger] self.inner@[k]).is_item(),
            decreases self.inner@.len() - i,
        {
            if !self.inner[i].has_item_shape() {
                return false;
            }
            i += 1;
        }
        true
    }

    /// This is the tree of the keyword line `line` of the input `s`.
    pub open spec fn spells_line(&self, s: Seq<u8>, line: LineSyntax) -> bool {
        &&& self.is_keyword_line()
        &&& self.bytes() == text(s, line.span)
        &&& self.inner@.len() == line.arguments.len() + 1
        &&& self.inner@[0].bytes() == text(s, line.keyword)
        &&& forall|i: int|
            1 <= i < self.inner@.len() ==> (#[trigger] self.inner@[i]).bytes() == text(
                s,
                line.arguments[i - 1],
            )
    }

    /// This is the tree of the object `object` of the input `s`.
    pub open spec fn spells_object(&self, s: Seq<u8>, object: ObjectSyntax) -> bool {
        &&& self.is_object()
        &&& self.bytes() == text(s, object.span)
        &&& self.inner@[0].bytes() == text(s, object.begin_label)
        &&& self.inner@[1].bytes() == text(s, object.body)
        &&& self.inner@[2].bytes() == text(s, object.end_label)
    }

    /// This is the tree of the item `item` of the input `s`.
    pub open spec fn spells_item(&self, s: Seq<u8>, item: ItemSyntax) -> bool {
        &&& self.is_item()
        &&& self.bytes() == text(s, item.span)
        &&& self.inner@[0].spells_line(s, item.line)
        &&& match item.object {
            Some(object) => self.inner@.len() == 2 && self.inner@[1].spells_object(s, object),
            None => self.inner@.len() == 1,
        }
    }

    /// This is the tree of the document `s`, whose items are `items`.
    pub open spec fn spells_document(&self, s: Seq<u8>, items: Seq<ItemSyntax>) -> bool {
        &&& self.is_document()
        &&& self.bytes() == s
        &&& self.inner@.len() == items.len()
        &&& forall|i: int|
            0 <= i < self.inner@.len() ==> (#[trigger] self.inner@[i]).spells_item(s, items[i])
    }
}

} // verus!

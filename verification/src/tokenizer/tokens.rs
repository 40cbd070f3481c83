//! The data model of completed tokens.

use vstd::prelude::*;
use vstd::utf8::*;
use crate::tokenizer::text::lemma_encode_empty;

verus! {

/// A document type declaration.
#[derive(Clone, Debug, PartialEq, Eq)]
pub struct Doctype {
    pub name: Option<String>,
    pub public_id: Option<String>,
    pub system_id: Option<String>,
    pub force_quirks: bool,
}

impl Doctype {
    /// A doctype with every identifier absent and quirks not forced.
    pub fn new() -> (d: Doctype)
        ensures
            d.name is None,
            d.public_id is None,
            d.system_id is None,
            !d.force_quirks,
    {
        Doctype { name: None, public_id: None, system_id: None, force_quirks: false }
    }
}

/// One attribute of a tag. While a tag is being read, one value of this
/// type is filled, attached, cleared and filled again.
#[derive(Clone, Debug, PartialEq, Eq)]
pub struct Attribute {
    pub name: String,
    pub value: String,
}

impl Attribute {
    /// An attribute with an empty name and an empty value.
    pub fn new() -> (a: Attribute)
        ensures
            a.name@ == Seq::<char>::empty(),
            a.value@ == Seq::<char>::empty(),
    {
        Attribute { name: String::new(), value: String::new() }
    }

    /// Empties the name and the value, keeping their storage for reuse.
    pub fn clear(&mut self)
        ensures
            final(self).name@ == Seq::<char>::empty(),
            final(self).value@ == Seq::<char>::empty(),
    {
        proof {
            encode_utf8_valid_utf8(self.name@);
            encode_utf8_valid_utf8(self.value@);
            lemma_encode_empty(self.name@);
            lemma_encode_empty(self.value@);
        }
        self.name.truncate(0);
        self.value.truncate(0);
        proof {
            lemma_encode_empty(self.name@);
            lemma_encode_empty(self.value@);
        }
    }
}

/// Whether a tag opens or closes an element.
#[derive(Clone, Copy, Debug, PartialEq, Eq)]
pub enum TagKind {
    StartTag,
    EndTag,
}

/// A start or end tag with its attributes in source order.
#[derive(Clone, Debug, PartialEq, Eq)]
pub struct Tag {
    pub kind: TagKind,
    pub name: String,
    pub self_closing: bool,
    pub attrs: Vec<Attribute>,
}

impl Tag {
    /// A tag of the given kind with an empty name, no attributes, and not
    /// self-closing.
    pub fn new(kind: TagKind) -> (t: Tag)
        ensures
            t.kind == kind,
            t.name@ == Seq::<char>::empty(),
            !t.self_closing,
            t.attrs@ == Seq::<Attribute>::empty(),
    {
        Tag { kind, name: String::new(), self_closing: false, attrs: Vec::new() }
    }
}

/// One unit of tokenizer output. A `MultiCharacterToken` stands for the
/// `CharacterToken`s of its characters in order, and is made only from a
/// single run of data.
#[derive(Clone, Debug, PartialEq, Eq)]
pub enum Token {
    DoctypeToken(Doctype),
    TagToken(Tag),
    CommentToken(String),
    CharacterToken(char),
    MultiCharacterToken(String),
    EOFToken,
    ParseError(String),
}

} // verus!

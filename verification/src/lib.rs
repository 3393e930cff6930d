//! Lexical front end for a lightweight markup language.
//!
//! Two primitives are provided: a streaming UTF-8 decoder
//! ([`stream::utf8::CharStream`]) that turns raw bytes into validated Unicode
//! scalar values, and a tokenizer ([`lexer::lex`]) that splits decoded text
//! into plain-text spans and single-character markup delimiters. The
//! block/document assembly stage that would consume those token streams is
//! not built yet: [`parse`] only ever produces the empty [`Document`].

use vstd::prelude::*;

pub mod lexer;
pub mod stream;

verus! {

/// A parsed document: attribute entries and the blocks of the body.
#[derive(Debug)]
pub struct Document {
    attributes: Vec<(String, String)>,
    blocks: Vec<Block>,
}

/// One block of a document, with its own attributes, a block kind, and the
/// block's content.
#[derive(Debug)]
pub struct Block {
    attributes: Vec<(String, String)>,
    kind: BlockKind,
    content: BlockContent,
}

/// The kinds of block a document can hold.
#[derive(Debug)]
enum BlockKind {
    Paragraph,
    LiteralParagraph,
    Admonition,
    Comment,
    Example,
    Fenced,
    Listing,
    Literal,
    Open,
    Passthrough,
    Quote,
    Sidebar,
    Source,
    Stem,
    Table,
    Verse,
}

/// Content of a block: nested blocks, runs of text in several treatments, or
/// nothing at all.
#[derive(Debug)]
enum BlockContent {
    Compound(Vec<Block>),
    Simple(Vec<String>),
    Raw(Vec<String>),
    Verbatim(Vec<String>),
    Empty,
}

impl Document {
    /// True when the document has no attributes and no blocks.
    pub closed spec fn is_empty(&self) -> bool {
        self.attributes@.len() == 0 && self.blocks@.len() == 0
    }
}

impl Default for Document {
    /// The empty document: no attributes, no blocks.
    fn default() -> (d: Document)
        ensures
            d.is_empty(),
    {
        Document { attributes: Vec::new(), blocks: Vec::new() }
    }
}

/// Errors of document assembly.
#[derive(Debug, Clone, Copy, PartialEq, Eq, Structural)]
pub enum Error {
    InvalidDocument,
}

impl Error {
    /// A short description of the error.
    pub fn message(&self) -> (s: &'static str)
        ensures
            s@ == "invalid"@,
    {
        "invalid"
    }
}

/// Parse a document from text. Block and inline assembly is not built yet,
/// so every input yields the empty document.
pub fn parse(string: &str) -> (r: Result<Document, Error>)
    ensures
        r matches Ok(d) && d.is_empty(),
{
    let document = Document::default();
    Ok(document)
}

} // verus!

//! Links Notation: a text format for references and for links between them,
//! written between parentheses or by indentation.
//!
//! `parse_lino` reads a document into a tree, `LiNo::format_compact` and
//! `LiNo::format_alternate` write a tree back as text. What each of them
//! returns is stated over the grammar of the module `grammar`, the flattening
//! of the module `flatten` and the formats of the module `notation`.

pub mod elision;
pub mod flatten;
pub mod grammar;
pub mod laws;
pub mod lexer;
pub mod notation;
pub mod parser;
pub mod reading;

pub use crate::grammar::ParseError;
pub use crate::notation::LiNo;

use crate::flatten::{flatten_links, spec_flatten_links};
use crate::grammar::spec_parse_document;
use crate::notation::{lemma_view_link, view_trees, Notation};
use crate::parser::parse_document;
use vstd::prelude::*;

verus! {

/// The flattened entries of a document, or why it is no notation.
pub open spec fn spec_parse_lino_to_links(s: Seq<char>) -> Result<Seq<Notation>, ParseError> {
    match spec_parse_document(s) {
        Ok(links) => Ok(spec_flatten_links(links)),
        Err(e) => Err(e),
    }
}

/// The tree of a document: a link without a label whose values are the
/// flattened entries of the document.
pub open spec fn spec_parse_lino(s: Seq<char>) -> Result<Notation, ParseError> {
    match spec_parse_lino_to_links(s) {
        Ok(entries) => Ok(Notation::Link { id: None, values: entries }),
        Err(e) => Err(e),
    }
}

/// Parses a document into its flattened entries, one for each line of the
/// document. A document of nothing but white space has none.
pub fn parse_lino_to_links(document: &str) -> (r: Result<Vec<LiNo<String>>, ParseError>)
    ensures
        match r {
            Ok(entries) => spec_parse_lino_to_links(document@) == Ok::<Seq<Notation>, ParseError>(
                view_trees(entries@),
            ),
            Err(e) => spec_parse_lino_to_links(document@) == Err::<Seq<Notation>, ParseError>(e),
        },
{
    match parse_document(document) {
        Ok((_, links)) => Ok(flatten_links(links)),
        Err(e) => Err(e),
    }
}

/// Parses a document into one tree: a link without a label that holds the
/// flattened entries of the document.
pub fn parse_lino(document: &str) -> (r: Result<LiNo<String>, ParseError>)
    ensures
        match r {
            Ok(tree) => spec_parse_lino(document@) == Ok::<Notation, ParseError>(tree@),
            Err(e) => spec_parse_lino(document@) == Err::<Notation, ParseError>(e),
        },
{
    match parse_lino_to_links(document) {
        Ok(values) => {
            proof {
                lemma_view_link(None, values);
            }
            Ok(LiNo::Link { id: None, values })
        },
        Err(e) => Err(e),
    }
}

} // verus!

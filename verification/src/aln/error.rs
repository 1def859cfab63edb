//! The one error that loading an update plan reports.
use crate::aln::lexer::LexError;
use crate::aln::model::Section;
use crate::aln::parser::{ParseError, ParseErrorView};
use vstd::prelude::*;

verus! {

/// Why a text could not be turned into a document or an update plan.
#[derive(Debug, Clone, PartialEq)]
pub enum LoadAlnError {
    /// The text holds a character that starts no token, or a string that is
    /// not closed.
    Lex(LexError),
    /// The tokens do not follow the grammar.
    Parse(ParseError),
    /// The document lacks one of the four sections of an update plan.
    MissingBlock(Section),
}

/// Mathematical model of a [`LoadAlnError`].
pub enum LoadErrorView {
    Lex(LexError),
    Parse(ParseErrorView),
    MissingBlock(Section),
}

impl View for LoadAlnError {
    type V = LoadErrorView;

    open spec fn view(&self) -> LoadErrorView {
        match self {
            LoadAlnError::Lex(e) => LoadErrorView::Lex(*e),
            LoadAlnError::Parse(e) => LoadErrorView::Parse(e@),
            LoadAlnError::MissingBlock(section) => LoadErrorView::MissingBlock(*section),
        }
    }
}

} // verus!

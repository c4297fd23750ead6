//! Errors reported while parsing a license expression.

use crate::Span;
use vstd::prelude::*;

verus! {

/// Why parsing failed.
#[derive(Debug, Clone)]
pub enum Reason {
    /// The text contains no expression at all.
    Empty,
    /// A character that no token of the grammar can contain.
    InvalidCharacter,
    /// A `DocumentRef-` token without its `:LicenseRef-` part.
    MalformedDocumentRef,
    /// A `)` with no `(` left open.
    UnopenedParens,
    /// A `(` that is never closed.
    UnclosedParens,
    /// A token that the grammar does not allow at this point; carries the
    /// descriptions of the alternatives that would have been accepted.
    Unexpected(Vec<String>),
}

/// A failed parse: the offending span in the original text plus the reason.
#[derive(Debug, Clone)]
pub struct ParseError {
    /// The full text that was being parsed.
    pub original: String,
    /// Where in `original` the error lies.
    pub span: Span,
    /// What went wrong.
    pub reason: Reason,
}

/// Mathematical value of a [`Reason`].
pub ghost enum ReasonView {
    Empty,
    InvalidCharacter,
    MalformedDocumentRef,
    UnopenedParens,
    UnclosedParens,
    Unexpected(Seq<Seq<char>>),
}

impl View for Reason {
    type V = ReasonView;

    open spec fn view(&self) -> ReasonView {
        match self {
            Reason::Empty => ReasonView::Empty,
            Reason::InvalidCharacter => ReasonView::InvalidCharacter,
            Reason::MalformedDocumentRef => ReasonView::MalformedDocumentRef,
            Reason::UnopenedParens => ReasonView::UnopenedParens,
            Reason::UnclosedParens => ReasonView::UnclosedParens,
            Reason::Unexpected(alts) => ReasonView::Unexpected(
                alts@.map_values(|s: String| s@),
            ),
        }
    }
}

/// Mathematical value of a [`ParseError`]: span and reason. The retained
/// text is related to the parsed text by `parse`'s contract directly.
pub ghost struct ParseErrorView {
    pub span: Span,
    pub reason: ReasonView,
}

impl View for ParseError {
    type V = ParseErrorView;

    open spec fn view(&self) -> ParseErrorView {
        ParseErrorView { span: self.span, reason: self.reason@ }
    }
}

} // verus!

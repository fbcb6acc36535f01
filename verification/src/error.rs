use crate::token::{Loc, LocView};
use vstd::prelude::*;

verus! {

/// What went wrong while reading source text.
#[derive(Debug, Clone, Copy, PartialEq, Eq, Structural)]
pub enum ErrorKind {
    /// A string literal has no closing `"`.
    UnterminatedString,
    /// A `'` does not start a well-formed character literal.
    InvalidChar,
    /// A word starts with a digit but is no number literal.
    InvalidNumber,
    /// A comment token reached the reader.
    UnexpectedComment,
    /// A doc comment token reached the reader.
    UnexpectedDocComment,
    /// A `)` closes no form.
    UnexpectedFormEnd,
    /// A form has no closing `)`.
    UnterminatedForm,
    /// The tokens ended where a value was expected.
    UnexpectedEnd,
    /// A form was built from no tokens.
    EmptyForm,
    /// A form was built from tokens that do not start with `(`.
    NotAForm,
    /// Tokens follow the end of a form.
    TrailingTokens,
    /// A value constructor was given a token of another kind.
    WrongToken,
    /// A name is no keyword of the language.
    UnknownKeyword,
}

/// An error while reading, with the place where it was found when known.
#[derive(Debug, PartialEq, Eq)]
pub struct ParsingError {
    pub kind: ErrorKind,
    pub loc: Option<Loc>,
}

/// The errors of this library.
#[derive(Debug, PartialEq, Eq)]
pub enum Error {
    Parsing(ParsingError),
}

/// Model of an `Error`.
pub enum ErrorView {
    Parsing(ErrorKind, Option<LocView>),
}

impl View for Error {
    type V = ErrorView;

    open spec fn view(&self) -> ErrorView {
        match self {
            Error::Parsing(p) => ErrorView::Parsing(
                p.kind,
                match p.loc {
                    Some(l) => Some(l@),
                    None => None,
                },
            ),
        }
    }
}

/// Builds a parsing error.
pub fn parsing_error(kind: ErrorKind, loc: Option<Loc>) -> (e: Error)
    ensures
        e@ == ErrorView::Parsing(
            kind,
            match loc {
                Some(l) => Some(l@),
                None => None,
            },
        ),
{
    Error::Parsing(ParsingError { kind, loc })
}

} // verus!

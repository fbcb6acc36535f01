use crate::strings::{clone_opt_string, opt_str_view};
use vstd::prelude::*;

verus! {

/// The lexical classes of the language.
#[derive(Debug, Clone, Copy, PartialEq, Eq, Structural)]
pub enum TokenKind {
    Comment,
    DocComment,
    EmptyLiteral,
    Keyword,
    UIntLiteral,
    IntLiteral,
    FloatLiteral,
    CharLiteral,
    StringLiteral,
    ValueSymbol,
    TypeSymbol,
    FormStart,
    FormEnd,
}

/// Where a token starts: the file it was read from, if any, and the index
/// of its first character in the source text.
#[derive(Debug, PartialEq, Eq)]
pub struct Loc {
    pub file: Option<String>,
    pub pos: usize,
}

/// Model of a `Loc`.
pub struct LocView {
    pub file: Option<Seq<char>>,
    pub pos: usize,
}

impl View for Loc {
    type V = LocView;

    open spec fn view(&self) -> LocView {
        LocView { file: opt_str_view(self.file), pos: self.pos }
    }
}

impl Clone for Loc {
    fn clone(&self) -> (r: Self)
        ensures
            r@ == self@,
    {
        Loc { file: clone_opt_string(&self.file), pos: self.pos }
    }
}

/// A token: its class, its text as written, and where it starts.
#[derive(Debug, PartialEq, Eq)]
pub struct Token {
    pub kind: TokenKind,
    pub content: String,
    pub loc: Loc,
}

/// Model of a `Token`.
pub struct TokenView {
    pub kind: TokenKind,
    pub content: Seq<char>,
    pub loc: LocView,
}

impl View for Token {
    type V = TokenView;

    open spec fn view(&self) -> TokenView {
        TokenView { kind: self.kind, content: self.content@, loc: self.loc@ }
    }
}

impl Clone for Token {
    fn clone(&self) -> (r: Self)
        ensures
            r@ == self@,
    {
        Token { kind: self.kind, content: self.content.clone(), loc: self.loc.clone() }
    }
}

impl Default for Token {
    /// An empty literal with no text, at the start of no file.
    fn default() -> (t: Self)
        ensures
            t@ == (TokenView {
                kind: TokenKind::EmptyLiteral,
                content: Seq::empty(),
                loc: LocView { file: None, pos: 0 },
            }),
    {
        Token { kind: TokenKind::EmptyLiteral, content: String::new(), loc: Loc { file: None, pos: 0 } }
    }
}

impl Token {
    /// The file the token was read from, if any.
    pub fn file(&self) -> (f: Option<String>)
        ensures
            opt_str_view(f) == self.loc@.file,
    {
        clone_opt_string(&self.loc.file)
    }
}

/// The models of a sequence of tokens.
pub open spec fn tokens_view(ts: Seq<Token>) -> Seq<TokenView> {
    ts.map_values(|t: Token| t@)
}

} // verus!

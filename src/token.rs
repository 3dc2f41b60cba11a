use vstd::prelude::*;
use crate::span::Span;

verus! {

/// The classes of token that the lexer produces.
#[derive(Debug, Clone)]
pub enum TokenKind {
    BracketOpen,
    BracketClose,
    BraceOpen,
    BraceClose,
    Equal,
    Comma,
    Ident(String),
    String(String),
}

/// The mathematical value of a [`TokenKind`].
pub enum KindModel {
    BracketOpen,
    BracketClose,
    BraceOpen,
    BraceClose,
    Equal,
    Comma,
    Ident(Seq<char>),
    Str(Seq<char>),
}

/// A token with the span of source text it was read from.
#[derive(Debug, Clone)]
pub struct Token {
    pub span: Span,
    pub kind: TokenKind,
}

/// The mathematical value of a [`Token`].
pub struct TokenModel {
    pub kind: KindModel,
    pub span: Span,
}

impl View for TokenKind {
    type V = KindModel;

    open spec fn view(&self) -> KindModel {
        match self {
            TokenKind::BracketOpen => KindModel::BracketOpen,
            TokenKind::BracketClose => KindModel::BracketClose,
            TokenKind::BraceOpen => KindModel::BraceOpen,
            TokenKind::BraceClose => KindModel::BraceClose,
            TokenKind::Equal => KindModel::Equal,
            TokenKind::Comma => KindModel::Comma,
            TokenKind::Ident(s) => KindModel::Ident(s@),
            TokenKind::String(s) => KindModel::Str(s@),
        }
    }
}

impl View for Token {
    type V = TokenModel;

    open spec fn view(&self) -> TokenModel {
        TokenModel { kind: self.kind@, span: self.span }
    }
}

/// The models of a sequence of tokens, in order.
pub open spec fn tokens_model(ts: Seq<Token>) -> Seq<TokenModel> {
    ts.map_values(|t: Token| t@)
}

impl TokenKind {
    /// A copy of this kind.
    pub fn duplicate(&self) -> (r: TokenKind)
        ensures
            r@ == self@,
    {
        match self {
            TokenKind::BracketOpen => TokenKind::BracketOpen,
            TokenKind::BracketClose => TokenKind::BracketClose,
            TokenKind::BraceOpen => TokenKind::BraceOpen,
            TokenKind::BraceClose => TokenKind::BraceClose,
            TokenKind::Equal => TokenKind::Equal,
            TokenKind::Comma => TokenKind::Comma,
            TokenKind::Ident(s) => TokenKind::Ident(s.clone()),
            TokenKind::String(s) => TokenKind::String(s.clone()),
        }
    }

    /// Whether two kinds are equal, variant and text alike.
    pub fn same_as(&self, other: &TokenKind) -> (r: bool)
        ensures
            r == (self@ == other@),
    {
        match (self, other) {
            (TokenKind::BracketOpen, TokenKind::BracketOpen) => true,
            (TokenKind::BracketClose, TokenKind::BracketClose) => true,
            (TokenKind::BraceOpen, TokenKind::BraceOpen) => true,
            (TokenKind::BraceClose, TokenKind::BraceClose) => true,
            (TokenKind::Equal, TokenKind::Equal) => true,
            (TokenKind::Comma, TokenKind::Comma) => true,
            (TokenKind::Ident(a), TokenKind::Ident(b)) => *a == *b,
            (TokenKind::String(a), TokenKind::String(b)) => *a == *b,
            _ => false,
        }
    }
}

impl Token {
    /// A copy of this token.
    pub fn duplicate(&self) -> (r: Token)
        ensures
            r@ == self@,
    {
        Token { span: self.span, kind: self.kind.duplicate() }
    }
}

} // verus!

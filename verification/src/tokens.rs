//! The closed set of lexical token kinds, together with the mathematical view
//! of a token used by the specifications.

use vstd::prelude::*;

verus! {

/// One classified lexical unit. All variants but `Identifier` and `Integer`
/// are nullary tags for the fixed keywords and operators.
#[derive(Debug, Clone, PartialEq)]
pub enum Tokens {
    Print,
    Println,
    Var,
    If,
    Else,
    While,
    Identifier(String),
    Integer(i64),
    LogicalOr,
    BitwiseOr,
    LogicalAnd,
    BitwiseAnd,
    BitwiseXor,
    Greater,
    GreaterEqual,
    Lesser,
    LesserEqual,
    Equal,
    Assign,
    NotEqual,
    BitwiseNot,
    LogicalNot,
    Plus,
    Minus,
    Star,
    Slash,
    Percent,
    LeftParen,
    RightParen,
    LeftBrace,
    RightBrace,
    SemiColon,
}

/// The mathematical value of a token: as `Tokens`, with the identifier name
/// abstracted to its character sequence.
pub enum TokenView {
    Print,
    Println,
    Var,
    If,
    Else,
    While,
    Identifier(Seq<char>),
    Integer(i64),
    LogicalOr,
    BitwiseOr,
    LogicalAnd,
    BitwiseAnd,
    BitwiseXor,
    Greater,
    GreaterEqual,
    Lesser,
    LesserEqual,
    Equal,
    Assign,
    NotEqual,
    BitwiseNot,
    LogicalNot,
    Plus,
    Minus,
    Star,
    Slash,
    Percent,
    LeftParen,
    RightParen,
    LeftBrace,
    RightBrace,
    SemiColon,
}

impl View for Tokens {
    type V = TokenView;

    open spec fn view(&self) -> TokenView {
        match self {
            Tokens::Print => TokenView::Print,
            Tokens::Println => TokenView::Println,
            Tokens::Var => TokenView::Var,
            Tokens::If => TokenView::If,
            Tokens::Else => TokenView::Else,
            Tokens::While => TokenView::While,
            Tokens::Identifier(s) => TokenView::Identifier(s@),
            Tokens::Integer(i) => TokenView::Integer(*i),
            Tokens::LogicalOr => TokenView::LogicalOr,
            Tokens::BitwiseOr => TokenView::BitwiseOr,
            Tokens::LogicalAnd => TokenView::LogicalAnd,
            Tokens::BitwiseAnd => TokenView::BitwiseAnd,
            Tokens::BitwiseXor => TokenView::BitwiseXor,
            Tokens::Greater => TokenView::Greater,
            Tokens::GreaterEqual => TokenView::GreaterEqual,
            Tokens::Lesser => TokenView::Lesser,
            Tokens::LesserEqual => TokenView::LesserEqual,
            Tokens::Equal => TokenView::Equal,
            Tokens::Assign => TokenView::Assign,
            Tokens::NotEqual => TokenView::NotEqual,
            Tokens::BitwiseNot => TokenView::BitwiseNot,
            Tokens::LogicalNot => TokenView::LogicalNot,
            Tokens::Plus => TokenView::Plus,
            Tokens::Minus => TokenView::Minus,
            Tokens::Star => TokenView::Star,
            Tokens::Slash => TokenView::Slash,
            Tokens::Percent => TokenView::Percent,
            Tokens::LeftParen => TokenView::LeftParen,
            Tokens::RightParen => TokenView::RightParen,
            Tokens::LeftBrace => TokenView::LeftBrace,
            Tokens::RightBrace => TokenView::RightBrace,
            Tokens::SemiColon => TokenView::SemiColon,
        }
    }
}

/// A token together with the 1-based line and column of its first character.
pub type TokenAt = (Tokens, u64, u64);

/// The view of a positioned token.
pub open spec fn token_at_view(t: TokenAt) -> (TokenView, u64, u64) {
    (t.0@, t.1, t.2)
}

/// The view of a whole token stream.
pub open spec fn tokens_view(ts: Seq<TokenAt>) -> Seq<(TokenView, u64, u64)> {
    ts.map_values(|t: TokenAt| token_at_view(t))
}

pub proof fn lemma_tokens_view_index(ts: Seq<TokenAt>, i: int)
    requires
        0 <= i < ts.len(),
    ensures
        tokens_view(ts).len() == ts.len(),
        tokens_view(ts)[i] == token_at_view(ts[i]),
{
}

} // verus!

use vstd::prelude::*;
use crate::error::LexError;

verus! {

/// The coercion that a type-conversion keyword stands for.
#[derive(Debug, PartialEq, Eq)]
pub enum TypeConversion {
    IntToFloat,
    FloatToInt,
    StringToInt(String),
    StringToFloat(String),
    IntToString,
    FloatToString,
}

/// One lexical unit of the source text.
#[derive(Debug, PartialEq, Eq)]
pub enum Token {
    Identifier(String),
    Number(i32),
    Plus,
    Minus,
    Asterisk,
    Slash,
    Bang,
    Equal,
    LessThan,
    GreaterThan,
    LParen,
    RParen,
    Print,
    EndOfInput,
    StringLiteral(String),
    TypeConversion(TypeConversion),
}

/// The mathematical value of a [`TypeConversion`]: its text as characters.
pub enum ConversionView {
    IntToFloat,
    FloatToInt,
    StringToInt(Seq<char>),
    StringToFloat(Seq<char>),
    IntToString,
    FloatToString,
}

/// The mathematical value of a [`Token`]: its text as characters.
pub enum TokenView {
    Identifier(Seq<char>),
    Number(i32),
    Plus,
    Minus,
    Asterisk,
    Slash,
    Bang,
    Equal,
    LessThan,
    GreaterThan,
    LParen,
    RParen,
    Print,
    EndOfInput,
    StringLiteral(Seq<char>),
    TypeConversion(ConversionView),
}

impl View for TypeConversion {
    type V = ConversionView;

    open spec fn view(&self) -> ConversionView {
        match self {
            TypeConversion::IntToFloat => ConversionView::IntToFloat,
            TypeConversion::FloatToInt => ConversionView::FloatToInt,
            TypeConversion::StringToInt(t) => ConversionView::StringToInt(t@),
            TypeConversion::StringToFloat(t) => ConversionView::StringToFloat(t@),
            TypeConversion::IntToString => ConversionView::IntToString,
            TypeConversion::FloatToString => ConversionView::FloatToString,
        }
    }
}

impl View for Token {
    type V = TokenView;

    open spec fn view(&self) -> TokenView {
        match self {
            Token::Identifier(t) => TokenView::Identifier(t@),
            Token::Number(n) => TokenView::Number(*n),
            Token::Plus => TokenView::Plus,
            Token::Minus => TokenView::Minus,
            Token::Asterisk => TokenView::Asterisk,
            Token::Slash => TokenView::Slash,
            Token::Bang => TokenView::Bang,
            Token::Equal => TokenView::Equal,
            Token::LessThan => TokenView::LessThan,
            Token::GreaterThan => TokenView::GreaterThan,
            Token::LParen => TokenView::LParen,
            Token::RParen => TokenView::RParen,
            Token::Print => TokenView::Print,
            Token::EndOfInput => TokenView::EndOfInput,
            Token::StringLiteral(t) => TokenView::StringLiteral(t@),
            Token::TypeConversion(c) => TokenView::TypeConversion(c@),
        }
    }
}

impl Token {
    /// Whether this is the token that marks the end of the source text.
    pub fn is_end_of_input(&self) -> (r: bool)
        ensures
            r == (self@ is EndOfInput),
    {
        match self {
            Token::EndOfInput => true,
            _ => false,
        }
    }
}

/// The mathematical value of the outcome of a request for a token.
pub open spec fn result_view(r: Result<Token, LexError>) -> Result<
    TokenView,
    LexError,
> {
    match r {
        Ok(t) => Ok(t@),
        Err(e) => Err(e),
    }
}

} // verus!

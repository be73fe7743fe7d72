//! Tokens and lexical errors, with their mathematical models.

use vstd::prelude::*;

verus! {

/// A classified lexeme. Every token corresponds to a contiguous, non-empty
/// span of the input; tokens are produced in left-to-right source order.
#[derive(Debug, PartialEq)]
pub enum Token {
    /// A non-keyword word of letters, digits and underscores, not starting
    /// with a digit and not a lone underscore.
    Identifier(String),
    /// A maximal run of decimal digits.
    Constant(String),
    /// The reserved word `int`.
    IntKeyword,
    /// The reserved word `void`.
    VoidKeyword,
    /// The reserved word `return`.
    ReturnKeyword,
    /// `(`
    OpenParenthesis,
    /// `)`
    CloseParenthesis,
    /// `{`
    OpenBrace,
    /// `}`
    CloseBrace,
    /// `;`
    Semicolon,
}

/// The mathematical model of a [`Token`]: captured text is a `Seq<char>`.
pub ghost enum TokenModel {
    Identifier(Seq<char>),
    Constant(Seq<char>),
    IntKeyword,
    VoidKeyword,
    ReturnKeyword,
    OpenParenthesis,
    CloseParenthesis,
    OpenBrace,
    CloseBrace,
    Semicolon,
}

impl View for Token {
    type V = TokenModel;

    open spec fn view(&self) -> TokenModel {
        match self {
            Token::Identifier(name) => TokenModel::Identifier(name@),
            Token::Constant(digits) => TokenModel::Constant(digits@),
            Token::IntKeyword => TokenModel::IntKeyword,
            Token::VoidKeyword => TokenModel::VoidKeyword,
            Token::ReturnKeyword => TokenModel::ReturnKeyword,
            Token::OpenParenthesis => TokenModel::OpenParenthesis,
            Token::CloseParenthesis => TokenModel::CloseParenthesis,
            Token::OpenBrace => TokenModel::OpenBrace,
            Token::CloseBrace => TokenModel::CloseBrace,
            Token::Semicolon => TokenModel::Semicolon,
        }
    }
}

impl DeepView for Token {
    type V = TokenModel;

    open spec fn deep_view(&self) -> TokenModel {
        self.view()
    }
}

/// The first malformed construct met by a scan. A lexical error is terminal:
/// no partial token sequence accompanies it.
#[derive(Debug, PartialEq)]
pub enum LexError {
    /// A digit run immediately followed by a letter or underscore.
    MalformedNumericLiteral { digits: String, next: char },
    /// An identifier that reduces to a lone underscore.
    InvalidIdentifier { text: String },
    /// A `/` that does not open a `//` or `/*` comment: no operators are
    /// part of the supported vocabulary.
    UnsupportedOperator,
    /// A character matched by no classification rule.
    InvalidCharacter { ch: char },
}

/// The mathematical model of a [`LexError`].
pub ghost enum LexErrorModel {
    MalformedNumericLiteral { digits: Seq<char>, next: char },
    InvalidIdentifier { text: Seq<char> },
    UnsupportedOperator,
    InvalidCharacter { ch: char },
}

impl View for LexError {
    type V = LexErrorModel;

    open spec fn view(&self) -> LexErrorModel {
        match self {
            LexError::MalformedNumericLiteral { digits, next } => {
                LexErrorModel::MalformedNumericLiteral { digits: digits@, next: *next }
            },
            LexError::InvalidIdentifier { text } => {
                LexErrorModel::InvalidIdentifier { text: text@ }
            },
            LexError::UnsupportedOperator => LexErrorModel::UnsupportedOperator,
            LexError::InvalidCharacter { ch } => LexErrorModel::InvalidCharacter { ch: *ch },
        }
    }
}

} // verus!

//! Tokens and their mathematical views.
//!
//! Position conventions, used consistently by every token: `line_no` is the
//! 0-based line on which the token starts, and `char_index` is the absolute
//! 0-based offset of the token's first character within the source, counted
//! in decoded characters (codepoints), never in bytes.

use vstd::prelude::*;

verus! {

/// Lexical category of a token.
#[derive(Clone, Copy, Debug, PartialEq, Eq, Structural)]
pub enum TokenType {
    EOF,
    ILLEGAL,
    INT,
    FLOAT,
    STRING,
    IDENTIFIER,
    PLUS,
    MINUS,
    ASTERISK,
    SLASH,
    PERCENT,
    POWER,
    SEMICOLON,
    LPAREN,
    RPAREN,
}

/// Decoded value carried by a token.
///
/// A floating literal `d1.d2` is kept exactly as scanned: `int_part` is the
/// value of the digits before the dot, `frac` the value of the digits after
/// it, and `frac_len` how many digits the fractional run has (so leading
/// zeros of the fraction are not lost). The denoted number is
/// `int_part + frac / 10^frac_len`.
#[derive(Clone, Debug, PartialEq)]
pub enum TokenLiteral {
    /// No decoded value: operators, punctuation and the end marker.
    Empty,
    /// The single offending character of an `ILLEGAL` token.
    Char(char),
    /// String contents, an identifier's name, or a malformed lexeme.
    Str(String),
    /// The value of an integer literal.
    Int(i64),
    /// The value of a floating literal, as scanned decimal parts.
    Float { int_part: i64, frac: i64, frac_len: usize },
}

/// One classified unit of source text.
#[derive(Clone, Debug, PartialEq)]
pub struct Token {
    pub kind: TokenType,
    pub literal: TokenLiteral,
    /// 0-based line on which the token starts.
    pub line_no: usize,
    /// Absolute 0-based character offset of the token's first character.
    pub char_index: usize,
}

/// Mathematical counterpart of `TokenLiteral`, over unbounded values.
pub enum SpecLit {
    Empty,
    Char(char),
    Str(Seq<char>),
    Int(int),
    Float { int_part: int, frac: int, frac_len: nat },
}

/// Mathematical counterpart of `Token`.
pub struct SpecToken {
    pub kind: TokenType,
    pub lit: SpecLit,
    pub line: nat,
    pub char_index: nat,
}

impl View for TokenLiteral {
    type V = SpecLit;

    open spec fn view(&self) -> SpecLit {
        match self {
            TokenLiteral::Empty => SpecLit::Empty,
            TokenLiteral::Char(c) => SpecLit::Char(*c),
            TokenLiteral::Str(s) => SpecLit::Str(s@),
            TokenLiteral::Int(v) => SpecLit::Int(*v as int),
            TokenLiteral::Float { int_part, frac, frac_len } => (SpecLit::Float {
                int_part: *int_part as int,
                frac: *frac as int,
                frac_len: *frac_len as nat,
            }),
        }
    }
}

impl View for Token {
    type V = SpecToken;

    open spec fn view(&self) -> SpecToken {
        SpecToken {
            kind: self.kind,
            lit: self.literal@,
            line: self.line_no as nat,
            char_index: self.char_index as nat,
        }
    }
}

} // verus!

use vstd::prelude::*;

verus! {

/// The closed set of lexical categories the scanner can assign to a token.
///
/// `CloseBarce` is listed for completeness but the scanner deliberately has
/// no rule that produces it: a `}` in the input is an unrecognized character.
#[derive(Debug, Clone, Copy, Eq, PartialEq, Ord, PartialOrd, Structural)]
pub enum TokenType {
    Number,
    Identifier,
    Equals,
    Semicolon,
    Commoa,
    Colon,
    Dot,
    OpenParen,
    CloseParen,
    OpenBrace,
    CloseBarce,
    OpenBracket,
    CloseBracket,
    BinaryOperator,
    Let,
    Const,
    Fn,
    If,
    For,
    While,
    EOF,
}

/// What a token is mathematically: its category, the lexeme it was matched
/// from, and the half-open span it covers, counted in characters of the
/// source sequence.
pub struct TokenModel {
    pub kind: TokenType,
    pub value: Seq<char>,
    pub start: int,
    pub end: int,
}

/// A classified, positioned fragment of source text. `value` holds the
/// matched lexeme; `start` and `end` delimit the half-open span `[start, end)`
/// the lexeme was read from. Offsets count characters of the source sequence
/// (the model this library states its contracts over), not bytes; for ASCII
/// sources the two coincide.
#[derive(Debug, Clone, Eq, PartialEq, Ord, PartialOrd)]
pub struct Token {
    pub kind: TokenType,
    pub value: String,
    pub start: usize,
    pub end: usize,
}

impl View for Token {
    type V = TokenModel;

    open spec fn view(&self) -> TokenModel {
        TokenModel {
            kind: self.kind,
            value: self.value@,
            start: self.start as int,
            end: self.end as int,
        }
    }
}

impl Token {
    pub fn new(kind: TokenType, value: String, start: usize, end: usize) -> (t: Token)
        ensures
            t@ == (TokenModel {
                kind: kind,
                value: value@,
                start: start as int,
                end: end as int,
            }),
    {
        Token { kind, value, start, end }
    }
}

/// A token sequence as the sequence of its models.
pub open spec fn tokens_view(ts: Seq<Token>) -> Seq<TokenModel> {
    ts.map_values(|t: Token| t@)
}

/// The lexemes of the two additive operator tokens.
pub open spec fn is_add_op_text(v: Seq<char>) -> bool {
    v == "+"@ || v == "-"@
}

/// The lexemes of the three multiplicative operator tokens.
pub open spec fn is_mul_op_text(v: Seq<char>) -> bool {
    v == "*"@ || v == "/"@ || v == "%"@
}

/// The lexemes of the five arithmetic operator tokens.
pub open spec fn is_op_text(v: Seq<char>) -> bool {
    is_add_op_text(v) || is_mul_op_text(v)
}

} // verus!

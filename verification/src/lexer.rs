use vstd::prelude::*;
use vstd::string::StrSliceExecFns;

use crate::token::{Token, TokenModel, TokenType, is_op_text, tokens_view};

verus! {

/// Characters the scanner skips without emitting a token.
pub open spec fn is_whitespace_char(c: char) -> bool {
    c == ' ' || c == '\n' || c == '\t' || c == '\r'
}

/// Decimal digit characters; these start and extend a Number token.
pub open spec fn is_digit_char(c: char) -> bool {
    '0' <= c && c <= '9'
}

/// Whether the lower-case and upper-case mappings of `c` differ. This is the
/// scanner's identifier test: a run of such characters forms an identifier or
/// keyword. It depends on the character alone; `is_ident` below is the only
/// place it is computed.
pub uninterp spec fn has_case(c: char) -> bool;

/// Relies on char::to_lowercase and char::to_uppercase: whether the two case
/// mappings of a character differ is a fixed function of the character.
#[verifier::external_body]
fn is_ident(c: char) -> (r: bool)
    ensures
        r == has_case(c),
{
    !c.to_lowercase().eq(c.to_uppercase())
}

fn is_number(c: char) -> (r: bool)
    ensures
        r == is_digit_char(c),
{
    '0' <= c && c <= '9'
}

/// The token category of a single-character punctuation or operator token,
/// or None when `c` starts no such token. `}` is deliberately absent.
pub open spec fn punct_kind(c: char) -> Option<TokenType> {
    if c == '(' {
        Some(TokenType::OpenParen)
    } else if c == ')' {
        Some(TokenType::CloseParen)
    } else if c == '[' {
        Some(TokenType::OpenBracket)
    } else if c == ']' {
        Some(TokenType::CloseBracket)
    } else if c == '{' {
        Some(TokenType::OpenBrace)
    } else if c == '+' || c == '-' || c == '*' || c == '/' || c == '%' {
        Some(TokenType::BinaryOperator)
    } else if c == '=' {
        Some(TokenType::Equals)
    } else if c == ';' {
        Some(TokenType::Semicolon)
    } else if c == ',' {
        Some(TokenType::Commoa)
    } else if c == ':' {
        Some(TokenType::Colon)
    } else if c == '.' {
        Some(TokenType::Dot)
    } else {
        None
    }
}

/// The category an identifier lexeme is given: one of the six keyword kinds
/// on an exact, case-sensitive match, and Identifier otherwise.
pub open spec fn spec_keyword_kind(v: Seq<char>) -> TokenType {
    if v == "let"@ {
        TokenType::Let
    } else if v == "const"@ {
        TokenType::Const
    } else if v == "fn"@ {
        TokenType::Fn
    } else if v == "if"@ {
        TokenType::If
    } else if v == "for"@ {
        TokenType::For
    } else if v == "while"@ {
        TokenType::While
    } else {
        TokenType::Identifier
    }
}

/// First position at or after `pos` that does not hold a digit.
pub open spec fn digit_run_end(src: Seq<char>, pos: int) -> int
    decreases src.len() - pos,
{
    if pos < src.len() && is_digit_char(src[pos]) {
        digit_run_end(src, pos + 1)
    } else {
        pos
    }
}

/// First position at or after `pos` that does not hold an identifier character.
pub open spec fn ident_run_end(src: Seq<char>, pos: int) -> int
    decreases src.len() - pos,
{
    if pos < src.len() && has_case(src[pos]) {
        ident_run_end(src, pos + 1)
    } else {
        pos
    }
}

pub proof fn lemma_digit_run_end(src: Seq<char>, pos: int)
    requires
        0 <= pos <= src.len(),
    ensures
        pos <= digit_run_end(src, pos) <= src.len(),
        forall|i: int| pos <= i < digit_run_end(src, pos) ==> is_digit_char(src[i]),
        digit_run_end(src, pos) < src.len() ==> !is_digit_char(src[digit_run_end(src, pos)]),
    decreases src.len() - pos,
{
    if pos < src.len() && is_digit_char(src[pos]) {
        lemma_digit_run_end(src, pos + 1);
    }
}

pub proof fn lemma_ident_run_end(src: Seq<char>, pos: int)
    requires
        0 <= pos <= src.len(),
    ensures
        pos <= ident_run_end(src, pos) <= src.len(),
        forall|i: int| pos <= i < ident_run_end(src, pos) ==> has_case(src[i]),
        ident_run_end(src, pos) < src.len() ==> !has_case(src[ident_run_end(src, pos)]),
    decreases src.len() - pos,
{
    if pos < src.len() && has_case(src[pos]) {
        lemma_ident_run_end(src, pos + 1);
    }
}

/// How a tokenization attempt can fail: a character that starts no token.
#[derive(Debug, Clone, Copy, PartialEq, Eq, Structural)]
pub enum LexError {
    UnrecognizedCharacter { ch: char, offset: usize },
}

/// A character the scanner has some rule for.
pub open spec fn is_recognized_char(c: char) -> bool {
    is_whitespace_char(c) || punct_kind(c) is Some || is_digit_char(c) || has_case(c)
}

/// The single token (category, lexeme, start and end position) at or after
/// `pos` once whitespace is skipped; None when only whitespace remains;
/// an error when the first non-whitespace character starts no token. The
/// start is the position of the lexeme itself, past any skipped whitespace.
pub open spec fn spec_next_kind(src: Seq<char>, pos: int) -> Result<
    Option<(TokenType, Seq<char>, int, int)>,
    LexError,
>
    decreases src.len() - pos,
{
    if pos >= src.len() {
        Ok(None)
    } else {
        let c = src[pos];
        if is_whitespace_char(c) {
            spec_next_kind(src, pos + 1)
        } else {
            match punct_kind(c) {
                Some(k) => Ok(Some((k, seq![c], pos, pos + 1))),
                None => {
                    if is_digit_char(c) {
                        let e = digit_run_end(src, pos + 1);
                        // the bound below only serves termination of spec_scan;
                        // lemma_digit_run_end shows it never clamps
                        let e2 = if pos + 1 <= e <= src.len() {
                            e
                        } else {
                            pos + 1
                        };
                        Ok(Some((TokenType::Number, src.subrange(pos, e2), pos, e2)))
                    } else if has_case(c) {
                        let e = ident_run_end(src, pos + 1);
                        let e2 = if pos + 1 <= e <= src.len() {
                            e
                        } else {
                            pos + 1
                        };
                        let v = src.subrange(pos, e2);
                        Ok(Some((spec_keyword_kind(v), v, pos, e2)))
                    } else {
                        Err(LexError::UnrecognizedCharacter { ch: c, offset: pos as usize })
                    }
                },
            }
        }
    }
}

/// The end-of-input marker: the one token whose span is empty, sitting at the
/// very end of the source.
pub open spec fn eof_token_model(src: Seq<char>) -> TokenModel {
    TokenModel {
        kind: TokenType::EOF,
        value: "EOF"@,
        start: src.len() as int,
        end: src.len() as int,
    }
}

/// The full token sequence the scanner produces from position `pos` on:
/// tokens in source order, closed by the end-of-input marker, or the first
/// lexical error. A token's span `[start, end)` covers exactly the matched
/// lexeme; skipped whitespace belongs to no token.
pub open spec fn spec_scan(src: Seq<char>, pos: int) -> Result<Seq<TokenModel>, LexError>
    decreases src.len() - pos,
{
    if !(0 <= pos < src.len()) {
        Ok(seq![eof_token_model(src)])
    } else {
        match spec_next_kind(src, pos) {
            Ok(None) => Ok(seq![eof_token_model(src)]),
            Ok(Some((k, v, st, e))) => {
                // the bound below only serves termination; the run ends shown
                // by lemma_next_kind_bounds make it exact
                let e2 = if pos + 1 <= e <= src.len() {
                    e
                } else {
                    pos + 1
                };
                match spec_scan(src, e2) {
                    Ok(rest) => Ok(
                        seq![TokenModel { kind: k, value: v, start: st, end: e }].add(rest),
                    ),
                    Err(le) => Err(le),
                }
            },
            Err(le) => Err(le),
        }
    }
}

pub proof fn lemma_next_kind_bounds(src: Seq<char>, pos: int)
    requires
        0 <= pos <= src.len(),
        src.len() <= usize::MAX,
    ensures
        match spec_next_kind(src, pos) {
            Ok(Some((k, v, st, e))) => pos <= st < e <= src.len() && v == src.subrange(st, e)
                && v.len() >= 1 && k != TokenType::EOF && (forall|i: int|
                pos <= i < e ==> is_recognized_char(src[i])),
            Ok(None) => forall|i: int| pos <= i < src.len() ==> is_whitespace_char(src[i]),
            Err(le) => le matches LexError::UnrecognizedCharacter { ch, offset } && pos <= offset
                < src.len() && src[offset as int] == ch && !is_recognized_char(ch),
        },
    decreases src.len() - pos,
{
    if pos < src.len() {
        let c = src[pos];
        if is_whitespace_char(c) {
            lemma_next_kind_bounds(src, pos + 1);
            assert(spec_next_kind(src, pos) == spec_next_kind(src, pos + 1));
            assert(is_recognized_char(src[pos]));
            match spec_next_kind(src, pos + 1) {
                Ok(Some((k, v, st, e))) => {
                    assert forall|i: int| pos <= i < e implies is_recognized_char(src[i]) by {
                        if i > pos {
                            assert(is_recognized_char(src[i]));
                        }
                    }
                },
                Ok(None) => {
                    assert forall|i: int| pos <= i < src.len() implies is_whitespace_char(
                        src[i],
                    ) by {
                        if i > pos {
                            assert(is_whitespace_char(src[i]));
                        }
                    }
                },
                Err(le) => {},
            }
        } else if punct_kind(c) is Some {
            assert(seq![c] =~= src.subrange(pos, pos + 1));
        } else {
            if is_digit_char(c) {
                lemma_digit_run_end(src, pos + 1);
                let e = digit_run_end(src, pos + 1);
                assert forall|i: int| pos <= i < e implies is_recognized_char(src[i]) by {
                    if i > pos {
                        assert(is_digit_char(src[i]));
                    }
                }
            } else if has_case(c) {
                lemma_ident_run_end(src, pos + 1);
                let e = ident_run_end(src, pos + 1);
                assert forall|i: int| pos <= i < e implies is_recognized_char(src[i]) by {
                    if i > pos {
                        assert(has_case(src[i]));
                    }
                }
            }
        }
    }
}

fn lookup_keyword(ident: &String) -> (k: TokenType)
    ensures
        k == spec_keyword_kind(ident@),
{
    let w_let: String = "let".to_owned();
    let w_const: String = "const".to_owned();
    let w_fn: String = "fn".to_owned();
    let w_if: String = "if".to_owned();
    let w_for: String = "for".to_owned();
    let w_while: String = "while".to_owned();
    if ident.eq(&w_let) {
        TokenType::Let
    } else if ident.eq(&w_const) {
        TokenType::Const
    } else if ident.eq(&w_fn) {
        TokenType::Fn
    } else if ident.eq(&w_if) {
        TokenType::If
    } else if ident.eq(&w_for) {
        TokenType::For
    } else if ident.eq(&w_while) {
        TokenType::While
    } else {
        TokenType::Identifier
    }
}

/// The scanner: a cursor over the source's character sequence.
pub struct Lexer<'a> {
    source: &'a str,
    len: usize,
    pos: usize,
}

impl<'a> Lexer<'a> {
    /// The source being scanned, as a character sequence.
    pub closed spec fn src(&self) -> Seq<char> {
        self.source@
    }

    /// The current scan position, in characters.
    pub closed spec fn cursor(&self) -> int {
        self.pos as int
    }

    pub closed spec fn wf(&self) -> bool {
        self.len as int == self.source@.len() && self.pos <= self.len
    }

    pub fn new(source: &'a str) -> (l: Lexer<'a>)
        ensures
            l.wf(),
            l.src() == source@,
            l.cursor() == 0,
            l.src().len() <= usize::MAX,
    {
        let len = source.unicode_len();
        Lexer { source, len, pos: 0 }
    }

    fn offset(&self) -> (n: usize)
        ensures
            n as int == self.cursor(),
    {
        self.pos
    }

    fn cur(&self) -> (c: Option<char>)
        requires
            self.wf(),
        ensures
            c == (if self.cursor() < self.src().len() {
                Some(self.src()[self.cursor()])
            } else {
                None::<char>
            }),
    {
        if self.pos < self.len {
            Some(self.source.get_char(self.pos))
        } else {
            None
        }
    }

    fn next(&mut self) -> (c: Option<char>)
        requires
            old(self).wf(),
        ensures
            final(self).wf(),
            final(self).src() == old(self).src(),
            final(self).cursor() == (if old(self).cursor() < old(self).src().len() {
                old(self).cursor() + 1
            } else {
                old(self).cursor()
            }),
    {
        if self.pos < self.len {
            self.pos = self.pos + 1;
        }
        self.cur()
    }

    /// The single-character lexeme starting at `start`.
    fn lexeme_at(&self, start: usize) -> (s: String)
        requires
            self.wf(),
            start + 1 <= self.src().len(),
        ensures
            s@ == self.src().subrange(start as int, start as int + 1),
    {
        self.source.substring_char(start, start + 1).to_owned()
    }

    fn next_kind(&mut self) -> (r: Result<Option<(TokenType, String, usize)>, LexError>)
        requires
            old(self).wf(),
        ensures
            final(self).wf(),
            final(self).src() == old(self).src(),
            match spec_next_kind(old(self).src(), old(self).cursor()) {
                Ok(None) => r matches Ok(o) && o is None && final(self).cursor()
                    == final(self).src().len(),
                Ok(Some((k, v, st, e))) => r matches Ok(o) && o matches Some(kv) && kv.0 == k
                    && kv.1@ == v && kv.2 as int == st && final(self).cursor() == e,
                Err(le) => r matches Err(x) && x == le,
            },
    {
        loop
            invariant
                self.wf(),
                self.src() == old(self).src(),
                spec_next_kind(self.src(), self.cursor()) == spec_next_kind(
                    old(self).src(),
                    old(self).cursor(),
                ),
            decreases self.src().len() - self.cursor(),
        {
            match self.cur() {
                None => {
                    return Ok(None);
                },
                Some(c) => {
                    let start = self.offset();
                    let ghost p = self.cursor();
                    let kind: TokenType;
                    let value: String;
                    match c {
                        '(' => {
                            kind = TokenType::OpenParen;
                            self.next();
                            value = self.lexeme_at(start);
                        },
                        ')' => {
                            kind = TokenType::CloseParen;
                            self.next();
                            value = self.lexeme_at(start);
                        },
                        '[' => {
                            kind = TokenType::OpenBracket;
                            self.next();
                            value = self.lexeme_at(start);
                        },
                        ']' => {
                            kind = TokenType::CloseBracket;
                            self.next();
                            value = self.lexeme_at(start);
                        },
                        '{' => {
                            kind = TokenType::OpenBrace;
                            self.next();
                            value = self.lexeme_at(start);
                        },
                        '+' | '-' | '*' | '/' | '%' => {
                            kind = TokenType::BinaryOperator;
                            self.next();
                            value = self.lexeme_at(start);
                        },
                        '=' => {
                            kind = TokenType::Equals;
                            self.next();
                            value = self.lexeme_at(start);
                        },
                        ';' => {
                            kind = TokenType::Semicolon;
                            self.next();
                            value = self.lexeme_at(start);
                        },
                        ',' => {
                            kind = TokenType::Commoa;
                            self.next();
                            value = self.lexeme_at(start);
                        },
                        ':' => {
                            kind = TokenType::Colon;
                            self.next();
                            value = self.lexeme_at(start);
                        },
                        '.' => {
                            kind = TokenType::Dot;
                            self.next();
                            value = self.lexeme_at(start);
                        },
                        ' ' | '\n' | '\t' | '\r' => {
                            self.next();
                            proof {
                                assert(spec_next_kind(self.src(), p) == spec_next_kind(
                                    self.src(),
                                    p + 1,
                                ));
                            }
                            continue;
                        },
                        _ => {
                            if is_number(c) {
                                let ghost p0 = self.cursor();
                                loop
                                    invariant_except_break
                                        self.wf(),
                                        self.src() == old(self).src(),
                                        p0 <= self.cursor() <= self.src().len(),
                                        digit_run_end(self.src(), self.cursor()) == digit_run_end(
                                            self.src(),
                                            p0,
                                        ),
                                    ensures
                                        self.wf(),
                                        self.src() == old(self).src(),
                                        p0 <= self.cursor() <= self.src().len(),
                                        self.cursor() == digit_run_end(self.src(), p0),
                                    decreases self.src().len() - self.cursor(),
                                {
                                    match self.cur() {
                                        Some(d) => {
                                            if is_number(d) {
                                                self.next();
                                            } else {
                                                break;
                                            }
                                        },
                                        None => {
                                            break;
                                        },
                                    }
                                }
                                proof {
                                    lemma_digit_run_end(self.src(), p0 + 1);
                                }
                                kind = TokenType::Number;
                                value = self.source.substring_char(start, self.pos).to_owned();
                            } else if is_ident(c) {
                                let ghost p0 = self.cursor();
                                loop
                                    invariant_except_break
                                        self.wf(),
                                        self.src() == old(self).src(),
                                        p0 <= self.cursor() <= self.src().len(),
                                        ident_run_end(self.src(), self.cursor()) == ident_run_end(
                                            self.src(),
                                            p0,
                                        ),
                                    ensures
                                        self.wf(),
                                        self.src() == old(self).src(),
                                        p0 <= self.cursor() <= self.src().len(),
                                        self.cursor() == ident_run_end(self.src(), p0),
                                    decreases self.src().len() - self.cursor(),
                                {
                                    match self.cur() {
                                        Some(d) => {
                                            if is_ident(d) {
                                                self.next();
                                            } else {
                                                break;
                                            }
                                        },
                                        None => {
                                            break;
                                        },
                                    }
                                }
                                proof {
                                    lemma_ident_run_end(self.src(), p0 + 1);
                                }
                                value = self.source.substring_char(start, self.pos).to_owned();
                                kind = lookup_keyword(&value);
                            } else {
                                return Err(
                                    LexError::UnrecognizedCharacter { ch: c, offset: start },
                                );
                            }
                        },
                    }
                    proof {
                        assert(self.src().subrange(p, p + 1) =~= seq![self.src()[p]]);
                    }
                    return Ok(Some((kind, value, start)));
                },
            }
        }
    }

    fn next_token(&mut self) -> (r: Result<Option<Token>, LexError>)
        requires
            old(self).wf(),
        ensures
            final(self).wf(),
            final(self).src() == old(self).src(),
            match spec_next_kind(old(self).src(), old(self).cursor()) {
                Ok(None) => r matches Ok(o) && o is None && final(self).cursor()
                    == final(self).src().len(),
                Ok(Some((k, v, st, e))) => r matches Ok(o) && o matches Some(t) && t@
                    == (TokenModel { kind: k, value: v, start: st, end: e }) && final(self).cursor()
                    == e,
                Err(le) => r matches Err(x) && x == le,
            },
    {
        match self.next_kind() {
            Ok(Some((kind, value, start))) => {
                let end = self.offset();
                Ok(Some(Token::new(kind, value, start, end)))
            },
            Ok(None) => Ok(None),
            Err(e) => Err(e),
        }
    }

    /// Scans the whole remaining input into tokens, in source order, closed
    /// by the end-of-input marker; or stops at the first unrecognized
    /// character with an error and no token sequence.
    pub fn tokenize(&mut self) -> (r: Result<Vec<Token>, LexError>)
        requires
            old(self).wf(),
        ensures
            final(self).wf(),
            final(self).src() == old(self).src(),
            match spec_scan(old(self).src(), old(self).cursor()) {
                Ok(models) => r matches Ok(toks) && tokens_view(toks@) == models,
                Err(le) => r matches Err(x) && x == le,
            },
    {
        let mut tokens: Vec<Token> = Vec::new();
        proof {
            assert(tokens_view(tokens@) =~= Seq::<TokenModel>::empty());
            match spec_scan(self.src(), self.cursor()) {
                Ok(rest) => {
                    assert(tokens_view(tokens@).add(rest) =~= rest);
                },
                Err(_) => {},
            }
        }
        loop
            invariant_except_break
                self.wf(),
                self.src() == old(self).src(),
                match spec_scan(self.src(), self.cursor()) {
                    Ok(rest) => spec_scan(old(self).src(), old(self).cursor()) == Ok::<
                        Seq<TokenModel>,
                        LexError,
                    >(tokens_view(tokens@).add(rest)),
                    Err(le) => spec_scan(old(self).src(), old(self).cursor()) == Err::<
                        Seq<TokenModel>,
                        LexError,
                    >(le),
                },
            ensures
                self.wf(),
                self.src() == old(self).src(),
                match spec_scan(old(self).src(), old(self).cursor()) {
                    Ok(models) => tokens_view(tokens@) == models,
                    Err(_) => false,
                },
            decreases self.src().len() - self.cursor(),
        {
            let ghost p = self.cursor();
            let ghost pre = tokens@;
            match self.next_token() {
                Ok(Some(token)) => {
                    tokens.push(token);
                    proof {
                        lemma_next_kind_bounds(self.src(), p);
                        assert(tokens_view(tokens@) =~= tokens_view(pre).push(token@));
                        match spec_scan(self.src(), self.cursor()) {
                            Ok(rest2) => {
                                assert(spec_scan(self.src(), p) == Ok::<Seq<TokenModel>, LexError>(
                                    seq![token@].add(rest2),
                                ));
                                assert(tokens_view(pre).push(token@).add(rest2)
                                    =~= tokens_view(pre).add(seq![token@].add(rest2)));
                            },
                            Err(_) => {},
                        }
                    }
                },
                Ok(None) => {
                    let offset = self.offset();
                    let value = "EOF".to_owned();
                    let eof_token = Token::new(TokenType::EOF, value, offset, offset);
                    tokens.push(eof_token);
                    proof {
                        assert(spec_scan(self.src(), p) == Ok::<Seq<TokenModel>, LexError>(
                            seq![eof_token_model(self.src())],
                        ));
                        assert(eof_token@ == eof_token_model(self.src()));
                        assert(tokens_view(tokens@) =~= tokens_view(pre).add(
                            seq![eof_token_model(self.src())],
                        ));
                    }
                    break;
                },
                Err(e) => {
                    return Err(e);
                },
            }
        }
        Ok(tokens)
    }
}

/// Keyword lookup is exact-match and case-sensitive: each keyword category is
/// assigned to exactly its own lexeme, and every other lexeme is a plain
/// identifier.
pub proof fn lemma_keyword_lookup_exact(v: Seq<char>)
    ensures
        spec_keyword_kind(v) == TokenType::Let <==> v == "let"@,
        spec_keyword_kind(v) == TokenType::Const <==> v == "const"@,
        spec_keyword_kind(v) == TokenType::Fn <==> v == "fn"@,
        spec_keyword_kind(v) == TokenType::If <==> v == "if"@,
        spec_keyword_kind(v) == TokenType::For <==> v == "for"@,
        spec_keyword_kind(v) == TokenType::While <==> v == "while"@,
        spec_keyword_kind(v) == TokenType::Identifier <==> (v != "let"@ && v != "const"@ && v
            != "fn"@ && v != "if"@ && v != "for"@ && v != "while"@),
{
    broadcast use vstd::string::group_string_axioms;

    reveal_strlit("let");
    reveal_strlit("const");
    reveal_strlit("fn");
    reveal_strlit("if");
    reveal_strlit("for");
    reveal_strlit("while");
    assert("let"@.len() == 3);
    assert("const"@.len() == 5);
    assert("fn"@.len() == 2);
    assert("if"@.len() == 2);
    assert("for"@.len() == 3);
    assert("while"@.len() == 5);
    assert("fn"@[0] == 'f' && "if"@[0] == 'i');
    assert("let"@[0] == 'l' && "for"@[0] == 'f');
    assert("const"@[0] == 'c' && "while"@[0] == 'w');
}

/// Scanning whitespace-only input emits no token at all: just the
/// end-of-input marker.
pub proof fn lemma_whitespace_only(src: Seq<char>, pos: int)
    requires
        0 <= pos <= src.len(),
        forall|i: int| pos <= i < src.len() ==> is_whitespace_char(src[i]),
    ensures
        spec_next_kind(src, pos) == Ok::<Option<(TokenType, Seq<char>, int, int)>, LexError>(
            None,
        ),
        spec_scan(src, pos) == Ok::<Seq<TokenModel>, LexError>(seq![eof_token_model(src)]),
    decreases src.len() - pos,
{
    if pos < src.len() {
        lemma_whitespace_only(src, pos + 1);
    }
}

/// Whitespace between tokens is invisible: skipping one whitespace character
/// changes nothing at all in the scanner's output — not a token, not a span,
/// not an error.
pub proof fn lemma_whitespace_skipped(src: Seq<char>, pos: int)
    requires
        0 <= pos < src.len(),
        src.len() <= usize::MAX,
        is_whitespace_char(src[pos]),
    ensures
        spec_scan(src, pos) == spec_scan(src, pos + 1),
{
    lemma_next_kind_bounds(src, pos + 1);
    assert(spec_next_kind(src, pos) == spec_next_kind(src, pos + 1));
    match spec_next_kind(src, pos) {
        Ok(None) => {
            assert(spec_scan(src, pos) == Ok::<Seq<TokenModel>, LexError>(
                seq![eof_token_model(src)],
            ));
        },
        Ok(Some((k, v, st, e))) => {
            let h = TokenModel { kind: k, value: v, start: st, end: e };
            match spec_scan(src, e) {
                Ok(rest) => {
                    assert(spec_scan(src, pos) == Ok::<Seq<TokenModel>, LexError>(
                        seq![h].add(rest),
                    ));
                    assert(spec_scan(src, pos + 1) == Ok::<Seq<TokenModel>, LexError>(
                        seq![h].add(rest),
                    ));
                },
                Err(_) => {},
            }
        },
        Err(_) => {},
    }
}

/// The last token of any successful scan is the end-of-input marker, and
/// the marker's category appears nowhere else in the sequence.
pub proof fn lemma_scan_end_marker(src: Seq<char>, pos: int)
    requires
        0 <= pos <= src.len(),
        src.len() <= usize::MAX,
    ensures
        match spec_scan(src, pos) {
            Ok(toks) => {
                &&& toks.len() >= 1
                &&& toks.last() == eof_token_model(src)
                &&& forall|i: int|
                    0 <= i < toks.len() - 1 ==> (#[trigger] toks[i]).kind != TokenType::EOF
            },
            Err(_) => true,
        },
    decreases src.len() - pos,
{
    lemma_next_kind_bounds(src, pos);
    if 0 <= pos < src.len() {
        match spec_next_kind(src, pos) {
            Ok(Some((k, v, st, e))) => {
                lemma_scan_end_marker(src, e);
                match spec_scan(src, e) {
                    Ok(rest) => {
                        let h = TokenModel { kind: k, value: v, start: st, end: e };
                        let toks = seq![h].add(rest);
                        assert(spec_scan(src, pos) == Ok::<Seq<TokenModel>, LexError>(toks));
                        assert(toks.last() == rest.last());
                        assert forall|i: int| 0 <= i < toks.len() - 1 implies (#[trigger] toks[i]).kind
                            != TokenType::EOF by {
                            if i > 0 {
                                assert(toks[i] == rest[i - 1]);
                            } else {
                                assert(toks[0] == h);
                            }
                        }
                    },
                    Err(_) => {},
                }
            },
            _ => {},
        }
    }
}

/// Token spans of a successful scan sit in source order and cover exactly
/// their lexemes: each token before the end marker has a non-empty span
/// inside the source, and the source text under its span is the token's
/// value. The marker is thus the only token whose start and end offsets are
/// equal (both the source length).
#[verifier::rlimit(100)]
pub proof fn lemma_scan_spans(src: Seq<char>, pos: int)
    requires
        0 <= pos <= src.len(),
        src.len() <= usize::MAX,
    ensures
        match spec_scan(src, pos) {
            Ok(toks) => forall|i: int|
                0 <= i < toks.len() - 1 ==> pos <= (#[trigger] toks[i]).start < toks[i].end
                    <= src.len() && toks[i].value == src.subrange(toks[i].start, toks[i].end),
            Err(_) => true,
        },
    decreases src.len() - pos,
{
    lemma_next_kind_bounds(src, pos);
    if 0 <= pos < src.len() {
        match spec_next_kind(src, pos) {
            Ok(Some((k, v, st, e))) => {
                lemma_scan_spans(src, e);
                match spec_scan(src, e) {
                    Ok(rest) => {
                        let h = TokenModel { kind: k, value: v, start: st, end: e };
                        let toks = seq![h].add(rest);
                        assert(spec_scan(src, pos) == Ok::<Seq<TokenModel>, LexError>(toks));
                        assert forall|i: int| 0 <= i < toks.len() - 1 implies pos
                            <= (#[trigger] toks[i]).start < toks[i].end <= src.len()
                            && toks[i].value == src.subrange(toks[i].start, toks[i].end) by {
                            if i > 0 {
                                assert(toks[i] == rest[i - 1]);
                            } else {
                                assert(toks[0] == h);
                            }
                        }
                    },
                    Err(_) => {},
                }
            },
            _ => {},
        }
    }
}

/// Keyword classification goes by the lexeme alone, exact and
/// case-sensitive: in any successful scan, a token carries a keyword
/// category exactly when its value is that keyword's spelling.
#[verifier::rlimit(100)]
pub proof fn lemma_scan_keywords(src: Seq<char>, pos: int)
    requires
        0 <= pos <= src.len(),
        src.len() <= usize::MAX,
    ensures
        match spec_scan(src, pos) {
            Ok(toks) => forall|i: int|
                0 <= i < toks.len() ==> ((#[trigger] toks[i]).kind == TokenType::Let <==> toks[i].value
                    == "let"@) && (toks[i].kind == TokenType::Const <==> toks[i].value == "const"@)
                    && (toks[i].kind == TokenType::Fn <==> toks[i].value == "fn"@) && (toks[i].kind
                    == TokenType::If <==> toks[i].value == "if"@) && (toks[i].kind == TokenType::For
                    <==> toks[i].value == "for"@) && (toks[i].kind == TokenType::While <==> toks[i].value
                    == "while"@),
            Err(_) => true,
        },
    decreases src.len() - pos,
{
    broadcast use vstd::string::group_string_axioms;

    reveal_strlit("let");
    reveal_strlit("const");
    reveal_strlit("fn");
    reveal_strlit("if");
    reveal_strlit("for");
    reveal_strlit("while");
    reveal_strlit("EOF");
    assert("let"@.len() == 3 && "const"@.len() == 5 && "fn"@.len() == 2 && "if"@.len() == 2
        && "for"@.len() == 3 && "while"@.len() == 5 && "EOF"@.len() == 3);
    assert("let"@[0] == 'l' && "const"@[0] == 'c' && "fn"@[0] == 'f' && "if"@[0] == 'i'
        && "for"@[0] == 'f' && "while"@[0] == 'w' && "EOF"@[0] == 'E');
    lemma_next_kind_bounds(src, pos);
    lemma_next_kind_keyword(src, pos);
    if !(0 <= pos < src.len()) {
        assert(keyword_exact(eof_token_model(src)));
    } else {
        match spec_next_kind(src, pos) {
            Ok(None) => {
                assert(keyword_exact(eof_token_model(src)));
            },
            Ok(Some((k, v, st, e))) => {
                lemma_scan_keywords(src, e);
                let h = TokenModel { kind: k, value: v, start: st, end: e };
                match spec_scan(src, e) {
                    Ok(rest) => {
                        let toks = seq![h].add(rest);
                        assert forall|i: int| 0 <= i < toks.len() implies keyword_exact(
                            #[trigger] toks[i],
                        ) by {
                            if i == 0 {
                                assert(toks[0] == h);
                            } else {
                                assert(toks[i] == rest[i - 1]);
                            }
                        }
                        assert forall|i: int| 0 <= i < toks.len() implies ((#[trigger] toks[i]).kind
                            == TokenType::Let <==> toks[i].value == "let"@) && (toks[i].kind
                            == TokenType::Const <==> toks[i].value == "const"@) && (toks[i].kind
                            == TokenType::Fn <==> toks[i].value == "fn"@) && (toks[i].kind
                            == TokenType::If <==> toks[i].value == "if"@) && (toks[i].kind
                            == TokenType::For <==> toks[i].value == "for"@) && (toks[i].kind
                            == TokenType::While <==> toks[i].value == "while"@) by {
                            assert(keyword_exact(toks[i]));
                        }
                    },
                    Err(_) => {},
                }
            },
            Err(_) => {},
        }
    }
}

/// A token's keyword category matches its lexeme exactly.
pub open spec fn keyword_exact(t: TokenModel) -> bool {
    &&& t.kind == TokenType::Let <==> t.value == "let"@
    &&& t.kind == TokenType::Const <==> t.value == "const"@
    &&& t.kind == TokenType::Fn <==> t.value == "fn"@
    &&& t.kind == TokenType::If <==> t.value == "if"@
    &&& t.kind == TokenType::For <==> t.value == "for"@
    &&& t.kind == TokenType::While <==> t.value == "while"@
}

/// The token `spec_next_kind` finds satisfies `keyword_exact`: an identifier
/// run is classified by `spec_keyword_kind`, and no other rule can produce a
/// keyword category or a keyword lexeme of the right shape with another
/// category.
proof fn lemma_next_kind_keyword(src: Seq<char>, pos: int)
    requires
        0 <= pos <= src.len(),
    ensures
        match spec_next_kind(src, pos) {
            Ok(Some((k, v, st, e))) => keyword_exact(
                TokenModel { kind: k, value: v, start: st, end: e },
            ),
            _ => true,
        },
    decreases src.len() - pos,
{
    broadcast use vstd::string::group_string_axioms;

    reveal_strlit("let");
    reveal_strlit("const");
    reveal_strlit("fn");
    reveal_strlit("if");
    reveal_strlit("for");
    reveal_strlit("while");
    assert("let"@.len() == 3 && "const"@.len() == 5 && "fn"@.len() == 2 && "if"@.len() == 2
        && "for"@.len() == 3 && "while"@.len() == 5);
    assert("let"@[0] == 'l' && "const"@[0] == 'c' && "fn"@[0] == 'f' && "if"@[0] == 'i'
        && "for"@[0] == 'f' && "while"@[0] == 'w');
    if pos < src.len() {
        let c = src[pos];
        if is_whitespace_char(c) {
            lemma_next_kind_keyword(src, pos + 1);
        } else {
            match spec_next_kind(src, pos) {
                Ok(Some((k, v, st, e))) => {
                    match punct_kind(c) {
                        Some(_) => {
                            assert(v =~= seq![c]);
                        },
                        None => {
                            if is_digit_char(c) {
                                assert(v[0] == c);
                                assert(!('0' <= 'l' <= '9') && !('0' <= 'c' <= '9') && !('0' <= 'f'
                                    <= '9') && !('0' <= 'i' <= '9') && !('0' <= 'w' <= '9'));
                            } else {
                                lemma_keyword_lookup_exact(v);
                            }
                        },
                    }
                },
                _ => {},
            }
        }
    }
}

/// The first token of a scan from `pos` starts no earlier than `pos`.
proof fn lemma_scan_first_start(src: Seq<char>, pos: int)
    requires
        0 <= pos <= src.len(),
        src.len() <= usize::MAX,
    ensures
        match spec_scan(src, pos) {
            Ok(toks) => toks.len() >= 1 && toks[0].start >= pos,
            Err(_) => true,
        },
{
    lemma_next_kind_bounds(src, pos);
    if 0 <= pos < src.len() {
        match spec_next_kind(src, pos) {
            Ok(Some((k, v, st, e))) => {
                match spec_scan(src, e) {
                    Ok(rest) => {
                        let h = TokenModel { kind: k, value: v, start: st, end: e };
                        assert(seq![h].add(rest)[0] == h);
                    },
                    Err(_) => {},
                }
            },
            _ => {},
        }
    }
}

/// Spans never overlap: each token ends no later than the next one starts.
#[verifier::rlimit(100)]
pub proof fn lemma_scan_adjacent(src: Seq<char>, pos: int)
    requires
        0 <= pos <= src.len(),
        src.len() <= usize::MAX,
    ensures
        match spec_scan(src, pos) {
            Ok(toks) => forall|i: int|
                0 <= i < toks.len() - 1 ==> (#[trigger] toks[i]).end <= toks[i + 1].start,
            Err(_) => true,
        },
    decreases src.len() - pos,
{
    lemma_next_kind_bounds(src, pos);
    if 0 <= pos < src.len() {
        match spec_next_kind(src, pos) {
            Ok(Some((k, v, st, e))) => {
                lemma_scan_adjacent(src, e);
                lemma_scan_first_start(src, e);
                match spec_scan(src, e) {
                    Ok(rest) => {
                        let h = TokenModel { kind: k, value: v, start: st, end: e };
                        assert(spec_scan(src, pos) == Ok::<Seq<TokenModel>, LexError>(
                            seq![h].add(rest),
                        ));
                        lemma_cons_adjacent(h, rest);
                    },
                    Err(_) => {},
                }
            },
            _ => {},
        }
    }
}

proof fn lemma_cons_adjacent(h: TokenModel, rest: Seq<TokenModel>)
    requires
        rest.len() >= 1,
        h.end <= rest[0].start,
        forall|i: int| 0 <= i < rest.len() - 1 ==> (#[trigger] rest[i]).end <= rest[i + 1].start,
    ensures
        forall|i: int|
            0 <= i < seq![h].add(rest).len() - 1 ==> (#[trigger] seq![h].add(rest)[i]).end
                <= seq![h].add(rest)[i + 1].start,
{
    let toks = seq![h].add(rest);
    assert forall|i: int| 0 <= i < toks.len() - 1 implies (#[trigger] toks[i]).end <= toks[i
        + 1].start by {
        if i > 0 {
            assert(toks[i] == rest[i - 1]);
            assert(toks[i + 1] == rest[i]);
        } else {
            assert(toks[0] == h);
            assert(toks[1] == rest[0]);
        }
    }
}

/// A successful scan recognizes every character of the input: none is
/// silently skipped. A failed scan names the first unrecognized character
/// and its position.
pub proof fn lemma_scan_all_recognized(src: Seq<char>, pos: int)
    requires
        0 <= pos <= src.len(),
        src.len() <= usize::MAX,
    ensures
        match spec_scan(src, pos) {
            Ok(_) => forall|i: int| pos <= i < src.len() ==> is_recognized_char(src[i]),
            Err(le) => le matches LexError::UnrecognizedCharacter { ch, offset } && pos <= offset
                < src.len() && src[offset as int] == ch && !is_recognized_char(ch),
        },
    decreases src.len() - pos,
{
    lemma_next_kind_bounds(src, pos);
    if 0 <= pos < src.len() {
        match spec_next_kind(src, pos) {
            Ok(Some((k, v, st, e))) => {
                lemma_scan_all_recognized(src, e);
                match spec_scan(src, e) {
                    Ok(_) => {
                        assert forall|i: int| pos <= i < src.len() implies is_recognized_char(
                            src[i],
                        ) by {
                            if i < e {
                                assert(is_recognized_char(src[i]));
                            }
                        }
                    },
                    Err(_) => {},
                }
            },
            _ => {},
        }
    }
}

/// What a scan-produced token's category says about its lexeme: an Equals
/// token is spelled `=`, and only BinaryOperator tokens carry an arithmetic
/// operator lexeme.
pub open spec fn model_coherent(t: TokenModel) -> bool {
    &&& t.kind == TokenType::Equals ==> t.value == "="@
    &&& t.kind == TokenType::BinaryOperator <==> is_op_text(t.value)
}

/// The token `spec_next_kind` finds is coherent in the sense of
/// `model_coherent`: the proof walks through any leading whitespace to the
/// character that starts the token.
proof fn lemma_next_kind_coherent(src: Seq<char>, pos: int)
    requires
        0 <= pos <= src.len(),
    ensures
        match spec_next_kind(src, pos) {
            Ok(Some((k, v, st, e))) => (k == TokenType::Equals ==> v == "="@) && (k
                == TokenType::BinaryOperator <==> is_op_text(v)),
            _ => true,
        },
    decreases src.len() - pos,
{
    broadcast use vstd::string::group_string_axioms;

    reveal_strlit("+");
    reveal_strlit("-");
    reveal_strlit("*");
    reveal_strlit("/");
    reveal_strlit("%");
    reveal_strlit("=");
    assert("+"@.len() == 1 && "-"@.len() == 1 && "*"@.len() == 1 && "/"@.len() == 1 && "%"@.len()
        == 1 && "="@.len() == 1);
    assert("+"@[0] == '+' && "-"@[0] == '-' && "*"@[0] == '*' && "/"@[0] == '/' && "%"@[0] == '%'
        && "="@[0] == '=');
    if pos < src.len() {
        let c = src[pos];
        if is_whitespace_char(c) {
            lemma_next_kind_coherent(src, pos + 1);
        } else {
            match spec_next_kind(src, pos) {
                Ok(Some((k, v, st, e))) => {
                    match punct_kind(c) {
                        Some(_) => {
                            assert(v =~= seq![c]);
                            if c == '=' {
                                assert(v =~= "="@);
                            }
                            if c == '+' {
                                assert(v =~= "+"@);
                            }
                            if c == '-' {
                                assert(v =~= "-"@);
                            }
                            if c == '*' {
                                assert(v =~= "*"@);
                            }
                            if c == '/' {
                                assert(v =~= "/"@);
                            }
                            if c == '%' {
                                assert(v =~= "%"@);
                            }
                            if v == "+"@ {
                                assert(c == '+');
                            }
                            if v == "-"@ {
                                assert(c == '-');
                            }
                            if v == "*"@ {
                                assert(c == '*');
                            }
                            if v == "/"@ {
                                assert(c == '/');
                            }
                            if v == "%"@ {
                                assert(c == '%');
                            }
                        },
                        None => {
                            assert(v[0] == c);
                            if v == "+"@ {
                                assert(c == '+');
                            }
                            if v == "-"@ {
                                assert(c == '-');
                            }
                            if v == "*"@ {
                                assert(c == '*');
                            }
                            if v == "/"@ {
                                assert(c == '/');
                            }
                            if v == "%"@ {
                                assert(c == '%');
                            }
                        },
                    }
                },
                _ => {},
            }
        }
    }
}

/// Every token of a successful scan is coherent in the sense of
/// `model_coherent`.
pub proof fn lemma_scan_coherent(src: Seq<char>, pos: int)
    requires
        0 <= pos <= src.len(),
        src.len() <= usize::MAX,
    ensures
        match spec_scan(src, pos) {
            Ok(toks) => forall|i: int| 0 <= i < toks.len() ==> model_coherent(#[trigger] toks[i]),
            Err(_) => true,
        },
    decreases src.len() - pos,
{
    broadcast use vstd::string::group_string_axioms;

    reveal_strlit("+");
    reveal_strlit("-");
    reveal_strlit("*");
    reveal_strlit("/");
    reveal_strlit("%");
    reveal_strlit("=");
    reveal_strlit("EOF");
    assert("EOF"@.len() == 3);
    assert("+"@.len() == 1 && "-"@.len() == 1 && "*"@.len() == 1 && "/"@.len() == 1 && "%"@.len()
        == 1 && "="@.len() == 1);
    lemma_next_kind_bounds(src, pos);
    lemma_next_kind_coherent(src, pos);
    if !(0 <= pos < src.len()) {
        assert(model_coherent(eof_token_model(src)));
    } else {
        match spec_next_kind(src, pos) {
            Ok(None) => {
                assert(model_coherent(eof_token_model(src)));
            },
            Ok(Some((k, v, st, e))) => {
                lemma_scan_coherent(src, e);
                let h = TokenModel { kind: k, value: v, start: st, end: e };
                assert(model_coherent(h));
                match spec_scan(src, e) {
                    Ok(rest) => {
                        let toks = seq![h].add(rest);
                        assert forall|i: int| 0 <= i < toks.len() implies model_coherent(
                            #[trigger] toks[i],
                        ) by {
                            if i == 0 {
                                assert(toks[0] == h);
                            } else {
                                assert(toks[i] == rest[i - 1]);
                            }
                        }
                    },
                    Err(_) => {},
                }
            },
            Err(_) => {},
        }
    }
}

} // verus!

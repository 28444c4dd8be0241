use vstd::prelude::*;

use crate::ast::{
    AssignmentExpression, BinaryExpression, Expression, Identifier, NodeType, NumbericLiteral,
    Program, Statement, expr_end, expr_start, spec_expr_end, spec_expr_start,
};
use crate::lexer::is_digit_char;
use crate::token::{Token, TokenType, is_add_op_text, is_mul_op_text, is_op_text};

verus! {

/// How a parse can fail. Every failure is a typed value: no partial tree is
/// returned.
#[derive(Debug, Clone, Copy, PartialEq, Eq, Structural)]
pub enum ParseError {
    /// A `let`, `const` or `fn` statement: the statement grammar for these
    /// is deliberately not implemented.
    UnsupportedStatement { kind: TokenType, start: usize, end: usize },
    /// A token with no production at primary-expression position.
    UnexpectedToken { kind: TokenType, start: usize, end: usize },
    /// A required token was absent; `found` is what stood in its place.
    MissingExpectedToken { expected: TokenType, found: TokenType, start: usize, end: usize },
    /// A Number token whose lexeme does not fit a signed 64-bit integer, or
    /// holds a non-digit.
    InvalidNumber { start: usize, end: usize },
}

/// A token sequence the parser can run on without reading past its end: the
/// scanner's output contract. The end-of-input marker closes the sequence,
/// appears nowhere else, and its lexeme is no operator.
pub open spec fn wf_stream(ts: Seq<Token>) -> bool {
    &&& ts.len() >= 1
    &&& ts.last().kind == TokenType::EOF
    &&& !is_op_text(ts.last().value@)
    &&& forall|i: int| 0 <= i < ts.len() - 1 ==> (#[trigger] ts[i]).kind != TokenType::EOF
}

/// Removing the front token of a well-formed stream keeps it well-formed,
/// provided the front is not the end marker; a front token that is eaten is
/// never the marker.
proof fn lemma_wf_eat(ts: Seq<Token>)
    requires
        wf_stream(ts),
        ts[0].kind != TokenType::EOF || is_op_text(ts[0].value@),
    ensures
        ts.len() >= 2,
        ts[0].kind != TokenType::EOF,
        wf_stream(ts.skip(1)),
{
    if ts.len() == 1 {
        assert(ts[0] == ts.last());
    }
    assert(ts[0] == ts[0 as int]);
    assert(ts.skip(1).last() == ts.last());
    assert(forall|i: int|
        0 <= i < ts.skip(1).len() - 1 ==> (#[trigger] ts.skip(1)[i]) == ts[i + 1]);
}

/// The numeric value of a digit lexeme, most significant digit first.
pub open spec fn digits_val(v: Seq<char>) -> int
    decreases v.len(),
{
    if v.len() == 0 {
        0
    } else {
        digits_val(v.drop_last()) * 10 + (v.last() as int - '0' as int)
    }
}

/// Whether every character of `v` is a decimal digit.
pub open spec fn all_digits(v: Seq<char>) -> bool {
    forall|i: int| 0 <= i < v.len() ==> is_digit_char(#[trigger] v[i])
}

/// The expression a primary position yields: an identifier, a numeric
/// literal, or a parenthesized expression; anything else is an error.
/// Results are paired with the tokens left after them.
pub open spec fn sp_parse_primary(ts: Seq<Token>) -> Result<
    (Expression, Seq<Token>),
    ParseError,
>
    decreases ts.len(), 0int,
{
    if ts.len() == 0 {
        // not reachable from a well-formed stream: the end marker is never consumed
        Err(ParseError::UnexpectedToken { kind: TokenType::EOF, start: 0, end: 0 })
    } else {
        let t = ts[0];
        if t.kind == TokenType::Identifier {
            Ok(
                (
                    Expression::Identifier(
                        Box::new(
                            Identifier {
                                kind: NodeType::Identifier,
                                symbol: t.value,
                                start: t.start,
                                end: t.end,
                            },
                        ),
                    ),
                    ts.skip(1),
                ),
            )
        } else if t.kind == TokenType::Number {
            if t.value@.len() >= 1 && all_digits(t.value@) && digits_val(t.value@) <= i64::MAX {
                Ok(
                    (
                        Expression::NumbericLiteral(
                            Box::new(
                                NumbericLiteral {
                                    kind: NodeType::NumbericLiteral,
                                    value: digits_val(t.value@) as i64,
                                    start: t.start,
                                    end: t.end,
                                },
                            ),
                        ),
                        ts.skip(1),
                    ),
                )
            } else {
                Err(ParseError::InvalidNumber { start: t.start, end: t.end })
            }
        } else if t.kind == TokenType::OpenParen {
            match sp_parse_assignment(ts.skip(1)) {
                Ok((e, rest)) => {
                    if rest.len() > 0 && rest[0].kind == TokenType::CloseParen {
                        Ok((e, rest.skip(1)))
                    } else if rest.len() > 0 {
                        Err(
                            ParseError::MissingExpectedToken {
                                expected: TokenType::CloseParen,
                                found: rest[0].kind,
                                start: rest[0].start,
                                end: rest[0].end,
                            },
                        )
                    } else {
                        // not reachable from a well-formed stream
                        Err(
                            ParseError::MissingExpectedToken {
                                expected: TokenType::CloseParen,
                                found: TokenType::EOF,
                                start: 0,
                                end: 0,
                            },
                        )
                    }
                },
                Err(pe) => Err(pe),
            }
        } else {
            Err(ParseError::UnexpectedToken { kind: t.kind, start: t.start, end: t.end })
        }
    }
}

/// Left-folds `* / %` operators onto `left`, each right operand a primary
/// expression.
pub open spec fn sp_parse_mul_tail(left: Expression, ts: Seq<Token>) -> Result<
    (Expression, Seq<Token>),
    ParseError,
>
    decreases ts.len(), 1int,
{
    if ts.len() > 0 && is_mul_op_text(ts[0].value@) {
        let op = ts[0];
        match sp_parse_primary(ts.skip(1)) {
            Ok((right, rest)) => {
                let folded = Expression::Binary(
                    Box::new(
                        BinaryExpression {
                            kind: NodeType::BinaryExpression,
                            left: left,
                            right: right,
                            operator: op.value,
                            start: spec_expr_start(left),
                            end: spec_expr_end(right),
                        },
                    ),
                );
                if rest.len() < ts.len() {
                    sp_parse_mul_tail(folded, rest)
                } else {
                    // not reachable: a primary expression consumes at least
                    // one token (lemma_primary_consumes)
                    Ok((folded, rest))
                }
            },
            Err(pe) => Err(pe),
        }
    } else {
        Ok((left, ts))
    }
}

/// A multiplicative expression: a primary expression followed by any run of
/// `* / %` operators, grouping left-associatively.
pub open spec fn sp_parse_multiplicative(ts: Seq<Token>) -> Result<
    (Expression, Seq<Token>),
    ParseError,
>
    decreases ts.len(), 2int,
{
    match sp_parse_primary(ts) {
        Ok((left, rest)) => {
            if rest.len() < ts.len() {
                sp_parse_mul_tail(left, rest)
            } else {
                // not reachable (lemma_primary_consumes)
                Ok((left, rest))
            }
        },
        Err(pe) => Err(pe),
    }
}

/// Left-folds `+ -` operators onto `left`, each right operand a
/// multiplicative expression.
pub open spec fn sp_parse_add_tail(left: Expression, ts: Seq<Token>) -> Result<
    (Expression, Seq<Token>),
    ParseError,
>
    decreases ts.len(), 3int,
{
    if ts.len() > 0 && is_add_op_text(ts[0].value@) {
        let op = ts[0];
        match sp_parse_multiplicative(ts.skip(1)) {
            Ok((right, rest)) => {
                let folded = Expression::Binary(
                    Box::new(
                        BinaryExpression {
                            kind: NodeType::BinaryExpression,
                            left: left,
                            right: right,
                            operator: op.value,
                            start: spec_expr_start(left),
                            end: spec_expr_end(right),
                        },
                    ),
                );
                if rest.len() < ts.len() {
                    sp_parse_add_tail(folded, rest)
                } else {
                    // not reachable (lemma_multiplicative_consumes)
                    Ok((folded, rest))
                }
            },
            Err(pe) => Err(pe),
        }
    } else {
        Ok((left, ts))
    }
}

/// An additive expression: a multiplicative expression followed by any run
/// of `+ -` operators, grouping left-associatively. Multiplicative operators
/// therefore bind tighter than additive ones.
pub open spec fn sp_parse_additive(ts: Seq<Token>) -> Result<(Expression, Seq<Token>), ParseError>
    decreases ts.len(), 4int,
{
    match sp_parse_multiplicative(ts) {
        Ok((left, rest)) => {
            if rest.len() < ts.len() {
                sp_parse_add_tail(left, rest)
            } else {
                // not reachable (lemma_multiplicative_consumes)
                Ok((left, rest))
            }
        },
        Err(pe) => Err(pe),
    }
}

/// An assignment expression: an additive expression, and after an `=` token
/// a recursively parsed assignment as the value, making assignment
/// right-associative and chainable.
pub open spec fn sp_parse_assignment(ts: Seq<Token>) -> Result<(Expression, Seq<Token>), ParseError>
    decreases ts.len(), 5int,
{
    match sp_parse_additive(ts) {
        Ok((left, rest)) => {
            if rest.len() > 0 && rest[0].kind == TokenType::Equals {
                let after = rest.skip(1);
                if after.len() < ts.len() {
                    match sp_parse_assignment(after) {
                        Ok((value, rest2)) => Ok(
                            (
                                Expression::Assignment(
                                    Box::new(
                                        AssignmentExpression {
                                            kind: NodeType::AssignmentExpression,
                                            assinge: left,
                                            value: value,
                                            start: spec_expr_start(left),
                                            end: spec_expr_end(value),
                                        },
                                    ),
                                ),
                                rest2,
                            ),
                        ),
                        Err(pe) => Err(pe),
                    }
                } else {
                    // not reachable (lemma_additive_consumes)
                    Ok((left, rest))
                }
            } else {
                Ok((left, rest))
            }
        },
        Err(pe) => Err(pe),
    }
}

/// A statement: `let`, `const` and `fn` are rejected as deliberately
/// unsupported forms; everything else is an expression statement.
pub open spec fn sp_parse_statement(ts: Seq<Token>) -> Result<(Statement, Seq<Token>), ParseError>
    decreases ts.len(), 6int,
{
    if ts.len() == 0 {
        // not reachable from a well-formed stream
        Err(ParseError::UnexpectedToken { kind: TokenType::EOF, start: 0, end: 0 })
    } else {
        let t = ts[0];
        if t.kind == TokenType::Let || t.kind == TokenType::Const || t.kind == TokenType::Fn {
            Err(ParseError::UnsupportedStatement { kind: t.kind, start: t.start, end: t.end })
        } else {
            match sp_parse_assignment(ts) {
                Ok((e, rest)) => Ok((Statement::Expression(e), rest)),
                Err(pe) => Err(pe),
            }
        }
    }
}

/// The program body: statements parsed in order until the current token is
/// the end-of-input marker, appended to `acc`.
pub open spec fn sp_parse_program(acc: Seq<Statement>, ts: Seq<Token>) -> Result<
    (Seq<Statement>, Seq<Token>),
    ParseError,
>
    decreases ts.len(), 7int,
{
    if ts.len() > 0 && ts[0].kind != TokenType::EOF {
        match sp_parse_statement(ts) {
            Ok((st, rest)) => {
                if rest.len() < ts.len() {
                    sp_parse_program(acc.push(st), rest)
                } else {
                    // not reachable (lemma_statement_consumes)
                    Ok((acc.push(st), rest))
                }
            },
            Err(pe) => Err(pe),
        }
    } else {
        Ok((acc, ts))
    }
}

/// Every parse level consumes tokens from the front: what remains is a
/// proper suffix, so the grammar's recursion terminates and the clamped
/// branches in the definitions above are never taken.
proof fn lemma_primary_consumes(ts: Seq<Token>)
    ensures
        match sp_parse_primary(ts) {
            Ok((e, rest)) => rest.len() < ts.len() && rest == ts.skip(ts.len() - rest.len()),
            Err(_) => true,
        },
    decreases ts.len(), 0int,
{
    if ts.len() > 0 && ts[0].kind == TokenType::OpenParen {
        lemma_assignment_consumes(ts.skip(1));
        match sp_parse_assignment(ts.skip(1)) {
            Ok((e, rest)) => {
                if rest.len() > 0 && rest[0].kind == TokenType::CloseParen {
                    let k = ts.len() - rest.len();
                    assert(rest =~= ts.skip(k));
                    assert(rest.skip(1) =~= ts.skip(k + 1));
                }
            },
            Err(_) => {},
        }
    }
}

proof fn lemma_mul_tail_consumes(left: Expression, ts: Seq<Token>)
    ensures
        match sp_parse_mul_tail(left, ts) {
            Ok((e, rest)) => rest.len() <= ts.len() && rest == ts.skip(ts.len() - rest.len()),
            Err(_) => true,
        },
    decreases ts.len(), 1int,
{
    if ts.len() > 0 && is_mul_op_text(ts[0].value@) {
        lemma_primary_consumes(ts.skip(1));
        match sp_parse_primary(ts.skip(1)) {
            Ok((right, rest)) => {
                assert(rest =~= ts.skip(ts.len() - rest.len()));
                let folded = Expression::Binary(
                    Box::new(
                        BinaryExpression {
                            kind: NodeType::BinaryExpression,
                            left: left,
                            right: right,
                            operator: ts[0].value,
                            start: spec_expr_start(left),
                            end: spec_expr_end(right),
                        },
                    ),
                );
                lemma_mul_tail_consumes(folded, rest);
                match sp_parse_mul_tail(folded, rest) {
                    Ok((e2, rest2)) => {
                        assert(rest2 =~= ts.skip(ts.len() - rest2.len()));
                    },
                    Err(_) => {},
                }
            },
            Err(_) => {},
        }
    } else {
        assert(ts =~= ts.skip(0));
    }
}

proof fn lemma_multiplicative_consumes(ts: Seq<Token>)
    ensures
        match sp_parse_multiplicative(ts) {
            Ok((e, rest)) => rest.len() < ts.len() && rest == ts.skip(ts.len() - rest.len()),
            Err(_) => true,
        },
    decreases ts.len(), 2int,
{
    lemma_primary_consumes(ts);
    match sp_parse_primary(ts) {
        Ok((left, rest)) => {
            lemma_mul_tail_consumes(left, rest);
            match sp_parse_mul_tail(left, rest) {
                Ok((e2, rest2)) => {
                    assert(rest2 =~= ts.skip(ts.len() - rest2.len()));
                },
                Err(_) => {},
            }
        },
        Err(_) => {},
    }
}

proof fn lemma_add_tail_consumes(left: Expression, ts: Seq<Token>)
    ensures
        match sp_parse_add_tail(left, ts) {
            Ok((e, rest)) => rest.len() <= ts.len() && rest == ts.skip(ts.len() - rest.len()),
            Err(_) => true,
        },
    decreases ts.len(), 3int,
{
    if ts.len() > 0 && is_add_op_text(ts[0].value@) {
        lemma_multiplicative_consumes(ts.skip(1));
        match sp_parse_multiplicative(ts.skip(1)) {
            Ok((right, rest)) => {
                assert(rest =~= ts.skip(ts.len() - rest.len()));
                let folded = Expression::Binary(
                    Box::new(
                        BinaryExpression {
                            kind: NodeType::BinaryExpression,
                            left: left,
                            right: right,
                            operator: ts[0].value,
                            start: spec_expr_start(left),
                            end: spec_expr_end(right),
                        },
                    ),
                );
                lemma_add_tail_consumes(folded, rest);
                match sp_parse_add_tail(folded, rest) {
                    Ok((e2, rest2)) => {
                        assert(rest2 =~= ts.skip(ts.len() - rest2.len()));
                    },
                    Err(_) => {},
                }
            },
            Err(_) => {},
        }
    } else {
        assert(ts =~= ts.skip(0));
    }
}

proof fn lemma_additive_consumes(ts: Seq<Token>)
    ensures
        match sp_parse_additive(ts) {
            Ok((e, rest)) => rest.len() < ts.len() && rest == ts.skip(ts.len() - rest.len()),
            Err(_) => true,
        },
    decreases ts.len(), 4int,
{
    lemma_multiplicative_consumes(ts);
    match sp_parse_multiplicative(ts) {
        Ok((left, rest)) => {
            lemma_add_tail_consumes(left, rest);
            match sp_parse_add_tail(left, rest) {
                Ok((e2, rest2)) => {
                    assert(rest2 =~= ts.skip(ts.len() - rest2.len()));
                },
                Err(_) => {},
            }
        },
        Err(_) => {},
    }
}

proof fn lemma_assignment_consumes(ts: Seq<Token>)
    ensures
        match sp_parse_assignment(ts) {
            Ok((e, rest)) => rest.len() < ts.len() && rest == ts.skip(ts.len() - rest.len()),
            Err(_) => true,
        },
    decreases ts.len(), 5int,
{
    lemma_additive_consumes(ts);
    match sp_parse_additive(ts) {
        Ok((left, rest)) => {
            if rest.len() > 0 && rest[0].kind == TokenType::Equals {
                let after = rest.skip(1);
                assert(after =~= ts.skip(ts.len() - after.len()));
                lemma_assignment_consumes(after);
                match sp_parse_assignment(after) {
                    Ok((value, rest2)) => {
                        assert(rest2 =~= ts.skip(ts.len() - rest2.len()));
                    },
                    Err(_) => {},
                }
            }
        },
        Err(_) => {},
    }
}

proof fn lemma_statement_consumes(ts: Seq<Token>)
    ensures
        match sp_parse_statement(ts) {
            Ok((st, rest)) => rest.len() < ts.len() && rest == ts.skip(ts.len() - rest.len()),
            Err(_) => true,
        },
    decreases ts.len(), 6int,
{
    if ts.len() > 0 {
        lemma_assignment_consumes(ts);
    }
}

/// Reads the digits of `s` as a signed 64-bit integer, most significant
/// first; None when a character is no digit or the value does not fit.
fn parse_i64(s: &String) -> (r: Option<i64>)
    ensures
        match r {
            Some(v) => s@.len() >= 1 && all_digits(s@) && digits_val(s@) <= i64::MAX && v
                == digits_val(s@),
            None => !(s@.len() >= 1 && all_digits(s@) && digits_val(s@) <= i64::MAX),
        },
{
    let n = s.as_str().unicode_len();
    if n == 0 {
        return None;
    }
    let mut i: usize = 0;
    let mut acc: i64 = 0;
    while i < n
        invariant
            0 <= i <= n,
            n == s@.len(),
            all_digits(s@.take(i as int)),
            0 <= acc <= i64::MAX,
            acc == digits_val(s@.take(i as int)),
        decreases n - i,
    {
        let c = s.as_str().get_char(i);
        proof {
            assert(s@.take(i as int + 1).drop_last() =~= s@.take(i as int));
            assert(s@.take(i as int + 1).last() == s@[i as int]);
        }
        if c < '0' || c > '9' {
            assert(!is_digit_char(s@[i as int]));
            return None;
        }
        let d = (c as u32 - '0' as u32) as i64;
        if acc > (i64::MAX - d) / 10 {
            proof {
                lemma_digits_val_grows(s@, i as int + 1);
            }
            return None;
        }
        acc = acc * 10 + d;
        i = i + 1;
        proof {
            assert forall|j: int| 0 <= j < i as int implies is_digit_char(
                #[trigger] s@.take(i as int)[j],
            ) by {
                assert(s@.take(i as int)[j] == s@[j]);
                if j < i as int - 1 {
                    assert(s@.take(i as int - 1)[j] == s@[j]);
                }
            }
        }
    }
    proof {
        assert(s@.take(n as int) =~= s@);
    }
    Some(acc)
}

/// Once a digit prefix exceeds the 64-bit range, the whole digit string
/// does: appending digits never shrinks the value.
proof fn lemma_digits_val_grows(v: Seq<char>, j: int)
    requires
        0 <= j <= v.len(),
    ensures
        all_digits(v) ==> digits_val(v.take(j)) <= digits_val(v) && digits_val(v) >= 0,
    decreases v.len() - j,
{
    if all_digits(v) {
        if j == v.len() {
            assert(v.take(j) =~= v);
            lemma_digits_val_nonneg(v);
        } else {
            lemma_digits_val_grows(v, j + 1);
            assert(v.take(j + 1).drop_last() =~= v.take(j));
            assert(v.take(j + 1).last() == v[j]);
            lemma_digits_val_nonneg(v.take(j));
        }
    }
}

proof fn lemma_digits_val_nonneg(v: Seq<char>)
    requires
        all_digits(v),
    ensures
        digits_val(v) >= 0,
    decreases v.len(),
{
    if v.len() > 0 {
        assert(all_digits(v.drop_last())) by {
            assert(forall|i: int|
                0 <= i < v.len() - 1 ==> #[trigger] v.drop_last()[i] == v[i]);
        }
        lemma_digits_val_nonneg(v.drop_last());
    }
}

/// The parser: consumes a token sequence from the front, one token of
/// lookahead, and builds the syntax tree bottom-up.
pub struct Parser {
    tokens: Vec<Token>,
}

impl Parser {
    /// The tokens not yet consumed.
    pub closed spec fn toks(&self) -> Seq<Token> {
        self.tokens@
    }

    pub fn new(tokens: Vec<Token>) -> (p: Parser)
        ensures
            p.toks() == tokens@,
    {
        Parser { tokens }
    }

    fn not_eof(&self) -> (b: bool)
        ensures
            b == (self.toks().len() > 0 && self.toks()[0].kind != TokenType::EOF),
    {
        if self.tokens.len() > 0 {
            self.tokens[0].kind != TokenType::EOF
        } else {
            false
        }
    }

    fn at(&self) -> (t: &Token)
        requires
            self.toks().len() > 0,
        ensures
            *t == self.toks()[0],
    {
        &self.tokens[0]
    }

    fn eat(&mut self) -> (t: Token)
        requires
            old(self).toks().len() > 0,
        ensures
            t == old(self).toks()[0],
            final(self).toks() == old(self).toks().skip(1),
    {
        let t = self.tokens.remove(0);
        proof {
            assert(old(self).toks().remove(0) =~= old(self).toks().skip(1));
        }
        t
    }

    fn expect(&self, kind: TokenType) -> (r: Result<(), ParseError>)
        requires
            self.toks().len() > 0,
        ensures
            match r {
                Ok(_) => self.toks()[0].kind == kind,
                Err(pe) => self.toks()[0].kind != kind && pe
                    == (ParseError::MissingExpectedToken {
                    expected: kind,
                    found: self.toks()[0].kind,
                    start: self.toks()[0].start,
                    end: self.toks()[0].end,
                }),
            },
    {
        let cur_token = self.at();
        if cur_token.kind != kind {
            Err(
                ParseError::MissingExpectedToken {
                    expected: kind,
                    found: cur_token.kind,
                    start: cur_token.start,
                    end: cur_token.end,
                },
            )
        } else {
            Ok(())
        }
    }

    fn at_add_op(&self) -> (b: bool)
        requires
            self.toks().len() > 0,
        ensures
            b == is_add_op_text(self.toks()[0].value@),
    {
        token_value_is(self.at(), "+") || token_value_is(self.at(), "-")
    }

    fn at_mul_op(&self) -> (b: bool)
        requires
            self.toks().len() > 0,
        ensures
            b == is_mul_op_text(self.toks()[0].value@),
    {
        token_value_is(self.at(), "*") || token_value_is(self.at(), "/") || token_value_is(
            self.at(),
            "%",
        )
    }

    /// Parses the whole token sequence into a Program statement, or fails
    /// with the first error. On success the tokens left over are exactly
    /// those from the end-of-input marker on, and the program body is the
    /// statement sequence the grammar gives.
    pub fn parse(&mut self) -> (r: Result<Statement, ParseError>)
        requires
            wf_stream(old(self).toks()),
        ensures
            wf_stream(final(self).toks()),
            match sp_parse_program(Seq::<Statement>::empty(), old(self).toks()) {
                Ok((body, rest)) => r matches Ok(st) && st matches Statement::Program(p) && p.kind
                    == NodeType::Program && p.start == 0 && p.end == 0 && p.body@ == body
                    && final(self).toks() == rest,
                Err(pe) => r matches Err(x) && x == pe,
            },
    {
        let mut program = Program::new(0, 0);
        while self.not_eof()
            invariant
                wf_stream(self.toks()),
                program.kind == NodeType::Program,
                program.start == 0,
                program.end == 0,
                sp_parse_program(program.body@, self.toks()) == sp_parse_program(
                    Seq::<Statement>::empty(),
                    old(self).toks(),
                ),
            decreases self.toks().len(),
        {
            let ghost pre = self.toks();
            let st = match self.parse_statement() {
                Ok(s) => s,
                Err(pe) => {
                    return Err(pe);
                },
            };
            proof {
                lemma_statement_consumes(pre);
            }
            program.append(st);
        }
        Ok(Statement::Program(program))
    }

    fn parse_statement(&mut self) -> (r: Result<Statement, ParseError>)
        requires
            wf_stream(old(self).toks()),
        ensures
            wf_stream(final(self).toks()),
            final(self).toks().len() <= old(self).toks().len(),
            match sp_parse_statement(old(self).toks()) {
                Ok((st, rest)) => r matches Ok(x) && x == st && final(self).toks() == rest,
                Err(pe) => r matches Err(x) && x == pe,
            },
        decreases self.toks().len(), 6int,
    {
        let cur_kind = self.at().kind;
        match cur_kind {
            TokenType::Let | TokenType::Const | TokenType::Fn => {
                let t = self.at();
                Err(ParseError::UnsupportedStatement { kind: t.kind, start: t.start, end: t.end })
            },
            _ => {
                let expression = match self.parse_expression() {
                    Ok(e) => e,
                    Err(pe) => {
                        return Err(pe);
                    },
                };
                Ok(Statement::Expression(expression))
            },
        }
    }

    fn parse_expression(&mut self) -> (r: Result<Expression, ParseError>)
        requires
            wf_stream(old(self).toks()),
        ensures
            wf_stream(final(self).toks()),
            final(self).toks().len() <= old(self).toks().len(),
            match sp_parse_assignment(old(self).toks()) {
                Ok((e, rest)) => r matches Ok(x) && x == e && final(self).toks() == rest,
                Err(pe) => r matches Err(x) && x == pe,
            },
        decreases self.toks().len(), 5int,
    {
        self.parse_assignment_expression()
    }

    fn parse_assignment_expression(&mut self) -> (r: Result<Expression, ParseError>)
        requires
            wf_stream(old(self).toks()),
        ensures
            wf_stream(final(self).toks()),
            final(self).toks().len() <= old(self).toks().len(),
            match sp_parse_assignment(old(self).toks()) {
                Ok((e, rest)) => r matches Ok(x) && x == e && final(self).toks() == rest,
                Err(pe) => r matches Err(x) && x == pe,
            },
        decreases self.toks().len(), 4int,
    {
        let ghost ts0 = self.toks();
        let left = match self.parse_additive_expression() {
            Ok(e) => e,
            Err(pe) => {
                return Err(pe);
            },
        };
        proof {
            lemma_additive_consumes(ts0);
        }
        if self.at().kind == TokenType::Equals {
            proof {
                lemma_wf_eat(self.toks());
            }
            self.eat();
            let value = match self.parse_assignment_expression() {
                Ok(e) => e,
                Err(pe) => {
                    return Err(pe);
                },
            };
            let s = expr_start(&left);
            let en = expr_end(&value);
            let assignment_expression = AssignmentExpression::new(left, value, s, en);
            return Ok(Expression::Assignment(Box::new(assignment_expression)));
        }
        Ok(left)
    }

    fn parse_additive_expression(&mut self) -> (r: Result<Expression, ParseError>)
        requires
            wf_stream(old(self).toks()),
        ensures
            wf_stream(final(self).toks()),
            final(self).toks().len() <= old(self).toks().len(),
            match sp_parse_additive(old(self).toks()) {
                Ok((e, rest)) => r matches Ok(x) && x == e && final(self).toks() == rest,
                Err(pe) => r matches Err(x) && x == pe,
            },
        decreases self.toks().len(), 3int,
    {
        let ghost ts0 = self.toks();
        let mut left = match self.parse_multiplicitave_expression() {
            Ok(e) => e,
            Err(pe) => {
                return Err(pe);
            },
        };
        proof {
            lemma_multiplicative_consumes(ts0);
        }
        while self.at_add_op()
            invariant
                wf_stream(self.toks()),
                ts0 == old(self).toks(),
                self.toks().len() <= ts0.len(),
                sp_parse_add_tail(left, self.toks()) == sp_parse_additive(ts0),
            decreases self.toks().len(),
        {
            let ghost th = self.toks();
            proof {
                lemma_wf_eat(th);
            }
            let operator = self.eat().value;
            let right = match self.parse_multiplicitave_expression() {
                Ok(e) => e,
                Err(pe) => {
                    return Err(pe);
                },
            };
            proof {
                lemma_multiplicative_consumes(th.skip(1));
            }
            let s = expr_start(&left);
            let en = expr_end(&right);
            let binary_expression = BinaryExpression::new(left, right, operator, s, en);
            left = Expression::Binary(Box::new(binary_expression));
        }
        Ok(left)
    }

    fn parse_multiplicitave_expression(&mut self) -> (r: Result<Expression, ParseError>)
        requires
            wf_stream(old(self).toks()),
        ensures
            wf_stream(final(self).toks()),
            final(self).toks().len() <= old(self).toks().len(),
            match sp_parse_multiplicative(old(self).toks()) {
                Ok((e, rest)) => r matches Ok(x) && x == e && final(self).toks() == rest,
                Err(pe) => r matches Err(x) && x == pe,
            },
        decreases self.toks().len(), 2int,
    {
        let ghost ts0 = self.toks();
        let mut left = match self.parse_primary_expression() {
            Ok(e) => e,
            Err(pe) => {
                return Err(pe);
            },
        };
        proof {
            lemma_primary_consumes(ts0);
        }
        while self.at_mul_op()
            invariant
                wf_stream(self.toks()),
                ts0 == old(self).toks(),
                self.toks().len() <= ts0.len(),
                sp_parse_mul_tail(left, self.toks()) == sp_parse_multiplicative(ts0),
            decreases self.toks().len(),
        {
            let ghost th = self.toks();
            proof {
                lemma_wf_eat(th);
            }
            let operator = self.eat().value;
            let right = match self.parse_primary_expression() {
                Ok(e) => e,
                Err(pe) => {
                    return Err(pe);
                },
            };
            proof {
                lemma_primary_consumes(th.skip(1));
            }
            let s = expr_start(&left);
            let en = expr_end(&right);
            let binary_expression = BinaryExpression::new(left, right, operator, s, en);
            left = Expression::Binary(Box::new(binary_expression));
        }
        Ok(left)
    }

    fn parse_primary_expression(&mut self) -> (r: Result<Expression, ParseError>)
        requires
            wf_stream(old(self).toks()),
        ensures
            wf_stream(final(self).toks()),
            final(self).toks().len() <= old(self).toks().len(),
            match sp_parse_primary(old(self).toks()) {
                Ok((e, rest)) => r matches Ok(x) && x == e && final(self).toks() == rest,
                Err(pe) => r matches Err(x) && x == pe,
            },
        decreases self.toks().len(), 1int,
    {
        let token_type = self.at().kind;
        match token_type {
            TokenType::Identifier => {
                proof {
                    lemma_wf_eat(self.toks());
                }
                let token = self.eat();
                let ident = Identifier::new(token.value, token.start, token.end);
                Ok(Expression::Identifier(Box::new(ident)))
            },
            TokenType::Number => {
                proof {
                    lemma_wf_eat(self.toks());
                }
                let token = self.eat();
                match parse_i64(&token.value) {
                    Some(v) => {
                        let literal = NumbericLiteral::new(v, token.start, token.end);
                        Ok(Expression::NumbericLiteral(Box::new(literal)))
                    },
                    None => Err(ParseError::InvalidNumber { start: token.start, end: token.end }),
                }
            },
            TokenType::OpenParen => {
                let ghost ts0 = self.toks();
                proof {
                    lemma_wf_eat(ts0);
                }
                self.eat();
                let expression = match self.parse_expression() {
                    Ok(e) => e,
                    Err(pe) => {
                        return Err(pe);
                    },
                };
                proof {
                    lemma_assignment_consumes(ts0.skip(1));
                }
                match self.expect(TokenType::CloseParen) {
                    Ok(_) => {},
                    Err(pe) => {
                        return Err(pe);
                    },
                }
                proof {
                    lemma_wf_eat(self.toks());
                }
                self.eat();
                Ok(expression)
            },
            _ => {
                let t = self.at();
                Err(ParseError::UnexpectedToken { kind: t.kind, start: t.start, end: t.end })
            },
        }
    }
}

fn token_value_is(t: &Token, s: &str) -> (b: bool)
    ensures
        b == (t.value@ == s@),
{
    let w: String = s.to_owned();
    t.value.eq(&w)
}

/// What a token adds to the source's operator sequence: `=` for an
/// assignment token, an arithmetic operator its own lexeme, any other token
/// nothing.
pub open spec fn op_contrib(t: Token) -> Seq<Seq<char>> {
    if t.kind == TokenType::Equals {
        seq!["="@]
    } else if is_op_text(t.value@) {
        seq![t.value@]
    } else {
        Seq::empty()
    }
}

/// The operator lexemes of a token sequence, in source order.
pub open spec fn op_values(ts: Seq<Token>) -> Seq<Seq<char>>
    decreases ts.len(),
{
    if ts.len() == 0 {
        Seq::empty()
    } else {
        op_contrib(ts[0]).add(op_values(ts.skip(1)))
    }
}

/// The operator lexemes of an expression tree, read off in an in-order walk:
/// re-serializing the tree's leaves and operators in source order yields
/// exactly this sequence of operator symbols.
pub open spec fn expr_op_symbols(e: Expression) -> Seq<Seq<char>>
    decreases e,
{
    match e {
        Expression::Assignment(a) => expr_op_symbols(a.assinge).add(seq!["="@]).add(
            expr_op_symbols(a.value),
        ),
        Expression::Binary(b) => expr_op_symbols(b.left).add(seq![b.operator@]).add(
            expr_op_symbols(b.right),
        ),
        // the expression grammar builds no other compound node
        _ => Seq::empty(),
    }
}

pub open spec fn stmt_op_symbols(s: Statement) -> Seq<Seq<char>> {
    match s {
        Statement::Expression(e) => expr_op_symbols(e),
        // the statement grammar produces only expression statements
        _ => Seq::empty(),
    }
}

pub open spec fn body_op_symbols(sts: Seq<Statement>) -> Seq<Seq<char>>
    decreases sts.len(),
{
    if sts.len() == 0 {
        Seq::empty()
    } else {
        stmt_op_symbols(sts[0]).add(body_op_symbols(sts.skip(1)))
    }
}

/// What the scanner guarantees of categories and lexemes: an Equals token is
/// spelled `=`, and a token carries an arithmetic operator lexeme exactly
/// when its category is BinaryOperator.
pub open spec fn op_coherent(ts: Seq<Token>) -> bool {
    forall|i: int|
        0 <= i < ts.len() ==> ((#[trigger] ts[i]).kind == TokenType::Equals ==> ts[i].value@
            == "="@) && (ts[i].kind == TokenType::BinaryOperator <==> is_op_text(ts[i].value@))
}

proof fn lemma_op_coherent_skip(ts: Seq<Token>, k: int)
    requires
        op_coherent(ts),
        0 <= k <= ts.len(),
    ensures
        op_coherent(ts.skip(k)),
{
    assert forall|i: int| 0 <= i < ts.skip(k).len() implies ((#[trigger] ts.skip(k)[i]).kind
        == TokenType::Equals ==> ts.skip(k)[i].value@ == "="@) && (ts.skip(k)[i].kind
        == TokenType::BinaryOperator <==> is_op_text(ts.skip(k)[i].value@)) by {
        assert(ts.skip(k)[i] == ts[k + i]);
    }
}

proof fn lemma_equals_not_op_text()
    ensures
        !is_op_text("="@),
{
    broadcast use vstd::string::group_string_axioms;

    reveal_strlit("+");
    reveal_strlit("-");
    reveal_strlit("*");
    reveal_strlit("/");
    reveal_strlit("%");
    reveal_strlit("=");
    assert("="@.len() == 1 && "="@[0] == '=');
    assert("+"@.len() == 1 && "+"@[0] == '+');
    assert("-"@.len() == 1 && "-"@[0] == '-');
    assert("*"@.len() == 1 && "*"@[0] == '*');
    assert("/"@.len() == 1 && "/"@[0] == '/');
    assert("%"@.len() == 1 && "%"@[0] == '%');
}

proof fn lemma_ops_primary(ts: Seq<Token>)
    requires
        op_coherent(ts),
    ensures
        match sp_parse_primary(ts) {
            Ok((e, rest)) => op_values(ts) == expr_op_symbols(e).add(op_values(rest)),
            Err(_) => true,
        },
    decreases ts.len(), 1int,
{
    if ts.len() > 0 {
        let t = ts[0];
        if t.kind == TokenType::Identifier || t.kind == TokenType::Number {
            match sp_parse_primary(ts) {
                Ok((e, rest)) => {
                    assert(op_contrib(t) =~~= Seq::<Seq<char>>::empty());
                    assert(op_values(ts) =~~= expr_op_symbols(e).add(op_values(rest)));
                },
                Err(_) => {},
            }
        } else if t.kind == TokenType::OpenParen {
            lemma_op_coherent_skip(ts, 1);
            lemma_ops_primary_paren(ts);
        }
    }
}

proof fn lemma_ops_primary_paren(ts: Seq<Token>)
    requires
        op_coherent(ts),
        ts.len() > 0,
        ts[0].kind == TokenType::OpenParen,
        op_coherent(ts.skip(1)),
    ensures
        match sp_parse_primary(ts) {
            Ok((e, rest)) => op_values(ts) == expr_op_symbols(e).add(op_values(rest)),
            Err(_) => true,
        },
    decreases ts.len(), 0int,
{
    lemma_ops_assignment(ts.skip(1));
    lemma_assignment_consumes(ts.skip(1));
    match sp_parse_assignment(ts.skip(1)) {
        Ok((e, rest)) => {
            if rest.len() > 0 && rest[0].kind == TokenType::CloseParen {
                assert(op_contrib(ts[0]) =~~= Seq::<Seq<char>>::empty());
                assert(op_contrib(rest[0]) =~~= Seq::<Seq<char>>::empty());
                assert(op_values(rest) =~~= op_values(rest.skip(1)));
                assert(op_values(ts) =~~= op_values(ts.skip(1)));
                assert(op_values(ts) =~~= expr_op_symbols(e).add(op_values(rest.skip(1))));
            }
        },
        Err(_) => {},
    }
}

proof fn lemma_ops_mul_tail(left: Expression, ts: Seq<Token>)
    requires
        op_coherent(ts),
    ensures
        match sp_parse_mul_tail(left, ts) {
            Ok((e, rest)) => expr_op_symbols(left).add(op_values(ts)) == expr_op_symbols(e).add(
                op_values(rest),
            ),
            Err(_) => true,
        },
    decreases ts.len(), 2int,
{
    lemma_equals_not_op_text();
    if ts.len() > 0 && is_mul_op_text(ts[0].value@) {
        assert(ts[0].kind != TokenType::Equals);
        assert(op_contrib(ts[0]) =~~= seq![ts[0].value@]);
        lemma_op_coherent_skip(ts, 1);
        lemma_ops_primary(ts.skip(1));
        lemma_primary_consumes(ts.skip(1));
        match sp_parse_primary(ts.skip(1)) {
            Ok((right, rest)) => {
                let folded = Expression::Binary(
                    Box::new(
                        BinaryExpression {
                            kind: NodeType::BinaryExpression,
                            left: left,
                            right: right,
                            operator: ts[0].value,
                            start: spec_expr_start(left),
                            end: spec_expr_end(right),
                        },
                    ),
                );
                lemma_op_coherent_skip(ts.skip(1), ts.skip(1).len() - rest.len());
                assert(ts.skip(1).skip(ts.skip(1).len() - rest.len()) == rest);
                lemma_ops_mul_tail(folded, rest);
                match sp_parse_mul_tail(folded, rest) {
                    Ok((e2, rest2)) => {
                        assert(expr_op_symbols(folded) =~~= expr_op_symbols(left).add(
                            seq![ts[0].value@],
                        ).add(expr_op_symbols(right)));
                        assert(expr_op_symbols(left).add(op_values(ts)) =~~= expr_op_symbols(
                            folded,
                        ).add(op_values(rest)));
                    },
                    Err(_) => {},
                }
            },
            Err(_) => {},
        }
    } else {
        assert(expr_op_symbols(left).add(op_values(ts)) =~~= expr_op_symbols(left).add(
            op_values(ts),
        ));
    }
}

proof fn lemma_ops_multiplicative(ts: Seq<Token>)
    requires
        op_coherent(ts),
    ensures
        match sp_parse_multiplicative(ts) {
            Ok((e, rest)) => op_values(ts) == expr_op_symbols(e).add(op_values(rest)),
            Err(_) => true,
        },
    decreases ts.len(), 3int,
{
    lemma_ops_primary(ts);
    lemma_primary_consumes(ts);
    match sp_parse_primary(ts) {
        Ok((left, rest)) => {
            lemma_op_coherent_skip(ts, ts.len() - rest.len());
            lemma_ops_mul_tail(left, rest);
        },
        Err(_) => {},
    }
}

proof fn lemma_ops_add_tail(left: Expression, ts: Seq<Token>)
    requires
        op_coherent(ts),
    ensures
        match sp_parse_add_tail(left, ts) {
            Ok((e, rest)) => expr_op_symbols(left).add(op_values(ts)) == expr_op_symbols(e).add(
                op_values(rest),
            ),
            Err(_) => true,
        },
    decreases ts.len(), 4int,
{
    lemma_equals_not_op_text();
    if ts.len() > 0 && is_add_op_text(ts[0].value@) {
        assert(ts[0].kind != TokenType::Equals);
        assert(op_contrib(ts[0]) =~~= seq![ts[0].value@]);
        lemma_op_coherent_skip(ts, 1);
        lemma_ops_multiplicative(ts.skip(1));
        lemma_multiplicative_consumes(ts.skip(1));
        match sp_parse_multiplicative(ts.skip(1)) {
            Ok((right, rest)) => {
                let folded = Expression::Binary(
                    Box::new(
                        BinaryExpression {
                            kind: NodeType::BinaryExpression,
                            left: left,
                            right: right,
                            operator: ts[0].value,
                            start: spec_expr_start(left),
                            end: spec_expr_end(right),
                        },
                    ),
                );
                lemma_op_coherent_skip(ts.skip(1), ts.skip(1).len() - rest.len());
                assert(ts.skip(1).skip(ts.skip(1).len() - rest.len()) == rest);
                lemma_ops_add_tail(folded, rest);
                match sp_parse_add_tail(folded, rest) {
                    Ok((e2, rest2)) => {
                        assert(expr_op_symbols(folded) =~~= expr_op_symbols(left).add(
                            seq![ts[0].value@],
                        ).add(expr_op_symbols(right)));
                        assert(expr_op_symbols(left).add(op_values(ts)) =~~= expr_op_symbols(
                            folded,
                        ).add(op_values(rest)));
                    },
                    Err(_) => {},
                }
            },
            Err(_) => {},
        }
    }
}

proof fn lemma_ops_additive(ts: Seq<Token>)
    requires
        op_coherent(ts),
    ensures
        match sp_parse_additive(ts) {
            Ok((e, rest)) => op_values(ts) == expr_op_symbols(e).add(op_values(rest)),
            Err(_) => true,
        },
    decreases ts.len(), 5int,
{
    lemma_ops_multiplicative(ts);
    lemma_multiplicative_consumes(ts);
    match sp_parse_multiplicative(ts) {
        Ok((left, rest)) => {
            lemma_op_coherent_skip(ts, ts.len() - rest.len());
            lemma_ops_add_tail(left, rest);
        },
        Err(_) => {},
    }
}

proof fn lemma_ops_assignment(ts: Seq<Token>)
    requires
        op_coherent(ts),
    ensures
        match sp_parse_assignment(ts) {
            Ok((e, rest)) => op_values(ts) == expr_op_symbols(e).add(op_values(rest)),
            Err(_) => true,
        },
    decreases ts.len(), 6int,
{
    lemma_ops_additive(ts);
    lemma_additive_consumes(ts);
    match sp_parse_additive(ts) {
        Ok((left, rest)) => {
            if rest.len() > 0 && rest[0].kind == TokenType::Equals {
                let after = rest.skip(1);
                lemma_op_coherent_skip(ts, ts.len() - rest.len());
                lemma_op_coherent_skip(rest, 1);
                lemma_ops_assignment(after);
                lemma_assignment_consumes(after);
                match sp_parse_assignment(after) {
                    Ok((value, rest2)) => {
                        let a = Expression::Assignment(
                            Box::new(
                                AssignmentExpression {
                                    kind: NodeType::AssignmentExpression,
                                    assinge: left,
                                    value: value,
                                    start: spec_expr_start(left),
                                    end: spec_expr_end(value),
                                },
                            ),
                        );
                        assert(op_contrib(rest[0]) =~~= seq!["="@]);
                        assert(op_values(rest) =~~= seq!["="@].add(op_values(after)));
                        assert(expr_op_symbols(a) =~~= expr_op_symbols(left).add(
                            seq!["="@],
                        ).add(expr_op_symbols(value)));
                        assert(op_values(ts) =~~= expr_op_symbols(a).add(op_values(rest2)));
                    },
                    Err(_) => {},
                }
            }
        },
        Err(_) => {},
    }
}

proof fn lemma_ops_statement(ts: Seq<Token>)
    requires
        op_coherent(ts),
    ensures
        match sp_parse_statement(ts) {
            Ok((st, rest)) => op_values(ts) == stmt_op_symbols(st).add(op_values(rest)),
            Err(_) => true,
        },
    decreases ts.len(), 7int,
{
    if ts.len() > 0 {
        lemma_ops_assignment(ts);
    }
}

proof fn lemma_body_syms_push(sts: Seq<Statement>, st: Statement)
    ensures
        body_op_symbols(sts.push(st)) == body_op_symbols(sts).add(stmt_op_symbols(st)),
    decreases sts.len(),
{
    if sts.len() == 0 {
        assert(sts.push(st).len() == 1);
        assert(sts.push(st)[0] == st);
        assert(sts.push(st).skip(1) =~~= Seq::<Statement>::empty());
        assert(body_op_symbols(sts.push(st)) == stmt_op_symbols(st).add(
            body_op_symbols(Seq::<Statement>::empty()),
        ));
        assert(stmt_op_symbols(st).add(Seq::<Seq<char>>::empty()) =~~= stmt_op_symbols(st));
        assert(Seq::<Seq<char>>::empty().add(stmt_op_symbols(st)) =~~= stmt_op_symbols(st));
    } else {
        assert(sts.push(st).skip(1) =~~= sts.skip(1).push(st));
        assert(sts.push(st)[0] == sts[0]);
        lemma_body_syms_push(sts.skip(1), st);
        assert(body_op_symbols(sts.push(st)) =~~= body_op_symbols(sts).add(stmt_op_symbols(st)));
    }
}

proof fn lemma_ops_program(acc: Seq<Statement>, ts: Seq<Token>)
    requires
        op_coherent(ts),
    ensures
        match sp_parse_program(acc, ts) {
            Ok((body, rest)) => body_op_symbols(acc).add(op_values(ts)) == body_op_symbols(
                body,
            ).add(op_values(rest)),
            Err(_) => true,
        },
    decreases ts.len(), 8int,
{
    if ts.len() > 0 && ts[0].kind != TokenType::EOF {
        lemma_ops_statement(ts);
        lemma_statement_consumes(ts);
        match sp_parse_statement(ts) {
            Ok((st, rest)) => {
                lemma_op_coherent_skip(ts, ts.len() - rest.len());
                lemma_body_syms_push(acc, st);
                lemma_ops_program(acc.push(st), rest);
                match sp_parse_program(acc.push(st), rest) {
                    Ok((body, rest2)) => {
                        assert(body_op_symbols(acc).add(op_values(ts)) =~~= body_op_symbols(
                            acc.push(st),
                        ).add(op_values(rest)));
                    },
                    Err(_) => {},
                }
            },
            Err(_) => {},
        }
    }
}

/// Round-trip law for the operator sequence: for any coherent token stream,
/// re-serializing the parsed tree's operators in an in-order walk reproduces
/// exactly the operator tokens of the input, in source order; the tokens
/// left unconsumed (the end marker) contribute nothing.
pub proof fn lemma_operator_round_trip(ts: Seq<Token>)
    requires
        op_coherent(ts),
    ensures
        match sp_parse_program(Seq::<Statement>::empty(), ts) {
            Ok((body, rest)) => op_values(ts) == body_op_symbols(body).add(op_values(rest)),
            Err(_) => true,
        },
{
    lemma_ops_program(Seq::<Statement>::empty(), ts);
    match sp_parse_program(Seq::<Statement>::empty(), ts) {
        Ok((body, rest)) => {
            assert(body_op_symbols(Seq::<Statement>::empty()).add(op_values(ts)) =~~= op_values(
                ts,
            ));
        },
        Err(_) => {},
    }
}

/// What the scanner's output gives the parser: a stream the parser can run
/// on (`wf_stream`), whose categories and lexemes are coherent
/// (`op_coherent`).
pub proof fn lemma_scanner_stream(src: Seq<char>, toks: Seq<Token>)
    requires
        src.len() <= usize::MAX,
        match crate::lexer::spec_scan(src, 0) {
            Ok(models) => crate::token::tokens_view(toks) == models,
            Err(_) => false,
        },
    ensures
        wf_stream(toks),
        op_coherent(toks),
{
    broadcast use vstd::string::group_string_axioms;

    reveal_strlit("EOF");
    reveal_strlit("+");
    reveal_strlit("-");
    reveal_strlit("*");
    reveal_strlit("/");
    reveal_strlit("%");
    assert("EOF"@.len() == 3);
    assert("+"@.len() == 1 && "-"@.len() == 1 && "*"@.len() == 1 && "/"@.len() == 1 && "%"@.len()
        == 1);
    crate::lexer::lemma_scan_end_marker(src, 0);
    crate::lexer::lemma_scan_coherent(src, 0);
    match crate::lexer::spec_scan(src, 0) {
        Ok(models) => {
            assert(forall|i: int| 0 <= i < toks.len() ==> (#[trigger] toks[i])@ == models[i]);
            assert(toks.last()@ == models.last());
            assert forall|i: int| 0 <= i < toks.len() - 1 implies (#[trigger] toks[i]).kind
                != TokenType::EOF by {
                assert(toks[i]@ == models[i]);
            }
            assert forall|i: int| 0 <= i < toks.len() implies ((#[trigger] toks[i]).kind
                == TokenType::Equals ==> toks[i].value@ == "="@) && (toks[i].kind
                == TokenType::BinaryOperator <==> is_op_text(toks[i].value@)) by {
                assert(toks[i]@ == models[i]);
                assert(crate::lexer::model_coherent(models[i]));
            }
        },
        Err(_) => {},
    }
}

} // verus!

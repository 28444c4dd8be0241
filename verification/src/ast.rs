use vstd::prelude::*;

verus! {

/// The closed set of syntax-tree node categories.
#[derive(Debug)]
pub enum NodeType {
    // STATEMENTS
    Program,
    VarDeclaration,
    FunctionDeclaration,
    BlockStatement,
    // EXPRESSIONS
    AssignmentExpression,
    BinaryExpression,
    MemberExpression,
    CallExpression,
    Identifier,
    Property,
    ObjectLiteral,
    NumbericLiteral,
}

#[derive(Debug)]
pub enum Statement {
    Program(Program),
    BlockStatement(BlockStatement),
    Declaration(Declaration),
    Expression(Expression),
}

/// The root node: an ordered sequence of statements.
#[derive(Debug)]
pub struct Program {
    pub kind: NodeType,
    pub start: usize,
    pub end: usize,
    pub body: Vec<Statement>,
}

impl Program {
    pub fn new(start: usize, end: usize) -> (p: Program)
        ensures
            p.kind == NodeType::Program,
            p.start == start,
            p.end == end,
            p.body@ == Seq::<Statement>::empty(),
    {
        Program { kind: NodeType::Program, start, end, body: Vec::new() }
    }

    pub fn append(&mut self, stmt: Statement)
        ensures
            final(self).kind == old(self).kind,
            final(self).start == old(self).start,
            final(self).end == old(self).end,
            final(self).body@ == old(self).body@.push(stmt),
    {
        self.body.push(stmt);
    }
}

/// An ordered sequence of statements used as a function body.
#[derive(Debug)]
pub struct BlockStatement {
    pub kind: NodeType,
    pub start: usize,
    pub end: usize,
    pub body: Vec<Statement>,
}

impl BlockStatement {
    pub fn new(start: usize, end: usize) -> (b: BlockStatement)
        ensures
            b.kind == NodeType::BlockStatement,
            b.start == start,
            b.end == end,
            b.body@ == Seq::<Statement>::empty(),
    {
        BlockStatement { kind: NodeType::BlockStatement, start, end, body: Vec::new() }
    }

    pub fn append(&mut self, stmt: Statement)
        ensures
            final(self).kind == old(self).kind,
            final(self).start == old(self).start,
            final(self).end == old(self).end,
            final(self).body@ == old(self).body@.push(stmt),
    {
        self.body.push(stmt);
    }
}

#[derive(Debug)]
pub enum Declaration {
    Var(VarDeclaration),
    Function(FunctionDeclaration),
}

/// A variable declaration; structurally defined, though the statement
/// grammar that would produce it is not implemented.
#[derive(Debug)]
pub struct VarDeclaration {
    pub kind: NodeType,
    pub constant: bool,
    pub identifier: Identifier,
    pub value: Option<Expression>,
    pub start: usize,
    pub end: usize,
}

impl VarDeclaration {
    pub fn new(
        ident: Identifier,
        value: Option<Expression>,
        constant: bool,
        start: usize,
        end: usize,
    ) -> (d: VarDeclaration)
        ensures
            d == (VarDeclaration {
                kind: NodeType::VarDeclaration,
                constant: constant,
                identifier: ident,
                value: value,
                start: start,
                end: end,
            }),
    {
        VarDeclaration { kind: NodeType::VarDeclaration, identifier: ident, constant, value, start, end }
    }
}

/// A function declaration; structurally defined, though the statement
/// grammar that would produce it is not implemented.
#[derive(Debug)]
pub struct FunctionDeclaration {
    pub kind: NodeType,
    pub parameters: Vec<Identifier>,
    pub name: Identifier,
    pub body: BlockStatement,
    pub start: usize,
    pub end: usize,
}

impl FunctionDeclaration {
    pub fn new(
        name: Identifier,
        params: Vec<Identifier>,
        body: BlockStatement,
        start: usize,
        end: usize,
    ) -> (d: FunctionDeclaration)
        ensures
            d.kind == NodeType::FunctionDeclaration,
            d.parameters == params,
            d.name == name,
            d.body == body,
            d.start == start,
            d.end == end,
    {
        FunctionDeclaration { kind: NodeType::FunctionDeclaration, parameters: params, name, body, start, end }
    }
}

#[derive(Debug)]
pub enum Expression {
    Assignment(Box<AssignmentExpression>),
    Binary(Box<BinaryExpression>),
    Member(Box<MemberExpression>),
    Call(Box<CallExpression>),
    Identifier(Box<Identifier>),
    Property(Box<Property>),
    ObjectLiteral(Box<ObjectLiteral>),
    NumbericLiteral(Box<NumbericLiteral>),
}

/// The start offset a node records; each node stores the span of the tokens
/// it was built from.
pub open spec fn spec_expr_start(e: Expression) -> usize {
    match e {
        Expression::Assignment(a) => a.start,
        Expression::Binary(b) => b.start,
        Expression::Member(m) => m.start,
        Expression::Call(c) => c.start,
        Expression::Identifier(i) => i.start,
        Expression::Property(p) => p.start,
        Expression::ObjectLiteral(o) => o.start,
        Expression::NumbericLiteral(n) => n.start,
    }
}

/// The end offset a node records.
pub open spec fn spec_expr_end(e: Expression) -> usize {
    match e {
        Expression::Assignment(a) => a.end,
        Expression::Binary(b) => b.end,
        Expression::Member(m) => m.end,
        Expression::Call(c) => c.end,
        Expression::Identifier(i) => i.end,
        Expression::Property(p) => p.end,
        Expression::ObjectLiteral(o) => o.end,
        Expression::NumbericLiteral(n) => n.end,
    }
}

pub fn expr_start(e: &Expression) -> (s: usize)
    ensures
        s == spec_expr_start(*e),
{
    match e {
        Expression::Assignment(a) => a.start,
        Expression::Binary(b) => b.start,
        Expression::Member(m) => m.start,
        Expression::Call(c) => c.start,
        Expression::Identifier(i) => i.start,
        Expression::Property(p) => p.start,
        Expression::ObjectLiteral(o) => o.start,
        Expression::NumbericLiteral(n) => n.start,
    }
}

pub fn expr_end(e: &Expression) -> (s: usize)
    ensures
        s == spec_expr_end(*e),
{
    match e {
        Expression::Assignment(a) => a.end,
        Expression::Binary(b) => b.end,
        Expression::Member(m) => m.end,
        Expression::Call(c) => c.end,
        Expression::Identifier(i) => i.end,
        Expression::Property(p) => p.end,
        Expression::ObjectLiteral(o) => o.end,
        Expression::NumbericLiteral(n) => n.end,
    }
}

/// An assignment: target expression and value expression.
#[derive(Debug)]
pub struct AssignmentExpression {
    pub kind: NodeType,
    pub assinge: Expression,
    pub value: Expression,
    pub start: usize,
    pub end: usize,
}

impl AssignmentExpression {
    pub fn new(assinge: Expression, value: Expression, start: usize, end: usize) -> (a:
        AssignmentExpression)
        ensures
            a == (AssignmentExpression {
                kind: NodeType::AssignmentExpression,
                assinge: assinge,
                value: value,
                start: start,
                end: end,
            }),
    {
        AssignmentExpression { kind: NodeType::AssignmentExpression, assinge, value, start, end }
    }
}

/// A binary operation: both operands and the operator's lexeme.
#[derive(Debug)]
pub struct BinaryExpression {
    pub kind: NodeType,
    pub left: Expression,
    pub right: Expression,
    pub operator: String,
    pub start: usize,
    pub end: usize,
}

impl BinaryExpression {
    pub fn new(
        left: Expression,
        right: Expression,
        operator: String,
        start: usize,
        end: usize,
    ) -> (b: BinaryExpression)
        ensures
            b == (BinaryExpression {
                kind: NodeType::BinaryExpression,
                left: left,
                right: right,
                operator: operator,
                start: start,
                end: end,
            }),
    {
        BinaryExpression { kind: NodeType::BinaryExpression, left, right, operator, start, end }
    }
}

/// A member access: object, property and whether the access is computed.
#[derive(Debug)]
pub struct MemberExpression {
    pub kind: NodeType,
    pub object: Expression,
    pub property: Expression,
    pub computed: bool,
    pub start: usize,
    pub end: usize,
}

impl MemberExpression {
    pub fn new(
        object: Expression,
        property: Expression,
        computed: bool,
        start: usize,
        end: usize,
    ) -> (m: MemberExpression)
        ensures
            m == (MemberExpression {
                kind: NodeType::MemberExpression,
                object: object,
                property: property,
                computed: computed,
                start: start,
                end: end,
            }),
    {
        MemberExpression { kind: NodeType::MemberExpression, object, property, computed, start, end }
    }
}

/// A call: callee and ordered argument list.
#[derive(Debug)]
pub struct CallExpression {
    pub kind: NodeType,
    pub caller: Expression,
    pub arguments: Vec<Expression>,
    pub start: usize,
    pub end: usize,
}

impl CallExpression {
    pub fn new(caller: Expression, args: Vec<Expression>, start: usize, end: usize) -> (c:
        CallExpression)
        ensures
            c.kind == NodeType::CallExpression,
            c.caller == caller,
            c.arguments == args,
            c.start == start,
            c.end == end,
    {
        CallExpression { kind: NodeType::CallExpression, arguments: args, caller, start, end }
    }
}

/// A symbol name.
#[derive(Debug)]
pub struct Identifier {
    pub kind: NodeType,
    pub symbol: String,
    pub start: usize,
    pub end: usize,
}

impl Identifier {
    pub fn new(symbol: String, start: usize, end: usize) -> (i: Identifier)
        ensures
            i == (Identifier {
                kind: NodeType::Identifier,
                symbol: symbol,
                start: start,
                end: end,
            }),
    {
        Identifier { kind: NodeType::Identifier, symbol, start, end }
    }
}

/// A key with an optional value, for object literals. Its recorded category
/// mirrors the construction in the grammar's data model.
#[derive(Debug)]
pub struct Property {
    pub kind: NodeType,
    pub key: Identifier,
    pub value: Option<Expression>,
    pub start: usize,
    pub end: usize,
}

impl Property {
    pub fn new(key: Identifier, value: Option<Expression>, start: usize, end: usize) -> (p:
        Property)
        ensures
            p == (Property {
                kind: NodeType::Identifier,
                key: key,
                value: value,
                start: start,
                end: end,
            }),
    {
        Property { kind: NodeType::Identifier, key, value, start, end }
    }
}

/// An ordered list of properties.
#[derive(Debug)]
pub struct ObjectLiteral {
    pub kind: NodeType,
    pub properties: Vec<Property>,
    pub start: usize,
    pub end: usize,
}

impl ObjectLiteral {
    pub fn new(properties: Vec<Property>, start: usize, end: usize) -> (o: ObjectLiteral)
        ensures
            o.kind == NodeType::ObjectLiteral,
            o.properties == properties,
            o.start == start,
            o.end == end,
    {
        ObjectLiteral { kind: NodeType::ObjectLiteral, properties, start, end }
    }
}

/// A numeric literal: a signed 64-bit integer value.
#[derive(Debug)]
pub struct NumbericLiteral {
    pub kind: NodeType,
    pub value: i64,
    pub start: usize,
    pub end: usize,
}

impl NumbericLiteral {
    pub fn new(value: i64, start: usize, end: usize) -> (n: NumbericLiteral)
        ensures
            n == (NumbericLiteral {
                kind: NodeType::NumbericLiteral,
                value: value,
                start: start,
                end: end,
            }),
    {
        NumbericLiteral { kind: NodeType::NumbericLiteral, value, start, end }
    }
}

} // verus!

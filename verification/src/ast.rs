//! The AST node model: statements, expressions, and the `Program` root the
//! parser produces.  Every node knows the literal of its defining token (for
//! diagnostics) and can print itself back to canonical source-like text; the
//! printed form is specified by the `fmt_*` functions over the nodes' ghost
//! mirrors.

use vstd::prelude::*;
use vstd::string::StringExecFns;

use crate::token::{SpecTok, Token};

verus! {

/// Ghost mirror of an identifier node.
pub struct SpecIdent {
    pub token: SpecTok,
    pub value: Seq<char>,
}

/// Ghost mirror of an expression node.
pub enum SpecExpr {
    Ident(SpecIdent),
    Int { token: SpecTok, value: usize },
    Bool { token: SpecTok, value: bool },
    Prefix { token: SpecTok, operator: Seq<char>, right: Box<SpecExpr> },
    Infix { token: SpecTok, left: Box<SpecExpr>, operator: Seq<char>, right: Box<SpecExpr> },
}

/// Ghost mirror of a statement node.
pub enum SpecStmt {
    Let { token: SpecTok, name: SpecIdent, value: Option<SpecExpr> },
    Return { token: SpecTok, value: Option<SpecExpr> },
    Expr { token: SpecTok, value: Option<SpecExpr> },
}

/// An identifier expression; in a `let` statement it names the binding, in
/// every other position it produces a value.
#[derive(Debug, PartialEq)]
pub struct Identifier {
    pub token: Token,
    pub value: String,
}

/// A non-negative decimal integer literal.
#[derive(Debug, PartialEq)]
pub struct IntegerLiteral {
    pub token: Token,
    pub value: usize,
}

/// A `true` or `false` literal.
#[derive(Debug, PartialEq)]
pub struct Boolean {
    pub token: Token,
    pub value: bool,
}

/// `<prefix operator><expression>`: the operator is `-` or `!`.
#[derive(Debug, PartialEq)]
pub struct PrefixExpression {
    pub token: Token,
    pub operator: String,
    pub right: Box<Expression>,
}

/// `<expression> <infix operator> <expression>`.
#[derive(Debug, PartialEq)]
pub struct InfixExpression {
    pub token: Token,
    pub left: Box<Expression>,
    pub operator: String,
    pub right: Box<Expression>,
}

/// An expression node: expressions produce a value.
#[derive(Debug, PartialEq)]
pub enum Expression {
    Ident(Identifier),
    Int(IntegerLiteral),
    Bool(Boolean),
    Prefix(PrefixExpression),
    Infix(InfixExpression),
}

/// Grammar extension point for `if (<condition>) { ... }` expressions; the
/// parser does not yet produce it.
#[derive(Debug, PartialEq)]
pub struct IfExpression {
    pub token: Token,
    pub condition: Box<Expression>,
}

/// `let <identifier> = <expression>;`
#[derive(Debug, PartialEq)]
pub struct LetStatement {
    pub token: Token,
    pub name: Identifier,
    pub value: Option<Expression>,
}

/// `return <expression>;`
#[derive(Debug, PartialEq)]
pub struct ReturnStatement {
    pub token: Token,
    pub return_value: Option<Expression>,
}

/// A single expression in statement position.
#[derive(Debug, PartialEq)]
pub struct ExpressionStatement {
    pub token: Token,
    pub expression: Option<Expression>,
}

/// A statement node: statements do not produce a value.
#[derive(Debug, PartialEq)]
pub enum Statement {
    Let(LetStatement),
    Return(ReturnStatement),
    Expr(ExpressionStatement),
}

/// The root node: every valid Lingo program is a series of statements.
#[derive(Debug, PartialEq)]
pub struct Program {
    pub statements: Vec<Statement>,
}

/// The ghost mirror of an expression node.
pub open spec fn expr_view(e: Expression) -> SpecExpr
    decreases e,
{
    match e {
        Expression::Ident(i) => SpecExpr::Ident(SpecIdent { token: i.token@, value: i.value@ }),
        Expression::Int(n) => SpecExpr::Int { token: n.token@, value: n.value },
        Expression::Bool(b) => SpecExpr::Bool { token: b.token@, value: b.value },
        Expression::Prefix(p) => SpecExpr::Prefix {
            token: p.token@,
            operator: p.operator@,
            right: Box::new(expr_view(*p.right)),
        },
        Expression::Infix(x) => SpecExpr::Infix {
            token: x.token@,
            left: Box::new(expr_view(*x.left)),
            operator: x.operator@,
            right: Box::new(expr_view(*x.right)),
        },
    }
}

pub open spec fn opt_expr_view(e: Option<Expression>) -> Option<SpecExpr> {
    match e {
        None => None,
        Some(e) => Some(expr_view(e)),
    }
}

/// The ghost mirror of a statement node.
pub open spec fn stmt_view(s: Statement) -> SpecStmt {
    match s {
        Statement::Let(l) => SpecStmt::Let {
            token: l.token@,
            name: SpecIdent { token: l.name.token@, value: l.name.value@ },
            value: opt_expr_view(l.value),
        },
        Statement::Return(r) => SpecStmt::Return {
            token: r.token@,
            value: opt_expr_view(r.return_value),
        },
        Statement::Expr(e) => SpecStmt::Expr { token: e.token@, value: opt_expr_view(e.expression) },
    }
}

impl View for Identifier {
    type V = SpecIdent;

    open spec fn view(&self) -> SpecIdent {
        SpecIdent { token: self.token@, value: self.value@ }
    }
}

impl View for Expression {
    type V = SpecExpr;

    open spec fn view(&self) -> SpecExpr {
        expr_view(*self)
    }
}

impl DeepView for Expression {
    type V = SpecExpr;

    open spec fn deep_view(&self) -> SpecExpr {
        expr_view(*self)
    }
}

impl View for IntegerLiteral {
    type V = SpecExpr;

    open spec fn view(&self) -> SpecExpr {
        SpecExpr::Int { token: self.token@, value: self.value }
    }
}

impl View for Boolean {
    type V = SpecExpr;

    open spec fn view(&self) -> SpecExpr {
        SpecExpr::Bool { token: self.token@, value: self.value }
    }
}

impl View for PrefixExpression {
    type V = SpecExpr;

    open spec fn view(&self) -> SpecExpr {
        SpecExpr::Prefix {
            token: self.token@,
            operator: self.operator@,
            right: Box::new(expr_view(*self.right)),
        }
    }
}

impl View for InfixExpression {
    type V = SpecExpr;

    open spec fn view(&self) -> SpecExpr {
        SpecExpr::Infix {
            token: self.token@,
            left: Box::new(expr_view(*self.left)),
            operator: self.operator@,
            right: Box::new(expr_view(*self.right)),
        }
    }
}

impl View for LetStatement {
    type V = SpecStmt;

    open spec fn view(&self) -> SpecStmt {
        SpecStmt::Let {
            token: self.token@,
            name: SpecIdent { token: self.name.token@, value: self.name.value@ },
            value: opt_expr_view(self.value),
        }
    }
}

impl View for ReturnStatement {
    type V = SpecStmt;

    open spec fn view(&self) -> SpecStmt {
        SpecStmt::Return { token: self.token@, value: opt_expr_view(self.return_value) }
    }
}

impl View for ExpressionStatement {
    type V = SpecStmt;

    open spec fn view(&self) -> SpecStmt {
        SpecStmt::Expr { token: self.token@, value: opt_expr_view(self.expression) }
    }
}

impl View for Statement {
    type V = SpecStmt;

    open spec fn view(&self) -> SpecStmt {
        stmt_view(*self)
    }
}

impl DeepView for Statement {
    type V = SpecStmt;

    open spec fn deep_view(&self) -> SpecStmt {
        stmt_view(*self)
    }
}

impl View for Program {
    type V = Seq<SpecStmt>;

    open spec fn view(&self) -> Seq<SpecStmt> {
        self.statements.deep_view()
    }
}

/// The canonical textual form of an expression: atoms print their lexeme,
/// prefix and infix expressions print fully parenthesized.
pub open spec fn fmt_expr(e: SpecExpr) -> Seq<char>
    decreases e,
{
    match e {
        SpecExpr::Ident(i) => i.value,
        SpecExpr::Int { token, .. } => token.lit,
        SpecExpr::Bool { token, .. } => token.lit,
        SpecExpr::Prefix { operator, right, .. } => seq!['('] + operator + fmt_expr(*right)
            + seq![')'],
        SpecExpr::Infix { left, operator, right, .. } => seq!['('] + fmt_expr(*left) + seq![' ']
            + operator + seq![' '] + fmt_expr(*right) + seq![')'],
    }
}

pub open spec fn fmt_opt_expr(e: Option<SpecExpr>) -> Seq<char> {
    match e {
        None => Seq::empty(),
        Some(e) => fmt_expr(e),
    }
}

/// The canonical textual form of a statement.
pub open spec fn fmt_stmt(s: SpecStmt) -> Seq<char> {
    match s {
        SpecStmt::Let { token, name, value } => token.lit + seq![' '] + name.value + seq![
            ' ',
            '=',
            ' ',
        ] + fmt_opt_expr(value) + seq![';'],
        SpecStmt::Return { token, value } => token.lit + seq![' '] + fmt_opt_expr(value)
            + seq![';'],
        SpecStmt::Expr { value, .. } => fmt_opt_expr(value),
    }
}

/// The canonical textual form of a statement sequence: the concatenation of
/// the statements' forms, in order.
pub open spec fn fmt_stmts(ss: Seq<SpecStmt>) -> Seq<char>
    decreases ss.len(),
{
    if ss.len() == 0 {
        Seq::empty()
    } else {
        fmt_stmt(ss[0]) + fmt_stmts(ss.drop_first())
    }
}

/// The literal of an expression's defining token.
pub open spec fn expr_token_lit(e: SpecExpr) -> Seq<char> {
    match e {
        SpecExpr::Ident(i) => i.token.lit,
        SpecExpr::Int { token, .. } => token.lit,
        SpecExpr::Bool { token, .. } => token.lit,
        SpecExpr::Prefix { token, .. } => token.lit,
        SpecExpr::Infix { token, .. } => token.lit,
    }
}

/// The literal of a statement's defining token.
pub open spec fn stmt_token_lit(s: SpecStmt) -> Seq<char> {
    match s {
        SpecStmt::Let { token, .. } => token.lit,
        SpecStmt::Return { token, .. } => token.lit,
        SpecStmt::Expr { token, .. } => token.lit,
    }
}

impl Identifier {
    /// The literal of the token this node was built from.
    pub fn token_literal(&self) -> (r: &str)
        ensures
            r@ == self@.token.lit,
    {
        self.token.literal.as_str()
    }

    /// Print the node back as source-like text.
    pub fn format(&self) -> (r: String)
        ensures
            r@ == fmt_expr(SpecExpr::Ident(self@)),
    {
        self.value.clone()
    }
}

impl IntegerLiteral {
    pub fn token_literal(&self) -> (r: &str)
        ensures
            r@ == self.token@.lit,
    {
        self.token.literal.as_str()
    }

    pub fn format(&self) -> (r: String)
        ensures
            r@ == self.token@.lit,
    {
        self.token.literal.clone()
    }
}

impl Boolean {
    pub fn token_literal(&self) -> (r: &str)
        ensures
            r@ == self.token@.lit,
    {
        self.token.literal.as_str()
    }

    pub fn format(&self) -> (r: String)
        ensures
            r@ == self.token@.lit,
    {
        self.token.literal.clone()
    }
}

impl Expression {
    /// The literal of the token the expression was built from.
    pub fn token_literal(&self) -> (r: &str)
        ensures
            r@ == expr_token_lit(self@),
    {
        match self {
            Expression::Ident(i) => i.token_literal(),
            Expression::Int(n) => n.token_literal(),
            Expression::Bool(b) => b.token_literal(),
            Expression::Prefix(p) => p.token.literal.as_str(),
            Expression::Infix(x) => x.token.literal.as_str(),
        }
    }

    /// Print the expression back as source-like text; prefix and infix
    /// expressions come out fully parenthesized.
    pub fn format(&self) -> (r: String)
        ensures
            r@ == fmt_expr(self@),
        decreases *self,
    {
        match self {
            Expression::Ident(i) => i.format(),
            Expression::Int(n) => n.format(),
            Expression::Bool(b) => b.format(),
            Expression::Prefix(p) => p.format(),
            Expression::Infix(x) => x.format(),
        }
    }
}

impl PrefixExpression {
    pub fn token_literal(&self) -> (r: &str)
        ensures
            r@ == self.token@.lit,
    {
        self.token.literal.as_str()
    }

    pub fn format(&self) -> (r: String)
        ensures
            r@ == fmt_expr(self@),
        decreases *self,
    {
        let mut out = String::from_str("(");
        out.append(self.operator.as_str());
        let rs = self.right.format();
        out.append(rs.as_str());
        out.append(")");
        proof {
            reveal_strlit("(");
            reveal_strlit(")");
            assert(out@ =~= seq!['('] + self.operator@ + fmt_expr(expr_view(*self.right)) + seq![
                ')',
            ]);
        }
        out
    }
}

impl InfixExpression {
    pub fn token_literal(&self) -> (r: &str)
        ensures
            r@ == self.token@.lit,
    {
        self.token.literal.as_str()
    }

    pub fn format(&self) -> (r: String)
        ensures
            r@ == fmt_expr(self@),
        decreases *self,
    {
        let mut out = String::from_str("(");
        let ls = self.left.format();
        out.append(ls.as_str());
        out.append(" ");
        out.append(self.operator.as_str());
        out.append(" ");
        let rs = self.right.format();
        out.append(rs.as_str());
        out.append(")");
        proof {
            reveal_strlit("(");
            reveal_strlit(")");
            reveal_strlit(" ");
            assert(out@ =~= seq!['('] + fmt_expr(expr_view(*self.left)) + seq![' ']
                + self.operator@ + seq![' '] + fmt_expr(expr_view(*self.right)) + seq![')']);
        }
        out
    }
}

impl LetStatement {
    pub fn token_literal(&self) -> (r: &str)
        ensures
            r@ == self.token@.lit,
    {
        self.token.literal.as_str()
    }

    pub fn format(&self) -> (r: String)
        ensures
            r@ == fmt_stmt(self@),
    {
        let mut out = self.token.literal.clone();
        out.append(" ");
        let ns = self.name.format();
        out.append(ns.as_str());
        out.append(" = ");
        match &self.value {
            Some(e) => {
                let vs = e.format();
                out.append(vs.as_str());
            },
            None => {},
        }
        out.append(";");
        proof {
            reveal_strlit(" ");
            reveal_strlit(" = ");
            reveal_strlit(";");
            assert(out@ =~= self.token@.lit + seq![' '] + self.name.value@ + seq![' ', '=', ' ']
                + fmt_opt_expr(opt_expr_view(self.value)) + seq![';']);
        }
        out
    }
}

impl ReturnStatement {
    pub fn token_literal(&self) -> (r: &str)
        ensures
            r@ == self.token@.lit,
    {
        self.token.literal.as_str()
    }

    pub fn format(&self) -> (r: String)
        ensures
            r@ == fmt_stmt(self@),
    {
        let mut out = self.token.literal.clone();
        out.append(" ");
        match &self.return_value {
            Some(e) => {
                let vs = e.format();
                out.append(vs.as_str());
            },
            None => {},
        }
        out.append(";");
        proof {
            reveal_strlit(" ");
            reveal_strlit(";");
            assert(out@ =~= self.token@.lit + seq![' '] + fmt_opt_expr(opt_expr_view(
                self.return_value,
            )) + seq![';']);
        }
        out
    }
}

impl ExpressionStatement {
    pub fn token_literal(&self) -> (r: &str)
        ensures
            r@ == self.token@.lit,
    {
        self.token.literal.as_str()
    }

    pub fn format(&self) -> (r: String)
        ensures
            r@ == fmt_stmt(self@),
    {
        match &self.expression {
            Some(e) => e.format(),
            None => String::new(),
        }
    }
}

impl Statement {
    /// The literal of the token the statement was built from.
    pub fn token_literal(&self) -> (r: &str)
        ensures
            r@ == stmt_token_lit(self@),
    {
        match self {
            Statement::Let(l) => l.token_literal(),
            Statement::Return(r) => r.token_literal(),
            Statement::Expr(e) => e.token_literal(),
        }
    }

    /// Print the statement back as source-like text.
    pub fn format(&self) -> (r: String)
        ensures
            r@ == fmt_stmt(self@),
    {
        match self {
            Statement::Let(l) => l.format(),
            Statement::Return(r) => r.format(),
            Statement::Expr(e) => e.format(),
        }
    }
}

impl Program {
    /// The literal of the first statement's defining token, or the empty
    /// string for an empty program.
    pub fn token_literal(&self) -> (r: &str)
        ensures
            r@ == if self@.len() > 0 {
                stmt_token_lit(self@[0])
            } else {
                Seq::<char>::empty()
            },
    {
        if self.statements.len() > 0 {
            self.statements[0].token_literal()
        } else {
            proof {
                reveal_strlit("");
                assert(""@ =~= Seq::<char>::empty());
            }
            ""
        }
    }

    /// Print every statement in order.
    pub fn format(&self) -> (r: String)
        ensures
            r@ == fmt_stmts(self@),
    {
        let ghost ss = self@;
        let mut out = String::new();
        let mut i: usize = 0;
        proof {
            assert(ss.skip(0) =~= ss);
            assert(out@ + fmt_stmts(ss) =~= fmt_stmts(ss));
        }
        while i < self.statements.len()
            invariant
                i <= self.statements.len(),
                ss == self@,
                self@.len() == self.statements.len(),
                out@ + fmt_stmts(ss.skip(i as int)) == fmt_stmts(ss),
            decreases self.statements.len() - i,
        {
            let s = self.statements[i].format();
            proof {
                assert(ss[i as int] == self.statements[i as int].deep_view());
            }
            out.append(s.as_str());
            proof {
                assert(ss.skip(i as int).drop_first() =~= ss.skip(i as int + 1));
                assert(ss.skip(i as int)[0] == ss[i as int]);
                assert(out@ + fmt_stmts(ss.skip(i as int + 1)) =~= fmt_stmts(ss));
            }
            i = i + 1;
        }
        proof {
            assert(ss.skip(i as int) =~= Seq::<SpecStmt>::empty());
            assert(out@ =~= fmt_stmts(ss));
        }
        out
    }
}

} // verus!

//! The parser: consumes the lexer's token stream through one token of
//! lookahead and produces a `Program`, driven by a Pratt (precedence-climbing)
//! expression engine.  Parsing is best-effort: a malformed statement is
//! skipped and recorded as a diagnostic, and parsing resumes at the next
//! statement boundary.
//!
//! The parser is specified by the `sp_*` functions, a recursive parser over
//! the token stream.  The recursion of the specification expression parser is
//! bounded by a fuel argument; `lemma_sp_expr_fuel` shows that any fuel of at
//! least one more than the number of remaining tokens gives the same result,
//! so the canonical instance `sp_expr_at` is well defined.

use vstd::prelude::*;
use vstd::string::StringExecFns;

use crate::ast::{
    expr_view, stmt_view, Boolean, Expression, ExpressionStatement, Identifier, InfixExpression,
    IntegerLiteral, LetStatement, PrefixExpression, Program, ReturnStatement, SpecExpr, SpecIdent,
    SpecStmt, Statement,
};
use crate::lexer::{eof_token, is_digit_spec, spec_scan, tokens_from, Lexer};
use crate::token::{kind_name, spec_kind_name, SpecTok, Token, TokenKind};

verus! {

/// Operator precedence levels, lowest binding power first.
pub const LOWEST: u8 = 1;

/// `==` and `!=`.
pub const EQUALS: u8 = 2;

/// `<` and `>`.
pub const LESSGREATER: u8 = 3;

/// `+` and binary `-`.
pub const SUM: u8 = 4;

/// `*` and `/`.
pub const PRODUCT: u8 = 5;

/// Unary `-` and `!`.
pub const PREFIX: u8 = 6;

/// Reserved for future function-call parsing.
pub const CALL: u8 = 7;

/// The binding power of an infix operator token; every other kind binds
/// lowest.
pub open spec fn spec_precedence(k: TokenKind) -> u8 {
    match k {
        TokenKind::Equal => EQUALS,
        TokenKind::NotEqual => EQUALS,
        TokenKind::LessThan => LESSGREATER,
        TokenKind::GreaterThan => LESSGREATER,
        TokenKind::Plus => SUM,
        TokenKind::Minus => SUM,
        TokenKind::Slash => PRODUCT,
        TokenKind::Asterisk => PRODUCT,
        _ => LOWEST,
    }
}

/// The token kinds that have an infix parsing strategy.
pub open spec fn is_infix_op(k: TokenKind) -> bool {
    match k {
        TokenKind::Equal => true,
        TokenKind::NotEqual => true,
        TokenKind::LessThan => true,
        TokenKind::GreaterThan => true,
        TokenKind::Plus => true,
        TokenKind::Minus => true,
        TokenKind::Slash => true,
        TokenKind::Asterisk => true,
        _ => false,
    }
}

/// Ghost mirror of a recorded diagnostic.
pub enum SpecDiag {
    Unexpected { expected: TokenKind, got: TokenKind },
    NoPrefix { got: TokenKind },
    BadInt { lit: Seq<char> },
}

/// A recorded, non-fatal parse error.
#[derive(Debug, PartialEq)]
pub enum Diagnostic {
    /// A structural mismatch: the next token was not of the expected kind.
    UnexpectedToken { expected: TokenKind, got: TokenKind },
    /// No expression can start with a token of this kind.
    NoPrefixParseFn { got: TokenKind },
    /// An integer literal that does not fit the integer value type.
    BadIntegerLiteral { literal: String },
}

impl View for Diagnostic {
    type V = SpecDiag;

    open spec fn view(&self) -> SpecDiag {
        match self {
            Diagnostic::UnexpectedToken { expected, got } => SpecDiag::Unexpected {
                expected: *expected,
                got: *got,
            },
            Diagnostic::NoPrefixParseFn { got } => SpecDiag::NoPrefix { got: *got },
            Diagnostic::BadIntegerLiteral { literal } => SpecDiag::BadInt { lit: literal@ },
        }
    }
}

impl DeepView for Diagnostic {
    type V = SpecDiag;

    open spec fn deep_view(&self) -> SpecDiag {
        self.view()
    }
}

/// The human-readable rendering of a diagnostic.
pub open spec fn spec_message(d: SpecDiag) -> Seq<char> {
    match d {
        SpecDiag::Unexpected { expected, got } => "expected next token to be "@ + spec_kind_name(
            expected,
        ) + ", got "@ + spec_kind_name(got) + " instead"@,
        SpecDiag::NoPrefix { got } => "no prefix parse function for "@ + spec_kind_name(got)
            + " found"@,
        SpecDiag::BadInt { lit } => "could not parse "@ + lit + " as integer"@,
    }
}

impl Diagnostic {
    /// Render the diagnostic as a human-readable message.
    pub fn message(&self) -> (r: String)
        ensures
            r@ == spec_message(self@),
    {
        match self {
            Diagnostic::UnexpectedToken { expected, got } => {
                let mut out = String::from_str("expected next token to be ");
                let en = kind_name(*expected);
                out.append(en.as_str());
                out.append(", got ");
                let gn = kind_name(*got);
                out.append(gn.as_str());
                out.append(" instead");
                out
            },
            Diagnostic::NoPrefixParseFn { got } => {
                let mut out = String::from_str("no prefix parse function for ");
                let gn = kind_name(*got);
                out.append(gn.as_str());
                out.append(" found");
                out
            },
            Diagnostic::BadIntegerLiteral { literal } => {
                let mut out = String::from_str("could not parse ");
                out.append(literal.as_str());
                out.append(" as integer");
                out
            },
        }
    }
}

/// The token at stream index `i`; past the end the stream repeats
/// `EndOfFile`, exactly as the lexer does.
pub open spec fn tok_at(toks: Seq<SpecTok>, i: nat) -> SpecTok {
    if i < toks.len() {
        toks[i as int]
    } else {
        eof_token()
    }
}

/// A lexeme made only of decimal digits.
pub open spec fn is_digits(s: Seq<char>) -> bool {
    s.len() > 0 && forall|i: int| 0 <= i < s.len() ==> is_digit_spec(#[trigger] s[i])
}

pub open spec fn digit_val(c: char) -> nat {
    (c as int - '0' as int) as nat
}

/// The value of a decimal digit string.
pub open spec fn digits_val(s: Seq<char>) -> nat
    decreases s.len(),
{
    if s.len() == 0 {
        0
    } else {
        digits_val(s.drop_last()) * 10 + digit_val(s.last())
    }
}

/// The outcome of the specification expression parser: the parsed expression
/// and the index of its last token, or the diagnostic recorded and the index
/// where parsing stopped.
pub enum ExpRes {
    Found(SpecExpr, nat),
    Failed(SpecDiag, nat),
}

/// The outcome of parsing one statement, in the same shape.
pub enum StRes {
    Found(SpecStmt, nat),
    Failed(SpecDiag, nat),
}

/// Canonical fuel for `sp_expr` at index `i`: one more than the number of
/// tokens left, which `lemma_sp_expr_fuel` shows is always enough.
pub open spec fn sfuel(toks: Seq<SpecTok>, i: nat) -> nat {
    if i <= toks.len() {
        (toks.len() - i + 1) as nat
    } else {
        1
    }
}

/// Canonical fuel for `sp_loop` when the left operand ends at index `j`.
pub open spec fn lfuel(toks: Seq<SpecTok>, j: nat) -> nat {
    if j + 1 < toks.len() {
        (toks.len() - j) as nat
    } else {
        0
    }
}

/// The specification expression parser: parse the expression starting at
/// token `i` with the given surrounding precedence.  On success the returned
/// index is that of the expression's last token.
pub open spec fn sp_expr(toks: Seq<SpecTok>, i: nat, prec: u8, fuel: nat) -> ExpRes
    decreases fuel, 1int,
{
    if fuel == 0 {
        ExpRes::Failed(SpecDiag::NoPrefix { got: tok_at(toks, i).kind }, i)
    } else {
        let t = tok_at(toks, i);
        match t.kind {
            TokenKind::Identifier => sp_loop(
                toks,
                i,
                SpecExpr::Ident(SpecIdent { token: t, value: t.lit }),
                prec,
                (fuel - 1) as nat,
            ),
            TokenKind::Integer => if is_digits(t.lit) && digits_val(t.lit) <= usize::MAX as nat {
                sp_loop(
                    toks,
                    i,
                    SpecExpr::Int { token: t, value: digits_val(t.lit) as usize },
                    prec,
                    (fuel - 1) as nat,
                )
            } else {
                ExpRes::Failed(SpecDiag::BadInt { lit: t.lit }, i)
            },
            TokenKind::True => sp_loop(
                toks,
                i,
                SpecExpr::Bool { token: t, value: true },
                prec,
                (fuel - 1) as nat,
            ),
            TokenKind::False => sp_loop(
                toks,
                i,
                SpecExpr::Bool { token: t, value: false },
                prec,
                (fuel - 1) as nat,
            ),
            TokenKind::Bang => sp_prefix_rest(toks, i, prec, fuel),
            TokenKind::Minus => sp_prefix_rest(toks, i, prec, fuel),
            TokenKind::LParen => match sp_expr(toks, (i + 1) as nat, LOWEST, (fuel - 1) as nat) {
                ExpRes::Found(e, j) => if tok_at(toks, (j + 1) as nat).kind == TokenKind::RParen {
                    sp_loop(toks, (j + 1) as nat, e, prec, (fuel - 1) as nat)
                } else {
                    ExpRes::Failed(
                        SpecDiag::Unexpected {
                            expected: TokenKind::RParen,
                            got: tok_at(toks, (j + 1) as nat).kind,
                        },
                        j,
                    )
                },
                ExpRes::Failed(d, j) => ExpRes::Failed(d, j),
            },
            _ => ExpRes::Failed(SpecDiag::NoPrefix { got: t.kind }, i),
        }
    }
}

/// The unary-operator case of `sp_expr`: parse the operand at `Prefix`
/// precedence and wrap it.
pub open spec fn sp_prefix_rest(toks: Seq<SpecTok>, i: nat, prec: u8, fuel: nat) -> ExpRes
    decreases fuel, 0int,
    when fuel >= 1
{
    let t = tok_at(toks, i);
    match sp_expr(toks, (i + 1) as nat, PREFIX, (fuel - 1) as nat) {
        ExpRes::Found(r, j) => sp_loop(
            toks,
            j,
            SpecExpr::Prefix { token: t, operator: t.lit, right: Box::new(r) },
            prec,
            (fuel - 1) as nat,
        ),
        ExpRes::Failed(d, j) => ExpRes::Failed(d, j),
    }
}

/// The climbing loop of the specification parser: while the next token is an
/// infix operator that binds tighter than the surrounding precedence, absorb
/// it and its right operand into the left operand.
pub open spec fn sp_loop(toks: Seq<SpecTok>, j: nat, left: SpecExpr, prec: u8, fuel: nat) -> ExpRes
    decreases fuel, 0int,
{
    let nk = tok_at(toks, (j + 1) as nat).kind;
    if nk != TokenKind::Semicolon && prec < spec_precedence(nk) && is_infix_op(nk) && fuel > 0 {
        let op = tok_at(toks, (j + 1) as nat);
        match sp_expr(toks, (j + 2) as nat, spec_precedence(nk), (fuel - 1) as nat) {
            ExpRes::Found(r, j2) => sp_loop(
                toks,
                j2,
                SpecExpr::Infix {
                    token: op,
                    left: Box::new(left),
                    operator: op.lit,
                    right: Box::new(r),
                },
                prec,
                (fuel - 1) as nat,
            ),
            ExpRes::Failed(d, j2) => ExpRes::Failed(d, j2),
        }
    } else {
        ExpRes::Found(left, j)
    }
}

/// The canonical instance of the specification expression parser.
pub open spec fn sp_expr_at(toks: Seq<SpecTok>, i: nat, prec: u8) -> ExpRes {
    sp_expr(toks, i, prec, sfuel(toks, i))
}

/// The index an expression-parser outcome stops at.
pub open spec fn exp_res_pos(r: ExpRes) -> nat {
    match r {
        ExpRes::Found(_, j) => j,
        ExpRes::Failed(_, j) => j,
    }
}

/// The specification parser never moves backwards.
pub proof fn lemma_sp_expr_advances(toks: Seq<SpecTok>, i: nat, prec: u8, fuel: nat)
    ensures
        i <= exp_res_pos(sp_expr(toks, i, prec, fuel)),
    decreases fuel, 1int,
{
    if fuel > 0 {
        let t = tok_at(toks, i);
        match t.kind {
            TokenKind::Identifier => {
                lemma_sp_loop_advances(
                    toks,
                    i,
                    SpecExpr::Ident(SpecIdent { token: t, value: t.lit }),
                    prec,
                    (fuel - 1) as nat,
                );
                assert(i <= exp_res_pos(sp_expr(toks, i, prec, fuel)));
            },
            TokenKind::Integer => {
                if is_digits(t.lit) && digits_val(t.lit) <= usize::MAX as nat {
                    lemma_sp_loop_advances(
                        toks,
                        i,
                        SpecExpr::Int { token: t, value: digits_val(t.lit) as usize },
                        prec,
                        (fuel - 1) as nat,
                    );
                }
            },
            TokenKind::True => {
                lemma_sp_loop_advances(
                    toks,
                    i,
                    SpecExpr::Bool { token: t, value: true },
                    prec,
                    (fuel - 1) as nat,
                );
            },
            TokenKind::False => {
                lemma_sp_loop_advances(
                    toks,
                    i,
                    SpecExpr::Bool { token: t, value: false },
                    prec,
                    (fuel - 1) as nat,
                );
            },
            TokenKind::Bang | TokenKind::Minus => {
                lemma_sp_expr_advances(toks, (i + 1) as nat, PREFIX, (fuel - 1) as nat);
                if let ExpRes::Found(r, j) = sp_expr(toks, (i + 1) as nat, PREFIX, (fuel - 1) as nat) {
                    lemma_sp_loop_advances(
                        toks,
                        j,
                        SpecExpr::Prefix { token: t, operator: t.lit, right: Box::new(r) },
                        prec,
                        (fuel - 1) as nat,
                    );
                }
                assert(sp_expr(toks, i, prec, fuel) == sp_prefix_rest(toks, i, prec, fuel));
                assert(i <= exp_res_pos(sp_expr(toks, i, prec, fuel)));
            },
            TokenKind::LParen => {
                lemma_sp_expr_advances(toks, (i + 1) as nat, LOWEST, (fuel - 1) as nat);
                if let ExpRes::Found(e, j) = sp_expr(toks, (i + 1) as nat, LOWEST, (fuel - 1) as nat) {
                    lemma_sp_loop_advances(toks, (j + 1) as nat, e, prec, (fuel - 1) as nat);
                }
                assert(i <= exp_res_pos(sp_expr(toks, i, prec, fuel)));
            },
            _ => {},
        }
    }
}

/// The climbing loop never moves backwards.
pub proof fn lemma_sp_loop_advances(
    toks: Seq<SpecTok>,
    j: nat,
    left: SpecExpr,
    prec: u8,
    fuel: nat,
)
    ensures
        j <= exp_res_pos(sp_loop(toks, j, left, prec, fuel)),
    decreases fuel, 0int,
{
    let nk = tok_at(toks, (j + 1) as nat).kind;
    if nk != TokenKind::Semicolon && prec < spec_precedence(nk) && is_infix_op(nk) && fuel > 0 {
        let op = tok_at(toks, (j + 1) as nat);
        lemma_sp_expr_advances(toks, (j + 2) as nat, spec_precedence(nk), (fuel - 1) as nat);
        if let ExpRes::Found(r, j2) = sp_expr(
            toks,
            (j + 2) as nat,
            spec_precedence(nk),
            (fuel - 1) as nat,
        ) {
            lemma_sp_loop_advances(
                toks,
                j2,
                SpecExpr::Infix {
                    token: op,
                    left: Box::new(left),
                    operator: op.lit,
                    right: Box::new(r),
                },
                prec,
                (fuel - 1) as nat,
            );
        }
    }
}

/// Fuel stability: any fuel of at least `sfuel` gives the same result, so the
/// canonical instance `sp_expr_at` describes every adequately fueled run.
pub proof fn lemma_sp_expr_fuel(toks: Seq<SpecTok>, i: nat, prec: u8, f1: nat, f2: nat)
    requires
        sfuel(toks, i) <= f1,
        sfuel(toks, i) <= f2,
    ensures
        sp_expr(toks, i, prec, f1) == sp_expr(toks, i, prec, f2),
    decreases f1 + f2, 1int,
{
    let t = tok_at(toks, i);
    if i >= toks.len() {
        // The end-of-file token has no prefix strategy: both runs fail alike.
        assert(t == eof_token());
    } else {
        match t.kind {
            TokenKind::Identifier => {
                lemma_sp_loop_fuel(
                    toks,
                    i,
                    SpecExpr::Ident(SpecIdent { token: t, value: t.lit }),
                    prec,
                    (f1 - 1) as nat,
                    (f2 - 1) as nat,
                );
            },
            TokenKind::Integer => {
                if is_digits(t.lit) && digits_val(t.lit) <= usize::MAX as nat {
                    lemma_sp_loop_fuel(
                        toks,
                        i,
                        SpecExpr::Int { token: t, value: digits_val(t.lit) as usize },
                        prec,
                        (f1 - 1) as nat,
                        (f2 - 1) as nat,
                    );
                }
            },
            TokenKind::True => {
                lemma_sp_loop_fuel(
                    toks,
                    i,
                    SpecExpr::Bool { token: t, value: true },
                    prec,
                    (f1 - 1) as nat,
                    (f2 - 1) as nat,
                );
            },
            TokenKind::False => {
                lemma_sp_loop_fuel(
                    toks,
                    i,
                    SpecExpr::Bool { token: t, value: false },
                    prec,
                    (f1 - 1) as nat,
                    (f2 - 1) as nat,
                );
            },
            TokenKind::Bang | TokenKind::Minus => {
                lemma_sp_expr_fuel(toks, (i + 1) as nat, PREFIX, (f1 - 1) as nat, (f2 - 1) as nat);
                if let ExpRes::Found(r, j) = sp_expr(toks, (i + 1) as nat, PREFIX, (f1 - 1) as nat) {
                    lemma_sp_expr_advances(toks, (i + 1) as nat, PREFIX, (f1 - 1) as nat);
                    lemma_sp_loop_fuel(
                        toks,
                        j,
                        SpecExpr::Prefix { token: t, operator: t.lit, right: Box::new(r) },
                        prec,
                        (f1 - 1) as nat,
                        (f2 - 1) as nat,
                    );
                }
                assert(sp_expr(toks, i, prec, f1) == sp_prefix_rest(toks, i, prec, f1));
                assert(sp_expr(toks, i, prec, f2) == sp_prefix_rest(toks, i, prec, f2));
                assert(sp_expr(toks, i, prec, f1) == sp_expr(toks, i, prec, f2));
            },
            TokenKind::LParen => {
                lemma_sp_expr_fuel(toks, (i + 1) as nat, LOWEST, (f1 - 1) as nat, (f2 - 1) as nat);
                if let ExpRes::Found(e, j) = sp_expr(toks, (i + 1) as nat, LOWEST, (f1 - 1) as nat) {
                    lemma_sp_expr_advances(toks, (i + 1) as nat, LOWEST, (f1 - 1) as nat);
                    if tok_at(toks, (j + 1) as nat).kind == TokenKind::RParen {
                        lemma_sp_loop_fuel(
                            toks,
                            (j + 1) as nat,
                            e,
                            prec,
                            (f1 - 1) as nat,
                            (f2 - 1) as nat,
                        );
                    }
                }
            
                assert(sp_expr(toks, i, prec, f1) == sp_expr(toks, i, prec, f2));
            },
            _ => {},
        }
    }
}

/// Fuel stability for the climbing loop.
pub proof fn lemma_sp_loop_fuel(
    toks: Seq<SpecTok>,
    j: nat,
    left: SpecExpr,
    prec: u8,
    f1: nat,
    f2: nat,
)
    requires
        lfuel(toks, j) <= f1,
        lfuel(toks, j) <= f2,
    ensures
        sp_loop(toks, j, left, prec, f1) == sp_loop(toks, j, left, prec, f2),
    decreases f1 + f2, 0int,
{
    let nk = tok_at(toks, (j + 1) as nat).kind;
    if nk != TokenKind::Semicolon && prec < spec_precedence(nk) && is_infix_op(nk) {
        // A real operator stands at j + 1, so j + 1 is inside the stream and
        // both fuels are positive.
        assert(j + 1 < toks.len());
        let op = tok_at(toks, (j + 1) as nat);
        lemma_sp_expr_fuel(
            toks,
            (j + 2) as nat,
            spec_precedence(nk),
            (f1 - 1) as nat,
            (f2 - 1) as nat,
        );
        if let ExpRes::Found(r, j2) = sp_expr(
            toks,
            (j + 2) as nat,
            spec_precedence(nk),
            (f1 - 1) as nat,
        ) {
            lemma_sp_expr_advances(toks, (j + 2) as nat, spec_precedence(nk), (f1 - 1) as nat);
            lemma_sp_loop_fuel(
                toks,
                j2,
                SpecExpr::Infix {
                    token: op,
                    left: Box::new(left),
                    operator: op.lit,
                    right: Box::new(r),
                },
                prec,
                (f1 - 1) as nat,
                (f2 - 1) as nat,
            );
        }
    }
}

/// Parse one `let` statement: `let <identifier> = <expression>;`, with the
/// trailing semicolon optional.  On success the returned index is that of the
/// statement's last token.
pub open spec fn sp_let_stmt(toks: Seq<SpecTok>, i: nat) -> StRes {
    let t = tok_at(toks, i);
    let name_tok = tok_at(toks, (i + 1) as nat);
    if name_tok.kind != TokenKind::Identifier {
        StRes::Failed(
            SpecDiag::Unexpected { expected: TokenKind::Identifier, got: name_tok.kind },
            i,
        )
    } else if tok_at(toks, (i + 2) as nat).kind != TokenKind::Assign {
        StRes::Failed(
            SpecDiag::Unexpected {
                expected: TokenKind::Assign,
                got: tok_at(toks, (i + 2) as nat).kind,
            },
            (i + 1) as nat,
        )
    } else {
        match sp_expr_at(toks, (i + 3) as nat, LOWEST) {
            ExpRes::Found(e, j) => {
                let end = if tok_at(toks, (j + 1) as nat).kind == TokenKind::Semicolon {
                    (j + 1) as nat
                } else {
                    j
                };
                StRes::Found(
                    SpecStmt::Let {
                        token: t,
                        name: SpecIdent { token: name_tok, value: name_tok.lit },
                        value: Some(e),
                    },
                    end,
                )
            },
            ExpRes::Failed(d, j) => StRes::Failed(d, j),
        }
    }
}

/// Parse one `return` statement: `return <expression>;`, semicolon optional.
pub open spec fn sp_return_stmt(toks: Seq<SpecTok>, i: nat) -> StRes {
    let t = tok_at(toks, i);
    match sp_expr_at(toks, (i + 1) as nat, LOWEST) {
        ExpRes::Found(e, j) => {
            let end = if tok_at(toks, (j + 1) as nat).kind == TokenKind::Semicolon {
                (j + 1) as nat
            } else {
                j
            };
            StRes::Found(SpecStmt::Return { token: t, value: Some(e) }, end)
        },
        ExpRes::Failed(d, j) => StRes::Failed(d, j),
    }
}

/// Parse one expression statement, semicolon optional.
pub open spec fn sp_expr_stmt(toks: Seq<SpecTok>, i: nat) -> StRes {
    let t = tok_at(toks, i);
    match sp_expr_at(toks, i, LOWEST) {
        ExpRes::Found(e, j) => {
            let end = if tok_at(toks, (j + 1) as nat).kind == TokenKind::Semicolon {
                (j + 1) as nat
            } else {
                j
            };
            StRes::Found(SpecStmt::Expr { token: t, value: Some(e) }, end)
        },
        ExpRes::Failed(d, j) => StRes::Failed(d, j),
    }
}

/// Top-level statement dispatch on the current token's kind.
pub open spec fn sp_statement(toks: Seq<SpecTok>, i: nat) -> StRes {
    if tok_at(toks, i).kind == TokenKind::Let {
        sp_let_stmt(toks, i)
    } else if tok_at(toks, i).kind == TokenKind::Return {
        sp_return_stmt(toks, i)
    } else {
        sp_expr_stmt(toks, i)
    }
}

/// The next statement boundary at or after `i`: the next semicolon, or the
/// end of the stream.
pub open spec fn sp_sync(toks: Seq<SpecTok>, i: nat) -> nat
    decreases toks.len() - i,
{
    let k = tok_at(toks, i).kind;
    if k == TokenKind::Semicolon || k == TokenKind::EndOfFile {
        i
    } else {
        sp_sync(toks, (i + 1) as nat)
    }
}

/// Saturating count of the tokens left at index `i`; the measure by which
/// statement-level parsing terminates.
pub open spec fn meas(toks: Seq<SpecTok>, i: nat) -> nat {
    if i <= toks.len() {
        (toks.len() - i) as nat
    } else {
        0
    }
}

pub proof fn lemma_sp_sync_bounds(toks: Seq<SpecTok>, i: nat)
    ensures
        i <= sp_sync(toks, i),
        meas(toks, sp_sync(toks, i)) <= meas(toks, i),
    decreases toks.len() - i,
{
    let k = tok_at(toks, i).kind;
    if !(k == TokenKind::Semicolon || k == TokenKind::EndOfFile) {
        lemma_sp_sync_bounds(toks, (i + 1) as nat);
    }
}

/// Statement parsing never moves backwards.
pub proof fn lemma_sp_statement_advances(toks: Seq<SpecTok>, i: nat)
    ensures
        match sp_statement(toks, i) {
            StRes::Found(_, j) => i <= j,
            StRes::Failed(_, j) => i <= j,
        },
{
    lemma_sp_expr_advances(toks, i, LOWEST, sfuel(toks, i));
    lemma_sp_expr_advances(toks, (i + 1) as nat, LOWEST, sfuel(toks, (i + 1) as nat));
    lemma_sp_expr_advances(toks, (i + 3) as nat, LOWEST, sfuel(toks, (i + 3) as nat));
}

/// The specification program parser: parse statements until the end of the
/// stream, collecting the parsed statements and, separately, the diagnostics
/// of the statements that failed.  A failed statement is skipped up to the
/// next statement boundary.
pub open spec fn sp_program(toks: Seq<SpecTok>, i: nat) -> (Seq<SpecStmt>, Seq<SpecDiag>)
    decreases meas(toks, i),
    via sp_program_decreases
{
    if tok_at(toks, i).kind == TokenKind::EndOfFile {
        (Seq::empty(), Seq::empty())
    } else {
        match sp_statement(toks, i) {
            StRes::Found(st, j) => {
                let rest = sp_program(toks, (j + 1) as nat);
                (seq![st] + rest.0, rest.1)
            },
            StRes::Failed(d, j) => {
                let rest = sp_program(toks, (sp_sync(toks, j) + 1) as nat);
                (rest.0, seq![d] + rest.1)
            },
        }
    }
}

#[via_fn]
proof fn sp_program_decreases(toks: Seq<SpecTok>, i: nat) {
    if tok_at(toks, i).kind != TokenKind::EndOfFile {
        assert(i < toks.len());
        lemma_sp_statement_advances(toks, i);
        match sp_statement(toks, i) {
            StRes::Found(_, j) => {},
            StRes::Failed(_, j) => {
                lemma_sp_sync_bounds(toks, j);
            },
        }
    }
}

/// A digit-string prefix never exceeds the value of a longer prefix.
pub proof fn lemma_digits_val_mono(s: Seq<char>, i: int, j: int)
    requires
        0 <= i <= j <= s.len(),
    ensures
        digits_val(s.take(i)) <= digits_val(s.take(j)),
    decreases j,
{
    if i < j {
        lemma_digits_val_mono(s, i, j - 1);
        assert(s.take(j).drop_last() =~= s.take(j - 1));
        assert(digits_val(s.take(j)) == digits_val(s.take(j - 1)) * 10 + digit_val(
            s.take(j).last(),
        ));
    }
}

/// Parse a decimal digit string into an unsigned integer.  Yields the value
/// exactly when the string is non-empty, all digits, and the value fits;
/// yields nothing otherwise.
pub fn parse_integer(s: &str) -> (r: Option<usize>)
    ensures
        r == if is_digits(s@) && digits_val(s@) <= usize::MAX as nat {
            Some(digits_val(s@) as usize)
        } else {
            Option::<usize>::None
        },
{
    let n: usize = s.unicode_len();
    if n == 0 {
        return None;
    }
    let mut acc: usize = 0;
    let mut i: usize = 0;
    while i < n
        invariant
            n == s@.len(),
            0 < n,
            i <= n,
            forall|k: int| 0 <= k < i ==> is_digit_spec(#[trigger] s@[k]),
            acc as nat == digits_val(s@.take(i as int)),
        decreases n - i,
    {
        let c = s.get_char(i);
        if !crate::lexer::is_digit(c) {
            return None;
        }
        let d: usize = ((c as u32) - ('0' as u32)) as usize;
        proof {
            assert(digit_val(s@[i as int]) == d as nat);
            assert(s@.take(i as int + 1).drop_last() =~= s@.take(i as int));
            assert(s@.take(i as int + 1).last() == s@[i as int]);
        }
        if acc > (usize::MAX - d) / 10 {
            proof {
                assert(acc * 10 + d > usize::MAX) by (nonlinear_arith)
                    requires
                        acc > (usize::MAX - d) / 10,
                        d <= 9,
                ;
                if is_digits(s@) {
                    lemma_digits_val_mono(s@, i as int + 1, s@.len() as int);
                    assert(s@.take(s@.len() as int) =~= s@);
                }
            }
            return None;
        }
        proof {
            assert(acc * 10 + d <= usize::MAX) by (nonlinear_arith)
                requires
                    acc <= (usize::MAX - d) / 10,
                    d <= 9,
            ;
        }
        acc = acc * 10 + d;
        i = i + 1;
    }
    proof {
        assert(s@.take(n as int) =~= s@);
    }
    Some(acc)
}

/// The token stream with its first `k` tokens dropped.
pub open spec fn rest_of(toks: Seq<SpecTok>, k: nat) -> Seq<SpecTok> {
    if k < toks.len() {
        toks.skip(k as int)
    } else {
        Seq::empty()
    }
}

/// One pull from the lexer, seen on the token stream: the scanned token is
/// the stream's head (or `EndOfFile` past its end), and the rest of the
/// stream is what scanning continues with.
pub proof fn lemma_stream_step(s: Seq<char>, pos: nat)
    ensures
        spec_scan(s, pos).0 == tok_at(tokens_from(s, pos), 0),
        tokens_from(s, spec_scan(s, pos).1) == rest_of(tokens_from(s, pos), 1),
{
    let t = spec_scan(s, pos).0;
    let e = spec_scan(s, pos).1;
    let toks = tokens_from(s, pos);
    if t.kind == TokenKind::EndOfFile {
        assert(t == eof_token());
        crate::lexer::lemma_end_of_file_terminal(s, pos);
        assert(tokens_from(s, e) =~= Seq::<SpecTok>::empty());
        assert(rest_of(toks, 1) =~= Seq::<SpecTok>::empty());
    } else {
        assert(toks == seq![t] + tokens_from(s, e));
        assert(toks[0] == t);
        if 1 < toks.len() {
            assert(toks.skip(1) =~= tokens_from(s, e));
        } else {
            assert(tokens_from(s, e) =~= Seq::<SpecTok>::empty());
        }
    }
}

/// Dropping `k` then one more token is dropping `k + 1`, and the head of the
/// dropped stream is the stream's `k`-th token.
pub proof fn lemma_rest_of_step(toks: Seq<SpecTok>, k: nat)
    ensures
        tok_at(rest_of(toks, k), 0) == tok_at(toks, k),
        rest_of(rest_of(toks, k), 1) == rest_of(toks, (k + 1) as nat),
{
    if k < toks.len() {
        assert(rest_of(toks, k)[0] == toks[k as int]);
        if k + 1 < toks.len() {
            assert(toks.skip(k as int).skip(1) =~= toks.skip(k as int + 1));
        } else {
            assert(rest_of(rest_of(toks, k), 1) =~= Seq::<SpecTok>::empty());
            assert(rest_of(toks, (k + 1) as nat) =~= Seq::<SpecTok>::empty());
        }
    }
}

/// The binding power of an infix operator token, lowest for everything else.
pub fn precedence_of(kind: TokenKind) -> (p: u8)
    ensures
        p == spec_precedence(kind),
{
    match kind {
        TokenKind::Equal => EQUALS,
        TokenKind::NotEqual => EQUALS,
        TokenKind::LessThan => LESSGREATER,
        TokenKind::GreaterThan => LESSGREATER,
        TokenKind::Plus => SUM,
        TokenKind::Minus => SUM,
        TokenKind::Slash => PRODUCT,
        TokenKind::Asterisk => PRODUCT,
        _ => LOWEST,
    }
}

/// Whether tokens of this kind have an infix parsing strategy.
pub fn has_infix_strategy(kind: TokenKind) -> (r: bool)
    ensures
        r == is_infix_op(kind),
{
    match kind {
        TokenKind::Equal => true,
        TokenKind::NotEqual => true,
        TokenKind::LessThan => true,
        TokenKind::GreaterThan => true,
        TokenKind::Plus => true,
        TokenKind::Minus => true,
        TokenKind::Slash => true,
        TokenKind::Asterisk => true,
        _ => false,
    }
}

/// The parser: a lexer plus two tokens of lookahead and the list of recorded
/// diagnostics.  The ghost fields carry the full token stream and the index
/// of the current token in it.
pub struct Parser {
    lexer: Lexer,
    errors: Vec<Diagnostic>,
    cur_token: Token,
    peek_token: Token,
    toks: Ghost<Seq<SpecTok>>,
    idx: Ghost<nat>,
}

impl Parser {
    /// The whole token stream the parser consumes.
    pub closed spec fn stream(self) -> Seq<SpecTok> {
        self.toks@
    }

    /// The index of the current token in the stream.
    pub closed spec fn at(self) -> nat {
        self.idx@
    }

    /// The diagnostics recorded so far.
    pub closed spec fn errs(self) -> Seq<SpecDiag> {
        self.errors.deep_view()
    }

    /// The cursor is well formed: the two lookahead tokens and the lexer
    /// state agree with the token stream at the current index.
    pub closed spec fn wf(self) -> bool {
        &&& self.lexer.wf()
        &&& self.cur_token@ == tok_at(self.toks@, self.idx@)
        &&& self.peek_token@ == tok_at(self.toks@, (self.idx@ + 1) as nat)
        &&& tokens_from(self.lexer.src(), self.lexer.pos()) == rest_of(
            self.toks@,
            (self.idx@ + 2) as nat,
        )
    }

    /// Build a parser over the given lexer's token stream and prime the two
    /// tokens of lookahead.
    pub fn new(lexer: Lexer) -> (p: Parser)
        requires
            lexer.wf(),
        ensures
            p.wf(),
            p.stream() == tokens_from(lexer.src(), lexer.pos()),
            p.at() == 0,
            p.errs() == Seq::<SpecDiag>::empty(),
    {
        let ghost toks = tokens_from(lexer.src(), lexer.pos());
        let mut lex = lexer;
        proof {
            lemma_stream_step(lex.src(), lex.pos());
        }
        let cur_token = lex.next_token();
        proof {
            lemma_stream_step(lex.src(), lex.pos());
            lemma_rest_of_step(toks, 1);
        }
        let peek_token = lex.next_token();
        let p = Parser {
            lexer: lex,
            errors: Vec::new(),
            cur_token,
            peek_token,
            toks: Ghost(toks),
            idx: Ghost(0nat),
        };
        proof {
            assert(p.errs() =~= Seq::<SpecDiag>::empty());
        }
        p
    }

    /// Step the lookahead window one token forward.
    fn next_token(&mut self)
        requires
            old(self).wf(),
        ensures
            final(self).wf(),
            final(self).stream() == old(self).stream(),
            final(self).at() == old(self).at() + 1,
            final(self).errs() == old(self).errs(),
    {
        proof {
            lemma_stream_step(self.lexer.src(), self.lexer.pos());
            lemma_rest_of_step(self.toks@, (self.idx@ + 2) as nat);
        }
        self.cur_token = self.peek_token.clone();
        self.peek_token = self.lexer.next_token();
        self.idx = Ghost((self.idx@ + 1) as nat);
    }

    /// Whether the current token has the given kind.
    pub fn cur_token_is(&self, kind: TokenKind) -> (r: bool)
        requires
            self.wf(),
        ensures
            r == (tok_at(self.stream(), self.at()).kind == kind),
    {
        self.cur_token.kind == kind
    }

    /// Whether the next token has the given kind.
    pub fn peek_token_is(&self, kind: TokenKind) -> (r: bool)
        requires
            self.wf(),
        ensures
            r == (tok_at(self.stream(), (self.at() + 1) as nat).kind == kind),
    {
        self.peek_token.kind == kind
    }

    /// Record a diagnostic: the next token was not of the expected kind.
    pub fn peek_error(&mut self, kind: TokenKind)
        requires
            old(self).wf(),
        ensures
            final(self).wf(),
            final(self).stream() == old(self).stream(),
            final(self).at() == old(self).at(),
            final(self).errs() == old(self).errs().push(
                SpecDiag::Unexpected {
                    expected: kind,
                    got: tok_at(old(self).stream(), (old(self).at() + 1) as nat).kind,
                },
            ),
    {
        let got = self.peek_token.kind;
        self.errors.push(Diagnostic::UnexpectedToken { expected: kind, got });
        proof {
            assert(self.errs() =~= old(self).errs().push(
                SpecDiag::Unexpected {
                    expected: kind,
                    got: tok_at(old(self).stream(), (old(self).at() + 1) as nat).kind,
                },
            ));
        }
    }

    /// Record a diagnostic: no expression can start with a token of this
    /// kind.
    pub fn no_prefix_parse_fn_error(&mut self, kind: TokenKind)
        requires
            old(self).wf(),
        ensures
            final(self).wf(),
            final(self).stream() == old(self).stream(),
            final(self).at() == old(self).at(),
            final(self).errs() == old(self).errs().push(SpecDiag::NoPrefix { got: kind }),
    {
        self.errors.push(Diagnostic::NoPrefixParseFn { got: kind });
        proof {
            assert(self.errs() =~= old(self).errs().push(SpecDiag::NoPrefix { got: kind }));
        }
    }

    /// Check the kind of the next token; on a match consume it, otherwise
    /// record a diagnostic and stay put.
    pub fn expect_peek(&mut self, kind: TokenKind) -> (r: bool)
        requires
            old(self).wf(),
        ensures
            final(self).wf(),
            final(self).stream() == old(self).stream(),
            if tok_at(old(self).stream(), (old(self).at() + 1) as nat).kind == kind {
                r && final(self).at() == old(self).at() + 1 && final(self).errs() == old(
                    self,
                ).errs()
            } else {
                !r && final(self).at() == old(self).at() && final(self).errs() == old(
                    self,
                ).errs().push(
                    SpecDiag::Unexpected {
                        expected: kind,
                        got: tok_at(old(self).stream(), (old(self).at() + 1) as nat).kind,
                    },
                )
            },
    {
        if self.peek_token_is(kind) {
            self.next_token();
            true
        } else {
            self.peek_error(kind);
            false
        }
    }

    /// The binding power of the next token.
    pub fn peek_precedence(&self) -> (p: u8)
        requires
            self.wf(),
        ensures
            p == spec_precedence(tok_at(self.stream(), (self.at() + 1) as nat).kind),
    {
        precedence_of(self.peek_token.kind)
    }

    /// The binding power of the current token.
    pub fn cur_precedence(&self) -> (p: u8)
        requires
            self.wf(),
        ensures
            p == spec_precedence(tok_at(self.stream(), self.at()).kind),
    {
        precedence_of(self.cur_token.kind)
    }

    /// The diagnostics recorded so far, in the order they were recorded.
    pub fn errors(&self) -> (r: &Vec<Diagnostic>)
        ensures
            r.deep_view() == self.errs(),
    {
        &self.errors
    }
}

/// The canonical instance of the climbing loop.
pub open spec fn sp_loop_at(toks: Seq<SpecTok>, j: nat, left: SpecExpr, prec: u8) -> ExpRes {
    sp_loop(toks, j, left, prec, lfuel(toks, j))
}

/// Whether the climbing loop takes another turn: the next token is an infix
/// operator, binds tighter than the surrounding precedence, and is not a
/// semicolon.
pub open spec fn spec_loop_cond(toks: Seq<SpecTok>, j: nat, prec: u8) -> bool {
    let nk = tok_at(toks, (j + 1) as nat).kind;
    nk != TokenKind::Semicolon && prec < spec_precedence(nk) && is_infix_op(nk)
}

impl Parser {
    /// Build an identifier expression from the current token.
    pub fn parse_identifier(&self) -> (e: Expression)
        requires
            self.wf(),
        ensures
            e@ == (SpecExpr::Ident(
                SpecIdent {
                    token: tok_at(self.stream(), self.at()),
                    value: tok_at(self.stream(), self.at()).lit,
                },
            )),
    {
        Expression::Ident(
            Identifier { token: self.cur_token.clone(), value: self.cur_token.literal.clone() },
        )
    }

    /// Build a boolean literal from the current token.
    pub fn parse_boolean(&self) -> (e: Expression)
        requires
            self.wf(),
        ensures
            e@ == (SpecExpr::Bool {
                token: tok_at(self.stream(), self.at()),
                value: tok_at(self.stream(), self.at()).kind == TokenKind::True,
            }),
    {
        Expression::Bool(
            Boolean { token: self.cur_token.clone(), value: self.cur_token_is(TokenKind::True) },
        )
    }

    /// Whether the climbing loop should absorb the next token as an infix
    /// operator.
    fn should_continue(&self, precedence: u8) -> (r: bool)
        requires
            self.wf(),
        ensures
            r == spec_loop_cond(self.stream(), self.at(), precedence),
    {
        !self.peek_token_is(TokenKind::Semicolon) && precedence < self.peek_precedence()
            && has_infix_strategy(self.peek_token.kind)
    }

    /// Parse the expression starting at the current token, under the given
    /// surrounding precedence.  On success the cursor rests on the
    /// expression's last token; on failure one diagnostic has been recorded
    /// and nothing is returned.
    #[verifier::loop_isolation(false)]
    pub fn parse_expression(&mut self, precedence: u8) -> (r: Option<Expression>)
        requires
            old(self).wf(),
        ensures
            final(self).wf(),
            final(self).stream() == old(self).stream(),
            match sp_expr_at(old(self).stream(), old(self).at(), precedence) {
                ExpRes::Found(e, j) => r matches Some(x) && x@ == e && final(self).at() == j
                    && final(self).errs() == old(self).errs(),
                ExpRes::Failed(d, j) => r is None && final(self).at() == j && final(self).errs()
                    == old(self).errs().push(d),
            },
        decreases meas(old(self).stream(), old(self).at()),
    {
        let ghost toks = self.toks@;
        let ghost i0 = self.idx@;
        let ghost errs0 = self.errs();
        let ghost target = sp_expr_at(toks, i0, precedence);

        let mut left: Expression;
        match self.cur_token.kind {
            TokenKind::Identifier => {
                left = self.parse_identifier();
                proof {
                    assert(i0 < toks.len());
                    lemma_sp_loop_fuel(
                        toks,
                        i0,
                        expr_view(left),
                        precedence,
                        (sfuel(toks, i0) - 1) as nat,
                        lfuel(toks, i0),
                    );
                    assert(sp_loop_at(toks, i0, expr_view(left), precedence) == target);
                }
            },
            TokenKind::Integer => {
                let token = self.cur_token.clone();
                match parse_integer(self.cur_token.literal.as_str()) {
                    Some(v) => {
                        left = Expression::Int(IntegerLiteral { token, value: v });
                        proof {
                            assert(i0 < toks.len());
                            lemma_sp_loop_fuel(
                                toks,
                                i0,
                                expr_view(left),
                                precedence,
                                (sfuel(toks, i0) - 1) as nat,
                                lfuel(toks, i0),
                            );
                            assert(sp_loop_at(toks, i0, expr_view(left), precedence) == target);
                        }
                    },
                    None => {
                        let literal = self.cur_token.literal.clone();
                        self.errors.push(Diagnostic::BadIntegerLiteral { literal });
                        proof {
                            assert(self.errs() =~= errs0.push(
                                SpecDiag::BadInt { lit: tok_at(toks, i0).lit },
                            ));
                        }
                        return None;
                    },
                }
            },
            TokenKind::True => {
                left = self.parse_boolean();
                proof {
                    assert(i0 < toks.len());
                    lemma_sp_loop_fuel(
                        toks,
                        i0,
                        expr_view(left),
                        precedence,
                        (sfuel(toks, i0) - 1) as nat,
                        lfuel(toks, i0),
                    );
                    assert(sp_loop_at(toks, i0, expr_view(left), precedence) == target);
                }
            },
            TokenKind::False => {
                left = self.parse_boolean();
                proof {
                    assert(i0 < toks.len());
                    lemma_sp_loop_fuel(
                        toks,
                        i0,
                        expr_view(left),
                        precedence,
                        (sfuel(toks, i0) - 1) as nat,
                        lfuel(toks, i0),
                    );
                    assert(sp_loop_at(toks, i0, expr_view(left), precedence) == target);
                }
            },
            TokenKind::Bang | TokenKind::Minus => {
                let token = self.cur_token.clone();
                let operator = self.cur_token.literal.clone();
                proof {
                    assert(i0 < toks.len());
                }
                self.next_token();
                let rres = self.parse_expression(PREFIX);
                proof {
                    lemma_sp_expr_fuel(
                        toks,
                        (i0 + 1) as nat,
                        PREFIX,
                        sfuel(toks, (i0 + 1) as nat),
                        (sfuel(toks, i0) - 1) as nat,
                    );
                    assert(sp_expr_at(toks, i0, precedence) == sp_prefix_rest(
                        toks,
                        i0,
                        precedence,
                        sfuel(toks, i0),
                    ));
                }
                match rres {
                    None => {
                        return None;
                    },
                    Some(rhs) => {
                        left = Expression::Prefix(
                            PrefixExpression { token, operator, right: Box::new(rhs) },
                        );
                        proof {
                            lemma_sp_expr_advances(
                                toks,
                                (i0 + 1) as nat,
                                PREFIX,
                                (sfuel(toks, i0) - 1) as nat,
                            );
                            lemma_sp_loop_fuel(
                                toks,
                                self.idx@,
                                expr_view(left),
                                precedence,
                                (sfuel(toks, i0) - 1) as nat,
                                lfuel(toks, self.idx@),
                            );
                            assert(sp_loop_at(toks, self.idx@, expr_view(left), precedence)
                                == target);
                        }
                    },
                }
            },
            TokenKind::LParen => {
                proof {
                    assert(i0 < toks.len());
                }
                self.next_token();
                let rres = self.parse_expression(LOWEST);
                proof {
                    lemma_sp_expr_fuel(
                        toks,
                        (i0 + 1) as nat,
                        LOWEST,
                        sfuel(toks, (i0 + 1) as nat),
                        (sfuel(toks, i0) - 1) as nat,
                    );
                }
                match rres {
                    None => {
                        return None;
                    },
                    Some(e) => {
                        proof {
                            lemma_sp_expr_advances(
                                toks,
                                (i0 + 1) as nat,
                                LOWEST,
                                (sfuel(toks, i0) - 1) as nat,
                            );
                        }
                        if !self.expect_peek(TokenKind::RParen) {
                            return None;
                        }
                        left = e;
                        proof {
                            lemma_sp_loop_fuel(
                                toks,
                                self.idx@,
                                expr_view(left),
                                precedence,
                                (sfuel(toks, i0) - 1) as nat,
                                lfuel(toks, self.idx@),
                            );
                            assert(sp_loop_at(toks, self.idx@, expr_view(left), precedence)
                                == target);
                        }
                    },
                }
            },
            _ => {
                let k = self.cur_token.kind;
                self.no_prefix_parse_fn_error(k);
                return None;
            },
        }
        while self.should_continue(precedence)
            invariant
                self.wf(),
                self.toks@ == toks,
                self.errs() == errs0,
                i0 <= self.idx@,
                i0 < toks.len(),
                sp_loop_at(toks, self.idx@, expr_view(left), precedence) == target,
            decreases meas(toks, self.idx@),
        {
            let ghost j = self.idx@;
            proof {
                assert(j + 1 < toks.len());
            }
            self.next_token();
            let op_token = self.cur_token.clone();
            let op_literal = self.cur_token.literal.clone();
            let op_prec = self.cur_precedence();
            self.next_token();
            proof {
                assert(meas(toks, (j + 2) as nat) < meas(toks, i0));
            }
            let rres = self.parse_expression(op_prec);
            proof {
                lemma_sp_expr_fuel(
                    toks,
                    (j + 2) as nat,
                    op_prec,
                    sfuel(toks, (j + 2) as nat),
                    (lfuel(toks, j) - 1) as nat,
                );
            }
            match rres {
                None => {
                    return None;
                },
                Some(rhs) => {
                    left = Expression::Infix(
                        InfixExpression {
                            token: op_token,
                            left: Box::new(left),
                            operator: op_literal,
                            right: Box::new(rhs),
                        },
                    );
                    proof {
                        lemma_sp_expr_advances(
                            toks,
                            (j + 2) as nat,
                            op_prec,
                            (lfuel(toks, j) - 1) as nat,
                        );
                        lemma_sp_loop_fuel(
                            toks,
                            self.idx@,
                            expr_view(left),
                            precedence,
                            (lfuel(toks, j) - 1) as nat,
                            lfuel(toks, self.idx@),
                        );
                        assert(sp_loop_at(toks, self.idx@, expr_view(left), precedence)
                            == target);
                    }
                },
            }
        }
        Some(left)
    }
}

impl Parser {
    /// Parse `let <identifier> = <expression>;` starting at the current
    /// token; the trailing semicolon is optional.  On failure one diagnostic
    /// has been recorded and the cursor rests where parsing stopped.
    pub fn parse_let_statement(&mut self) -> (r: Option<LetStatement>)
        requires
            old(self).wf(),
        ensures
            final(self).wf(),
            final(self).stream() == old(self).stream(),
            match sp_let_stmt(old(self).stream(), old(self).at()) {
                StRes::Found(st, j) => r matches Some(x) && x@ == st && final(self).at() == j
                    && final(self).errs() == old(self).errs(),
                StRes::Failed(d, j) => r is None && final(self).at() == j && final(self).errs()
                    == old(self).errs().push(d),
            },
    {
        let cur_token = self.cur_token.clone();

        if !self.expect_peek(TokenKind::Identifier) {
            return None;
        }

        let name = Identifier {
            token: self.cur_token.clone(),
            value: self.cur_token.literal.clone(),
        };

        if !self.expect_peek(TokenKind::Assign) {
            return None;
        }

        self.next_token();

        let value = match self.parse_expression(LOWEST) {
            None => {
                return None;
            },
            Some(e) => e,
        };

        if self.peek_token_is(TokenKind::Semicolon) {
            self.next_token();
        }

        Some(LetStatement { token: cur_token, name, value: Some(value) })
    }

    /// Parse `return <expression>;` starting at the current token; the
    /// trailing semicolon is optional.
    pub fn parse_return_statement(&mut self) -> (r: Option<ReturnStatement>)
        requires
            old(self).wf(),
        ensures
            final(self).wf(),
            final(self).stream() == old(self).stream(),
            match sp_return_stmt(old(self).stream(), old(self).at()) {
                StRes::Found(st, j) => r matches Some(x) && x@ == st && final(self).at() == j
                    && final(self).errs() == old(self).errs(),
                StRes::Failed(d, j) => r is None && final(self).at() == j && final(self).errs()
                    == old(self).errs().push(d),
            },
    {
        let cur_token = self.cur_token.clone();

        self.next_token();

        let value = match self.parse_expression(LOWEST) {
            None => {
                return None;
            },
            Some(e) => e,
        };

        if self.peek_token_is(TokenKind::Semicolon) {
            self.next_token();
        }

        Some(ReturnStatement { token: cur_token, return_value: Some(value) })
    }

    /// Parse a single expression in statement position; the trailing
    /// semicolon is optional, so bare expressions work at an interactive
    /// prompt.
    pub fn parse_expression_statement(&mut self) -> (r: Option<ExpressionStatement>)
        requires
            old(self).wf(),
        ensures
            final(self).wf(),
            final(self).stream() == old(self).stream(),
            match sp_expr_stmt(old(self).stream(), old(self).at()) {
                StRes::Found(st, j) => r matches Some(x) && x@ == st && final(self).at() == j
                    && final(self).errs() == old(self).errs(),
                StRes::Failed(d, j) => r is None && final(self).at() == j && final(self).errs()
                    == old(self).errs().push(d),
            },
    {
        let cur_token = self.cur_token.clone();

        let expression = match self.parse_expression(LOWEST) {
            None => {
                return None;
            },
            Some(e) => e,
        };

        if self.peek_token_is(TokenKind::Semicolon) {
            self.next_token();
        }

        Some(ExpressionStatement { token: cur_token, expression: Some(expression) })
    }

    /// Parse one statement, dispatching on the current token's kind.
    pub fn parse_statement(&mut self) -> (r: Option<Statement>)
        requires
            old(self).wf(),
        ensures
            final(self).wf(),
            final(self).stream() == old(self).stream(),
            match sp_statement(old(self).stream(), old(self).at()) {
                StRes::Found(st, j) => r matches Some(x) && x@ == st && final(self).at() == j
                    && final(self).errs() == old(self).errs(),
                StRes::Failed(d, j) => r is None && final(self).at() == j && final(self).errs()
                    == old(self).errs().push(d),
            },
    {
        if self.cur_token_is(TokenKind::Let) {
            match self.parse_let_statement() {
                None => None,
                Some(let_stat) => Some(Statement::Let(let_stat)),
            }
        } else if self.cur_token_is(TokenKind::Return) {
            match self.parse_return_statement() {
                None => None,
                Some(return_stat) => Some(Statement::Return(return_stat)),
            }
        } else {
            match self.parse_expression_statement() {
                None => None,
                Some(expression_stat) => Some(Statement::Expr(expression_stat)),
            }
        }
    }

    /// Drive the lexer to exhaustion: parse statements until the end of the
    /// stream, keeping every successfully parsed statement in source order.
    /// A malformed statement is skipped up to the next statement boundary and
    /// leaves one diagnostic in the error list; an empty error list afterwards
    /// means a syntactically clean program.
    #[verifier::loop_isolation(false)]
    pub fn parse_program(&mut self) -> (r: Program)
        requires
            old(self).wf(),
        ensures
            final(self).wf(),
            r@ == sp_program(old(self).stream(), old(self).at()).0,
            final(self).errs() == old(self).errs() + sp_program(
                old(self).stream(),
                old(self).at(),
            ).1,
    {
        let ghost toks = self.toks@;
        let ghost i0 = self.idx@;
        let ghost errs0 = self.errs();
        let ghost target = sp_program(toks, i0);
        let mut statements: Vec<Statement> = Vec::new();
        proof {
            assert(statements.deep_view() + target.0 =~= target.0);
        }
        while !self.cur_token_is(TokenKind::EndOfFile)
            invariant
                self.wf(),
                self.toks@ == toks,
                target.0 == statements.deep_view() + sp_program(toks, self.idx@).0,
                errs0 + target.1 == self.errs() + sp_program(toks, self.idx@).1,
            decreases meas(toks, self.idx@),
        {
            let ghost i = self.idx@;
            let ghost dv0 = statements.deep_view();
            let ghost errs_before = self.errs();
            proof {
                assert(i < toks.len());
                lemma_sp_statement_advances(toks, i);
            }
            match self.parse_statement() {
                Some(stat) => {
                    let ghost j = self.idx@;
                    statements.push(stat);
                    self.next_token();
                    proof {
                        let rest = sp_program(toks, (j + 1) as nat);
                        assert(statements.deep_view() =~= dv0.push(stmt_view(stat)));
                        assert(dv0 + (seq![stmt_view(stat)] + rest.0) =~= dv0.push(
                            stmt_view(stat),
                        ) + rest.0);
                    }
                },
                None => {
                    let ghost jf = self.idx@;
                    let ghost efail = self.errs();
                    while !self.cur_token_is(TokenKind::Semicolon) && !self.cur_token_is(
                        TokenKind::EndOfFile,
                    )
                        invariant
                            self.wf(),
                            self.toks@ == toks,
                            self.errs() == efail,
                            sp_sync(toks, self.idx@) == sp_sync(toks, jf),
                        decreases meas(toks, self.idx@),
                    {
                        proof {
                            assert(self.idx@ < toks.len());
                        }
                        self.next_token();
                    }
                    self.next_token();
                    proof {
                        lemma_sp_sync_bounds(toks, jf);
                        let rest = sp_program(toks, (sp_sync(toks, jf) + 1) as nat);
                        if let StRes::Failed(d2, _) = sp_statement(toks, i) {
                            assert(errs_before + (seq![d2] + rest.1) =~= errs_before.push(d2)
                                + rest.1);
                        }
                    }
                },
            }
        }
        let prog = Program { statements };
        proof {
            assert(target.0 =~= prog@ + Seq::<SpecStmt>::empty());
            assert(prog@ + Seq::<SpecStmt>::empty() =~= prog@);
            assert(errs0 + target.1 =~= self.errs() + Seq::<SpecDiag>::empty());
        }
        prog
    }
}

} // verus!

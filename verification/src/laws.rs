//! Laws of the lexer and parser, stated and proved over their specification
//! models: left-associativity of same-precedence operators, symbol-table
//! lexing, and the format/re-parse round trip.

use vstd::prelude::*;

use crate::ast::{fmt_expr, SpecExpr, SpecIdent, SpecStmt};
use crate::lexer::{
    char_at, digit_end, ident_end, is_digit_spec, is_letter_spec, lemma_ident_end,
    lemma_scan_bounds, lemma_skip_ws, skip_ws, spec_scan, tokens_from,
};
use crate::parser::{
    digits_val, is_digits, is_infix_op, lemma_sp_expr_fuel, lemma_sp_loop_fuel, lfuel, sfuel,
    sp_expr, sp_expr_at, sp_expr_stmt, sp_loop, sp_loop_at, sp_prefix_rest, sp_program,
    sp_statement, spec_loop_cond, spec_precedence, tok_at, ExpRes, SpecDiag, StRes, LOWEST, PREFIX,
};
use crate::token::{spec_lookup_ident, SpecTok, TokenKind};

verus! {

/// Law: same-precedence infix operators bind to the left.  For any operand
/// tokens `a OP b OP c` where both operators carry the same precedence, the
/// parsed tree is `((a OP b) OP c)`, never `(a OP (b OP c))`.
pub proof fn theorem_left_associativity(
    a: SpecTok,
    op1: SpecTok,
    b: SpecTok,
    op2: SpecTok,
    c: SpecTok,
)
    requires
        a.kind == TokenKind::Identifier,
        b.kind == TokenKind::Identifier,
        c.kind == TokenKind::Identifier,
        is_infix_op(op1.kind),
        is_infix_op(op2.kind),
        spec_precedence(op1.kind) == spec_precedence(op2.kind),
    ensures
        sp_expr_at(seq![a, op1, b, op2, c], 0, LOWEST) == ExpRes::Found(
            SpecExpr::Infix {
                token: op2,
                left: Box::new(
                    SpecExpr::Infix {
                        token: op1,
                        left: Box::new(SpecExpr::Ident(SpecIdent { token: a, value: a.lit })),
                        operator: op1.lit,
                        right: Box::new(SpecExpr::Ident(SpecIdent { token: b, value: b.lit })),
                    },
                ),
                operator: op2.lit,
                right: Box::new(SpecExpr::Ident(SpecIdent { token: c, value: c.lit })),
            },
            4nat,
        ),
{
    let toks = seq![a, op1, b, op2, c];
    let p = spec_precedence(op1.kind);
    let ea = SpecExpr::Ident(SpecIdent { token: a, value: a.lit });
    let eb = SpecExpr::Ident(SpecIdent { token: b, value: b.lit });
    let ec = SpecExpr::Ident(SpecIdent { token: c, value: c.lit });
    let eab = SpecExpr::Infix {
        token: op1,
        left: Box::new(ea),
        operator: op1.lit,
        right: Box::new(eb),
    };
    let eabc = SpecExpr::Infix {
        token: op2,
        left: Box::new(eab),
        operator: op2.lit,
        right: Box::new(ec),
    };
    assert(LOWEST < p);
    assert(op1.kind != TokenKind::Semicolon);
    assert(op2.kind != TokenKind::Semicolon);
    assert(tok_at(toks, 0) == a && tok_at(toks, 1) == op1 && tok_at(toks, 2) == b && tok_at(
        toks,
        3,
    ) == op2 && tok_at(toks, 4) == c);
    assert(tok_at(toks, 5).kind == TokenKind::EndOfFile);
    assert(sp_expr(toks, 0, LOWEST, 6) == sp_loop(toks, 0, ea, LOWEST, 5));
    assert(sp_expr(toks, 2, p, 4) == sp_loop(toks, 2, eb, p, 3));
    assert(sp_loop(toks, 2, eb, p, 3) == ExpRes::Found(eb, 2nat));
    assert(sp_loop(toks, 0, ea, LOWEST, 5) == sp_loop(toks, 2, eab, LOWEST, 4));
    assert(sp_expr(toks, 4, p, 3) == sp_loop(toks, 4, ec, p, 2));
    assert(sp_loop(toks, 4, ec, p, 2) == ExpRes::Found(ec, 4nat));
    assert(sp_loop(toks, 2, eab, LOWEST, 4) == sp_loop(toks, 4, eabc, LOWEST, 3));
    assert(sp_loop(toks, 4, eabc, LOWEST, 3) == ExpRes::Found(eabc, 4nat));
}

/// The token stream holds, starting at `i`, a chain of `n` same-precedence
/// infix operators between identifiers — `x0 OP x1 OP ... OP xn` — and the
/// climbing loop stops right after the chain.
pub open spec fn chain_shape(toks: Seq<SpecTok>, i: nat, n: nat, p: u8) -> bool {
    &&& tok_at(toks, i).kind == TokenKind::Identifier
    &&& forall|k: nat|
        k < n ==> is_infix_op(#[trigger] tok_at(toks, (i + 2 * k + 1) as nat).kind)
            && spec_precedence(tok_at(toks, (i + 2 * k + 1) as nat).kind) == p
    &&& forall|k: nat|
        k < n ==> (#[trigger] tok_at(toks, (i + 2 * k + 2) as nat)).kind
            == TokenKind::Identifier
    &&& !spec_loop_cond(toks, (i + 2 * n) as nat, LOWEST)
}

/// The identifier expression made from the token at index `j`.
pub open spec fn ident_at(toks: Seq<SpecTok>, j: nat) -> SpecExpr {
    SpecExpr::Ident(SpecIdent { token: tok_at(toks, j), value: tok_at(toks, j).lit })
}

/// The left-nested tree of the chain's first `k` operators:
/// `((..(x0 OP x1) OP ..) OP xk)`.
pub open spec fn chain_fold(toks: Seq<SpecTok>, i: nat, k: nat) -> SpecExpr
    decreases k,
{
    if k == 0 {
        ident_at(toks, i)
    } else {
        SpecExpr::Infix {
            token: tok_at(toks, (i + 2 * k - 1) as nat),
            left: Box::new(chain_fold(toks, i, (k - 1) as nat)),
            operator: tok_at(toks, (i + 2 * k - 1) as nat).lit,
            right: Box::new(ident_at(toks, (i + 2 * k) as nat)),
        }
    }
}

proof fn lemma_chain_loop(toks: Seq<SpecTok>, i: nat, n: nat, p: u8, k: nat, fuel: nat)
    requires
        chain_shape(toks, i, n, p),
        k <= n,
        k < n ==> fuel >= lfuel(toks, (i + 2 * k) as nat),
    ensures
        sp_loop(toks, (i + 2 * k) as nat, chain_fold(toks, i, k), LOWEST, fuel) == ExpRes::Found(
            chain_fold(toks, i, n),
            (i + 2 * n) as nat,
        ),
    decreases n - k,
{
    let j = (i + 2 * k) as nat;
    if k == n {
        assert(!spec_loop_cond(toks, j, LOWEST));
        assert(sp_loop(toks, j, chain_fold(toks, i, k), LOWEST, fuel) == ExpRes::Found(
            chain_fold(toks, i, k),
            j,
        ));
    } else {
        let op = tok_at(toks, (i + 2 * k + 1) as nat);
        let x = tok_at(toks, (i + 2 * k + 2) as nat);
        assert(is_infix_op(op.kind) && spec_precedence(op.kind) == p);
        assert(x.kind == TokenKind::Identifier);
        assert(LOWEST < p);
        assert(op.kind != TokenKind::Semicolon);
        // the operator is a real token, so the stream extends past it
        assert(j + 1 < toks.len());
        assert(fuel >= 2);
        // the right operand: one identifier, after which the loop at
        // precedence p stops at once
        let right = ident_at(toks, (i + 2 * k + 2) as nat);
        assert(sp_expr(toks, (j + 2) as nat, p, (fuel - 1) as nat) == sp_loop(
            toks,
            (j + 2) as nat,
            right,
            p,
            (fuel - 2) as nat,
        ));
        assert(!spec_loop_cond(toks, (j + 2) as nat, p)) by {
            if k + 1 < n {
                assert(spec_precedence(
                    tok_at(toks, (i + 2 * (k + 1) + 1) as nat).kind,
                ) == p);
                assert(tok_at(toks, (j + 2 + 1) as nat) == tok_at(
                    toks,
                    (i + 2 * (k + 1) + 1) as nat,
                ));
            } else {
                assert((j + 2) as nat == (i + 2 * n) as nat);
                assert(!spec_loop_cond(toks, (i + 2 * n) as nat, LOWEST));
            }
        }
        assert(sp_loop(toks, (j + 2) as nat, right, p, (fuel - 2) as nat) == ExpRes::Found(
            right,
            (j + 2) as nat,
        ));
        let folded = SpecExpr::Infix {
            token: op,
            left: Box::new(chain_fold(toks, i, k)),
            operator: op.lit,
            right: Box::new(right),
        };
        assert(folded == chain_fold(toks, i, (k + 1) as nat));
        assert(sp_loop(toks, j, chain_fold(toks, i, k), LOWEST, fuel) == sp_loop(
            toks,
            (j + 2) as nat,
            folded,
            LOWEST,
            (fuel - 1) as nat,
        ));
        lemma_chain_loop(toks, i, n, p, (k + 1) as nat, (fuel - 1) as nat);
    }
}

/// Law: a whole chain of same-precedence infix operators between identifiers,
/// `x0 OP x1 OP ... OP xn`, parses to the left-nested tree
/// `((..(x0 OP x1) OP ..) OP xn)`, whatever its length.
pub proof fn theorem_left_associativity_chain(toks: Seq<SpecTok>, i: nat, n: nat, p: u8)
    requires
        chain_shape(toks, i, n, p),
    ensures
        sp_expr_at(toks, i, LOWEST) == ExpRes::Found(chain_fold(toks, i, n), (i + 2 * n) as nat),
{
    assert(i < toks.len());
    assert(sp_expr(toks, i, LOWEST, sfuel(toks, i)) == sp_loop(
        toks,
        i,
        ident_at(toks, i),
        LOWEST,
        (sfuel(toks, i) - 1) as nat,
    ));
    assert(chain_fold(toks, i, 0) == ident_at(toks, i));
    if n > 0 {
        assert(sfuel(toks, i) - 1 >= lfuel(toks, i));
    }
    lemma_chain_loop(toks, i, n, p, 0, (sfuel(toks, i) - 1) as nat);
}

/// The single- and double-character symbols of the token table.
pub open spec fn is_symbol(s: Seq<char>) -> bool {
    ||| s == seq!['=']
    ||| s == seq!['+']
    ||| s == seq!['(']
    ||| s == seq![')']
    ||| s == seq!['{']
    ||| s == seq!['}']
    ||| s == seq![',']
    ||| s == seq![';']
    ||| s == seq!['=', '=']
    ||| s == seq!['!', '=']
}

/// The kind the symbol table assigns to each symbol.
pub open spec fn symbol_kind(s: Seq<char>) -> TokenKind {
    if s == seq!['='] {
        TokenKind::Assign
    } else if s == seq!['+'] {
        TokenKind::Plus
    } else if s == seq!['('] {
        TokenKind::LParen
    } else if s == seq![')'] {
        TokenKind::RParen
    } else if s == seq!['{'] {
        TokenKind::LBrace
    } else if s == seq!['}'] {
        TokenKind::RBrace
    } else if s == seq![','] {
        TokenKind::Comma
    } else if s == seq![';'] {
        TokenKind::Semicolon
    } else if s == seq!['=', '='] {
        TokenKind::Equal
    } else {
        TokenKind::NotEqual
    }
}

/// The concatenation of a sequence of symbols into one input.
pub open spec fn cat(syms: Seq<Seq<char>>) -> Seq<char>
    decreases syms.len(),
{
    if syms.len() == 0 {
        Seq::empty()
    } else {
        syms[0] + cat(syms.drop_first())
    }
}

/// An `=` symbol directly followed by a symbol that starts with `=` would
/// merge into the two-character `==` token; such a pairing is excluded.
pub open spec fn no_merge(syms: Seq<Seq<char>>) -> bool {
    forall|k: int|
        #![trigger syms[k]]
        0 <= k && k + 1 < syms.len() ==> !(syms[k] == seq!['='] && syms[k + 1][0] == '=')
}

/// The token each symbol stands for: its table kind and the symbol itself as
/// the literal.
pub open spec fn sym_toks(syms: Seq<Seq<char>>) -> Seq<SpecTok> {
    syms.map(|k: int, s: Seq<char>| SpecTok { kind: symbol_kind(s), lit: s })
}

proof fn lemma_symbols_from(s: Seq<char>, pos: nat, syms: Seq<Seq<char>>)
    requires
        pos <= s.len(),
        s.subrange(pos as int, s.len() as int) == cat(syms),
        forall|k: int| 0 <= k < syms.len() ==> is_symbol(#[trigger] syms[k]),
        no_merge(syms),
    ensures
        tokens_from(s, pos) == sym_toks(syms),
        spec_scan(s, (pos + cat(syms).len()) as nat).0.kind == TokenKind::EndOfFile,
    decreases syms.len(),
{
    if syms.len() == 0 {
        assert(pos == s.len());
        assert(skip_ws(s, pos) == pos);
        assert(char_at(s, pos) == '\0');
        assert(tokens_from(s, pos) =~= Seq::<SpecTok>::empty());
        assert(sym_toks(syms) =~= Seq::<SpecTok>::empty());
    } else {
        let sym = syms[0];
        let l0 = sym.len();
        let rest = syms.drop_first();
        assert(is_symbol(sym));
        assert(cat(syms) == sym + cat(rest));
        assert forall|q: int| 0 <= q < l0 implies s[pos + q] == sym[q] by {
            assert(s.subrange(pos as int, s.len() as int)[q] == s[pos + q]);
            assert((sym + cat(rest))[q] == sym[q]);
        }
        assert(s[pos as int] == sym[0]);
        assert(pos + l0 <= s.len()) by {
            assert(s.subrange(pos as int, s.len() as int).len() == cat(syms).len());
            assert(cat(syms).len() == l0 + cat(rest).len());
        }
        assert(s.subrange(pos as int + l0 as int, s.len() as int) =~= cat(rest)) by {
            assert forall|q: int| 0 <= q < s.len() - pos - l0 implies s.subrange(
                pos as int + l0 as int,
                s.len() as int,
            )[q] == cat(rest)[q] by {
                assert(s.subrange(pos as int, s.len() as int)[l0 as int + q] == s[pos + l0 + q]);
                assert((sym + cat(rest))[l0 as int + q] == cat(rest)[q]);
            }
        }
        // what the character after the symbol is, if the symbol is `=`
        assert(skip_ws(s, pos) == pos);
        let tok = SpecTok { kind: symbol_kind(sym), lit: sym };
        if sym == seq!['='] {
            assert(char_at(s, (pos + 1) as nat) != '=') by {
                if rest.len() == 0 {
                    assert(pos + 1 == s.len());
                } else {
                    assert(is_symbol(rest[0]));
                    assert(rest[0].len() >= 1);
                    assert(cat(rest)[0] == rest[0][0]);
                    assert(s[pos as int + 1] == cat(rest)[0]);
                    assert(syms[1] == rest[0]);
                    assert(!(syms[0] == seq!['='] && syms[1][0] == '='));
                }
            }
            assert(spec_scan(s, pos) == (tok, (pos + 1) as nat));
        } else if sym == seq!['=', '='] {
            assert(s[pos as int + 1] == ('='));
            assert(spec_scan(s, pos) == (tok, (pos + 2) as nat));
        } else if sym == seq!['!', '='] {
            assert(s[pos as int + 1] == ('='));
            assert(spec_scan(s, pos) == (tok, (pos + 2) as nat));
        } else {
            assert(spec_scan(s, pos) == (tok, (pos + 1) as nat));
        }
        lemma_symbols_from(s, (pos + l0) as nat, rest);
        assert(tokens_from(s, pos) == seq![tok] + sym_toks(rest));
        assert(sym_toks(syms) =~= seq![tok] + sym_toks(rest));
        assert(pos + cat(syms).len() == (pos + l0) + cat(rest).len());
    }
}

/// Law: an input made only of table symbols — provided no `=` symbol directly
/// precedes a symbol that starts with `=`, which would merge into one `==`
/// token — lexes to exactly those symbols' kinds and literals, and scanning
/// past them yields `EndOfFile`.
pub proof fn theorem_symbol_lexing(syms: Seq<Seq<char>>)
    requires
        forall|k: int| 0 <= k < syms.len() ==> is_symbol(#[trigger] syms[k]),
        no_merge(syms),
    ensures
        tokens_from(cat(syms), 0) == sym_toks(syms),
        spec_scan(cat(syms), cat(syms).len()).0.kind == TokenKind::EndOfFile,
{
    let s = cat(syms);
    assert(s.subrange(0, s.len() as int) =~= s);
    lemma_symbols_from(s, 0, syms);
}

/// The literal an infix or unary operator token carries, by its kind.
pub open spec fn op_lit(k: TokenKind) -> Seq<char> {
    match k {
        TokenKind::Equal => seq!['=', '='],
        TokenKind::NotEqual => seq!['!', '='],
        TokenKind::LessThan => seq!['<'],
        TokenKind::GreaterThan => seq!['>'],
        TokenKind::Plus => seq!['+'],
        TokenKind::Minus => seq!['-'],
        TokenKind::Slash => seq!['/'],
        TokenKind::Asterisk => seq!['*'],
        TokenKind::Bang => seq!['!'],
        _ => Seq::empty(),
    }
}

/// An identifier lexeme: a non-empty letter run that is not a keyword.
pub open spec fn is_ident_lit(s: Seq<char>) -> bool {
    &&& s.len() > 0
    &&& forall|q: int| 0 <= q < s.len() ==> is_letter_spec(#[trigger] s[q])
    &&& spec_lookup_ident(s) == TokenKind::Identifier
}

/// A well-formed expression tree: one whose tokens, literals and values agree
/// the way the parser always leaves them.
pub open spec fn wf_expr(e: SpecExpr) -> bool
    decreases e,
{
    match e {
        SpecExpr::Ident(id) => id.token.kind == TokenKind::Identifier && id.token.lit == id.value
            && is_ident_lit(id.value),
        SpecExpr::Int { token, value } => token.kind == TokenKind::Integer && is_digits(token.lit)
            && digits_val(token.lit) == value as nat,
        SpecExpr::Bool { token, value } => token.kind == (if value {
            TokenKind::True
        } else {
            TokenKind::False
        }) && token.lit == (if value {
            seq!['t', 'r', 'u', 'e']
        } else {
            seq!['f', 'a', 'l', 's', 'e']
        }),
        SpecExpr::Prefix { token, operator, right } => (token.kind == TokenKind::Bang
            || token.kind == TokenKind::Minus) && token.lit == op_lit(token.kind) && operator
            == token.lit && wf_expr(*right),
        SpecExpr::Infix { token, left, operator, right } => is_infix_op(token.kind) && token.lit
            == op_lit(token.kind) && operator == token.lit && wf_expr(*left) && wf_expr(*right),
    }
}

pub open spec fn lparen_tok() -> SpecTok {
    SpecTok { kind: TokenKind::LParen, lit: seq!['('] }
}

pub open spec fn rparen_tok() -> SpecTok {
    SpecTok { kind: TokenKind::RParen, lit: seq![')'] }
}

/// The token sequence of an expression's canonical textual form.
pub open spec fn etoks(e: SpecExpr) -> Seq<SpecTok>
    decreases e,
{
    match e {
        SpecExpr::Ident(id) => seq![id.token],
        SpecExpr::Int { token, .. } => seq![token],
        SpecExpr::Bool { token, .. } => seq![token],
        SpecExpr::Prefix { token, right, .. } => seq![lparen_tok(), token] + etoks(*right) + seq![
            rparen_tok(),
        ],
        SpecExpr::Infix { token, left, right, .. } => seq![lparen_tok()] + etoks(*left) + seq![
            token,
        ] + etoks(*right) + seq![rparen_tok()],
    }
}

pub open spec fn ntoks(e: SpecExpr) -> nat {
    etoks(e).len()
}

/// Re-parsing, step one: on its own token sequence, the expression parser
/// first rebuilds exactly the expression `e` as the left operand — every
/// canonically formatted expression is one unit for the prefix strategies,
/// parenthesized so tightly that the climbing loop never fires inside it —
/// and then continues as the climbing loop from `e`'s last token.
pub proof fn lemma_reparse_prefix(toks: Seq<SpecTok>, i: nat, prec: u8, e: SpecExpr)
    requires
        wf_expr(e),
        i + ntoks(e) <= toks.len(),
        toks.subrange(i as int, (i + ntoks(e)) as int) == etoks(e),
    ensures
        ntoks(e) >= 1,
        sp_expr_at(toks, i, prec) == sp_loop_at(toks, (i + ntoks(e) - 1) as nat, e, prec),
    decreases e,
{
    let n = ntoks(e);
    assert(toks.subrange(i as int, (i + n) as int)[0] == toks[i as int]);
    match e {
        SpecExpr::Ident(id) => {
            assert(tok_at(toks, i) == id.token);
            assert(sp_expr(toks, i, prec, sfuel(toks, i)) == sp_loop(
                toks,
                i,
                e,
                prec,
                (sfuel(toks, i) - 1) as nat,
            ));
            lemma_sp_loop_fuel(toks, i, e, prec, (sfuel(toks, i) - 1) as nat, lfuel(toks, i));
        },
        SpecExpr::Int { token, value } => {
            assert(tok_at(toks, i) == token);
            assert(digits_val(token.lit) <= usize::MAX as nat);
            assert(sp_expr(toks, i, prec, sfuel(toks, i)) == sp_loop(
                toks,
                i,
                SpecExpr::Int { token, value: digits_val(token.lit) as usize },
                prec,
                (sfuel(toks, i) - 1) as nat,
            ));
            assert(digits_val(token.lit) as usize == value);
            lemma_sp_loop_fuel(toks, i, e, prec, (sfuel(toks, i) - 1) as nat, lfuel(toks, i));
        },
        SpecExpr::Bool { token, value } => {
            assert(tok_at(toks, i) == token);
            assert(sp_expr(toks, i, prec, sfuel(toks, i)) == sp_loop(
                toks,
                i,
                e,
                prec,
                (sfuel(toks, i) - 1) as nat,
            ));
            lemma_sp_loop_fuel(toks, i, e, prec, (sfuel(toks, i) - 1) as nat, lfuel(toks, i));
        },
        SpecExpr::Prefix { token, operator, right } => {
            let nr = ntoks(*right);
            assert(n == 3 + nr);
            let lr = (i + 1 + nr) as nat;
            // the layout of the formatted tokens: ( op <right> )
            assert forall|q: int| 0 <= q < n implies tok_at(toks, (i + q) as nat) == etoks(e)[q] by {
                assert(toks.subrange(i as int, (i + n) as int)[q] == toks[i as int + q]);
            }
            assert(etoks(e)[0] == lparen_tok());
            assert(etoks(e)[1] == token);
            assert(etoks(e)[n as int - 1] == rparen_tok());
            assert forall|q: int| 0 <= q < nr implies etoks(e)[2 + q] == etoks(*right)[q] by {}
            assert(tok_at(toks, i) == lparen_tok());
            assert(tok_at(toks, (i + 1) as nat) == token);
            assert(tok_at(toks, (lr + 1) as nat) == rparen_tok());
            // the right operand's tokens sit at i + 2
            assert(toks.subrange(i as int + 2, (i + 2 + nr) as int) =~= etoks(*right)) by {
                assert forall|q: int| 0 <= q < nr implies toks.subrange(
                    i as int + 2,
                    (i + 2 + nr) as int,
                )[q] == etoks(*right)[q] by {
                    assert(toks.subrange(i as int + 2, (i + 2 + nr) as int)[q] == toks[i as int + 2
                        + q]);
                    assert(tok_at(toks, (i + (2 + q)) as nat) == etoks(e)[2 + q]);
                }
            }
            lemma_reparse_prefix(toks, (i + 2) as nat, PREFIX, *right);
            // the operand parse ends right before the closing parenthesis,
            // where the climbing loop at `Prefix` precedence stops
            assert(sp_loop_at(toks, lr, *right, PREFIX) == ExpRes::Found(*right, lr));
            // the inner expression of the group: the unary operator applied
            // to the operand
            assert(i + 1 < toks.len());
            let fin = sfuel(toks, (i + 1) as nat);
            assert(sp_expr(toks, (i + 1) as nat, LOWEST, fin) == sp_prefix_rest(
                toks,
                (i + 1) as nat,
                LOWEST,
                fin,
            ));
            lemma_sp_expr_fuel(toks, (i + 2) as nat, PREFIX, (fin - 1) as nat, sfuel(toks, (i
                + 2) as nat));
            assert(sp_expr(toks, (i + 2) as nat, PREFIX, (fin - 1) as nat) == ExpRes::Found(
                *right,
                lr,
            ));
            assert(sp_prefix_rest(toks, (i + 1) as nat, LOWEST, fin) == sp_loop(
                toks,
                lr,
                e,
                LOWEST,
                (fin - 1) as nat,
            ));
            assert(sp_loop(toks, lr, e, LOWEST, (fin - 1) as nat) == ExpRes::Found(e, lr));
            assert(sp_expr_at(toks, (i + 1) as nat, LOWEST) == ExpRes::Found(e, lr));
            // the enclosing group consumes the parentheses and hands `e` on
            assert(i < toks.len());
            let f0 = sfuel(toks, i);
            lemma_sp_expr_fuel(toks, (i + 1) as nat, LOWEST, (f0 - 1) as nat, fin);
            assert(sp_expr(toks, i, prec, f0) == sp_loop(toks, (lr + 1) as nat, e, prec, (f0
                - 1) as nat));
            lemma_sp_loop_fuel(toks, (lr + 1) as nat, e, prec, (f0 - 1) as nat, lfuel(toks, (lr
                + 1) as nat));
            assert((lr + 1) as nat == (i + n - 1) as nat);
        },
        SpecExpr::Infix { token, left, operator, right } => {
            let nl = ntoks(*left);
            let nr = ntoks(*right);
            assert(n == 3 + nl + nr);
            let ll = (i + nl) as nat;  // last token of the left operand
            let lr = (i + nl + 1 + nr) as nat;  // last token of the right operand
            assert forall|q: int| 0 <= q < n implies tok_at(toks, (i + q) as nat) == etoks(e)[q] by {
                assert(toks.subrange(i as int, (i + n) as int)[q] == toks[i as int + q]);
            }
            assert(etoks(e)[0] == lparen_tok());
            assert forall|q: int| 0 <= q < nl implies etoks(e)[1 + q] == etoks(*left)[q] by {}
            assert(etoks(e)[1 + nl as int] == token);
            assert forall|q: int| 0 <= q < nr implies etoks(e)[2 + nl as int + q] == etoks(
                *right,
            )[q] by {}
            assert(etoks(e)[n as int - 1] == rparen_tok());
            assert(tok_at(toks, i) == lparen_tok());
            assert(tok_at(toks, (ll + 1) as nat) == token);
            assert(tok_at(toks, (lr + 1) as nat) == rparen_tok());
            assert(toks.subrange(i as int + 1, (i + 1 + nl) as int) =~= etoks(*left)) by {
                assert forall|q: int| 0 <= q < nl implies toks.subrange(
                    i as int + 1,
                    (i + 1 + nl) as int,
                )[q] == etoks(*left)[q] by {
                    assert(toks.subrange(i as int + 1, (i + 1 + nl) as int)[q] == toks[i as int + 1
                        + q]);
                    assert(tok_at(toks, (i + (1 + q)) as nat) == etoks(e)[1 + q]);
                }
            }
            assert(toks.subrange((ll + 2) as int, (ll + 2 + nr) as int) =~= etoks(*right)) by {
                assert forall|q: int| 0 <= q < nr implies toks.subrange(
                    (ll + 2) as int,
                    (ll + 2 + nr) as int,
                )[q] == etoks(*right)[q] by {
                    assert(toks.subrange((ll + 2) as int, (ll + 2 + nr) as int)[q] == toks[ll as int
                        + 2 + q]);
                    assert(tok_at(toks, (i + (2 + nl + q)) as nat) == etoks(e)[2 + nl as int + q]);
                }
            }
            let p = spec_precedence(token.kind);
            assert(LOWEST < p);
            // the left operand parse, then one turn of the climbing loop for
            // the operator, then the right operand parse
            lemma_reparse_prefix(toks, (i + 1) as nat, LOWEST, *left);
            lemma_reparse_prefix(toks, (ll + 2) as nat, p, *right);
            assert(sp_loop_at(toks, lr, *right, p) == ExpRes::Found(*right, lr));
            let fl = lfuel(toks, ll);
            assert(ll + 1 < toks.len());
            assert(fl >= 2);
            lemma_sp_expr_fuel(toks, (ll + 2) as nat, p, (fl - 1) as nat, sfuel(toks, (ll
                + 2) as nat));
            assert(sp_expr(toks, (ll + 2) as nat, p, (fl - 1) as nat) == ExpRes::Found(*right, lr));
            assert(sp_loop_at(toks, ll, *left, LOWEST) == sp_loop(toks, lr, e, LOWEST, (fl
                - 1) as nat));
            assert(sp_loop(toks, lr, e, LOWEST, (fl - 1) as nat) == ExpRes::Found(e, lr));
            assert(sp_expr_at(toks, (i + 1) as nat, LOWEST) == ExpRes::Found(e, lr));
            // the enclosing group consumes the parentheses and hands `e` on
            assert(i < toks.len());
            let f0 = sfuel(toks, i);
            lemma_sp_expr_fuel(toks, (i + 1) as nat, LOWEST, (f0 - 1) as nat, sfuel(toks, (i
                + 1) as nat));
            assert(sp_expr(toks, i, prec, f0) == sp_loop(toks, (lr + 1) as nat, e, prec, (f0
                - 1) as nat));
            lemma_sp_loop_fuel(toks, (lr + 1) as nat, e, prec, (f0 - 1) as nat, lfuel(toks, (lr
                + 1) as nat));
            assert((lr + 1) as nat == (i + n - 1) as nat);
        },
    }
}

/// Re-parsing, step two: when nothing after the expression can continue the
/// climbing loop, re-parsing its token sequence yields exactly `e`.
pub proof fn lemma_reparse(toks: Seq<SpecTok>, i: nat, prec: u8, e: SpecExpr)
    requires
        wf_expr(e),
        i + ntoks(e) <= toks.len(),
        toks.subrange(i as int, (i + ntoks(e)) as int) == etoks(e),
        !spec_loop_cond(toks, (i + ntoks(e) - 1) as nat, prec),
    ensures
        sp_expr_at(toks, i, prec) == ExpRes::Found(e, (i + ntoks(e) - 1) as nat),
{
    lemma_reparse_prefix(toks, i, prec, e);
}

/// The character length of an expression's canonical textual form.
pub open spec fn flen(e: SpecExpr) -> nat {
    fmt_expr(e).len()
}

/// What may stand right after a formatted expression without changing how its
/// last token is scanned: the end of the input, a space, or a closing
/// parenthesis.
pub open spec fn follower_ok(s: Seq<char>, j: nat) -> bool {
    j == s.len() || s[j as int] == ' ' || s[j as int] == ')'
}

/// Scanning at a space is scanning right after it.
proof fn lemma_scan_space(s: Seq<char>, pos: nat)
    requires
        pos < s.len(),
        s[pos as int] == ' ',
    ensures
        spec_scan(s, pos) == spec_scan(s, (pos + 1) as nat),
        tokens_from(s, pos) == tokens_from(s, (pos + 1) as nat),
{
    assert(skip_ws(s, pos) == skip_ws(s, (pos + 1) as nat));
    let t = spec_scan(s, pos).0;
    if t.kind == TokenKind::EndOfFile {
        assert(tokens_from(s, pos) =~= tokens_from(s, (pos + 1) as nat));
    } else {
        assert(tokens_from(s, pos) == seq![t] + tokens_from(s, spec_scan(s, pos).1));
        assert(tokens_from(s, (pos + 1) as nat) == seq![t] + tokens_from(s, spec_scan(s, pos).1));
    }
}

/// A letter run ends exactly at its first non-letter.
proof fn lemma_ident_run(s: Seq<char>, pos: nat, end: nat)
    requires
        pos <= end <= s.len(),
        forall|q: int| pos <= q < end ==> is_letter_spec(#[trigger] s[q]),
        !is_letter_spec(char_at(s, end)),
    ensures
        ident_end(s, pos) == end,
    decreases end - pos,
{
    if pos < end {
        lemma_ident_run(s, (pos + 1) as nat, end);
    }
}

/// A digit run ends exactly at its first non-digit.
proof fn lemma_digit_run(s: Seq<char>, pos: nat, end: nat)
    requires
        pos <= end <= s.len(),
        forall|q: int| pos <= q < end ==> is_digit_spec(#[trigger] s[q]),
        !is_digit_spec(char_at(s, end)),
    ensures
        digit_end(s, pos) == end,
    decreases end - pos,
{
    if pos < end {
        lemma_digit_run(s, (pos + 1) as nat, end);
    }
}

/// Scanning at a letter run yields the run, resolved against the keyword
/// table, and stops right after it.
proof fn lemma_scan_letters(s: Seq<char>, pos: nat, end: nat)
    requires
        pos < end <= s.len(),
        forall|q: int| pos <= q < end ==> is_letter_spec(#[trigger] s[q]),
        !is_letter_spec(char_at(s, end)),
    ensures
        spec_scan(s, pos) == (
            SpecTok {
                kind: spec_lookup_ident(s.subrange(pos as int, end as int)),
                lit: s.subrange(pos as int, end as int),
            },
            end,
        ),
{
    assert(is_letter_spec(s[pos as int]));
    assert(skip_ws(s, pos) == pos);
    let c = char_at(s, pos);
    assert(c != '\0' && c != '=' && c != '!' && c != '+' && c != '-' && c != '/' && c != '*' && c
        != '>' && c != '<' && c != ';' && c != ',' && c != '(' && c != ')' && c != '{' && c != '}');
    lemma_ident_run(s, pos, end);
}

/// Scanning at a digit run yields an `Integer` token and stops right after
/// the run.
proof fn lemma_scan_digits(s: Seq<char>, pos: nat, end: nat)
    requires
        pos < end <= s.len(),
        forall|q: int| pos <= q < end ==> is_digit_spec(#[trigger] s[q]),
        !is_digit_spec(char_at(s, end)),
    ensures
        spec_scan(s, pos) == (
            SpecTok {
                kind: TokenKind::Integer,
                lit: s.subrange(pos as int, end as int),
            },
            end,
        ),
{
    assert(is_digit_spec(s[pos as int]));
    assert(skip_ws(s, pos) == pos);
    let c = char_at(s, pos);
    assert(!is_letter_spec(c));
    assert(c != '\0' && c != '=' && c != '!' && c != '+' && c != '-' && c != '/' && c != '*' && c
        != '>' && c != '<' && c != ';' && c != ',' && c != '(' && c != ')' && c != '{' && c != '}');
    lemma_digit_run(s, pos, end);
}

/// A canonically formatted expression is non-empty and starts with a letter,
/// a digit, or an opening parenthesis.
proof fn lemma_fmt_first(e: SpecExpr)
    requires
        wf_expr(e),
    ensures
        flen(e) > 0,
        is_letter_spec(fmt_expr(e)[0]) || is_digit_spec(fmt_expr(e)[0]) || fmt_expr(e)[0] == '(',
    decreases e,
{
    match e {
        SpecExpr::Ident(id) => {
            assert(is_letter_spec(id.value[0]));
        },
        SpecExpr::Int { token, .. } => {
            assert(is_digit_spec(token.lit[0]));
        },
        SpecExpr::Bool { token, value } => {
            assert(is_letter_spec(token.lit[0]));
        },
        SpecExpr::Prefix { .. } => {},
        SpecExpr::Infix { .. } => {},
    }
}

/// Lexing a canonical textual form: scanning from its start yields exactly
/// its token sequence and then continues right after it, provided what
/// follows is the end of the input, a space, or a closing parenthesis.
#[verifier::rlimit(60)]
pub proof fn lemma_lex_fmt(s: Seq<char>, i: nat, e: SpecExpr)
    requires
        wf_expr(e),
        i + flen(e) <= s.len(),
        s.subrange(i as int, (i + flen(e)) as int) == fmt_expr(e),
        follower_ok(s, (i + flen(e)) as nat),
    ensures
        tokens_from(s, i) == etoks(e) + tokens_from(s, (i + flen(e)) as nat),
    decreases e,
{
    let n = flen(e);
    let end = (i + n) as nat;
    assert forall|q: int| 0 <= q < n implies s[i as int + q] == fmt_expr(e)[q] by {
        assert(s.subrange(i as int, (i + n) as int)[q] == s[i as int + q]);
    }
    match e {
        SpecExpr::Ident(id) => {
            assert(fmt_expr(e) == id.value);
            assert(!is_letter_spec(char_at(s, end)));
            assert forall|q: int| i <= q < end implies is_letter_spec(#[trigger] s[q]) by {
                let q0 = q - i as int;
                assert(s.subrange(i as int, (i + n) as int)[q0] == s[q]);
                assert(is_letter_spec(id.value[q0]));
            }
            lemma_scan_letters(s, i, end);
            assert(s.subrange(i as int, end as int) == id.value);
            let tok = SpecTok { kind: TokenKind::Identifier, lit: id.value };
            assert(spec_scan(s, i) == (tok, end));
            assert(tok == id.token);
            assert(tokens_from(s, i) =~= etoks(e) + tokens_from(s, end));
        },
        SpecExpr::Int { token, value } => {
            assert(fmt_expr(e) == token.lit);
            assert(!is_digit_spec(char_at(s, end)));
            assert forall|q: int| i <= q < end implies is_digit_spec(#[trigger] s[q]) by {
                let q0 = q - i as int;
                assert(s.subrange(i as int, (i + n) as int)[q0] == s[q]);
                assert(is_digit_spec(token.lit[q0]));
            }
            lemma_scan_digits(s, i, end);
            assert(s.subrange(i as int, end as int) == token.lit);
            assert(spec_scan(s, i) == (token, end));
            assert(tokens_from(s, i) =~= etoks(e) + tokens_from(s, end));
        },
        SpecExpr::Bool { token, value } => {
            assert(fmt_expr(e) == token.lit);
            assert(forall|q: int| 0 <= q < token.lit.len() ==> is_letter_spec(
                #[trigger] token.lit[q],
            ));
            assert(!is_letter_spec(char_at(s, end)));
            assert forall|q: int| i <= q < end implies is_letter_spec(#[trigger] s[q]) by {
                let q0 = q - i as int;
                assert(s.subrange(i as int, (i + n) as int)[q0] == s[q]);
                assert(is_letter_spec(token.lit[q0]));
            }
            lemma_scan_letters(s, i, end);
            assert(s.subrange(i as int, end as int) == token.lit);
            reveal_strlit("fn");
            reveal_strlit("let");
            reveal_strlit("true");
            reveal_strlit("false");
            reveal_strlit("if");
            reveal_strlit("else");
            reveal_strlit("return");
            if value {
                assert(token.lit =~= "true"@);
                assert(spec_lookup_ident(token.lit) == TokenKind::True);
            } else {
                assert(token.lit =~= "false"@);
                assert(spec_lookup_ident(token.lit) == TokenKind::False);
            }
            assert(spec_scan(s, i) == (token, end));
            assert(tokens_from(s, i) =~= etoks(e) + tokens_from(s, end));
        },
        SpecExpr::Prefix { token, operator, right } => {
            let fr = flen(*right);
            assert(operator.len() == 1);
            assert(n == 3 + fr);
            assert(fmt_expr(e) == seq!['('] + operator + fmt_expr(*right) + seq![')']);
            assert(fmt_expr(e)[0] == '(');
            assert(fmt_expr(e)[1] == operator[0]);
            assert(fmt_expr(e)[n as int - 1] == ')');
            assert(s[i as int] == '(');
            assert(s[i as int + 1] == operator[0]);
            assert(s[(i + 2 + fr) as int] == ')');
            // the operand's text sits at i + 2
            assert(s.subrange((i + 2) as int, (i + 2 + fr) as int) =~= fmt_expr(*right)) by {
                assert forall|q: int| 0 <= q < fr implies s.subrange(
                    (i + 2) as int,
                    (i + 2 + fr) as int,
                )[q] == fmt_expr(*right)[q] by {
                    assert(s.subrange((i + 2) as int, (i + 2 + fr) as int)[q] == s[i as int + (2
                        + q)]);
                    assert(fmt_expr(e)[2 + q] == fmt_expr(*right)[q]);
                }
            }
            lemma_fmt_first(*right);
            assert(s[(i + 2) as int] == fmt_expr(*right)[0]);
            // the opening parenthesis
            assert(skip_ws(s, i) == i);
            assert(spec_scan(s, i) == (lparen_tok(), (i + 1) as nat));
            // the unary operator: one character, never merged with what
            // follows, because an operand's text never starts with `=`
            assert(skip_ws(s, (i + 1) as nat) == (i + 1) as nat);
            assert(char_at(s, (i + 2) as nat) != '=');
            assert(spec_scan(s, (i + 1) as nat) == (token, (i + 2) as nat));
            // the operand
            lemma_lex_fmt(s, (i + 2) as nat, *right);
            // the closing parenthesis
            assert(skip_ws(s, (i + 2 + fr) as nat) == (i + 2 + fr) as nat);
            assert(spec_scan(s, (i + 2 + fr) as nat) == (rparen_tok(), end));
            assert(tokens_from(s, i) == seq![lparen_tok()] + tokens_from(s, (i + 1) as nat));
            assert(tokens_from(s, (i + 1) as nat) == seq![token] + tokens_from(s, (i + 2) as nat));
            assert(tokens_from(s, (i + 2 + fr) as nat) == seq![rparen_tok()] + tokens_from(s, end));
            assert(tokens_from(s, i) =~= etoks(e) + tokens_from(s, end));
        },
        SpecExpr::Infix { token, left, operator, right } => {
            let fl = flen(*left);
            let lo = operator.len();
            let fr = flen(*right);
            assert(1 <= lo && lo <= 2);
            assert(n == 4 + fl + lo + fr);
            assert(fmt_expr(e) == seq!['('] + fmt_expr(*left) + seq![' '] + operator + seq![' ']
                + fmt_expr(*right) + seq![')']);
            let p2 = (i + 2 + fl) as nat;  // where the operator's text starts
            let p3 = (i + 3 + fl + lo) as nat;  // where the right operand's text starts
            assert(fmt_expr(e)[0] == '(');
            assert forall|q: int| 0 <= q < fl implies fmt_expr(e)[1 + q] == fmt_expr(*left)[q] by {}
            assert(fmt_expr(e)[1 + fl as int] == ' ');
            assert forall|q: int| 0 <= q < lo implies fmt_expr(e)[2 + fl as int + q]
                == operator[q] by {}
            assert(fmt_expr(e)[2 + fl as int + lo as int] == ' ');
            assert forall|q: int| 0 <= q < fr implies fmt_expr(e)[3 + fl as int + lo as int + q]
                == fmt_expr(*right)[q] by {}
            assert(fmt_expr(e)[n as int - 1] == ')');
            assert(s[i as int] == '(');
            assert(s[(i + 1 + fl) as int] == ' ');
            assert(s[p2 as int] == operator[0]);
            assert(s[(i + 2 + fl + lo) as int] == ' ');
            assert(s[(i + 3 + fl + lo + fr) as int] == ')');
            assert(s.subrange((i + 1) as int, (i + 1 + fl) as int) =~= fmt_expr(*left)) by {
                assert forall|q: int| 0 <= q < fl implies s.subrange(
                    (i + 1) as int,
                    (i + 1 + fl) as int,
                )[q] == fmt_expr(*left)[q] by {
                    assert(s.subrange((i + 1) as int, (i + 1 + fl) as int)[q] == s[i as int + (1
                        + q)]);
                }
            }
            assert(s.subrange(p3 as int, (p3 + fr) as int) =~= fmt_expr(*right)) by {
                assert forall|q: int| 0 <= q < fr implies s.subrange(
                    p3 as int,
                    (p3 + fr) as int,
                )[q] == fmt_expr(*right)[q] by {
                    assert(s.subrange(p3 as int, (p3 + fr) as int)[q] == s[i as int + (3 + fl + lo
                        + q)]);
                }
            }
            // the opening parenthesis
            assert(skip_ws(s, i) == i);
            assert(spec_scan(s, i) == (lparen_tok(), (i + 1) as nat));
            assert(tokens_from(s, i) == seq![lparen_tok()] + tokens_from(s, (i + 1) as nat));
            // the left operand, whose follower is the space before the operator
            lemma_lex_fmt(s, (i + 1) as nat, *left);
            // the space, then the operator
            lemma_scan_space(s, (i + 1 + fl) as nat);
            if lo == 2 {
                assert(s[p2 as int + 1] == operator[1]);
                assert(operator == seq!['=', '='] || operator == seq!['!', '=']);
                assert(operator[1] == '=');
                assert(skip_ws(s, p2) == p2);
                assert(spec_scan(s, p2) == (token, (p2 + 2) as nat));
            } else {
                assert(operator == seq!['<'] || operator == seq!['>'] || operator == seq!['+']
                    || operator == seq!['-'] || operator == seq!['/'] || operator == seq!['*']);
                assert(skip_ws(s, p2) == p2);
                assert(spec_scan(s, p2) == (token, (p2 + 1) as nat));
            }
            assert(tokens_from(s, p2) == seq![token] + tokens_from(s, (p2 + lo) as nat));
            // the space, then the right operand, whose follower is the
            // closing parenthesis
            lemma_scan_space(s, (p2 + lo) as nat);
            lemma_lex_fmt(s, p3, *right);
            assert(skip_ws(s, (p3 + fr) as nat) == (p3 + fr) as nat);
            assert(spec_scan(s, (p3 + fr) as nat) == (rparen_tok(), end));
            assert(tokens_from(s, (p3 + fr) as nat) == seq![rparen_tok()] + tokens_from(s, end));
            assert(tokens_from(s, i) =~= etoks(e) + tokens_from(s, end));
        },
    }
}

/// Law: formatting and re-parsing is the identity.  Re-lexing the canonical
/// textual form of any well-formed expression yields exactly its token
/// sequence, and re-parsing that yields a structurally identical expression.
pub proof fn theorem_format_reparse(e: SpecExpr)
    requires
        wf_expr(e),
    ensures
        tokens_from(fmt_expr(e), 0) == etoks(e),
        sp_expr_at(etoks(e), 0, LOWEST) == ExpRes::Found(e, (ntoks(e) - 1) as nat),
{
    let s = fmt_expr(e);
    lemma_fmt_first(e);
    assert(s.subrange(0, (0 + flen(e)) as int) =~= s);
    lemma_lex_fmt(s, 0, e);
    assert(skip_ws(s, flen(e)) == flen(e));
    assert(char_at(s, flen(e)) == '\0');
    assert(tokens_from(s, flen(e)) =~= Seq::<SpecTok>::empty());
    assert(tokens_from(s, 0) =~= etoks(e));
    let toks = etoks(e);
    assert(ntoks(e) >= 1) by {
        match e {
            SpecExpr::Ident(_) => {},
            SpecExpr::Int { .. } => {},
            SpecExpr::Bool { .. } => {},
            SpecExpr::Prefix { .. } => {},
            SpecExpr::Infix { .. } => {},
        }
    }
    assert(toks.subrange(0, ntoks(e) as int) =~= etoks(e));
    assert(tok_at(toks, ntoks(e)).kind == TokenKind::EndOfFile);
    assert(!spec_loop_cond(toks, (ntoks(e) - 1) as nat, LOWEST));
    lemma_reparse(toks, 0, LOWEST, e);
}

/// The format/re-parse round trip, seen at the program level: parsing the
/// canonical textual form of a well-formed expression yields one expression
/// statement holding a structurally identical expression, and no diagnostics.
pub proof fn theorem_format_reparse_program(e: SpecExpr)
    requires
        wf_expr(e),
    ensures
        ({
            let toks = tokens_from(fmt_expr(e), 0);
            sp_program(toks, 0) == (
                seq![SpecStmt::Expr { token: tok_at(toks, 0), value: Some(e) }],
                Seq::<SpecDiag>::empty(),
            )
        }),
{
    theorem_format_reparse(e);
    let toks = etoks(e);
    let n = ntoks(e);
    let first = tok_at(toks, 0);
    assert(first == etoks(e)[0]);
    // the first token of a formatted expression starts an expression
    // statement: it is never `let`, `return`, or the end of the input
    assert(first.kind != TokenKind::Let && first.kind != TokenKind::Return && first.kind
        != TokenKind::EndOfFile) by {
        match e {
            SpecExpr::Ident(_) => {},
            SpecExpr::Int { .. } => {},
            SpecExpr::Bool { .. } => {},
            SpecExpr::Prefix { .. } => {},
            SpecExpr::Infix { .. } => {},
        }
    }
    assert(sp_statement(toks, 0) == sp_expr_stmt(toks, 0));
    assert(tok_at(toks, n).kind == TokenKind::EndOfFile);
    let st = SpecStmt::Expr { token: first, value: Some(e) };
    assert(sp_expr_stmt(toks, 0) == StRes::Found(st, (n - 1) as nat));
    assert(sp_program(toks, n) == (Seq::<SpecStmt>::empty(), Seq::<SpecDiag>::empty()));
    assert(sp_program(toks, 0).0 =~= seq![st]);
    assert(sp_program(toks, 0).1 =~= Seq::<SpecDiag>::empty());
}

/// A token as the lexer makes them: its literal agrees with its kind.
pub open spec fn tok_wf(t: SpecTok) -> bool {
    match t.kind {
        TokenKind::Identifier => is_ident_lit(t.lit),
        TokenKind::Integer => is_digits(t.lit),
        TokenKind::True => t.lit == seq!['t', 'r', 'u', 'e'],
        TokenKind::False => t.lit == seq!['f', 'a', 'l', 's', 'e'],
        TokenKind::Bang => t.lit == seq!['!'],
        TokenKind::Minus => t.lit == seq!['-'],
        TokenKind::Equal => t.lit == seq!['=', '='],
        TokenKind::NotEqual => t.lit == seq!['!', '='],
        TokenKind::LessThan => t.lit == seq!['<'],
        TokenKind::GreaterThan => t.lit == seq!['>'],
        TokenKind::Plus => t.lit == seq!['+'],
        TokenKind::Slash => t.lit == seq!['/'],
        TokenKind::Asterisk => t.lit == seq!['*'],
        _ => true,
    }
}

/// Every token in a stream agrees with its kind.
pub open spec fn stream_wf(toks: Seq<SpecTok>) -> bool {
    forall|k: int| 0 <= k < toks.len() ==> tok_wf(#[trigger] toks[k])
}

/// One scanning step always yields a token whose literal agrees with its
/// kind.
proof fn lemma_scan_tok_wf(s: Seq<char>, pos: nat)
    ensures
        tok_wf(spec_scan(s, pos).0),
{
    lemma_skip_ws(s, pos);
    let p = skip_ws(s, pos);
    let c = char_at(s, p);
    if c != '\0' && is_letter_spec(c) && c != '=' && c != '!' && c != '+' && c != '-' && c != '/'
        && c != '*' && c != '>' && c != '<' && c != ';' && c != ',' && c != '(' && c != ')' && c
        != '{' && c != '}' {
        lemma_ident_end(s, p);
        let e = ident_end(s, p);
        let lex = s.subrange(p as int, e as int);
        assert(p < s.len());
        assert(e > p);
        assert(lex.len() > 0);
        assert(forall|q: int| 0 <= q < lex.len() ==> is_letter_spec(#[trigger] lex[q]));
        reveal_strlit("fn");
        reveal_strlit("let");
        reveal_strlit("true");
        reveal_strlit("false");
        reveal_strlit("if");
        reveal_strlit("else");
        reveal_strlit("return");
        if spec_lookup_ident(lex) == TokenKind::True {
            assert(lex =~= seq!['t', 'r', 'u', 'e']);
        }
        if spec_lookup_ident(lex) == TokenKind::False {
            assert(lex =~= seq!['f', 'a', 'l', 's', 'e']);
        }
    }
    if c != '\0' && is_digit_spec(c) {
        crate::lexer::lemma_digit_end(s, p);
    }
}

/// Every token the lexer yields agrees with its kind.
pub proof fn lemma_lexed_stream_wf(s: Seq<char>, pos: nat)
    ensures
        stream_wf(tokens_from(s, pos)),
    decreases s.len() - pos,
{
    lemma_scan_tok_wf(s, pos);
    lemma_scan_bounds(s, pos);
    let (t, e) = spec_scan(s, pos);
    if t.kind != TokenKind::EndOfFile {
        lemma_lexed_stream_wf(s, e);
        assert forall|k: int| 0 <= k < tokens_from(s, pos).len() implies tok_wf(
            #[trigger] tokens_from(s, pos)[k],
        ) by {
            if k > 0 {
                assert(tokens_from(s, pos)[k] == tokens_from(s, e)[k - 1]);
            }
        }
    }
}

/// Every expression the parser finds in a lexed stream is well formed.
pub proof fn lemma_parsed_wf(toks: Seq<SpecTok>, i: nat, prec: u8, fuel: nat)
    requires
        stream_wf(toks),
    ensures
        forall|e: SpecExpr, j: nat|
            sp_expr(toks, i, prec, fuel) == ExpRes::Found(e, j) ==> wf_expr(e),
    decreases fuel, 1int,
{
    if fuel > 0 {
        let t = tok_at(toks, i);
        assert(i < toks.len() ==> tok_wf(toks[i as int]));
        match t.kind {
            TokenKind::Identifier => {
                lemma_loop_parsed_wf(
                    toks,
                    i,
                    SpecExpr::Ident(SpecIdent { token: t, value: t.lit }),
                    prec,
                    (fuel - 1) as nat,
                );
            },
            TokenKind::Integer => {
                if is_digits(t.lit) && digits_val(t.lit) <= usize::MAX as nat {
                    lemma_loop_parsed_wf(
                        toks,
                        i,
                        SpecExpr::Int { token: t, value: digits_val(t.lit) as usize },
                        prec,
                        (fuel - 1) as nat,
                    );
                }
            },
            TokenKind::True => {
                lemma_loop_parsed_wf(
                    toks,
                    i,
                    SpecExpr::Bool { token: t, value: true },
                    prec,
                    (fuel - 1) as nat,
                );
            },
            TokenKind::False => {
                lemma_loop_parsed_wf(
                    toks,
                    i,
                    SpecExpr::Bool { token: t, value: false },
                    prec,
                    (fuel - 1) as nat,
                );
            },
            TokenKind::Bang | TokenKind::Minus => {
                lemma_parsed_wf(toks, (i + 1) as nat, PREFIX, (fuel - 1) as nat);
                if let ExpRes::Found(r, j) = sp_expr(toks, (i + 1) as nat, PREFIX, (fuel
                    - 1) as nat) {
                    lemma_loop_parsed_wf(
                        toks,
                        j,
                        SpecExpr::Prefix { token: t, operator: t.lit, right: Box::new(r) },
                        prec,
                        (fuel - 1) as nat,
                    );
                }
                assert(sp_expr(toks, i, prec, fuel) == sp_prefix_rest(toks, i, prec, fuel));
            },
            TokenKind::LParen => {
                lemma_parsed_wf(toks, (i + 1) as nat, LOWEST, (fuel - 1) as nat);
                if let ExpRes::Found(e, j) = sp_expr(toks, (i + 1) as nat, LOWEST, (fuel
                    - 1) as nat) {
                    lemma_loop_parsed_wf(toks, (j + 1) as nat, e, prec, (fuel - 1) as nat);
                }
            },
            _ => {},
        }
    }
}

/// The climbing loop keeps expressions well formed.
proof fn lemma_loop_parsed_wf(toks: Seq<SpecTok>, j: nat, left: SpecExpr, prec: u8, fuel: nat)
    requires
        stream_wf(toks),
    ensures
        forall|e: SpecExpr, j2: nat|
            wf_expr(left) && sp_loop(toks, j, left, prec, fuel) == ExpRes::Found(e, j2)
                ==> wf_expr(e),
    decreases fuel, 0int,
{
    let nk = tok_at(toks, (j + 1) as nat).kind;
    if nk != TokenKind::Semicolon && prec < spec_precedence(nk) && is_infix_op(nk) && fuel > 0 {
        let op = tok_at(toks, (j + 1) as nat);
        assert(j + 1 < toks.len());
        assert(tok_wf(op));
        lemma_parsed_wf(toks, (j + 2) as nat, spec_precedence(nk), (fuel - 1) as nat);
        if let ExpRes::Found(r, j2) = sp_expr(
            toks,
            (j + 2) as nat,
            spec_precedence(nk),
            (fuel - 1) as nat,
        ) {
            lemma_loop_parsed_wf(
                toks,
                j2,
                SpecExpr::Infix {
                    token: op,
                    left: Box::new(left),
                    operator: op.lit,
                    right: Box::new(r),
                },
                prec,
                (fuel - 1) as nat,
            );
        }
    }
}

/// Law: parse, format, re-lex, re-parse — the end-to-end round trip.  Every
/// expression the parser finds in any input comes back structurally identical
/// when its printed form is lexed and parsed again.
pub proof fn theorem_parse_format_reparse(input: Seq<char>, i: nat, prec: u8, e: SpecExpr, j: nat)
    requires
        sp_expr_at(tokens_from(input, 0), i, prec) == ExpRes::Found(e, j),
    ensures
        tokens_from(fmt_expr(e), 0) == etoks(e),
        sp_expr_at(etoks(e), 0, LOWEST) == ExpRes::Found(e, (ntoks(e) - 1) as nat),
{
    lemma_lexed_stream_wf(input, 0);
    let toks = tokens_from(input, 0);
    lemma_parsed_wf(toks, i, prec, sfuel(toks, i));
    assert(wf_expr(e));
    theorem_format_reparse(e);
}

} // verus!

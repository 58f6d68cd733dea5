//! The token model: token kinds, the `Token` value (kind plus literal text),
//! and the keyword lookup that turns identifier lexemes into keyword kinds.

use vstd::prelude::*;
use vstd::string::StringExecFns;

verus! {

/// The closed enumeration of token kinds the lexer can produce.
#[derive(Clone, Copy, Debug, PartialEq, Eq, Structural)]
pub enum TokenKind {
    /// A character the lexer does not know about.
    Illegal,
    /// End of the input; terminal and repeated indefinitely once reached.
    EndOfFile,
    Identifier,
    Integer,
    Assign,
    Plus,
    Minus,
    Bang,
    Asterisk,
    Slash,
    LessThan,
    GreaterThan,
    Equal,
    NotEqual,
    Comma,
    Semicolon,
    LParen,
    RParen,
    LBrace,
    RBrace,
    Function,
    Let,
    True,
    False,
    If,
    Else,
    Return,
}

/// Mathematical model of a token: its kind and the literal it was built from.
pub struct SpecTok {
    pub kind: TokenKind,
    pub lit: Seq<char>,
}

/// A token: the smallest classified lexical unit.
#[derive(Debug, PartialEq)]
pub struct Token {
    pub kind: TokenKind,
    pub literal: String,
}

impl View for Token {
    type V = SpecTok;

    open spec fn view(&self) -> SpecTok {
        SpecTok { kind: self.kind, lit: self.literal@ }
    }
}

impl Clone for Token {
    fn clone(&self) -> (t: Token)
        ensures
            t == self,
    {
        Token { kind: self.kind, literal: self.literal.clone() }
    }
}

/// Relies on `String::push` of std: appends the given character to the end of
/// the string.
#[verifier::external_body]
pub(crate) fn push_char(s: &mut String, c: char)
    ensures
        final(s)@ == old(s)@.push(c),
{
    s.push(c);
}

/// Relies on `PartialEq` of std's `str`: slices are equal exactly when their
/// character contents are equal.
#[verifier::external_body]
pub(crate) fn str_eq(a: &str, b: &str) -> (r: bool)
    ensures
        r == (a@ == b@),
{
    a == b
}

/// The keyword table: which identifier lexemes denote keyword kinds.
pub open spec fn spec_lookup_ident(s: Seq<char>) -> TokenKind {
    if s == "fn"@ {
        TokenKind::Function
    } else if s == "let"@ {
        TokenKind::Let
    } else if s == "true"@ {
        TokenKind::True
    } else if s == "false"@ {
        TokenKind::False
    } else if s == "if"@ {
        TokenKind::If
    } else if s == "else"@ {
        TokenKind::Else
    } else if s == "return"@ {
        TokenKind::Return
    } else {
        TokenKind::Identifier
    }
}

/// Resolve an identifier lexeme against the keyword table: a keyword lexeme
/// gets its keyword kind, every other lexeme stays `Identifier`.
pub fn lookup_ident(ident: &str) -> (k: TokenKind)
    ensures
        k == spec_lookup_ident(ident@),
{
    if str_eq(ident, "fn") {
        TokenKind::Function
    } else if str_eq(ident, "let") {
        TokenKind::Let
    } else if str_eq(ident, "true") {
        TokenKind::True
    } else if str_eq(ident, "false") {
        TokenKind::False
    } else if str_eq(ident, "if") {
        TokenKind::If
    } else if str_eq(ident, "else") {
        TokenKind::Else
    } else if str_eq(ident, "return") {
        TokenKind::Return
    } else {
        TokenKind::Identifier
    }
}

/// The display name of a token kind, as it appears in diagnostics.
pub open spec fn spec_kind_name(k: TokenKind) -> Seq<char> {
    match k {
        TokenKind::Illegal => "ILLEGAL"@,
        TokenKind::EndOfFile => "EOF"@,
        TokenKind::Identifier => "IDENT"@,
        TokenKind::Integer => "INT"@,
        TokenKind::Assign => "="@,
        TokenKind::Plus => "+"@,
        TokenKind::Minus => "-"@,
        TokenKind::Bang => "!"@,
        TokenKind::Asterisk => "*"@,
        TokenKind::Slash => "/"@,
        TokenKind::LessThan => "<"@,
        TokenKind::GreaterThan => ">"@,
        TokenKind::Equal => "=="@,
        TokenKind::NotEqual => "!="@,
        TokenKind::Comma => ","@,
        TokenKind::Semicolon => ";"@,
        TokenKind::LParen => "("@,
        TokenKind::RParen => ")"@,
        TokenKind::LBrace => "{"@,
        TokenKind::RBrace => "}"@,
        TokenKind::Function => "FUNCTION"@,
        TokenKind::Let => "LET"@,
        TokenKind::True => "TRUE"@,
        TokenKind::False => "FALSE"@,
        TokenKind::If => "IF"@,
        TokenKind::Else => "ELSE"@,
        TokenKind::Return => "RETURN"@,
    }
}

/// The display name of a token kind as an owned string.
pub fn kind_name(k: TokenKind) -> (r: String)
    ensures
        r@ == spec_kind_name(k),
{
    match k {
        TokenKind::Illegal => String::from_str("ILLEGAL"),
        TokenKind::EndOfFile => String::from_str("EOF"),
        TokenKind::Identifier => String::from_str("IDENT"),
        TokenKind::Integer => String::from_str("INT"),
        TokenKind::Assign => String::from_str("="),
        TokenKind::Plus => String::from_str("+"),
        TokenKind::Minus => String::from_str("-"),
        TokenKind::Bang => String::from_str("!"),
        TokenKind::Asterisk => String::from_str("*"),
        TokenKind::Slash => String::from_str("/"),
        TokenKind::LessThan => String::from_str("<"),
        TokenKind::GreaterThan => String::from_str(">"),
        TokenKind::Equal => String::from_str("=="),
        TokenKind::NotEqual => String::from_str("!="),
        TokenKind::Comma => String::from_str(","),
        TokenKind::Semicolon => String::from_str(";"),
        TokenKind::LParen => String::from_str("("),
        TokenKind::RParen => String::from_str(")"),
        TokenKind::LBrace => String::from_str("{"),
        TokenKind::RBrace => String::from_str("}"),
        TokenKind::Function => String::from_str("FUNCTION"),
        TokenKind::Let => String::from_str("LET"),
        TokenKind::True => String::from_str("TRUE"),
        TokenKind::False => String::from_str("FALSE"),
        TokenKind::If => String::from_str("IF"),
        TokenKind::Else => String::from_str("ELSE"),
        TokenKind::Return => String::from_str("RETURN"),
    }
}

impl Token {
    /// Build a token whose literal is the single given character.
    pub fn new(kind: TokenKind, ch: char) -> (t: Token)
        ensures
            t@ == (SpecTok { kind, lit: Seq::empty().push(ch) }),
    {
        let mut literal = String::new();
        push_char(&mut literal, ch);
        Token { kind, literal }
    }
}

} // verus!

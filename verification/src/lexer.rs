//! The lexer: consumes a source string one character at a time and emits
//! tokens on demand.  Scanning never fails: unrecognized characters become
//! `Illegal` tokens, and the `EndOfFile` token is terminal — once it has been
//! returned, every further call returns it again.
//!
//! The whole scanner is specified by `spec_scan`, which maps a character
//! sequence and a position to the token starting there (after skipping
//! whitespace) and the position right after that token.

use vstd::prelude::*;

use crate::token::{lookup_ident, push_char, spec_lookup_ident, SpecTok, Token, TokenKind};

verus! {

/// Letters are ASCII letters plus `_`, which is allowed in identifiers.
pub open spec fn is_letter_spec(c: char) -> bool {
    ('a' <= c && c <= 'z') || ('A' <= c && c <= 'Z') || c == '_'
}

pub open spec fn is_digit_spec(c: char) -> bool {
    '0' <= c && c <= '9'
}

pub open spec fn is_whitespace_spec(c: char) -> bool {
    c == ' ' || c == '\t' || c == '\n' || c == '\r'
}

/// Check whether the given character is a letter; `_` counts as a letter so
/// that identifiers and keywords may contain it.
pub fn is_letter(ch: char) -> (r: bool)
    ensures
        r == is_letter_spec(ch),
{
    ('a' <= ch && ch <= 'z') || ('A' <= ch && ch <= 'Z') || ch == '_'
}

pub fn is_digit(ch: char) -> (r: bool)
    ensures
        r == is_digit_spec(ch),
{
    '0' <= ch && ch <= '9'
}

pub fn is_whitespace(ch: char) -> (r: bool)
    ensures
        r == is_whitespace_spec(ch),
{
    (ch == ' ') || (ch == '\t') || (ch == '\n') || (ch == '\r')
}

/// The character at position `i`, with the NUL sentinel standing for the end
/// of the input.
pub open spec fn char_at(s: Seq<char>, i: nat) -> char {
    if i < s.len() {
        s[i as int]
    } else {
        '\0'
    }
}

/// The first position at or after `pos` that does not hold whitespace.
pub open spec fn skip_ws(s: Seq<char>, pos: nat) -> nat
    decreases s.len() - pos,
{
    if pos < s.len() && is_whitespace_spec(s[pos as int]) {
        skip_ws(s, (pos + 1) as nat)
    } else {
        pos
    }
}

/// The end of the letter run starting at `pos`.
pub open spec fn ident_end(s: Seq<char>, pos: nat) -> nat
    decreases s.len() - pos,
{
    if pos < s.len() && is_letter_spec(s[pos as int]) {
        ident_end(s, (pos + 1) as nat)
    } else {
        pos
    }
}

/// The end of the digit run starting at `pos`.
pub open spec fn digit_end(s: Seq<char>, pos: nat) -> nat
    decreases s.len() - pos,
{
    if pos < s.len() && is_digit_spec(s[pos as int]) {
        digit_end(s, (pos + 1) as nat)
    } else {
        pos
    }
}

pub open spec fn symbol_token(kind: TokenKind, c: char) -> SpecTok {
    SpecTok { kind, lit: seq![c] }
}

pub open spec fn eof_token() -> SpecTok {
    SpecTok { kind: TokenKind::EndOfFile, lit: Seq::empty() }
}

/// One scanning step: the token starting at `pos` (after whitespace) and the
/// position right after it.  The `EndOfFile` step does not advance, which
/// makes end of file terminal.
pub open spec fn spec_scan(s: Seq<char>, pos: nat) -> (SpecTok, nat) {
    let p = skip_ws(s, pos);
    let c = char_at(s, p);
    if c == '\0' {
        (eof_token(), p)
    } else if c == '=' {
        if char_at(s, (p + 1) as nat) == '=' {
            (SpecTok { kind: TokenKind::Equal, lit: seq!['=', '='] }, (p + 2) as nat)
        } else {
            (symbol_token(TokenKind::Assign, '='), (p + 1) as nat)
        }
    } else if c == '!' {
        if char_at(s, (p + 1) as nat) == '=' {
            (SpecTok { kind: TokenKind::NotEqual, lit: seq!['!', '='] }, (p + 2) as nat)
        } else {
            (symbol_token(TokenKind::Bang, '!'), (p + 1) as nat)
        }
    } else if c == '+' {
        (symbol_token(TokenKind::Plus, '+'), (p + 1) as nat)
    } else if c == '-' {
        (symbol_token(TokenKind::Minus, '-'), (p + 1) as nat)
    } else if c == '/' {
        (symbol_token(TokenKind::Slash, '/'), (p + 1) as nat)
    } else if c == '*' {
        (symbol_token(TokenKind::Asterisk, '*'), (p + 1) as nat)
    } else if c == '>' {
        (symbol_token(TokenKind::GreaterThan, '>'), (p + 1) as nat)
    } else if c == '<' {
        (symbol_token(TokenKind::LessThan, '<'), (p + 1) as nat)
    } else if c == ';' {
        (symbol_token(TokenKind::Semicolon, ';'), (p + 1) as nat)
    } else if c == ',' {
        (symbol_token(TokenKind::Comma, ','), (p + 1) as nat)
    } else if c == '(' {
        (symbol_token(TokenKind::LParen, '('), (p + 1) as nat)
    } else if c == ')' {
        (symbol_token(TokenKind::RParen, ')'), (p + 1) as nat)
    } else if c == '{' {
        (symbol_token(TokenKind::LBrace, '{'), (p + 1) as nat)
    } else if c == '}' {
        (symbol_token(TokenKind::RBrace, '}'), (p + 1) as nat)
    } else if is_letter_spec(c) {
        let e = ident_end(s, p);
        let lex = s.subrange(p as int, e as int);
        (SpecTok { kind: spec_lookup_ident(lex), lit: lex }, e)
    } else if is_digit_spec(c) {
        let e = digit_end(s, p);
        (SpecTok { kind: TokenKind::Integer, lit: s.subrange(p as int, e as int) }, e)
    } else {
        (symbol_token(TokenKind::Illegal, c), (p + 1) as nat)
    }
}

pub proof fn lemma_skip_ws(s: Seq<char>, pos: nat)
    ensures
        pos <= skip_ws(s, pos),
        pos <= s.len() ==> skip_ws(s, pos) <= s.len(),
        !is_whitespace_spec(char_at(s, skip_ws(s, pos))),
        skip_ws(s, skip_ws(s, pos)) == skip_ws(s, pos),
    decreases s.len() - pos,
{
    if pos < s.len() && is_whitespace_spec(s[pos as int]) {
        lemma_skip_ws(s, (pos + 1) as nat);
    }
}

pub proof fn lemma_ident_end(s: Seq<char>, pos: nat)
    ensures
        pos <= ident_end(s, pos),
        pos <= s.len() ==> ident_end(s, pos) <= s.len(),
        !is_letter_spec(char_at(s, ident_end(s, pos))),
        forall|i: int| pos <= i < ident_end(s, pos) ==> is_letter_spec(#[trigger] s[i]),
        is_letter_spec(char_at(s, pos)) ==> pos < ident_end(s, pos),
    decreases s.len() - pos,
{
    if pos < s.len() && is_letter_spec(s[pos as int]) {
        lemma_ident_end(s, (pos + 1) as nat);
    }
}

pub proof fn lemma_digit_end(s: Seq<char>, pos: nat)
    ensures
        pos <= digit_end(s, pos),
        pos <= s.len() ==> digit_end(s, pos) <= s.len(),
        !is_digit_spec(char_at(s, digit_end(s, pos))),
        forall|i: int| pos <= i < digit_end(s, pos) ==> is_digit_spec(#[trigger] s[i]),
        is_digit_spec(char_at(s, pos)) ==> pos < digit_end(s, pos),
    decreases s.len() - pos,
{
    if pos < s.len() && is_digit_spec(s[pos as int]) {
        lemma_digit_end(s, (pos + 1) as nat);
    }
}

/// Bounds of one scanning step: a step that yields a real token strictly
/// advances and stays inside the input; the end-of-file step never advances
/// past the end.
pub proof fn lemma_scan_bounds(s: Seq<char>, pos: nat)
    ensures
        pos <= spec_scan(s, pos).1,
        spec_scan(s, pos).0.kind != TokenKind::EndOfFile ==> pos < spec_scan(s, pos).1
            && spec_scan(s, pos).1 <= s.len(),
        pos <= s.len() ==> spec_scan(s, pos).1 <= s.len(),
{
    lemma_skip_ws(s, pos);
    let p = skip_ws(s, pos);
    let c = char_at(s, p);
    if c != '\0' {
        assert(p < s.len());
        lemma_ident_end(s, p);
        lemma_digit_end(s, p);
        if c == '=' || c == '!' {
            if char_at(s, (p + 1) as nat) == '=' {
                assert(p + 1 < s.len());
            }
        }
    }
}

/// Law: once a scan yields `EndOfFile`, scanning from the resulting position
/// yields the very same `EndOfFile` step — end of file is a terminal state.
pub proof fn lemma_end_of_file_terminal(s: Seq<char>, pos: nat)
    requires
        spec_scan(s, pos).0.kind == TokenKind::EndOfFile,
    ensures
        spec_scan(s, spec_scan(s, pos).1) == spec_scan(s, pos),
{
    lemma_skip_ws(s, pos);
    let p = skip_ws(s, pos);
    assert(skip_ws(s, p) == p);
}

/// The position reached after `k` scanning steps from `pos`.
pub open spec fn scan_pos_iter(s: Seq<char>, pos: nat, k: nat) -> nat
    decreases k,
{
    if k == 0 {
        pos
    } else {
        spec_scan(s, scan_pos_iter(s, pos, (k - 1) as nat)).1
    }
}

/// Law: once the scanner has reached `EndOfFile`, any number of further calls
/// keeps returning `EndOfFile` from an unchanged position.
pub proof fn lemma_end_of_file_forever(s: Seq<char>, pos: nat, k: nat)
    requires
        spec_scan(s, pos).0.kind == TokenKind::EndOfFile,
    ensures
        spec_scan(s, scan_pos_iter(s, pos, k)) == spec_scan(s, pos),
        scan_pos_iter(s, pos, k) == if k == 0 { pos } else { spec_scan(s, pos).1 },
    decreases k,
{
    lemma_end_of_file_terminal(s, pos);
    if k > 0 {
        lemma_end_of_file_forever(s, pos, (k - 1) as nat);
    }
}

/// The tokens the scanner yields from `pos` up to (not including) the first
/// `EndOfFile`.
pub open spec fn tokens_from(s: Seq<char>, pos: nat) -> Seq<SpecTok>
    decreases s.len() - pos,
    when true
    via tokens_from_decreases
{
    let (t, e) = spec_scan(s, pos);
    if t.kind == TokenKind::EndOfFile {
        Seq::empty()
    } else {
        seq![t] + tokens_from(s, e)
    }
}

#[via_fn]
proof fn tokens_from_decreases(s: Seq<char>, pos: nat) {
    lemma_scan_bounds(s, pos);
}

/// The lexer: the source string and a cursor over it.  `position` points at
/// `ch`, `read_position` one past it (both capped at the input length), and
/// `ch` is the NUL sentinel exactly when the cursor has left the input.
pub struct Lexer {
    input: String,
    position: usize,
    read_position: usize,
    ch: char,
}

impl Lexer {
    /// The source text being scanned.
    pub closed spec fn src(self) -> Seq<char> {
        self.input@
    }

    /// The current scan position, in characters.
    pub closed spec fn pos(self) -> nat {
        self.position as nat
    }

    /// The read position: one past the current position, capped at the end.
    pub closed spec fn rpos(self) -> nat {
        self.read_position as nat
    }

    /// The character under examination.
    pub closed spec fn cur(self) -> char {
        self.ch
    }

    /// The cursor is well formed: inside (or just past) the input, with the
    /// read position one step ahead and the current character matching.
    pub closed spec fn wf(self) -> bool {
        &&& self.position <= self.input@.len()
        &&& self.read_position == if self.position + 1 <= self.input@.len() {
            self.position + 1
        } else {
            self.input@.len() as int
        }
        &&& self.ch == char_at(self.input@, self.position as nat)
    }

    /// Build a lexer over the given source and prime the first character.
    pub fn new(input: String) -> (lex: Lexer)
        ensures
            lex.wf(),
            lex.src() == input@,
            lex.pos() == 0,
    {
        let mut lex = Lexer { input, position: 0, read_position: 0, ch: '\0' };
        lex.read_char();
        lex
    }

    /// Advance the cursor by one character; at the end of the input the
    /// cursor stays put and the current character becomes the NUL sentinel.
    pub fn read_char(&mut self)
        requires
            old(self).rpos() <= old(self).src().len(),
        ensures
            final(self).src() == old(self).src(),
            final(self).pos() == old(self).rpos(),
            final(self).rpos() == if old(self).rpos() + 1 <= old(self).src().len() {
                old(self).rpos() + 1
            } else {
                old(self).src().len()
            },
            final(self).cur() == char_at(old(self).src(), old(self).rpos()),
    {
        let n: usize = self.input.as_str().unicode_len();
        if self.read_position >= n {
            self.ch = '\0';
            self.position = self.read_position;
        } else {
            self.ch = self.input.as_str().get_char(self.read_position);
            self.position = self.read_position;
            self.read_position = self.read_position + 1;
        }
    }

    /// The next character, without advancing the cursor.
    fn peek_char(&self) -> (c: char)
        requires
            self.wf(),
        ensures
            c == char_at(self.src(), (self.pos() + 1) as nat),
    {
        let n: usize = self.input.as_str().unicode_len();
        if self.read_position >= n {
            '\0'
        } else {
            self.input.as_str().get_char(self.read_position)
        }
    }

    fn skip_whitespace(&mut self)
        requires
            old(self).wf(),
        ensures
            final(self).wf(),
            final(self).src() == old(self).src(),
            final(self).pos() == skip_ws(old(self).src(), old(self).pos()),
    {
        while is_whitespace(self.ch)
            invariant
                self.wf(),
                self.input@ == old(self).input@,
                skip_ws(self.input@, self.position as nat) == skip_ws(
                    old(self).input@,
                    old(self).position as nat,
                ),
            decreases self.input@.len() - self.position,
        {
            self.read_char();
        }
    }

    /// Read the letter run starting at the cursor and advance past it.
    fn read_identifier(&mut self) -> (r: String)
        requires
            old(self).wf(),
            is_letter_spec(old(self).ch),
        ensures
            final(self).wf(),
            final(self).src() == old(self).src(),
            final(self).pos() == ident_end(old(self).src(), old(self).pos()),
            r@ == old(self).src().subrange(old(self).pos() as int, final(self).pos() as int),
    {
        let pos: usize = self.position;
        while is_letter(self.ch)
            invariant
                self.wf(),
                self.input@ == old(self).input@,
                pos <= self.position,
                ident_end(self.input@, self.position as nat) == ident_end(
                    old(self).input@,
                    old(self).position as nat,
                ),
            decreases self.input@.len() - self.position,
        {
            self.read_char();
        }
        self.input.as_str().substring_char(pos, self.position).to_owned()
    }

    /// Read the digit run starting at the cursor and advance past it.
    fn read_number(&mut self) -> (r: String)
        requires
            old(self).wf(),
            is_digit_spec(old(self).ch),
        ensures
            final(self).wf(),
            final(self).src() == old(self).src(),
            final(self).pos() == digit_end(old(self).src(), old(self).pos()),
            r@ == old(self).src().subrange(old(self).pos() as int, final(self).pos() as int),
    {
        let pos: usize = self.position;
        while is_digit(self.ch)
            invariant
                self.wf(),
                self.input@ == old(self).input@,
                pos <= self.position,
                digit_end(self.input@, self.position as nat) == digit_end(
                    old(self).input@,
                    old(self).position as nat,
                ),
            decreases self.input@.len() - self.position,
        {
            self.read_char();
        }
        self.input.as_str().substring_char(pos, self.position).to_owned()
    }

    /// Return the next token and advance past it.  Never fails: unrecognized
    /// characters yield `Illegal` tokens, and at the end of the input every
    /// call yields `EndOfFile` again.
    pub fn next_token(&mut self) -> (t: Token)
        requires
            old(self).wf(),
        ensures
            final(self).wf(),
            final(self).src() == old(self).src(),
            t@ == spec_scan(old(self).src(), old(self).pos()).0,
            final(self).pos() == spec_scan(old(self).src(), old(self).pos()).1,
    {
        self.skip_whitespace();

        // After building a single- or double-character symbolic token the
        // cursor still sits on its last character and must advance once;
        // identifier and number scans advance by themselves.
        let mut char_advance: bool = true;

        let token: Token;
        if self.ch == '\0' {
            token = Token { kind: TokenKind::EndOfFile, literal: String::new() };
            char_advance = false;
        } else if self.ch == '=' {
            if self.peek_char() == '=' {
                let mut literal = String::new();
                push_char(&mut literal, self.ch);
                self.read_char();
                push_char(&mut literal, self.ch);
                proof {
                    assert(literal@ =~= seq!['=', '=']);
                }
                token = Token { kind: TokenKind::Equal, literal };
            } else {
                token = Token::new(TokenKind::Assign, self.ch);
            }
        } else if self.ch == '!' {
            if self.peek_char() == '=' {
                let mut literal = String::new();
                push_char(&mut literal, self.ch);
                self.read_char();
                push_char(&mut literal, self.ch);
                proof {
                    assert(literal@ =~= seq!['!', '=']);
                }
                token = Token { kind: TokenKind::NotEqual, literal };
            } else {
                token = Token::new(TokenKind::Bang, self.ch);
            }
        } else if self.ch == '+' {
            token = Token::new(TokenKind::Plus, self.ch);
        } else if self.ch == '-' {
            token = Token::new(TokenKind::Minus, self.ch);
        } else if self.ch == '/' {
            token = Token::new(TokenKind::Slash, self.ch);
        } else if self.ch == '*' {
            token = Token::new(TokenKind::Asterisk, self.ch);
        } else if self.ch == '>' {
            token = Token::new(TokenKind::GreaterThan, self.ch);
        } else if self.ch == '<' {
            token = Token::new(TokenKind::LessThan, self.ch);
        } else if self.ch == ';' {
            token = Token::new(TokenKind::Semicolon, self.ch);
        } else if self.ch == ',' {
            token = Token::new(TokenKind::Comma, self.ch);
        } else if self.ch == '(' {
            token = Token::new(TokenKind::LParen, self.ch);
        } else if self.ch == ')' {
            token = Token::new(TokenKind::RParen, self.ch);
        } else if self.ch == '{' {
            token = Token::new(TokenKind::LBrace, self.ch);
        } else if self.ch == '}' {
            token = Token::new(TokenKind::RBrace, self.ch);
        } else if is_letter(self.ch) {
            char_advance = false;
            let literal = self.read_identifier();
            let kind = lookup_ident(literal.as_str());
            token = Token { kind, literal };
        } else if is_digit(self.ch) {
            char_advance = false;
            let literal = self.read_number();
            token = Token { kind: TokenKind::Integer, literal };
        } else {
            token = Token::new(TokenKind::Illegal, self.ch);
        }
        if char_advance {
            self.read_char();
        }
        token
    }
}

} // verus!

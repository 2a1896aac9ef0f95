use vstd::prelude::*;
use vstd::string::StringSliceAdditionalSpecFns;
use vstd::utf8::*;

use crate::host::Host;
use crate::interner::Interner;
use crate::span::Span;

verus! {

/// A token of the language. Strings and identifiers are interned symbols;
/// numbers are the bit patterns of doubles.
#[derive(Debug, Clone, Copy, PartialEq, Eq, Structural)]
pub enum Token {
    // ── Keywords ────
    Let,
    Fn,
    If,
    Else,
    While,
    For,
    In,
    Return,
    BooleanLit(bool),
    Nil,
    And,
    Or,
    Break,
    Continue,
    Struct,
    // ── Literals ────
    Number(u64),
    String(u32),
    Identifier(u32),
    // ── Operators ────
    Plus,
    Minus,
    Star,
    Slash,
    Percent,
    Assign,
    Equal,
    Neq,
    Lt,
    Le,
    Gt,
    Ge,
    Bang,
    Dot,
    Comma,
    Colon,
    Arrow,
    Quest,
    At,
    // ── Delimiters ────
    LParen,
    RParen,
    LBrace,
    RBrace,
    LBracket,
    RBracket,
    Semicolon,
    // ── Special ────
    Eof,
    Other,
}

impl Token {
    /// Whether the token is a literal value: a number, a string, `nil`, `true`
    /// or `false`.
    pub open spec fn spec_is_literal(self) -> bool {
        self is Number || self is String || self is Nil || self is BooleanLit
    }

    /// Whether two tokens are of the same kind, whatever their payloads.
    pub open spec fn spec_same_kind(self, other: Token) -> bool {
        match (self, other) {
            (Token::BooleanLit(_), Token::BooleanLit(_)) => true,
            (Token::Number(_), Token::Number(_)) => true,
            (Token::String(_), Token::String(_)) => true,
            (Token::Identifier(_), Token::Identifier(_)) => true,
            _ => self == other,
        }
    }

    /// Whether two tokens are of the same kind, whatever their payloads.
    pub fn same_kind(&self, other: &Token) -> (res: bool)
        ensures
            res == self.spec_same_kind(*other),
    {
        match (self, other) {
            (Token::BooleanLit(_), Token::BooleanLit(_)) => true,
            (Token::Number(_), Token::Number(_)) => true,
            (Token::String(_), Token::String(_)) => true,
            (Token::Identifier(_), Token::Identifier(_)) => true,
            _ => *self == *other,
        }
    }

    /// How the token is shown in messages.
    pub open spec fn spec_describe(self) -> Seq<char> {
        match self {
            Token::Let => "let"@,
            Token::Fn => "fn"@,
            Token::If => "if"@,
            Token::Else => "else"@,
            Token::While => "while"@,
            Token::For => "for"@,
            Token::In => "in"@,
            Token::Return => "return"@,
            Token::BooleanLit(true) => "true"@,
            Token::BooleanLit(false) => "false"@,
            Token::Nil => "nil"@,
            Token::And => "&&"@,
            Token::Or => "||"@,
            Token::Break => "break"@,
            Token::Continue => "continue"@,
            Token::Struct => "struct"@,
            Token::Number(_) => "NUMBER"@,
            Token::String(_) => "STRING"@,
            Token::Identifier(_) => "IDENT"@,
            Token::Plus => "+"@,
            Token::Minus => "-"@,
            Token::Star => "*"@,
            Token::Slash => "/"@,
            Token::Percent => "%"@,
            Token::Assign => "="@,
            Token::Equal => "=="@,
            Token::Neq => "!="@,
            Token::Lt => "<"@,
            Token::Le => "<="@,
            Token::Gt => ">"@,
            Token::Ge => ">="@,
            Token::Bang => "!"@,
            Token::Dot => "."@,
            Token::Comma => ","@,
            Token::Colon => ":"@,
            Token::Arrow => "->"@,
            Token::Quest => "?"@,
            Token::At => "@"@,
            Token::LParen => "("@,
            Token::RParen => ")"@,
            Token::LBrace => "{"@,
            Token::RBrace => "}"@,
            Token::LBracket => "["@,
            Token::RBracket => "]"@,
            Token::Semicolon => ";"@,
            Token::Eof => "EOF"@,
            Token::Other => "OTHER"@,
        }
    }

    /// How the token is shown in messages.
    pub fn describe(&self) -> (res: &'static str)
        ensures
            res@ == self.spec_describe(),
    {
        match self {
            Token::Let => "let",
            Token::Fn => "fn",
            Token::If => "if",
            Token::Else => "else",
            Token::While => "while",
            Token::For => "for",
            Token::In => "in",
            Token::Return => "return",
            Token::BooleanLit(true) => "true",
            Token::BooleanLit(false) => "false",
            Token::Nil => "nil",
            Token::And => "&&",
            Token::Or => "||",
            Token::Break => "break",
            Token::Continue => "continue",
            Token::Struct => "struct",
            Token::Number(_) => "NUMBER",
            Token::String(_) => "STRING",
            Token::Identifier(_) => "IDENT",
            Token::Plus => "+",
            Token::Minus => "-",
            Token::Star => "*",
            Token::Slash => "/",
            Token::Percent => "%",
            Token::Assign => "=",
            Token::Equal => "==",
            Token::Neq => "!=",
            Token::Lt => "<",
            Token::Le => "<=",
            Token::Gt => ">",
            Token::Ge => ">=",
            Token::Bang => "!",
            Token::Dot => ".",
            Token::Comma => ",",
            Token::Colon => ":",
            Token::Arrow => "->",
            Token::Quest => "?",
            Token::At => "@",
            Token::LParen => "(",
            Token::RParen => ")",
            Token::LBrace => "{",
            Token::RBrace => "}",
            Token::LBracket => "[",
            Token::RBracket => "]",
            Token::Semicolon => ";",
            Token::Eof => "EOF",
            Token::Other => "OTHER",
        }
    }
}

pub open spec fn is_ws(b: u8) -> bool {
    b == 32 || b == 9 || b == 10 || b == 13
}

pub open spec fn is_digit(b: u8) -> bool {
    48 <= b <= 57
}

pub open spec fn is_ident_start(b: u8) -> bool {
    (65 <= b <= 90) || (97 <= b <= 122) || b == 95
}

pub open spec fn is_ident_continue(b: u8) -> bool {
    is_ident_start(b) || is_digit(b)
}

/// In valid UTF-8 the byte that follows an ASCII byte begins a character.
proof fn lemma_after_ascii(bytes: Seq<u8>, i: int)
    requires
        valid_utf8(bytes),
        0 <= i,
        i + 1 < bytes.len(),
        bytes[i] < 128,
    ensures
        !is_continuation_byte(bytes[i + 1]),
{
    is_char_boundary_iff_not_is_continuation_byte(bytes, i);
    valid_utf8_split(bytes, i);
    let suffix = bytes.subrange(i, bytes.len() as int);
    assert(suffix[0] == bytes[i]);
    let rest = pop_first_scalar(suffix);
    assert(rest =~= bytes.subrange(i + 1, bytes.len() as int));
    assert(rest[0] == bytes[i + 1]);
    is_char_boundary_iff_not_is_continuation_byte(rest, 0);
}

/// The text `s[start..end]` as a string slice, when both ends are character boundaries.
fn substr(s: &str, start: usize, end: usize) -> (res: Option<&str>)
    requires
        start <= end <= s.spec_bytes().len(),
    ensures
        res matches Some(t) ==> t.spec_bytes() == s.spec_bytes().subrange(start as int, end as int)
            && t@ == decode_utf8(s.spec_bytes().subrange(start as int, end as int)),
        (start == s.spec_bytes().len() || !is_continuation_byte(s.spec_bytes()[start as int]))
            && (end == s.spec_bytes().len() || !is_continuation_byte(s.spec_bytes()[end as int]))
            ==> res is Some,
{
    let ghost b = s.spec_bytes();
    proof {
        encode_utf8_valid_utf8(s@);
        is_char_boundary_start_end_of_seq(b);
        if start < b.len() {
            is_char_boundary_iff_not_is_continuation_byte(b, start as int);
        }
    }
    if !s.is_char_boundary(start) {
        return None;
    }
    let (_, rest) = s.split_at(start);
    proof {
        let rb = rest.spec_bytes();
        encode_utf8_valid_utf8(rest@);
        is_char_boundary_start_end_of_seq(rb);
        if end < b.len() {
            assert(rb[end - start] == b[end as int]);
            is_char_boundary_iff_not_is_continuation_byte(rb, end - start);
        }
    }
    if !rest.is_char_boundary(end - start) {
        return None;
    }
    let (mid, _) = rest.split_at(end - start);
    assert(mid.spec_bytes() =~= s.spec_bytes().subrange(start as int, end as int));
    proof {
        encode_utf8_decode_utf8(mid@);
    }
    Some(mid)
}

/// The position of the first byte at or after `pos` that is neither
/// whitespace nor inside a `//` comment.
pub open spec fn spec_skip(bytes: Seq<u8>, pos: int) -> int
    decreases bytes.len() - pos, 0int,
{
    if pos < 0 || pos >= bytes.len() {
        pos
    } else if is_ws(bytes[pos]) {
        spec_skip(bytes, pos + 1)
    } else if bytes[pos] == 47 && pos + 1 < bytes.len() && bytes[pos + 1] == 47 {
        spec_skip_comment(bytes, pos + 2)
    } else {
        pos
    }
}

/// Inside a `//` comment at `pos`: the comment runs up to the next newline.
pub open spec fn spec_skip_comment(bytes: Seq<u8>, pos: int) -> int
    decreases bytes.len() - pos, 1int,
{
    if pos < 0 || pos >= bytes.len() {
        pos
    } else if bytes[pos] == 10 {
        spec_skip(bytes, pos + 1)
    } else {
        spec_skip_comment(bytes, pos + 1)
    }
}

proof fn lemma_skip_bounds(bytes: Seq<u8>, pos: int)
    requires
        0 <= pos <= bytes.len(),
    ensures
        pos <= spec_skip(bytes, pos) <= bytes.len(),
        pos <= spec_skip_comment(bytes, pos) <= bytes.len(),
    decreases bytes.len() - pos,
{
    if pos < bytes.len() {
        lemma_skip_bounds(bytes, pos + 1);
        if pos + 2 <= bytes.len() {
            lemma_skip_bounds(bytes, pos + 2);
        }
    }
}

/// Skips whitespace and comments from `pos`.
pub fn skip_trivia(bytes: &[u8], pos: usize) -> (res: usize)
    requires
        pos <= bytes@.len(),
    ensures
        res == spec_skip(bytes@, pos as int),
        pos <= res <= bytes@.len(),
{
    let mut p = pos;
    proof {
        lemma_skip_bounds(bytes@, pos as int);
    }
    while p < bytes.len()
        invariant
            pos <= p <= bytes@.len(),
            spec_skip(bytes@, p as int) == spec_skip(bytes@, pos as int),
        decreases bytes@.len() - p,
    {
        if bytes[p] == 32 || bytes[p] == 9 || bytes[p] == 10 || bytes[p] == 13 {
            p = p + 1;
        } else if bytes[p] == 47 && p + 1 < bytes.len() && bytes[p + 1] == 47 {
            let mut q = p + 2;
            while q < bytes.len() && bytes[q] != 10
                invariant
                    p + 2 <= q <= bytes@.len(),
                    spec_skip_comment(bytes@, q as int) == spec_skip(bytes@, pos as int),
                decreases bytes@.len() - q,
            {
                q = q + 1;
            }
            if q >= bytes.len() {
                return q;
            }
            p = q + 1;
        } else {
            return p;
        }
    }
    p
}

/// The first position at or after `pos` whose byte does not satisfy the
/// identifier-continue class.
pub open spec fn spec_ident_end(bytes: Seq<u8>, pos: int) -> int
    decreases bytes.len() - pos,
{
    if pos >= bytes.len() || !is_ident_continue(bytes[pos]) {
        pos
    } else {
        spec_ident_end(bytes, pos + 1)
    }
}

/// The first position at or after `pos` that is not a digit.
pub open spec fn spec_digits_end(bytes: Seq<u8>, pos: int) -> int
    decreases bytes.len() - pos,
{
    if pos >= bytes.len() || !is_digit(bytes[pos]) {
        pos
    } else {
        spec_digits_end(bytes, pos + 1)
    }
}

fn scan_ident(bytes: &[u8], pos: usize) -> (res: usize)
    requires
        pos <= bytes@.len(),
    ensures
        res == spec_ident_end(bytes@, pos as int),
        pos <= res <= bytes@.len(),
        pos < bytes@.len() && is_ident_continue(bytes@[pos as int]) ==> res > pos,
        forall|k: int| pos <= k < res ==> is_ident_continue(#[trigger] bytes@[k]),
{
    let mut p = pos;
    while p < bytes.len() && (is_ident_byte(bytes[p]))
        invariant
            pos <= p <= bytes@.len(),
            forall|k: int| pos <= k < p ==> is_ident_continue(#[trigger] bytes@[k]),
            spec_ident_end(bytes@, p as int) == spec_ident_end(bytes@, pos as int),
        decreases bytes@.len() - p,
    {
        p = p + 1;
    }
    p
}

fn scan_digits(bytes: &[u8], pos: usize) -> (res: usize)
    requires
        pos <= bytes@.len(),
    ensures
        res == spec_digits_end(bytes@, pos as int),
        pos <= res <= bytes@.len(),
        pos < bytes@.len() && is_digit(bytes@[pos as int]) ==> res > pos,
        forall|k: int| pos <= k < res ==> is_digit(#[trigger] bytes@[k]),
{
    let mut p = pos;
    while p < bytes.len() && 48 <= bytes[p] && bytes[p] <= 57
        invariant
            pos <= p <= bytes@.len(),
            forall|k: int| pos <= k < p ==> is_digit(#[trigger] bytes@[k]),
            spec_digits_end(bytes@, p as int) == spec_digits_end(bytes@, pos as int),
        decreases bytes@.len() - p,
    {
        p = p + 1;
    }
    p
}

fn is_ident_byte(b: u8) -> (res: bool)
    ensures
        res == is_ident_continue(b),
{
    (65 <= b && b <= 90) || (97 <= b && b <= 122) || b == 95 || (48 <= b && b <= 57)
}

/// The keyword whose ASCII spelling is `w`, if any.
pub open spec fn spec_keyword(w: Seq<u8>) -> Option<Token> {
    if w == seq![102u8, 110] {
        Some(Token::Fn)  // fn
    } else if w == seq![105u8, 102] {
        Some(Token::If)  // if
    } else if w == seq![105u8, 110] {
        Some(Token::In)  // in
    } else if w == seq![111u8, 114] {
        Some(Token::Or)  // or
    } else if w == seq![108u8, 101, 116] {
        Some(Token::Let)  // let
    } else if w == seq![102u8, 111, 114] {
        Some(Token::For)  // for
    } else if w == seq![110u8, 105, 108] {
        Some(Token::Nil)  // nil
    } else if w == seq![97u8, 110, 100] {
        Some(Token::And)  // and
    } else if w == seq![101u8, 108, 115, 101] {
        Some(Token::Else)  // else
    } else if w == seq![116u8, 114, 117, 101] {
        Some(Token::BooleanLit(true))  // true
    } else if w == seq![119u8, 104, 105, 108, 101] {
        Some(Token::While)  // while
    } else if w == seq![102u8, 97, 108, 115, 101] {
        Some(Token::BooleanLit(false))  // false
    } else if w == seq![98u8, 114, 101, 97, 107] {
        Some(Token::Break)  // break
    } else if w == seq![114u8, 101, 116, 117, 114, 110] {
        Some(Token::Return)  // return
    } else if w == seq![115u8, 116, 114, 117, 99, 116] {
        Some(Token::Struct)  // struct
    } else if w == seq![99u8, 111, 110, 116, 105, 110, 117, 101] {
        Some(Token::Continue)  // continue
    } else {
        None
    }
}

/// The keyword spelled by `bytes[start..end]`, if any.
#[verifier::rlimit(100)]
#[verifier::spinoff_prover]
fn keyword(bytes: &[u8], start: usize, end: usize) -> (res: Option<Token>)
    requires
        start <= end <= bytes@.len(),
    ensures
        res == spec_keyword(bytes@.subrange(start as int, end as int)),
{
    let ghost w = bytes@.subrange(start as int, end as int);
    assert(forall|k: int| 0 <= k < w.len() ==> w[k] == bytes@[start + k]);
    let n = end - start;
    if n == 2 {
        if bytes[start] == 102 && bytes[start + 1] == 110 {
            assert(w =~= seq![102u8, 110]);
            return Some(Token::Fn);
        }
        if bytes[start] == 105 && bytes[start + 1] == 102 {
            assert(w =~= seq![105u8, 102]);
            return Some(Token::If);
        }
        if bytes[start] == 105 && bytes[start + 1] == 110 {
            assert(w =~= seq![105u8, 110]);
            return Some(Token::In);
        }
        if bytes[start] == 111 && bytes[start + 1] == 114 {
            assert(w =~= seq![111u8, 114]);
            return Some(Token::Or);
        }
    } else if n == 3 {
        if bytes[start] == 108 && bytes[start + 1] == 101 && bytes[start + 2] == 116 {
            assert(w =~= seq![108u8, 101, 116]);
            return Some(Token::Let);
        }
        if bytes[start] == 102 && bytes[start + 1] == 111 && bytes[start + 2] == 114 {
            assert(w =~= seq![102u8, 111, 114]);
            return Some(Token::For);
        }
        if bytes[start] == 110 && bytes[start + 1] == 105 && bytes[start + 2] == 108 {
            assert(w =~= seq![110u8, 105, 108]);
            return Some(Token::Nil);
        }
        if bytes[start] == 97 && bytes[start + 1] == 110 && bytes[start + 2] == 100 {
            assert(w =~= seq![97u8, 110, 100]);
            return Some(Token::And);
        }
    } else if n == 4 {
        if bytes[start] == 101 && bytes[start + 1] == 108 && bytes[start + 2] == 115 && bytes[start
            + 3] == 101 {
            assert(w =~= seq![101u8, 108, 115, 101]);
            return Some(Token::Else);
        }
        if bytes[start] == 116 && bytes[start + 1] == 114 && bytes[start + 2] == 117 && bytes[start
            + 3] == 101 {
            assert(w =~= seq![116u8, 114, 117, 101]);
            return Some(Token::BooleanLit(true));
        }
    } else if n == 5 {
        if bytes[start] == 119 && bytes[start + 1] == 104 && bytes[start + 2] == 105 && bytes[start
            + 3] == 108 && bytes[start + 4] == 101 {
            assert(w =~= seq![119u8, 104, 105, 108, 101]);
            return Some(Token::While);
        }
        if bytes[start] == 102 && bytes[start + 1] == 97 && bytes[start + 2] == 108 && bytes[start
            + 3] == 115 && bytes[start + 4] == 101 {
            assert(w =~= seq![102u8, 97, 108, 115, 101]);
            return Some(Token::BooleanLit(false));
        }
        if bytes[start] == 98 && bytes[start + 1] == 114 && bytes[start + 2] == 101 && bytes[start
            + 3] == 97 && bytes[start + 4] == 107 {
            assert(w =~= seq![98u8, 114, 101, 97, 107]);
            return Some(Token::Break);
        }
    } else if n == 6 {
        if bytes[start] == 114 && bytes[start + 1] == 101 && bytes[start + 2] == 116 && bytes[start
            + 3] == 117 && bytes[start + 4] == 114 && bytes[start + 5] == 110 {
            assert(w =~= seq![114u8, 101, 116, 117, 114, 110]);
            return Some(Token::Return);
        }
        if bytes[start] == 115 && bytes[start + 1] == 116 && bytes[start + 2] == 114 && bytes[start
            + 3] == 117 && bytes[start + 4] == 99 && bytes[start + 5] == 116 {
            assert(w =~= seq![115u8, 116, 114, 117, 99, 116]);
            return Some(Token::Struct);
        }
    } else if n == 8 {
        if bytes[start] == 99 && bytes[start + 1] == 111 && bytes[start + 2] == 110 && bytes[start
            + 3] == 116 && bytes[start + 4] == 105 && bytes[start + 5] == 110 && bytes[start + 6]
            == 117 && bytes[start + 7] == 101 {
            assert(w =~= seq![99u8, 111, 110, 116, 105, 110, 117, 101]);
            return Some(Token::Continue);
        }
    }
    None
}

/// The operator or delimiter that starts at `pos`, with its length in bytes:
/// the longest one that matches there.
pub open spec fn spec_punct(bytes: Seq<u8>, pos: int) -> Option<(Token, usize)> {
    let b = bytes[pos];
    let next: u8 = if pos + 1 < bytes.len() { bytes[pos + 1] } else { 0 };
    if b == 43 { Some((Token::Plus, 1)) }  // +
    else if b == 45 { if next == 62 { Some((Token::Arrow, 2)) } else { Some((Token::Minus, 1)) } }  // -> -
    else if b == 42 { Some((Token::Star, 1)) }  // *
    else if b == 47 { Some((Token::Slash, 1)) }  // /
    else if b == 37 { Some((Token::Percent, 1)) }  // %
    else if b == 61 { if next == 61 { Some((Token::Equal, 2)) } else { Some((Token::Assign, 1)) } }  // == =
    else if b == 33 { if next == 61 { Some((Token::Neq, 2)) } else { Some((Token::Bang, 1)) } }  // != !
    else if b == 60 { if next == 61 { Some((Token::Le, 2)) } else { Some((Token::Lt, 1)) } }  // <= <
    else if b == 62 { if next == 61 { Some((Token::Ge, 2)) } else { Some((Token::Gt, 1)) } }  // >= >
    else if b == 38 { if next == 38 { Some((Token::And, 2)) } else { None } }  // &&
    else if b == 124 { if next == 124 { Some((Token::Or, 2)) } else { None } }  // ||
    else if b == 46 { Some((Token::Dot, 1)) }  // .
    else if b == 44 { Some((Token::Comma, 1)) }  // ,
    else if b == 58 { Some((Token::Colon, 1)) }  // :
    else if b == 63 { Some((Token::Quest, 1)) }  // ?
    else if b == 64 { Some((Token::At, 1)) }  // @
    else if b == 40 { Some((Token::LParen, 1)) }  // (
    else if b == 41 { Some((Token::RParen, 1)) }  // )
    else if b == 123 { Some((Token::LBrace, 1)) }  // {
    else if b == 125 { Some((Token::RBrace, 1)) }  // }
    else if b == 91 { Some((Token::LBracket, 1)) }  // [
    else if b == 93 { Some((Token::RBracket, 1)) }  // ]
    else if b == 59 { Some((Token::Semicolon, 1)) }  // ;
    else { None }
}

/// The operator or delimiter starting at `pos`, with its length in bytes
/// (the longest one that matches).
fn punct(bytes: &[u8], pos: usize) -> (res: Option<(Token, usize)>)
    requires
        pos < bytes@.len(),
    ensures
        res == spec_punct(bytes@, pos as int),
        res matches Some((t, n)) ==> 1 <= n <= 2 && pos + n <= bytes@.len(),
{
    let b = bytes[pos];
    let next: u8 = if pos + 1 < bytes.len() { bytes[pos + 1] } else { 0 };
    if b == 43 { Some((Token::Plus, 1)) }
    else if b == 45 { if next == 62 { Some((Token::Arrow, 2)) } else { Some((Token::Minus, 1)) } }
    else if b == 42 { Some((Token::Star, 1)) }
    else if b == 47 { Some((Token::Slash, 1)) }
    else if b == 37 { Some((Token::Percent, 1)) }
    else if b == 61 { if next == 61 { Some((Token::Equal, 2)) } else { Some((Token::Assign, 1)) } }
    else if b == 33 { if next == 61 { Some((Token::Neq, 2)) } else { Some((Token::Bang, 1)) } }
    else if b == 60 { if next == 61 { Some((Token::Le, 2)) } else { Some((Token::Lt, 1)) } }
    else if b == 62 { if next == 61 { Some((Token::Ge, 2)) } else { Some((Token::Gt, 1)) } }
    else if b == 38 { if next == 38 { Some((Token::And, 2)) } else { None } }
    else if b == 124 { if next == 124 { Some((Token::Or, 2)) } else { None } }
    else if b == 46 { Some((Token::Dot, 1)) }
    else if b == 44 { Some((Token::Comma, 1)) }
    else if b == 58 { Some((Token::Colon, 1)) }
    else if b == 63 { Some((Token::Quest, 1)) }
    else if b == 64 { Some((Token::At, 1)) }
    else if b == 40 { Some((Token::LParen, 1)) }
    else if b == 41 { Some((Token::RParen, 1)) }
    else if b == 123 { Some((Token::LBrace, 1)) }
    else if b == 125 { Some((Token::RBrace, 1)) }
    else if b == 91 { Some((Token::LBracket, 1)) }
    else if b == 93 { Some((Token::RBracket, 1)) }
    else if b == 59 { Some((Token::Semicolon, 1)) }
    else { None }
}

/// Where a numeral that starts at `start` ends: `[0-9]+(\.[0-9]+)?`, longest match.
pub open spec fn spec_number_end(bytes: Seq<u8>, start: int) -> int {
    let d = spec_digits_end(bytes, start);
    if d + 1 < bytes.len() && bytes[d] == 46 && is_digit(bytes[d + 1]) {
        spec_digits_end(bytes, d + 1)
    } else {
        d
    }
}

/// Scanning the body of a string literal from `p`: the position of its closing
/// quote, or `None` where the text ends first or a backslash escapes a newline
/// or nothing. A backslash escapes the byte after it.
pub open spec fn spec_string_close(bytes: Seq<u8>, p: int) -> Option<int>
    decreases bytes.len() - p,
{
    if p < 0 || p >= bytes.len() {
        None
    } else if bytes[p] == 34 {
        Some(p)
    } else if bytes[p] == 92 {
        if p + 1 < bytes.len() && bytes[p + 1] != 10 {
            spec_string_close(bytes, p + 2)
        } else {
            None
        }
    } else {
        spec_string_close(bytes, p + 1)
    }
}

/// Where the token that starts at `s` ends, or `None` where the text there
/// forms no token.
pub open spec fn spec_token_end(bytes: Seq<u8>, s: int) -> Option<int> {
    if is_ident_start(bytes[s]) {
        Some(spec_ident_end(bytes, s))
    } else if is_digit(bytes[s]) {
        Some(spec_number_end(bytes, s))
    } else if bytes[s] == 34 {
        match spec_string_close(bytes, s + 1) {
            Some(q) => Some(q + 1),
            None => None,
        }
    } else {
        match spec_punct(bytes, s) {
            Some((_, n)) => Some(s + n),
            None => None,
        }
    }
}

/// Whether the text from `pos` on splits into tokens up to its end.
pub open spec fn spec_lexes(bytes: Seq<u8>, pos: int) -> bool
    decreases bytes.len() - pos,
{
    let s = spec_skip(bytes, pos);
    if pos < 0 || s >= bytes.len() {
        true
    } else {
        match spec_token_end(bytes, s) {
            None => false,
            Some(e) => pos < e <= bytes.len() && spec_lexes(bytes, e),
        }
    }
}

/// Whether the token that starts at `s` is a literal: a numeral, a string,
/// `nil`, `true` or `false`.
pub open spec fn is_literal_at(bytes: Seq<u8>, s: int) -> bool {
    if is_ident_start(bytes[s]) {
        spec_keyword(bytes.subrange(s, spec_ident_end(bytes, s))) matches Some(t) && t.spec_is_literal()
    } else {
        is_digit(bytes[s]) || bytes[s] == 34
    }
}

/// Whether the text is a single literal with nothing but whitespace and
/// comments around it.
pub open spec fn spec_lone_literal(bytes: Seq<u8>) -> bool {
    let s = spec_skip(bytes, 0);
    &&& s < bytes.len()
    &&& is_literal_at(bytes, s)
    &&& spec_token_end(bytes, s) matches Some(e) && spec_skip(bytes, e) >= bytes.len()
}

/// The word literal (`true`, `false` or `nil`) that the text is, alone
/// between whitespace and comments.
pub open spec fn spec_lone_word(bytes: Seq<u8>) -> Option<Token> {
    let s = spec_skip(bytes, 0);
    if spec_lone_literal(bytes) && is_ident_start(bytes[s]) {
        spec_keyword(bytes.subrange(s, spec_ident_end(bytes, s)))
    } else {
        None
    }
}

/// `tok`, with `names` the interned strings, is the token of the lone
/// literal of the text: its word, a string of its characters, or a number.
pub open spec fn is_lone_token(bytes: Seq<u8>, tok: Token, names: Seq<Seq<char>>) -> bool {
    let s = spec_skip(bytes, 0);
    if is_ident_start(bytes[s]) {
        spec_lone_word(bytes) == Some(tok)
    } else if bytes[s] == 34 {
        spec_string_close(bytes, s + 1) matches Some(q) && tok matches Token::String(sym) && sym < names.len()
            && names[sym as int] == decode_utf8(bytes.subrange(s + 1, q))
    } else {
        tok is Number
    }
}

/// The text is a single identifier that is no keyword, with nothing but
/// whitespace and comments around it.
pub open spec fn spec_lone_ident(bytes: Seq<u8>) -> bool {
    let s = spec_skip(bytes, 0);
    &&& s < bytes.len()
    &&& is_ident_start(bytes[s])
    &&& spec_keyword(bytes.subrange(s, spec_ident_end(bytes, s))) is None
    &&& spec_skip(bytes, spec_ident_end(bytes, s)) >= bytes.len()
}

/// The characters of the first identifier of the text.
pub open spec fn spec_first_ident(bytes: Seq<u8>) -> Seq<char> {
    let s = spec_skip(bytes, 0);
    decode_utf8(bytes.subrange(s, spec_ident_end(bytes, s)))
}

/// `tok`, with `names` the interned strings, is the first identifier of the text.
pub open spec fn names_first_ident(bytes: Seq<u8>, tok: Token, names: Seq<Seq<char>>) -> bool {
    tok matches Token::Identifier(sym) && sym < names.len() && names[sym as int] == spec_first_ident(bytes)
}

/// The punctuation token the text starts with, after whitespace and
/// comments, if it starts with one.
pub open spec fn spec_first_punct(bytes: Seq<u8>) -> Option<Token> {
    let s = spec_skip(bytes, 0);
    if s < bytes.len() && !is_ident_start(bytes[s]) && !is_digit(bytes[s]) && bytes[s] != 34 {
        match spec_punct(bytes, s) {
            Some((t, _)) => Some(t),
            None => None,
        }
    } else {
        None
    }
}

/// What lexing `bytes` after `pos` gives, with `names` the interned strings
/// afterwards. Numbers are told apart by kind and span only: their value
/// comes from the host.
pub open spec fn lexed(
    bytes: Seq<u8>,
    pos: int,
    names: Seq<Seq<char>>,
    res: Result<(Token, Span), Span>,
) -> bool {
    let s = spec_skip(bytes, pos);
    if s >= bytes.len() {
        res matches Ok((tok, sp)) && tok is Eof && sp.start == bytes.len() && sp.end == bytes.len()
    } else if is_ident_start(bytes[s]) {
        let e = spec_ident_end(bytes, s);
        match spec_keyword(bytes.subrange(s, e)) {
            Some(k) => res matches Ok((tok, sp)) && tok == k && sp.start == s && sp.end == e,
            None => res matches Ok((Token::Identifier(sym), sp)) && sp.start == s && sp.end == e
                && sym < names.len() && names[sym as int] == decode_utf8(bytes.subrange(s, e)),
        }
    } else if is_digit(bytes[s]) {
        res matches Ok((Token::Number(_), sp)) && sp.start == s && sp.end == spec_number_end(
            bytes,
            s,
        )
    } else if bytes[s] == 34 {
        match spec_string_close(bytes, s + 1) {
            Some(q) => res matches Ok((Token::String(sym), sp)) && sp.start == s && sp.end == q + 1
                && sym < names.len() && names[sym as int] == decode_utf8(bytes.subrange(s + 1, q)),
            None => res matches Err(sp) && sp.start == s && s < sp.end <= bytes.len(),
        }
    } else {
        match spec_punct(bytes, s) {
            Some((t, n)) => res matches Ok((tok, sp)) && tok == t && sp.start == s && sp.end == s + n,
            None => res matches Err(sp) && sp.start == s && sp.end == s + 1,
        }
    }
}

/// Where token `i` of a token list (after the leading placeholder) is lexed
/// from: the start of the text, or the end of the token before it.
pub open spec fn tok_start(toks: Seq<(Token, Span)>, i: int) -> int {
    if i <= 1 {
        0
    } else {
        toks[i - 1].1.end as int
    }
}

/// `toks`, after a placeholder, are the tokens of the whole text in order,
/// ending with `Eof`, with `names` the interned strings.
pub open spec fn lexes_as(bytes: Seq<u8>, toks: Seq<(Token, Span)>, names: Seq<Seq<char>>) -> bool {
    &&& toks.len() >= 2
    &&& toks.last().0 is Eof
    &&& forall|i: int| 1 <= i < toks.len() ==> #[trigger] lexed(bytes, tok_start(toks, i), names, Ok(toks[i]))
}

/// Lexing facts stay true when more strings are interned.
pub proof fn lemma_lexed_names_extend(
    bytes: Seq<u8>,
    pos: int,
    n1: Seq<Seq<char>>,
    n2: Seq<Seq<char>>,
    res: Result<(Token, Span), Span>,
)
    requires
        lexed(bytes, pos, n1, res),
        n1.len() <= n2.len(),
        forall|i: int| 0 <= i < n1.len() ==> n2[i] == n1[i],
    ensures
        lexed(bytes, pos, n2, res),
{
}

/// Text that forms no token at `pos` does not split into tokens from there.
pub proof fn lemma_lexed_err(bytes: Seq<u8>, pos: int, names: Seq<Seq<char>>, sp: Span)
    requires
        0 <= pos <= bytes.len(),
        lexed(bytes, pos, names, Err(sp)),
    ensures
        !spec_lexes(bytes, pos),
{
    lemma_skip_bounds(bytes, pos);
}

/// A token lexed after `pos` that is not `Eof` leaves the rest of the text to
/// split into tokens from its end on.
pub proof fn lemma_lexed_step(bytes: Seq<u8>, pos: int, names: Seq<Seq<char>>, res: Result<(Token, Span), Span>)
    requires
        0 <= pos <= bytes.len(),
        lexed(bytes, pos, names, res),
        res matches Ok((tok, span)) && !(tok is Eof) && pos <= span.start < span.end <= bytes.len(),
    ensures
        res matches Ok((_, span)) && spec_lexes(bytes, pos) == spec_lexes(bytes, span.end as int),
{
    lemma_skip_bounds(bytes, pos);
}

/// Lexes the token after `pos`: whitespace and `//` comments are skipped;
/// at the end of the text the token is `Eof` with an empty span at the end.
/// `Err` carries the span of text that forms no token. Identifiers and the
/// bodies of string literals are interned; an interner that holds nearly
/// `u32::MAX` strings refuses every token but `Eof`.
pub fn next_token<H: Host>(source: &str, pos: usize, interner: &mut Interner, host: &mut H) -> (res: Result<(Token, Span), Span>)
    requires
        pos <= source.spec_bytes().len(),
        old(interner).wf(),
    ensures
        final(interner).wf(),
        old(interner)@.len() <= final(interner)@.len() <= old(interner)@.len() + 1,
        forall|i: int| 0 <= i < old(interner)@.len() ==> final(interner)@[i] == old(interner)@[i],
        old(interner)@.len() < 0xffff_fff0 ==> lexed(source.spec_bytes(), pos as int, final(interner)@, res),
        old(interner)@.len() >= 0xffff_fff0 ==> spec_skip(source.spec_bytes(), pos as int)
            < source.spec_bytes().len() ==> res is Err,
        res matches Ok((tok, span)) ==> {
            &&& span.start == spec_skip(source.spec_bytes(), pos as int)
            &&& pos <= span.start
            &&& span.start <= span.end <= source.spec_bytes().len()
            &&& (tok is Eof <==> span.start == source.spec_bytes().len())
            &&& tok is Eof ==> span.end == span.start
            &&& !(tok is Eof) ==> span.end > span.start
            &&& tok matches Token::Identifier(sym) ==> sym < final(interner)@.len()
            &&& tok matches Token::String(sym) ==> sym < final(interner)@.len()
        },
        res matches Err(span) ==> pos <= span.start < span.end <= source.spec_bytes().len(),
        spec_skip(source.spec_bytes(), pos as int) >= source.spec_bytes().len() ==> (res matches Ok((tok, _))
            && tok is Eof),
{
    let bytes = source.as_bytes();
    let ghost b = source.spec_bytes();
    proof {
        encode_utf8_valid_utf8(source@);
    }
    let start = skip_trivia(bytes, pos);
    let len = bytes.len();
    if start >= len {
        return Ok((Token::Eof, Span::new(len, len)));
    }
    let b0 = bytes[start];
    if interner.len() >= 0xffff_fff0 {
        return Err(Span::new(start, start + 1));
    }
    if (65 <= b0 && b0 <= 90) || (97 <= b0 && b0 <= 122) || b0 == 95 {
        let end = scan_ident(bytes, start);
        if let Some(kw) = keyword(bytes, start, end) {
            return Ok((kw, Span::new(start, end)));
        }
        proof {
            if end < len {
                assert(is_ident_continue(b[end - 1]));
                lemma_after_ascii(b, end - 1);
            }
        }
        match substr(source, start, end) {
            Some(text) => {
                let sym = interner.intern(text);
                return Ok((Token::Identifier(sym), Span::new(start, end)));
            },
            None => return Err(Span::new(start, end)),
        }
    }
    if 48 <= b0 && b0 <= 57 {
        let mut end = scan_digits(bytes, start);
        if end < len && end + 1 < len && bytes[end] == 46 && 48 <= bytes[end + 1] && bytes[end + 1] <= 57 {
            end = scan_digits(bytes, end + 1);
        }
        proof {
            if end < len {
                assert(is_digit(b[end - 1]));
                lemma_after_ascii(b, end - 1);
            }
        }
        match substr(source, start, end) {
            Some(text) => {
                let bits = host.number_bits(text);
                return Ok((Token::Number(bits), Span::new(start, end)));
            },
            None => return Err(Span::new(start, end)),
        }
    }
    if b0 == 34 {
        // "([^"\\]|\\.)*"
        let mut p = start + 1;
        while p < len && bytes[p] != 34
            invariant
                start < p <= len,
                pos <= start,
                len == bytes@.len(),
                bytes@ == b,
                b == source.spec_bytes(),
                b[start as int] == 34,
                start == spec_skip(b, pos as int),
                spec_string_close(b, p as int) == spec_string_close(b, start + 1),
                interner@ == old(interner)@,
                interner.wf(),
            decreases len - p,
        {
            if bytes[p] == 92 {
                if p + 1 < len && bytes[p + 1] != 10 {
                    p = p + 2;
                } else {
                    return Err(Span::new(start, p + 1));
                }
            } else {
                p = p + 1;
            }
        }
        if p >= len {
            return Err(Span::new(start, len));
        }
        proof {
            if start + 1 < len {
                lemma_after_ascii(b, start as int);
            }
        }
        match substr(source, start + 1, p) {
            Some(text) => {
                let sym = interner.intern(text);
                return Ok((Token::String(sym), Span::new(start, p + 1)));
            },
            None => return Err(Span::new(start, p + 1)),
        }
    }
    match punct(bytes, start) {
        Some((tok, n)) => Ok((tok, Span::new(start, start + n))),
        None => Err(Span::new(start, start + 1)),
    }
}

} // verus!

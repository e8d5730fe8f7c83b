//! The GraphQL lexer.
//!
//! The lexer turns source text into tokens (and lexing errors) one at a time.
//! What it produces is specified by [`scan`], which says for every position
//! which lexeme starts there and where it ends, and by [`lexemes`], the whole
//! sequence of lexemes from a position on.
use crate::error::{Error, LimitTracker};
use crate::text::{bytes_of, boundary_ok, lemma_boundary_ok, lemma_same_bytes_same_chars, slice_str};
use vstd::prelude::*;
use vstd::utf8::*;

verus! {

broadcast use vstd::utf8::encode_utf8_valid_utf8;

/// The kinds of GraphQL tokens, significant and ignored.
#[derive(Clone, Copy, Debug, PartialEq, Eq, Hash, Structural)]
pub enum TokenKind {
    Whitespace,
    Comment,
    Bang,
    Dollar,
    Amp,
    Spread,
    Comma,
    Colon,
    Eq,
    At,
    LParen,
    RParen,
    LBracket,
    RBracket,
    LCurly,
    RCurly,
    Pipe,
    Eof,
    Name,
    StringValue,
    Int,
    Float,
}

/// The kinds of lexing errors.
#[derive(Clone, Copy, Debug, PartialEq, Eq, Structural)]
pub enum LexErrorKind {
    UnexpectedCharacter,
    UnterminatedSpread,
    UnterminatedString,
    UnterminatedBlockString,
    InvalidEscape,
    InvalidNumber,
}

/// What a lexeme is: a token, a lexing error, or the end of lexing because
/// the token limit was reached.
#[derive(Clone, Copy, Debug, PartialEq, Eq, Structural)]
pub enum LexemeKind {
    Token(TokenKind),
    Error(LexErrorKind),
    Limit,
}

/// A lexeme: its kind and the byte range `[start, end)` of the source it covers.
pub ghost struct Lexeme {
    pub kind: LexemeKind,
    pub start: int,
    pub end: int,
}

/// A token: its kind, its text and the byte offset where the text starts.
#[derive(Clone, Copy, Debug, PartialEq, Eq)]
pub struct Token<'a> {
    pub kind: TokenKind,
    pub data: &'a str,
    pub index: usize,
}

impl<'a> Token<'a> {
    pub fn kind(&self) -> (r: TokenKind)
        ensures
            r == self.kind,
    {
        self.kind
    }

    pub fn data(&self) -> (r: &'a str)
        ensures
            r == self.data,
    {
        self.data
    }

    pub fn index(&self) -> (r: usize)
        ensures
            r == self.index,
    {
        self.index
    }
}

// ---------------------------------------------------------------------------
// Byte classes
pub open spec fn is_digit(c: u8) -> bool {
    0x30 <= c <= 0x39
}

pub open spec fn is_name_start(c: u8) -> bool {
    c == 0x5f || (0x41 <= c <= 0x5a) || (0x61 <= c <= 0x7a)
}

pub open spec fn is_name_continue(c: u8) -> bool {
    is_name_start(c) || is_digit(c)
}

/// Space, tab, line feed and carriage return.
pub open spec fn is_ws_byte(c: u8) -> bool {
    c == 0x20 || c == 0x09 || c == 0x0a || c == 0x0d
}

pub open spec fn is_line_terminator(c: u8) -> bool {
    c == 0x0a || c == 0x0d
}

pub open spec fn is_hex(c: u8) -> bool {
    is_digit(c) || (0x41 <= c <= 0x46) || (0x61 <= c <= 0x66)
}

/// The characters that may follow a backslash on their own: `" \ / b f n r t`.
pub open spec fn is_simple_escape(c: u8) -> bool {
    c == 0x22 || c == 0x5c || c == 0x2f || c == 0x62 || c == 0x66 || c == 0x6e || c == 0x72
        || c == 0x74
}

/// The Unicode byte order mark, U+FEFF, starts at `p`.
pub open spec fn is_bom_at(b: Seq<u8>, p: int) -> bool {
    0 <= p && p + 2 < b.len() && b[p] == 0xef && b[p + 1] == 0xbb && b[p + 2] == 0xbf
}

/// The single-byte punctuators.
pub open spec fn punct_kind(c: u8) -> Option<TokenKind> {
    if c == 0x21 {
        Some(TokenKind::Bang)
    } else if c == 0x24 {
        Some(TokenKind::Dollar)
    } else if c == 0x26 {
        Some(TokenKind::Amp)
    } else if c == 0x28 {
        Some(TokenKind::LParen)
    } else if c == 0x29 {
        Some(TokenKind::RParen)
    } else if c == 0x3a {
        Some(TokenKind::Colon)
    } else if c == 0x3d {
        Some(TokenKind::Eq)
    } else if c == 0x40 {
        Some(TokenKind::At)
    } else if c == 0x5b {
        Some(TokenKind::LBracket)
    } else if c == 0x5d {
        Some(TokenKind::RBracket)
    } else if c == 0x7b {
        Some(TokenKind::LCurly)
    } else if c == 0x7d {
        Some(TokenKind::RCurly)
    } else if c == 0x7c {
        Some(TokenKind::Pipe)
    } else {
        None
    }
}

// ---------------------------------------------------------------------------
// Runs
/// The end of the run of UTF-8 continuation bytes starting at `q`.
pub open spec fn cont_end(b: Seq<u8>, q: int) -> int
    decreases b.len() - q,
{
    if 0 <= q < b.len() && is_continuation_byte(b[q]) {
        cont_end(b, q + 1)
    } else {
        q
    }
}

/// The end of the run of whitespace bytes starting at `q`.
pub open spec fn ws_end(b: Seq<u8>, q: int) -> int
    decreases b.len() - q,
{
    if 0 <= q < b.len() && is_ws_byte(b[q]) {
        ws_end(b, q + 1)
    } else {
        q
    }
}

/// The end of the run of name characters starting at `q`.
pub open spec fn name_end(b: Seq<u8>, q: int) -> int
    decreases b.len() - q,
{
    if 0 <= q < b.len() && is_name_continue(b[q]) {
        name_end(b, q + 1)
    } else {
        q
    }
}

/// The end of the run of digits starting at `q`.
pub open spec fn digits_end(b: Seq<u8>, q: int) -> int
    decreases b.len() - q,
{
    if 0 <= q < b.len() && is_digit(b[q]) {
        digits_end(b, q + 1)
    } else {
        q
    }
}

/// The end of a comment's text: the next line terminator, or the end of the input.
pub open spec fn comment_end(b: Seq<u8>, q: int) -> int
    decreases b.len() - q,
{
    if 0 <= q < b.len() && !is_line_terminator(b[q]) {
        comment_end(b, q + 1)
    } else {
        q
    }
}

// ---------------------------------------------------------------------------
// Lexemes
/// A number starting at `p` (with a `-` or a digit): an IntValue, a
/// FloatValue, or an invalid number.
pub open spec fn scan_number(b: Seq<u8>, p: int) -> (LexemeKind, int) {
    let len = b.len() as int;
    let q0 = if b[p] == 0x2d {
        p + 1
    } else {
        p
    };
    if !(q0 < len && is_digit(b[q0])) {
        (LexemeKind::Error(LexErrorKind::InvalidNumber), q0)
    } else if b[q0] == 0x30 && q0 + 1 < len && is_digit(b[q0 + 1]) {
        (LexemeKind::Error(LexErrorKind::InvalidNumber), digits_end(b, q0 + 1))
    } else {
        let q1 = if b[q0] == 0x30 {
            q0 + 1
        } else {
            digits_end(b, q0)
        };
        if q1 < len && b[q1] == 0x2e && !(q1 + 1 < len && is_digit(b[q1 + 1])) {
            (LexemeKind::Error(LexErrorKind::InvalidNumber), q1 + 1)
        } else {
            let has_frac = q1 < len && b[q1] == 0x2e;
            let q2 = if has_frac {
                digits_end(b, q1 + 1)
            } else {
                q1
            };
            let has_exp = q2 < len && (b[q2] == 0x65 || b[q2] == 0x45);
            let q3 = if q2 + 1 < len && (b[q2 + 1] == 0x2b || b[q2 + 1] == 0x2d) {
                q2 + 2
            } else {
                q2 + 1
            };
            if has_exp && !(q3 < len && is_digit(b[q3])) {
                (LexemeKind::Error(LexErrorKind::InvalidNumber), q3)
            } else {
                let q4 = if has_exp {
                    digits_end(b, q3)
                } else {
                    q2
                };
                if q4 < len && (b[q4] == 0x2e || is_name_start(b[q4])) {
                    (LexemeKind::Error(LexErrorKind::InvalidNumber), q4 + 1)
                } else if has_frac || has_exp {
                    (LexemeKind::Token(TokenKind::Float), q4)
                } else {
                    (LexemeKind::Token(TokenKind::Int), q4)
                }
            }
        }
    }
}

/// `\u` followed by four hexadecimal digits starts at `q`.
pub open spec fn is_unicode_escape_at(b: Seq<u8>, q: int) -> bool {
    &&& 0 <= q
    &&& q + 5 < b.len()
    &&& b[q] == 0x5c
    &&& b[q + 1] == 0x75
    &&& is_hex(b[q + 2])
    &&& is_hex(b[q + 3])
    &&& is_hex(b[q + 4])
    &&& is_hex(b[q + 5])
}

/// The rest of a quoted string from `q`; `valid` is false once an invalid
/// escape sequence was seen.
pub open spec fn scan_string_body(b: Seq<u8>, q: int, valid: bool) -> (LexemeKind, int)
    decreases b.len() - q,
{
    let len = b.len() as int;
    if q < 0 || q >= len {
        (LexemeKind::Error(LexErrorKind::UnterminatedString), len)
    } else if b[q] == 0x22 {
        if valid {
            (LexemeKind::Token(TokenKind::StringValue), q + 1)
        } else {
            (LexemeKind::Error(LexErrorKind::InvalidEscape), q + 1)
        }
    } else if is_line_terminator(b[q]) {
        (LexemeKind::Error(LexErrorKind::UnterminatedString), q)
    } else if b[q] == 0x5c {
        if q + 1 < len && is_simple_escape(b[q + 1]) {
            scan_string_body(b, q + 2, valid)
        } else if is_unicode_escape_at(b, q) {
            scan_string_body(b, q + 6, valid)
        } else {
            scan_string_body(b, q + 1, false)
        }
    } else {
        scan_string_body(b, q + 1, valid)
    }
}

/// Three quotes start at `q`.
pub open spec fn is_triple_quote_at(b: Seq<u8>, q: int) -> bool {
    0 <= q && q + 2 < b.len() && b[q] == 0x22 && b[q + 1] == 0x22 && b[q + 2] == 0x22
}

/// The rest of a block string from `q`.
pub open spec fn scan_block_body(b: Seq<u8>, q: int) -> (LexemeKind, int)
    decreases b.len() - q,
{
    if q < 0 || q >= b.len() {
        (LexemeKind::Error(LexErrorKind::UnterminatedBlockString), b.len() as int)
    } else if is_triple_quote_at(b, q) {
        (LexemeKind::Token(TokenKind::StringValue), q + 3)
    } else if b[q] == 0x5c && is_triple_quote_at(b, q + 1) {
        scan_block_body(b, q + 4)
    } else {
        scan_block_body(b, q + 1)
    }
}

/// The lexeme that starts at byte `p` (which is before the end of `b`):
/// its kind and the offset where it ends.
#[verifier::opaque]
pub open spec fn scan(b: Seq<u8>, p: int) -> (LexemeKind, int) {
    let len = b.len() as int;
    let c = b[p];
    if is_ws_byte(c) {
        (LexemeKind::Token(TokenKind::Whitespace), ws_end(b, p + 1))
    } else if is_bom_at(b, p) {
        (LexemeKind::Token(TokenKind::Whitespace), cont_end(b, p + 1))
    } else if c == 0x2c {
        (LexemeKind::Token(TokenKind::Comma), p + 1)
    } else if c == 0x23 {
        (LexemeKind::Token(TokenKind::Comment), comment_end(b, p + 1))
    } else if punct_kind(c) is Some {
        (LexemeKind::Token(punct_kind(c)->0), p + 1)
    } else if c == 0x2e {
        if p + 2 < len && b[p + 1] == 0x2e && b[p + 2] == 0x2e {
            (LexemeKind::Token(TokenKind::Spread), p + 3)
        } else if p + 1 < len && b[p + 1] == 0x2e {
            (LexemeKind::Error(LexErrorKind::UnterminatedSpread), p + 2)
        } else {
            (LexemeKind::Error(LexErrorKind::UnterminatedSpread), p + 1)
        }
    } else if is_name_start(c) {
        (LexemeKind::Token(TokenKind::Name), name_end(b, p + 1))
    } else if c == 0x2d || is_digit(c) {
        scan_number(b, p)
    } else if c == 0x22 {
        if is_triple_quote_at(b, p) {
            scan_block_body(b, p + 3)
        } else {
            scan_string_body(b, p + 1, true)
        }
    } else {
        (LexemeKind::Error(LexErrorKind::UnexpectedCharacter), cont_end(b, p + 1))
    }
}

/// The lexemes of `b` from byte `p` on, when `budget` more tokens may be made.
/// At the end of the input comes an `Eof` token; when the budget runs out
/// first, a `Limit` lexeme ends the sequence.
#[verifier::opaque]
pub open spec fn lexemes(b: Seq<u8>, p: int, budget: nat) -> Seq<Lexeme>
    decreases budget,
{
    if p >= b.len() {
        seq![Lexeme { kind: LexemeKind::Token(TokenKind::Eof), start: b.len() as int, end: b.len() as int }]
    } else if budget == 0 {
        seq![Lexeme { kind: LexemeKind::Limit, start: p, end: p }]
    } else {
        let (k, e) = scan(b, p);
        seq![Lexeme { kind: k, start: p, end: e }] + lexemes(b, e, (budget - 1) as nat)
    }
}

/// The message of each kind of lexing error.
pub open spec fn lex_error_message(k: LexErrorKind) -> Seq<char> {
    match k {
        LexErrorKind::UnexpectedCharacter => "Unexpected character"@,
        LexErrorKind::UnterminatedSpread => "Unterminated spread operator"@,
        LexErrorKind::UnterminatedString => "Unterminated string value"@,
        LexErrorKind::UnterminatedBlockString => "Unterminated block string value"@,
        LexErrorKind::InvalidEscape => "Invalid escape sequence in string value"@,
        LexErrorKind::InvalidNumber => "Invalid number"@,
    }
}

/// The message of the error that ends lexing at the token limit.
pub open spec fn limit_message() -> Seq<char> {
    "token limit reached, aborting lexing"@
}

/// The source text of the bytes `[s, e)`.
pub open spec fn text_at(b: Seq<u8>, s: int, e: int) -> Seq<char> {
    decode_utf8(b.subrange(s, e))
}

/// `item` is what the lexer hands out for lexeme `l` of the bytes `b`.
pub open spec fn item_matches(item: Result<Token, Error>, l: Lexeme, b: Seq<u8>) -> bool {
    match l.kind {
        LexemeKind::Token(k) => item matches Ok(t) && token_matches(t, l, b),
        LexemeKind::Error(k) => item matches Err(e) && error_matches(e, l, b),
        LexemeKind::Limit => item matches Err(e) && error_matches(e, l, b),
    }
}

pub open spec fn token_matches(t: Token, l: Lexeme, b: Seq<u8>) -> bool {
    &&& l.kind == LexemeKind::Token(t.kind)
    &&& t.index == l.start
    &&& 0 <= l.start <= l.end <= b.len()
    &&& bytes_of(t.data) == b.subrange(l.start, l.end)
}

pub open spec fn error_matches(e: Error, l: Lexeme, b: Seq<u8>) -> bool {
    &&& e.spec_index() == l.start
    &&& !e.spec_is_eof()
    &&& match l.kind {
        LexemeKind::Error(k) => {
            &&& e.spec_message() == lex_error_message(k)
            &&& e.spec_data() == text_at(b, l.start, l.end)
            &&& !e.spec_is_limit()
        },
        LexemeKind::Limit => {
            &&& e.spec_message() == limit_message()
            &&& e.spec_data() == Seq::<char>::empty()
            &&& e.spec_is_limit()
        },
        LexemeKind::Token(_) => false,
    }
}

// ---------------------------------------------------------------------------
// Facts about the runs and lexemes
proof fn lemma_cont_end(b: Seq<u8>, q: int)
    requires
        0 <= q <= b.len(),
    ensures
        q <= cont_end(b, q) <= b.len(),
        cont_end(b, q) == b.len() || !is_continuation_byte(b[cont_end(b, q)]),
    decreases b.len() - q,
{
    if q < b.len() && is_continuation_byte(b[q]) {
        lemma_cont_end(b, q + 1);
    }
}

proof fn lemma_ws_end(b: Seq<u8>, q: int)
    requires
        0 <= q <= b.len(),
    ensures
        q <= ws_end(b, q) <= b.len(),
        ws_end(b, q) == q || is_ws_byte(b[ws_end(b, q) - 1]),
    decreases b.len() - q,
{
    if q < b.len() && is_ws_byte(b[q]) {
        lemma_ws_end(b, q + 1);
    }
}

proof fn lemma_name_end(b: Seq<u8>, q: int)
    requires
        0 <= q <= b.len(),
    ensures
        q <= name_end(b, q) <= b.len(),
        name_end(b, q) == q || is_name_continue(b[name_end(b, q) - 1]),
        forall|i: int| q <= i < name_end(b, q) ==> is_name_continue(#[trigger] b[i]),
        name_end(b, q) == b.len() || !is_name_continue(b[name_end(b, q)]),
    decreases b.len() - q,
{
    if q < b.len() && is_name_continue(b[q]) {
        lemma_name_end(b, q + 1);
    }
}

proof fn lemma_digits_end(b: Seq<u8>, q: int)
    requires
        0 <= q <= b.len(),
    ensures
        q <= digits_end(b, q) <= b.len(),
        digits_end(b, q) == q || is_digit(b[digits_end(b, q) - 1]),
    decreases b.len() - q,
{
    if q < b.len() && is_digit(b[q]) {
        lemma_digits_end(b, q + 1);
    }
}

proof fn lemma_comment_end(b: Seq<u8>, q: int)
    requires
        0 <= q <= b.len(),
    ensures
        q <= comment_end(b, q) <= b.len(),
        comment_end(b, q) == b.len() || is_line_terminator(b[comment_end(b, q)]),
        forall|i: int| q <= i < comment_end(b, q) ==> !is_line_terminator(#[trigger] b[i]),
    decreases b.len() - q,
{
    if q < b.len() && !is_line_terminator(b[q]) {
        lemma_comment_end(b, q + 1);
    }
}

proof fn lemma_string_body(b: Seq<u8>, q: int, valid: bool)
    requires
        0 <= q <= b.len(),
    ensures
        q <= scan_string_body(b, q, valid).1 <= b.len(),
        ({
            let e = scan_string_body(b, q, valid).1;
            e == b.len() || is_line_terminator(b[e]) || (e > 0 && b[e - 1] == 0x22)
        }),
        scan_string_body(b, q, valid).0 is Token || scan_string_body(b, q, valid).0 is Error,
        scan_string_body(b, q, valid).0 != LexemeKind::Token(TokenKind::Eof),
        scan_string_body(b, q, valid).0 != LexemeKind::Token(TokenKind::Comment),
    decreases b.len() - q,
{
    let len = b.len() as int;
    if q >= len {
    } else if b[q] == 0x22 {
    } else if is_line_terminator(b[q]) {
    } else if b[q] == 0x5c {
        if q + 1 < len && is_simple_escape(b[q + 1]) {
            lemma_string_body(b, q + 2, valid);
        } else if is_unicode_escape_at(b, q) {
            lemma_string_body(b, q + 6, valid);
        } else {
            lemma_string_body(b, q + 1, false);
        }
    } else {
        lemma_string_body(b, q + 1, valid);
    }
}

proof fn lemma_block_body(b: Seq<u8>, q: int)
    requires
        0 <= q <= b.len(),
    ensures
        q <= scan_block_body(b, q).1 <= b.len(),
        ({
            let e = scan_block_body(b, q).1;
            e == b.len() || (e > 0 && b[e - 1] == 0x22)
        }),
        scan_block_body(b, q).0 is Token || scan_block_body(b, q).0 is Error,
        scan_block_body(b, q).0 != LexemeKind::Token(TokenKind::Eof),
        scan_block_body(b, q).0 != LexemeKind::Token(TokenKind::Comment),
    decreases b.len() - q,
{
    if q >= b.len() {
    } else if is_triple_quote_at(b, q) {
    } else if b[q] == 0x5c && is_triple_quote_at(b, q + 1) {
        lemma_block_body(b, q + 4);
    } else {
        lemma_block_body(b, q + 1);
    }
}

proof fn lemma_number(b: Seq<u8>, p: int)
    requires
        0 <= p < b.len(),
        b[p] == 0x2d || is_digit(b[p]),
    ensures
        p < scan_number(b, p).1 <= b.len(),
        b[scan_number(b, p).1 - 1] <= 0x7f,
        scan_number(b, p).0 is Token || scan_number(b, p).0 is Error,
        scan_number(b, p).0 != LexemeKind::Token(TokenKind::Eof),
        scan_number(b, p).0 != LexemeKind::Token(TokenKind::Comment),
{
    let len = b.len() as int;
    let q0 = if b[p] == 0x2d {
        p + 1
    } else {
        p
    };
    if q0 < len {
        lemma_digits_end(b, q0);
    }
    if q0 + 1 <= len {
        lemma_digits_end(b, q0 + 1);
    }
    let q1 = if q0 < len && b[q0] == 0x30 {
        q0 + 1
    } else {
        digits_end(b, q0)
    };
    if q1 + 1 <= len {
        lemma_digits_end(b, q1 + 1);
    }
    let q2 = if q1 < len && b[q1] == 0x2e {
        digits_end(b, q1 + 1)
    } else {
        q1
    };
    let q3 = if q2 + 1 < len && (b[q2 + 1] == 0x2b || b[q2 + 1] == 0x2d) {
        q2 + 2
    } else {
        q2 + 1
    };
    if q3 <= len {
        lemma_digits_end(b, q3);
    }
}

/// Every lexeme that `scan` finds is non-empty and ends where a new character
/// (or the end of the input) begins.
pub proof fn lemma_scan(b: Seq<u8>, p: int)
    requires
        valid_utf8(b),
        0 <= p < b.len(),
    ensures
        p < scan(b, p).1 <= b.len(),
        is_char_boundary(b, scan(b, p).1),
        scan(b, p).0 is Token || scan(b, p).0 is Error,
        scan(b, p).0 != LexemeKind::Token(TokenKind::Eof),
{
    reveal(scan);
    let len = b.len() as int;
    let c = b[p];
    let e = scan(b, p).1;
    if is_ws_byte(c) {
        lemma_ws_end(b, p + 1);
    } else if is_bom_at(b, p) {
        lemma_cont_end(b, p + 1);
    } else if c == 0x2c {
    } else if c == 0x23 {
        lemma_comment_end(b, p + 1);
    } else if punct_kind(c) is Some {
    } else if c == 0x2e {
    } else if is_name_start(c) {
        lemma_name_end(b, p + 1);
    } else if c == 0x2d || is_digit(c) {
        lemma_number(b, p);
    } else if c == 0x22 {
        if is_triple_quote_at(b, p) {
            lemma_block_body(b, p + 3);
        } else {
            lemma_string_body(b, p + 1, true);
        }
    } else {
        lemma_cont_end(b, p + 1);
    }
    assert(boundary_ok(b, e));
    lemma_boundary_ok(b, e);
}

/// `[s, e)` is a line comment of `b`: a `#` and the rest of its line, up to
/// the line terminator or the end of the input.
pub open spec fn is_line_comment(b: Seq<u8>, s: int, e: int) -> bool {
    &&& 0 <= s < e <= b.len()
    &&& b[s] == 0x23
    &&& forall|i: int| s <= i < e ==> !is_line_terminator(#[trigger] b[i])
    &&& (e == b.len() || is_line_terminator(b[e]))
}

proof fn lemma_scan_comment(b: Seq<u8>, p: int)
    requires
        0 <= p < b.len(),
        scan(b, p).0 == LexemeKind::Token(TokenKind::Comment),
    ensures
        is_line_comment(b, p, scan(b, p).1),
{
    reveal(scan);
    let c = b[p];
    if c == 0x2d || is_digit(c) {
        if !is_ws_byte(c) && !is_bom_at(b, p) && c != 0x2c && c != 0x23 && !(punct_kind(c) is Some)
            && c != 0x2e && !is_name_start(c) {
            lemma_number(b, p);
        }
    }
    if c == 0x22 {
        if is_triple_quote_at(b, p) {
            lemma_block_body(b, p + 3);
        }
        lemma_string_body(b, p + 1, true);
    }
    lemma_comment_end(b, p + 1);
}

/// Every comment the lexer finds is a line comment: it covers `#` through the
/// end of its line, the line terminator excluded.
pub proof fn lemma_comments_are_line_comments(b: Seq<u8>, p: int, budget: nat)
    requires
        valid_utf8(b),
        0 <= p <= b.len(),
    ensures
        forall|i: int|
            0 <= i < lexemes(b, p, budget).len() && (#[trigger] lexemes(b, p, budget)[i]).kind
                == LexemeKind::Token(TokenKind::Comment) ==> is_line_comment(
                b,
                lexemes(b, p, budget)[i].start,
                lexemes(b, p, budget)[i].end,
            ),
    decreases budget,
{
    reveal(lexemes);
    if p >= b.len() {
    } else if budget == 0 {
    } else {
        let (k, e) = scan(b, p);
        lemma_scan(b, p);
        if k == LexemeKind::Token(TokenKind::Comment) {
            lemma_scan_comment(b, p);
        }
        lemma_comments_are_line_comments(b, e, (budget - 1) as nat);
        let rest = lexemes(b, e, (budget - 1) as nat);
        let ls = lexemes(b, p, budget);
        assert(ls == seq![Lexeme { kind: k, start: p, end: e }] + rest);
        assert forall|i: int|
            0 <= i < ls.len() && (#[trigger] ls[i]).kind == LexemeKind::Token(
                TokenKind::Comment,
            ) implies is_line_comment(b, ls[i].start, ls[i].end) by {
            if i > 0 {
                assert(ls[i] == rest[i - 1]);
            }
        }
    }
}

/// A name lexeme found where a letter or `_` starts runs over every following
/// letter, digit and `_`: it ends at the first byte outside `[A-Za-z0-9_]`, or
/// at the end of the input.
pub proof fn lemma_names_run_over_name_bytes(b: Seq<u8>, p: int, budget: nat)
    requires
        valid_utf8(b),
        0 <= p <= b.len(),
    ensures
        forall|i: int|
            0 <= i < lexemes(b, p, budget).len() && (#[trigger] lexemes(b, p, budget)[i]).start < b.len() && {
                let c = b[lexemes(b, p, budget)[i].start];
                c == 0x5f || (0x41 <= c <= 0x5a) || (0x61 <= c <= 0x7a)
            } && lexemes(b, p, budget)[i].kind != LexemeKind::Limit ==> {
                let l = lexemes(b, p, budget)[i];
                &&& l.kind == LexemeKind::Token(TokenKind::Name)
                &&& l.start < l.end <= b.len()
                &&& forall|j: int|
                    l.start < j < l.end ==> {
                        let d = #[trigger] b[j];
                        d == 0x5f || (0x41 <= d <= 0x5a) || (0x61 <= d <= 0x7a) || (0x30 <= d <= 0x39)
                    }
                &&& l.end == b.len() || !({
                    let d = b[l.end];
                    d == 0x5f || (0x41 <= d <= 0x5a) || (0x61 <= d <= 0x7a) || (0x30 <= d <= 0x39)
                })
            },
    decreases budget,
{
    reveal(lexemes);
    if p >= b.len() {
    } else if budget == 0 {
    } else {
        let (k, e) = scan(b, p);
        lemma_scan(b, p);
        lemma_names_run_over_name_bytes(b, e, (budget - 1) as nat);
        let rest = lexemes(b, e, (budget - 1) as nat);
        let ls = lexemes(b, p, budget);
        assert(ls == seq![Lexeme { kind: k, start: p, end: e }] + rest);
        let c = b[p];
        if c == 0x5f || (0x41 <= c <= 0x5a) || (0x61 <= c <= 0x7a) {
            reveal(scan);
            assert(!is_ws_byte(c));
            assert(punct_kind(c) is None);
            assert(is_name_start(c));
            lemma_name_end(b, p + 1);
            if !is_bom_at(b, p) {
                assert(k == LexemeKind::Token(TokenKind::Name));
                assert(e == name_end(b, p + 1));
            }
        }
        assert forall|i: int|
            0 <= i < ls.len() && (#[trigger] ls[i]).start < b.len() && {
                let c = b[ls[i].start];
                c == 0x5f || (0x41 <= c <= 0x5a) || (0x61 <= c <= 0x7a)
            } && ls[i].kind != LexemeKind::Limit implies {
                let l = ls[i];
                &&& l.kind == LexemeKind::Token(TokenKind::Name)
                &&& l.start < l.end <= b.len()
                &&& forall|j: int|
                    l.start < j < l.end ==> {
                        let d = #[trigger] b[j];
                        d == 0x5f || (0x41 <= d <= 0x5a) || (0x61 <= d <= 0x7a) || (0x30 <= d <= 0x39)
                    }
                &&& l.end == b.len() || !({
                    let d = b[l.end];
                    d == 0x5f || (0x41 <= d <= 0x5a) || (0x61 <= d <= 0x7a) || (0x30 <= d <= 0x39)
                })
            } by {
            if i > 0 {
                assert(ls[i] == rest[i - 1]);
            } else {
                assert(ls[0].start == p);
                assert(forall|j: int| p + 1 <= j < name_end(b, p + 1) ==> is_name_continue(#[trigger] b[j]));
            }
        }
    }
}

/// Lexing tiles the source: the lexemes from `p` on follow one another without
/// gap or overlap, each starts and ends on a character boundary, every one but
/// the last is non-empty, and the last is either the `Eof` token at the end of
/// the input or the `Limit` lexeme. With a budget larger than the number of
/// bytes left, the limit is never reached.
pub proof fn lemma_lexemes_tile(b: Seq<u8>, p: int, budget: nat)
    requires
        valid_utf8(b),
        0 <= p <= b.len(),
        is_char_boundary(b, p),
    ensures
        ({
            let ls = lexemes(b, p, budget);
            &&& 1 <= ls.len() <= budget + 1
            &&& ls[0].start == p
            &&& forall|i: int|
                0 <= i < ls.len() - 1 ==> {
                    &&& #[trigger] ls[i].end == ls[i + 1].start
                    &&& ls[i].start < ls[i].end
                    &&& (ls[i].kind is Token || ls[i].kind is Error)
                    &&& ls[i].kind != LexemeKind::Token(TokenKind::Eof)
                }
            &&& forall|i: int|
                0 <= i < ls.len() ==> {
                    &&& 0 <= #[trigger] ls[i].start <= ls[i].end <= b.len()
                    &&& is_char_boundary(b, ls[i].start)
                    &&& is_char_boundary(b, ls[i].end)
                }
            &&& ls.last().kind == LexemeKind::Token(TokenKind::Eof) ==> ls.last().start
                == b.len() && ls.last().end == b.len()
            &&& ls.last().kind == LexemeKind::Token(TokenKind::Eof) || ls.last().kind
                == LexemeKind::Limit
            &&& ls.last().kind == LexemeKind::Limit ==> ls.last().start == ls.last().end
            &&& budget > b.len() - p ==> ls.last().kind == LexemeKind::Token(TokenKind::Eof)
        }),
    decreases budget,
{
    broadcast use vstd::utf8::is_char_boundary_start_end_of_seq;

    reveal(lexemes);
    if p >= b.len() {
    } else if budget == 0 {
    } else {
        let (k, e) = scan(b, p);
        lemma_scan(b, p);
        lemma_lexemes_tile(b, e, (budget - 1) as nat);
        let rest = lexemes(b, e, (budget - 1) as nat);
        let ls = lexemes(b, p, budget);
        assert(ls == seq![Lexeme { kind: k, start: p, end: e }] + rest);
        assert forall|i: int| 0 <= i < ls.len() - 1 implies {
            &&& #[trigger] ls[i].end == ls[i + 1].start
            &&& ls[i].start < ls[i].end
            &&& (ls[i].kind is Token || ls[i].kind is Error)
            &&& ls[i].kind != LexemeKind::Token(TokenKind::Eof)
        } by {
            if i > 0 {
                assert(ls[i] == rest[i - 1]);
                assert(ls[i + 1] == rest[i]);
            }
        }
        assert forall|i: int| 0 <= i < ls.len() implies {
            &&& 0 <= #[trigger] ls[i].start <= ls[i].end <= b.len()
            &&& is_char_boundary(b, ls[i].start)
            &&& is_char_boundary(b, ls[i].end)
        } by {
            if i > 0 {
                assert(ls[i] == rest[i - 1]);
            }
        }
    }
}

// ---------------------------------------------------------------------------
// Executable byte classes and runs
fn is_digit_byte(c: u8) -> (r: bool)
    ensures
        r == is_digit(c),
{
    0x30 <= c && c <= 0x39
}

fn is_name_start_byte(c: u8) -> (r: bool)
    ensures
        r == is_name_start(c),
{
    c == 0x5f || (0x41 <= c && c <= 0x5a) || (0x61 <= c && c <= 0x7a)
}

fn is_name_continue_byte(c: u8) -> (r: bool)
    ensures
        r == is_name_continue(c),
{
    is_name_start_byte(c) || is_digit_byte(c)
}

fn is_ws(c: u8) -> (r: bool)
    ensures
        r == is_ws_byte(c),
{
    c == 0x20 || c == 0x09 || c == 0x0a || c == 0x0d
}

fn is_hex_byte(c: u8) -> (r: bool)
    ensures
        r == is_hex(c),
{
    is_digit_byte(c) || (0x41 <= c && c <= 0x46) || (0x61 <= c && c <= 0x66)
}

fn is_simple_escape_byte(c: u8) -> (r: bool)
    ensures
        r == is_simple_escape(c),
{
    c == 0x22 || c == 0x5c || c == 0x2f || c == 0x62 || c == 0x66 || c == 0x6e || c == 0x72
        || c == 0x74
}

fn punct_of(c: u8) -> (r: Option<TokenKind>)
    ensures
        r == punct_kind(c),
{
    if c == 0x21 {
        Some(TokenKind::Bang)
    } else if c == 0x24 {
        Some(TokenKind::Dollar)
    } else if c == 0x26 {
        Some(TokenKind::Amp)
    } else if c == 0x28 {
        Some(TokenKind::LParen)
    } else if c == 0x29 {
        Some(TokenKind::RParen)
    } else if c == 0x3a {
        Some(TokenKind::Colon)
    } else if c == 0x3d {
        Some(TokenKind::Eq)
    } else if c == 0x40 {
        Some(TokenKind::At)
    } else if c == 0x5b {
        Some(TokenKind::LBracket)
    } else if c == 0x5d {
        Some(TokenKind::RBracket)
    } else if c == 0x7b {
        Some(TokenKind::LCurly)
    } else if c == 0x7d {
        Some(TokenKind::RCurly)
    } else if c == 0x7c {
        Some(TokenKind::Pipe)
    } else {
        None
    }
}

fn run_cont(b: &[u8], q: usize) -> (r: usize)
    requires
        q <= b@.len(),
    ensures
        r == cont_end(b@, q as int),
{
    let mut i = q;
    while i < b.len() && 0x80 <= b[i] && b[i] <= 0xbf
        invariant
            q <= i <= b@.len(),
            cont_end(b@, q as int) == cont_end(b@, i as int),
        decreases b@.len() - i,
    {
        i = i + 1;
    }
    i
}

fn run_ws(b: &[u8], q: usize) -> (r: usize)
    requires
        q <= b@.len(),
    ensures
        r == ws_end(b@, q as int),
{
    let mut i = q;
    while i < b.len() && is_ws(b[i])
        invariant
            q <= i <= b@.len(),
            ws_end(b@, q as int) == ws_end(b@, i as int),
        decreases b@.len() - i,
    {
        i = i + 1;
    }
    i
}

fn run_name(b: &[u8], q: usize) -> (r: usize)
    requires
        q <= b@.len(),
    ensures
        r == name_end(b@, q as int),
{
    let mut i = q;
    while i < b.len() && is_name_continue_byte(b[i])
        invariant
            q <= i <= b@.len(),
            name_end(b@, q as int) == name_end(b@, i as int),
        decreases b@.len() - i,
    {
        i = i + 1;
    }
    i
}

fn run_digits(b: &[u8], q: usize) -> (r: usize)
    requires
        q <= b@.len(),
    ensures
        r == digits_end(b@, q as int),
        q <= r <= b@.len(),
{
    let mut i = q;
    while i < b.len() && is_digit_byte(b[i])
        invariant
            q <= i <= b@.len(),
            digits_end(b@, q as int) == digits_end(b@, i as int),
        decreases b@.len() - i,
    {
        i = i + 1;
    }
    i
}

fn run_comment(b: &[u8], q: usize) -> (r: usize)
    requires
        q <= b@.len(),
    ensures
        r == comment_end(b@, q as int),
{
    let mut i = q;
    while i < b.len() && b[i] != 0x0a && b[i] != 0x0d
        invariant
            q <= i <= b@.len(),
            comment_end(b@, q as int) == comment_end(b@, i as int),
        decreases b@.len() - i,
    {
        i = i + 1;
    }
    i
}

fn scan_number_exec(b: &[u8], p: usize) -> (r: (LexemeKind, usize))
    requires
        p < b@.len(),
        b@[p as int] == 0x2d || is_digit(b@[p as int]),
        b@.len() < usize::MAX,
    ensures
        r.0 == scan_number(b@, p as int).0,
        r.1 == scan_number(b@, p as int).1,
{
    let len = b.len();
    let q0 = if b[p] == 0x2d {
        p + 1
    } else {
        p
    };
    if !(q0 < len && is_digit_byte(b[q0])) {
        return (LexemeKind::Error(LexErrorKind::InvalidNumber), q0);
    }
    if b[q0] == 0x30 && q0 + 1 < len && is_digit_byte(b[q0 + 1]) {
        return (LexemeKind::Error(LexErrorKind::InvalidNumber), run_digits(b, q0 + 1));
    }
    let q1 = if b[q0] == 0x30 {
        q0 + 1
    } else {
        run_digits(b, q0)
    };
    if q1 < len && b[q1] == 0x2e && !(q1 + 1 < len && is_digit_byte(b[q1 + 1])) {
        return (LexemeKind::Error(LexErrorKind::InvalidNumber), q1 + 1);
    }
    let has_frac = q1 < len && b[q1] == 0x2e;
    let q2 = if has_frac {
        run_digits(b, q1 + 1)
    } else {
        q1
    };
    let has_exp = q2 < len && (b[q2] == 0x65 || b[q2] == 0x45);
    let q3 = if q2 + 1 < len && (b[q2 + 1] == 0x2b || b[q2 + 1] == 0x2d) {
        q2 + 2
    } else {
        q2 + 1
    };
    if has_exp && !(q3 < len && is_digit_byte(b[q3])) {
        return (LexemeKind::Error(LexErrorKind::InvalidNumber), q3);
    }
    let q4 = if has_exp {
        run_digits(b, q3)
    } else {
        q2
    };
    if q4 < len && (b[q4] == 0x2e || is_name_start_byte(b[q4])) {
        (LexemeKind::Error(LexErrorKind::InvalidNumber), q4 + 1)
    } else if has_frac || has_exp {
        (LexemeKind::Token(TokenKind::Float), q4)
    } else {
        (LexemeKind::Token(TokenKind::Int), q4)
    }
}

fn is_triple_quote(b: &[u8], q: usize) -> (r: bool)
    requires
        q <= b@.len(),
        b@.len() < usize::MAX - 3,
    ensures
        r == is_triple_quote_at(b@, q as int),
{
    q + 2 < b.len() && b[q] == 0x22 && b[q + 1] == 0x22 && b[q + 2] == 0x22
}

fn scan_string_exec(b: &[u8], q: usize) -> (r: (LexemeKind, usize))
    requires
        q <= b@.len(),
        b@.len() < usize::MAX - 8,
    ensures
        r.0 == scan_string_body(b@, q as int, true).0,
        r.1 == scan_string_body(b@, q as int, true).1,
{
    let len = b.len();
    let mut i = q;
    let mut valid = true;
    while i < len
        invariant
            len == b@.len(),
            len < usize::MAX - 8,
            q <= i <= len,
            scan_string_body(b@, q as int, true) == scan_string_body(b@, i as int, valid),
        decreases len - i,
    {
        let c = b[i];
        if c == 0x22 {
            if valid {
                return (LexemeKind::Token(TokenKind::StringValue), i + 1);
            } else {
                return (LexemeKind::Error(LexErrorKind::InvalidEscape), i + 1);
            }
        } else if c == 0x0a || c == 0x0d {
            return (LexemeKind::Error(LexErrorKind::UnterminatedString), i);
        } else if c == 0x5c {
            if i + 1 < len && is_simple_escape_byte(b[i + 1]) {
                i = i + 2;
            } else if i + 5 < len && b[i + 1] == 0x75 && is_hex_byte(b[i + 2]) && is_hex_byte(
                b[i + 3],
            ) && is_hex_byte(b[i + 4]) && is_hex_byte(b[i + 5]) {
                i = i + 6;
            } else {
                valid = false;
                i = i + 1;
            }
        } else {
            i = i + 1;
        }
    }
    (LexemeKind::Error(LexErrorKind::UnterminatedString), len)
}

fn scan_block_exec(b: &[u8], q: usize) -> (r: (LexemeKind, usize))
    requires
        q <= b@.len(),
        b@.len() < usize::MAX - 8,
    ensures
        r.0 == scan_block_body(b@, q as int).0,
        r.1 == scan_block_body(b@, q as int).1,
{
    let len = b.len();
    let mut i = q;
    while i < len
        invariant
            len == b@.len(),
            len < usize::MAX - 8,
            q <= i <= len,
            scan_block_body(b@, q as int) == scan_block_body(b@, i as int),
        decreases len - i,
    {
        if is_triple_quote(b, i) {
            return (LexemeKind::Token(TokenKind::StringValue), i + 3);
        } else if b[i] == 0x5c && is_triple_quote(b, i + 1) {
            i = i + 4;
        } else {
            i = i + 1;
        }
    }
    (LexemeKind::Error(LexErrorKind::UnterminatedBlockString), len)
}

/// Executable [`scan`].
fn scan_exec(b: &[u8], p: usize) -> (r: (LexemeKind, usize))
    requires
        p < b@.len(),
        b@.len() < usize::MAX - 8,
    ensures
        r.0 == scan(b@, p as int).0,
        r.1 == scan(b@, p as int).1,
{
    reveal(scan);
    let len = b.len();
    let c = b[p];
    if is_ws(c) {
        (LexemeKind::Token(TokenKind::Whitespace), run_ws(b, p + 1))
    } else if p + 2 < len && c == 0xef && b[p + 1] == 0xbb && b[p + 2] == 0xbf {
        (LexemeKind::Token(TokenKind::Whitespace), run_cont(b, p + 1))
    } else if c == 0x2c {
        (LexemeKind::Token(TokenKind::Comma), p + 1)
    } else if c == 0x23 {
        (LexemeKind::Token(TokenKind::Comment), run_comment(b, p + 1))
    } else if let Some(k) = punct_of(c) {
        (LexemeKind::Token(k), p + 1)
    } else if c == 0x2e {
        if p + 2 < len && b[p + 1] == 0x2e && b[p + 2] == 0x2e {
            (LexemeKind::Token(TokenKind::Spread), p + 3)
        } else if p + 1 < len && b[p + 1] == 0x2e {
            (LexemeKind::Error(LexErrorKind::UnterminatedSpread), p + 2)
        } else {
            (LexemeKind::Error(LexErrorKind::UnterminatedSpread), p + 1)
        }
    } else if is_name_start_byte(c) {
        (LexemeKind::Token(TokenKind::Name), run_name(b, p + 1))
    } else if c == 0x2d || is_digit_byte(c) {
        scan_number_exec(b, p)
    } else if c == 0x22 {
        if is_triple_quote(b, p) {
            scan_block_exec(b, p + 3)
        } else {
            scan_string_exec(b, p + 1)
        }
    } else {
        (LexemeKind::Error(LexErrorKind::UnexpectedCharacter), run_cont(b, p + 1))
    }
}

// ---------------------------------------------------------------------------
// The lexer
/// The lexemes of `ls` that are tokens, in order.
pub open spec fn token_lexemes(ls: Seq<Lexeme>) -> Seq<Lexeme>
    decreases ls.len(),
{
    if ls.len() == 0 {
        Seq::empty()
    } else if ls.last().kind is Token {
        token_lexemes(ls.drop_last()).push(ls.last())
    } else {
        token_lexemes(ls.drop_last())
    }
}

/// The lexemes of `ls` that are errors (including the limit), in order.
pub open spec fn error_lexemes(ls: Seq<Lexeme>) -> Seq<Lexeme>
    decreases ls.len(),
{
    if ls.len() == 0 {
        Seq::empty()
    } else if ls.last().kind is Token {
        error_lexemes(ls.drop_last())
    } else {
        error_lexemes(ls.drop_last()).push(ls.last())
    }
}

/// A lexer over a source text. It hands out one token or lexing error at a
/// time with [`Lexer::next_item`], or all of them with [`Lexer::lex`].
pub struct Lexer<'a> {
    input: &'a str,
    pos: usize,
    finished: bool,
    limit_tracker: LimitTracker,
}

impl<'a> Lexer<'a> {
    pub closed spec fn spec_input(&self) -> &'a str {
        self.input
    }

    pub closed spec fn spec_pos(&self) -> usize {
        self.pos
    }

    pub closed spec fn spec_finished(&self) -> bool {
        self.finished
    }

    pub closed spec fn spec_tracker(&self) -> LimitTracker {
        self.limit_tracker
    }

    pub open spec fn bytes(&self) -> Seq<u8> {
        bytes_of(self.spec_input())
    }

    pub open spec fn wf(&self) -> bool {
        &&& self.bytes().len() <= isize::MAX
        &&& self.spec_pos() <= self.bytes().len()
        &&& is_char_boundary(self.bytes(), self.spec_pos() as int)
        &&& self.spec_tracker().wf()
    }

    /// How many more tokens may be made before the token limit is reached.
    pub open spec fn budget(&self) -> nat {
        (self.spec_tracker().spec_limit() - self.spec_tracker().spec_current()) as nat
    }

    /// The lexemes this lexer has yet to hand out.
    pub open spec fn remaining(&self) -> Seq<Lexeme> {
        if self.spec_finished() {
            Seq::empty()
        } else {
            lexemes(self.bytes(), self.spec_pos() as int, self.budget())
        }
    }

    /// A lexer at the start of `input`, with no token limit.
    pub fn new(input: &'a str) -> (r: Lexer<'a>)
        requires
            bytes_of(input).len() <= isize::MAX,
        ensures
            r.wf(),
            r.spec_input() == input,
            r.spec_pos() == 0,
            !r.spec_finished(),
            r.spec_tracker() == LimitTracker::spec_new(usize::MAX),
            r.remaining() == lexemes(bytes_of(input), 0, usize::MAX as nat),
    {
        proof {
            vstd::utf8::is_char_boundary_start_end_of_seq(bytes_of(input));
        }
        Lexer { input, pos: 0, finished: false, limit_tracker: LimitTracker::new(usize::MAX) }
    }

    /// The same lexer with at most `limit` tokens to make.
    pub fn with_limit(self, limit: usize) -> (r: Lexer<'a>)
        requires
            self.wf(),
        ensures
            r.wf(),
            r.spec_input() == self.spec_input(),
            r.spec_pos() == self.spec_pos(),
            r.spec_finished() == self.spec_finished(),
            r.spec_tracker() == LimitTracker::spec_new(limit),
    {
        Lexer { limit_tracker: LimitTracker::new(limit), ..self }
    }

    /// The token-limit tracker.
    pub fn limit_tracker(&self) -> (r: LimitTracker)
        ensures
            r == self.spec_tracker(),
    {
        self.limit_tracker
    }

    /// Hands out the next token or lexing error, or `None` once lexing is over.
    pub fn next_item(&mut self) -> (r: Option<Result<Token<'a>, Error>>)
        requires
            old(self).wf(),
        ensures
            final(self).wf(),
            final(self).spec_input() == old(self).spec_input(),
            final(self).spec_tracker().spec_limit() == old(self).spec_tracker().spec_limit(),
            final(self).spec_pos() >= old(self).spec_pos(),
            old(self).remaining().len() == 0 ==> r is None && final(self).remaining()
                == old(self).remaining(),
            old(self).remaining().len() > 0 ==> {
                &&& r is Some
                &&& item_matches(r->0, old(self).remaining()[0], old(self).bytes())
                &&& final(self).remaining() == old(self).remaining().drop_first()
            },
    {
        let ghost b = self.bytes();
        reveal(lexemes);
        if self.finished {
            return None;
        }
        let bytes = self.input.as_bytes();
        let len = bytes.len();
        if self.pos >= len {
            self.finished = true;
            proof {
                vstd::utf8::is_char_boundary_start_end_of_seq(b);
            }
            let data = slice_str(self.input, len, len);
            return Some(Ok(Token { kind: TokenKind::Eof, data, index: len }));
        }
        if self.limit_tracker.check_and_increment() {
            self.finished = true;
            return Some(Err(Error::limit("token limit reached, aborting lexing", self.pos)));
        }
        let start = self.pos;
        let (kind, end) = scan_exec(bytes, start);
        proof {
            lemma_scan(b, start as int);
        }
        let data = slice_str(self.input, start, end);
        self.pos = end;
        let ghost l = Lexeme { kind: kind, start: start as int, end: end as int };
        assert(old(self).remaining() == seq![l] + self.remaining());
        match kind {
            LexemeKind::Token(k) => Some(Ok(Token { kind: k, data, index: start })),
            LexemeKind::Error(e) => {
                let message = lex_error_message_exec(e);
                proof {
                    vstd::utf8::encode_utf8_decode_utf8(data@);
                }
                Some(Err(Error::with_loc(message, String::from_str(data), start)))
            },
            LexemeKind::Limit => {
                assert(false);
                None
            },
        }
    }

    /// Lexes the rest of the input: the tokens (ignored ones and the final
    /// `Eof` included) and the lexing errors, each in source order.
    pub fn lex(self) -> (r: (Vec<Token<'a>>, Vec<Error>))
        requires
            self.wf(),
        ensures
            r.0.len() == token_lexemes(self.remaining()).len(),
            forall|i: int|
                0 <= i < r.0.len() ==> token_matches(
                    #[trigger] r.0@[i],
                    token_lexemes(self.remaining())[i],
                    self.bytes(),
                ),
            r.1.len() == error_lexemes(self.remaining()).len(),
            forall|i: int|
                0 <= i < r.1.len() ==> error_matches(
                    #[trigger] r.1@[i],
                    error_lexemes(self.remaining())[i],
                    self.bytes(),
                ),
    {
        let ghost all = self.remaining();
        let ghost b = self.bytes();
        let mut lexer = self;
        let mut tokens: Vec<Token<'a>> = Vec::new();
        let mut errors: Vec<Error> = Vec::new();
        let ghost mut done: Seq<Lexeme> = Seq::empty();
        loop
            invariant
                lexer.wf(),
                lexer.bytes() == b,
                done + lexer.remaining() == all,
                tokens.len() == token_lexemes(done).len(),
                forall|i: int|
                    0 <= i < tokens.len() ==> token_matches(
                        #[trigger] tokens@[i],
                        token_lexemes(done)[i],
                        b,
                    ),
                errors.len() == error_lexemes(done).len(),
                forall|i: int|
                    0 <= i < errors.len() ==> error_matches(
                        #[trigger] errors@[i],
                        error_lexemes(done)[i],
                        b,
                    ),
            ensures
                done == all,
            decreases lexer.remaining().len(),
        {
            let ghost before = lexer.remaining();
            match lexer.next_item() {
                None => {
                    assert(done =~= all);
                    break ;
                },
                Some(item) => {
                    let ghost l = before[0];
                    proof {
                        assert(done.push(l).drop_last() == done);
                        assert(done.push(l) + lexer.remaining() =~= all);
                    }
                    match item {
                        Ok(t) => {
                            tokens.push(t);
                        },
                        Err(e) => {
                            errors.push(e);
                        },
                    }
                    proof {
                        done = done.push(l);
                    }
                },
            }
        }
        (tokens, errors)
    }
}

fn lex_error_message_exec(k: LexErrorKind) -> (r: &'static str)
    ensures
        r@ == lex_error_message(k),
{
    match k {
        LexErrorKind::UnexpectedCharacter => "Unexpected character",
        LexErrorKind::UnterminatedSpread => "Unterminated spread operator",
        LexErrorKind::UnterminatedString => "Unterminated string value",
        LexErrorKind::UnterminatedBlockString => "Unterminated block string value",
        LexErrorKind::InvalidEscape => "Invalid escape sequence in string value",
        LexErrorKind::InvalidNumber => "Invalid number",
    }
}

} // verus!

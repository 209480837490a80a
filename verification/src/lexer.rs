//! The tokenizer: source bytes to a sequence of tokens that tiles them.
use crate::kind::keyword_production;
use crate::kind::Production;
use crate::kind::production_named;
use crate::kind::TokenKind;
use vstd::prelude::*;
use vstd::slice::slice_subrange;

verus! {

/// One token: its kind, the at-rule keyword it spells (identifiers only), and
/// the half-open byte range `start..end` that it covers.
#[derive(Clone, Copy, Debug, PartialEq, Eq)]
pub struct Token {
    pub kind: TokenKind,
    pub keyword: Option<Production>,
    pub start: usize,
    pub end: usize,
}

pub open spec fn is_space(b: u8) -> bool {
    b == 0x20 || b == 0x09
}

pub open spec fn is_line_break(b: u8) -> bool {
    b == 0x0a || b == 0x0d
}

pub open spec fn is_digit(b: u8) -> bool {
    0x30 <= b <= 0x39
}

/// Letters, digits, `-`, `_` and every byte outside ASCII.
pub open spec fn is_ident_byte(b: u8) -> bool {
    is_digit(b) || (0x41 <= b <= 0x5a) || (0x61 <= b <= 0x7a) || b == 0x2d || b == 0x5f || b
        >= 0x80
}

/// The bytes a number may continue with: identifier bytes, `.` and `%`.
pub open spec fn is_number_byte(b: u8) -> bool {
    is_ident_byte(b) || b == 0x2e || b == 0x25
}

/// The classes of bytes of which a token may be a maximal run.
#[derive(Clone, Copy, Debug, PartialEq, Eq, Structural)]
pub enum ByteClass {
    Space,
    Ident,
    Number,
}

pub open spec fn in_class(class: ByteClass, b: u8) -> bool {
    match class {
        ByteClass::Space => is_space(b),
        ByteClass::Ident => is_ident_byte(b),
        ByteClass::Number => is_number_byte(b),
    }
}

/// The end of the longest run of bytes of `class` that starts at `pos`.
pub open spec fn run_end(text: Seq<u8>, pos: int, class: ByteClass) -> int
    decreases text.len() - pos,
{
    if 0 <= pos < text.len() && in_class(class, text[pos]) {
        run_end(text, pos + 1, class)
    } else {
        pos
    }
}

/// The position just behind the first `*/` at or after `pos`, or the end of
/// the text where there is none.
pub open spec fn comment_end(text: Seq<u8>, pos: int) -> int
    decreases text.len() - pos,
{
    if pos < 0 || pos + 1 >= text.len() {
        text.len() as int
    } else if text[pos] == 0x2a && text[pos + 1] == 0x2f {
        pos + 2
    } else {
        comment_end(text, pos + 1)
    }
}

/// Whether a comment that is read from `pos` on is closed: a `*/` stands
/// at or after `pos`.
pub open spec fn comment_closes(text: Seq<u8>, pos: int) -> bool
    decreases text.len() - pos,
{
    if pos < 0 || pos + 1 >= text.len() {
        false
    } else if text[pos] == 0x2a && text[pos + 1] == 0x2f {
        true
    } else {
        comment_closes(text, pos + 1)
    }
}

/// Whether a string that is read from `pos` on is ended by its closing
/// `quote` or by a line break, and not by the end of the text.
pub open spec fn string_closes(text: Seq<u8>, pos: int, quote: u8) -> bool
    decreases text.len() - pos,
{
    if pos < 0 || pos >= text.len() {
        false
    } else if text[pos] == quote || is_line_break(text[pos]) {
        true
    } else if text[pos] == 0x5c && pos + 1 < text.len() && !is_line_break(text[pos + 1]) {
        string_closes(text, pos + 2, quote)
    } else {
        string_closes(text, pos + 1, quote)
    }
}

/// The end of a string whose opening quote stands just before `pos`: behind
/// the closing `quote`, or behind the line break that cuts the string
/// short (`\n`, `\r`, or `\r\n` as one), or at the end of the text. A
/// backslash takes the byte behind it along. The line break belongs to the
/// string it cuts short, so that nothing can move up behind such a string
/// on its line.
pub open spec fn string_end(text: Seq<u8>, pos: int, quote: u8) -> int
    decreases text.len() - pos,
{
    if pos < 0 || pos >= text.len() {
        text.len() as int
    } else if text[pos] == 0x0d && pos + 1 < text.len() && text[pos + 1] == 0x0a {
        pos + 2
    } else if text[pos] == quote || is_line_break(text[pos]) {
        pos + 1
    } else if text[pos] == 0x5c && pos + 1 < text.len() && !is_line_break(text[pos + 1]) {
        string_end(text, pos + 2, quote)
    } else {
        string_end(text, pos + 1, quote)
    }
}

/// The kind of the token that starts at `pos`, decided by its first bytes.
#[verifier::opaque]
pub open spec fn token_kind_at(text: Seq<u8>, pos: int) -> TokenKind
    recommends
        0 <= pos < text.len(),
{
    let b = text[pos];
    if is_space(b) {
        TokenKind::Whitespace
    } else if is_line_break(b) {
        TokenKind::Newline
    } else if b == 0x2f && pos + 1 < text.len() && text[pos + 1] == 0x2a {
        if comment_closes(text, pos + 2) {
            TokenKind::Comment
        } else {
            TokenKind::OpenComment
        }
    } else if b == 0x22 || b == 0x27 {
        if string_closes(text, pos + 1, b) {
            TokenKind::Str
        } else {
            TokenKind::OpenStr
        }
    } else if is_digit(b) {
        TokenKind::Number
    } else if is_ident_byte(b) {
        TokenKind::Ident
    } else if b == 0x40 {
        TokenKind::At
    } else if b == 0x7b {
        TokenKind::LCurly
    } else if b == 0x7d {
        TokenKind::RCurly
    } else if b == 0x3b {
        TokenKind::Semicolon
    } else if b == 0x3a {
        TokenKind::Colon
    } else if b == 0x2c {
        TokenKind::Comma
    } else {
        TokenKind::Delim
    }
}

/// Where the token that starts at `pos` ends.
#[verifier::opaque]
pub open spec fn token_end_at(text: Seq<u8>, pos: int) -> int
    recommends
        0 <= pos < text.len(),
{
    let b = text[pos];
    match token_kind_at(text, pos) {
        TokenKind::Whitespace => run_end(text, pos + 1, ByteClass::Space),
        TokenKind::Newline => if b == 0x0d && pos + 1 < text.len() && text[pos + 1] == 0x0a {
            pos + 2
        } else {
            pos + 1
        },
        TokenKind::Comment => comment_end(text, pos + 2),
        TokenKind::OpenComment => comment_end(text, pos + 2),
        TokenKind::Str => string_end(text, pos + 1, b),
        TokenKind::OpenStr => string_end(text, pos + 1, b),
        TokenKind::Number => run_end(text, pos + 1, ByteClass::Number),
        TokenKind::Ident => run_end(text, pos + 1, ByteClass::Ident),
        _ => pos + 1,
    }
}

/// The token that starts at `pos`.
pub open spec fn token_at(text: Seq<u8>, pos: int) -> Token
    recommends
        0 <= pos < text.len(),
{
    let kind = token_kind_at(text, pos);
    let end = token_end_at(text, pos);
    Token {
        kind,
        keyword: if kind == TokenKind::Ident {
            production_named(text.subrange(pos, end))
        } else {
            None
        },
        start: pos as usize,
        end: end as usize,
    }
}

/// The tokens of `text` from `pos` on, each starting where the one before it
/// ended.
pub open spec fn tokens_from(text: Seq<u8>, pos: int) -> Seq<Token>
    decreases text.len() - pos,
{
    if 0 <= pos < text.len() && pos < token_end_at(text, pos) <= text.len() {
        let end = token_end_at(text, pos);
        seq![token_at(text, pos)] + tokens_from(text, end)
    } else {
        Seq::empty()
    }
}

/// The tokens of the whole text.
pub open spec fn tokens_of(text: Seq<u8>) -> Seq<Token> {
    tokens_from(text, 0)
}

pub proof fn lemma_run_end_bounds(text: Seq<u8>, pos: int, class: ByteClass)
    requires
        0 <= pos <= text.len(),
    ensures
        pos <= run_end(text, pos, class) <= text.len(),
    decreases text.len() - pos,
{
    if pos < text.len() && in_class(class, text[pos]) {
        lemma_run_end_bounds(text, pos + 1, class);
    }
}

pub proof fn lemma_comment_end_bounds(text: Seq<u8>, pos: int)
    requires
        0 <= pos <= text.len(),
    ensures
        pos <= comment_end(text, pos) <= text.len(),
    decreases text.len() - pos,
{
    if pos + 1 < text.len() && !(text[pos] == 0x2a && text[pos + 1] == 0x2f) {
        lemma_comment_end_bounds(text, pos + 1);
    }
}

pub proof fn lemma_string_end_bounds(text: Seq<u8>, pos: int, quote: u8)
    requires
        0 <= pos <= text.len(),
    ensures
        pos <= string_end(text, pos, quote) <= text.len(),
    decreases text.len() - pos,
{
    if pos < text.len() && text[pos] != quote && !is_line_break(text[pos]) {
        if text[pos] == 0x5c && pos + 1 < text.len() && !is_line_break(text[pos + 1]) {
            lemma_string_end_bounds(text, pos + 2, quote);
        } else {
            lemma_string_end_bounds(text, pos + 1, quote);
        }
    }
}

/// Every token is non-empty and ends inside the text.
pub proof fn lemma_token_end_bounds(text: Seq<u8>, pos: int)
    requires
        0 <= pos < text.len(),
    ensures
        pos < token_end_at(text, pos) <= text.len(),
{
    reveal(token_kind_at);
    reveal(token_end_at);
    lemma_run_end_bounds(text, pos + 1, ByteClass::Space);
    lemma_run_end_bounds(text, pos + 1, ByteClass::Number);
    lemma_run_end_bounds(text, pos + 1, ByteClass::Ident);
    lemma_string_end_bounds(text, pos + 1, text[pos]);
    if pos + 1 < text.len() {
        lemma_comment_end_bounds(text, pos + 2);
    }
}

/// The token that starts at `pos` covers the bytes from `pos` to its end.
pub proof fn lemma_token_at_span(text: Seq<u8>, pos: int)
    requires
        0 <= pos < text.len() <= usize::MAX,
    ensures
        token_at(text, pos).start == pos,
        token_at(text, pos).end == token_end_at(text, pos),
        pos < token_end_at(text, pos) <= text.len(),
        token_at(text, pos).kind == token_kind_at(text, pos),
        token_at(text, pos).kind != TokenKind::Eof,
{
    reveal(token_kind_at);
    lemma_token_end_bounds(text, pos);
}

/// The tokens tile the text: the first starts where lexing starts, each
/// starts where the one before it ended, none is empty, and the last ends
/// where the text ends.
pub proof fn lemma_tokens_tile(text: Seq<u8>, pos: int)
    requires
        0 <= pos <= text.len() <= usize::MAX,
    ensures
        ({
            let tokens = tokens_from(text, pos);
            &&& (tokens.len() == 0) == (pos == text.len())
            &&& tokens.len() > 0 ==> tokens[0].start == pos && tokens.last().end == text.len()
            &&& forall|i: int|
                0 <= i < tokens.len() ==> pos <= (#[trigger] tokens[i]).start < tokens[i].end
                    <= text.len() && tokens[i].kind != TokenKind::Eof
            &&& forall|i: int, j: int|
                0 <= i && j == i + 1 && j < tokens.len() ==> (#[trigger] tokens[i]).end == (
                #[trigger] tokens[j]).start
        }),
    decreases text.len() - pos,
{
    if pos < text.len() {
        lemma_token_at_span(text, pos);
        let first = token_at(text, pos);
        let end = token_end_at(text, pos);
        lemma_tokens_tile(text, end);
        let rest = tokens_from(text, end);
        let tokens = tokens_from(text, pos);
        assert(tokens == seq![first] + rest);
        assert forall|i: int| 0 <= i < tokens.len() implies pos <= (#[trigger] tokens[i]).start
            < tokens[i].end <= text.len() && tokens[i].kind != TokenKind::Eof by {
            if i > 0 {
                assert(tokens[i] == rest[i - 1]);
            }
        }
        assert forall|i: int, j: int| 0 <= i && j == i + 1 && j < tokens.len() implies (
        #[trigger] tokens[i]).end == (#[trigger] tokens[j]).start by {
            assert(tokens[j] == rest[i]);
            if i > 0 {
                assert(tokens[i] == rest[i - 1]);
            }
        }
        if rest.len() > 0 {
            assert(tokens.last() == rest.last());
        }
    }
}

fn byte_is_space(b: u8) -> (r: bool)
    ensures
        r == is_space(b),
{
    b == 0x20 || b == 0x09
}

fn byte_is_line_break(b: u8) -> (r: bool)
    ensures
        r == is_line_break(b),
{
    b == 0x0a || b == 0x0d
}

fn byte_is_digit(b: u8) -> (r: bool)
    ensures
        r == is_digit(b),
{
    0x30 <= b && b <= 0x39
}

fn byte_is_ident(b: u8) -> (r: bool)
    ensures
        r == is_ident_byte(b),
{
    byte_is_digit(b) || (0x41 <= b && b <= 0x5a) || (0x61 <= b && b <= 0x7a) || b == 0x2d || b
        == 0x5f || b >= 0x80
}

fn byte_in_class(class: ByteClass, b: u8) -> (r: bool)
    ensures
        r == in_class(class, b),
{
    match class {
        ByteClass::Space => byte_is_space(b),
        ByteClass::Ident => byte_is_ident(b),
        ByteClass::Number => byte_is_ident(b) || b == 0x2e || b == 0x25,
    }
}

fn scan_run(text: &[u8], pos: usize, class: ByteClass) -> (end: usize)
    requires
        pos <= text.len(),
    ensures
        end == run_end(text@, pos as int, class),
        pos <= end <= text.len(),
{
    let mut i: usize = pos;
    while i < text.len() && byte_in_class(class, text[i])
        invariant
            pos <= i <= text.len(),
            run_end(text@, pos as int, class) == run_end(text@, i as int, class),
        decreases text.len() - i,
    {
        i = i + 1;
    }
    i
}

fn scan_comment(text: &[u8], pos: usize) -> (r: (usize, bool))
    requires
        pos <= text.len(),
    ensures
        r.0 == comment_end(text@, pos as int),
        r.1 == comment_closes(text@, pos as int),
        pos <= r.0 <= text.len(),
{
    let mut i: usize = pos;
    while i < text.len() && text.len() - i >= 2
        invariant
            pos <= i <= text.len(),
            comment_end(text@, pos as int) == comment_end(text@, i as int),
            comment_closes(text@, pos as int) == comment_closes(text@, i as int),
        decreases text.len() - i,
    {
        if text[i] == 0x2a && text[i + 1] == 0x2f {
            return (i + 2, true);
        }
        i = i + 1;
    }
    (text.len(), false)
}

fn scan_string(text: &[u8], pos: usize, quote: u8) -> (r: (usize, bool))
    requires
        pos <= text.len(),
    ensures
        r.0 == string_end(text@, pos as int, quote),
        r.1 == string_closes(text@, pos as int, quote),
        pos <= r.0 <= text.len(),
{
    let mut i: usize = pos;
    while i < text.len()
        invariant
            pos <= i <= text.len(),
            string_end(text@, pos as int, quote) == string_end(text@, i as int, quote),
            string_closes(text@, pos as int, quote) == string_closes(text@, i as int, quote),
        decreases text.len() - i,
    {
        let b: u8 = text[i];
        if b == 0x0d && text.len() - i >= 2 && text[i + 1] == 0x0a {
            return (i + 2, true);
        }
        if b == quote || byte_is_line_break(b) {
            return (i + 1, true);
        }
        if b == 0x5c && text.len() - i >= 2 && !byte_is_line_break(text[i + 1]) {
            i = i + 2;
        } else {
            i = i + 1;
        }
    }
    (text.len(), false)
}

/// Reads the token that starts at `pos`.
pub fn lex_token(text: &[u8], pos: usize) -> (token: Token)
    requires
        pos < text.len(),
    ensures
        token == token_at(text@, pos as int),
        pos < token.end <= text.len(),
{
    proof {
        reveal(token_kind_at);
        reveal(token_end_at);
        lemma_token_end_bounds(text@, pos as int);
    }
    let b: u8 = text[pos];
    let next_is_star: bool = text.len() - pos >= 2 && text[pos + 1] == 0x2a;
    let mut keyword: Option<Production> = None;
    let kind: TokenKind;
    let end: usize;
    if byte_is_space(b) {
        kind = TokenKind::Whitespace;
        end = scan_run(text, pos + 1, ByteClass::Space);
    } else if byte_is_line_break(b) {
        kind = TokenKind::Newline;
        if b == 0x0d && text.len() - pos >= 2 && text[pos + 1] == 0x0a {
            end = pos + 2;
        } else {
            end = pos + 1;
        }
    } else if b == 0x2f && next_is_star {
        let (stop, closed) = scan_comment(text, pos + 2);
        kind = if closed {
            TokenKind::Comment
        } else {
            TokenKind::OpenComment
        };
        end = stop;
    } else if b == 0x22 || b == 0x27 {
        let (stop, closed) = scan_string(text, pos + 1, b);
        kind = if closed {
            TokenKind::Str
        } else {
            TokenKind::OpenStr
        };
        end = stop;
    } else if byte_is_digit(b) {
        kind = TokenKind::Number;
        end = scan_run(text, pos + 1, ByteClass::Number);
    } else if byte_is_ident(b) {
        kind = TokenKind::Ident;
        end = scan_run(text, pos + 1, ByteClass::Ident);
        keyword = keyword_production(slice_subrange(text, pos, end));
    } else {
        end = pos + 1;
        if b == 0x40 {
            kind = TokenKind::At;
        } else if b == 0x7b {
            kind = TokenKind::LCurly;
        } else if b == 0x7d {
            kind = TokenKind::RCurly;
        } else if b == 0x3b {
            kind = TokenKind::Semicolon;
        } else if b == 0x3a {
            kind = TokenKind::Colon;
        } else if b == 0x2c {
            kind = TokenKind::Comma;
        } else {
            kind = TokenKind::Delim;
        }
    }
    Token { kind, keyword, start: pos, end }
}

/// Splits `text` into tokens. The result is fixed by [`tokens_of`]: the
/// tokens tile the text from its first byte to its last, and each is the
/// longest that its first bytes allow.
pub fn tokenize(text: &[u8]) -> (tokens: Vec<Token>)
    ensures
        tokens@ == tokens_of(text@),
{
    let mut tokens: Vec<Token> = Vec::new();
    let mut pos: usize = 0;
    while pos < text.len()
        invariant
            pos <= text.len(),
            tokens_of(text@) == tokens@ + tokens_from(text@, pos as int),
        decreases text.len() - pos,
    {
        let token = lex_token(text, pos);
        proof {
            lemma_token_end_bounds(text@, pos as int);
            assert(token.end as int == token_end_at(text@, pos as int));
            assert(tokens_from(text@, pos as int) == seq![token] + tokens_from(
                text@,
                token.end as int,
            ));
            assert(tokens@.push(token) + tokens_from(text@, token.end as int) =~= tokens@ + (
            seq![token] + tokens_from(text@, token.end as int)));
        }
        tokens.push(token);
        pos = token.end;
    }
    assert(tokens@ + Seq::<Token>::empty() =~= tokens@);
    tokens
}

} // verus!

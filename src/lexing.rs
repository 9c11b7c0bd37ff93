//! Breaks a byte buffer into tokens.
//!
//! Every byte of the input belongs to exactly one token: whitespace and line breaks are tokens of
//! their own. Scanning stops at the first lexical error.
use vstd::prelude::*;
use vstd::slice::slice_subrange;
use vstd::utf8::{decode_utf8, valid_utf8};

use crate::parsing_dbg::{escaped, write_escaped};
use crate::text::{chars_of, push_char, push_str, regex_finds, regex_is_match};
use crate::vecs::{backwards, reversed};

verus! {

pub const TAB: u8 = 9;
pub const NEWLINE: u8 = 10;
pub const CARRIAGE_RETURN: u8 = 13;
pub const SPACE: u8 = 32;
pub const DOUBLE_QUOTE: u8 = 34;
pub const SINGLE_QUOTE: u8 = 39;
pub const ASTERISK: u8 = 42;
pub const PLUS: u8 = 43;
pub const SLASH: u8 = 47;
pub const SEMICOLON: u8 = 59;
pub const BACKSLASH: u8 = 92;
pub const LEFT_CURLY_BRACKET: u8 = 123;
pub const RIGHT_CURLY_BRACKET: u8 = 125;

/// Integer or decimal value as the language's grammar writes it.
pub const NUMBER_PATTERN: &'static str = r"^-?(0|[1-9][0-9]*)(\.[0-9]+)?$";

/// A date of the form `NNNN-NN-NN`.
pub const DATE_PATTERN: &'static str = r"^[0-9]{4}-[0-9]{2}-[0-9]{2}$";

#[derive(Debug, Clone, Copy, PartialEq, Eq, Structural)]
pub enum TokenType {
    String,
    Date,
    Number,
    Comment,
    OpenCurlyBrace,
    ClosingCurlyBrace,
    Plus,
    SemiColon,
    WhiteSpace,
    LineBreak,
    Other,
}

/// A lexical error; every position is a byte offset into the scanned buffer.
#[derive(Debug, Clone, Copy, PartialEq, Eq, Structural)]
pub enum LexError {
    UnterminatedString { start: usize },
    UnterminatedComment { start: usize },
    UnexpectedCharacter { position: usize, character: char },
    /// The token starting here is not valid UTF-8.
    InvalidUtf8 { position: usize },
}

impl LexError {
    /// Byte offset that the error refers to
    pub fn position(&self) -> (r: usize)
        ensures
            r == self.spec_position(),
    {
        match self {
            LexError::UnterminatedString { start } => *start,
            LexError::UnterminatedComment { start } => *start,
            LexError::UnexpectedCharacter { position, .. } => *position,
            LexError::InvalidUtf8 { position } => *position,
        }
    }

    pub open spec fn spec_position(&self) -> usize {
        match self {
            LexError::UnterminatedString { start } => *start,
            LexError::UnterminatedComment { start } => *start,
            LexError::UnexpectedCharacter { position, .. } => *position,
            LexError::InvalidUtf8 { position } => *position,
        }
    }
}

/// A token: its kind, its inclusive byte span and its text.
#[derive(Debug)]
pub struct Token {
    pub token_type: TokenType,
    pub span: (usize, usize),
    pub text: String,
}

impl Token {
    pub fn is_whitespace(&self) -> (r: bool)
        ensures
            r == (self.token_type == TokenType::WhiteSpace),
    {
        match self.token_type {
            TokenType::WhiteSpace => true,
            _ => false,
        }
    }

    pub fn is_line_break(&self) -> (r: bool)
        ensures
            r == (self.token_type == TokenType::LineBreak),
    {
        match self.token_type {
            TokenType::LineBreak => true,
            _ => false,
        }
    }

    /// The token as (kind, first byte, one past the last byte)
    pub open spec fn shape(&self) -> (TokenType, int, int) {
        (self.token_type, self.span.0 as int, self.span.1 + 1)
    }

    /// The token is the lexeme `(kind, start, end)` of `s`, and its text is what those bytes encode
    pub open spec fn is_lexeme_of(&self, s: Seq<u8>, lexeme: (TokenType, int, int)) -> bool {
        &&& self.shape() == lexeme
        &&& self.text@ == decode_utf8(s.subrange(lexeme.1, lexeme.2))
    }
}

/// Relies on `std::str::from_utf8`: it accepts exactly the valid UTF-8 byte sequences, and the
/// text it gives is what they encode.
#[verifier::external_body]
fn utf8_text(bytes: &[u8]) -> (r: Option<String>)
    ensures
        r is Some <==> valid_utf8(bytes@),
        r matches Some(t) ==> t@ == decode_utf8(bytes@),
{
    match std::str::from_utf8(bytes) {
        Ok(text) => Some(text.to_string()),
        Err(_) => None,
    }
}

pub open spec fn is_delimiter_byte(c: u8) -> bool {
    c == SPACE || c == TAB || c == CARRIAGE_RETURN || c == NEWLINE || c == SEMICOLON || c
        == LEFT_CURLY_BRACKET || c == RIGHT_CURLY_BRACKET
}

/// Length of the line break at `i`: `\n` is one byte, `\r\n` two, anything else none
pub open spec fn line_break_len(s: Seq<u8>, i: int) -> int {
    if 0 <= i < s.len() && s[i] == NEWLINE {
        1
    } else if 0 <= i && i + 1 < s.len() && s[i] == CARRIAGE_RETURN && s[i + 1] == NEWLINE {
        2
    } else {
        0
    }
}

/// End of the run of spaces and tabs that starts at `i`
pub open spec fn whitespace_end(s: Seq<u8>, i: int) -> int
    decreases s.len() - i,
{
    if 0 <= i < s.len() && (s[i] == SPACE || s[i] == TAB) {
        whitespace_end(s, i + 1)
    } else {
        i
    }
}

/// End of the run of non-delimiter bytes that starts at `i`
pub open spec fn word_end(s: Seq<u8>, i: int) -> int
    decreases s.len() - i,
{
    if 0 <= i < s.len() && !is_delimiter_byte(s[i]) {
        word_end(s, i + 1)
    } else {
        i
    }
}

/// First position at or after `i` where a line break starts, or the end of the input
pub open spec fn line_end(s: Seq<u8>, i: int) -> int
    decreases s.len() - i,
{
    if 0 <= i < s.len() && line_break_len(s, i) == 0 {
        line_end(s, i + 1)
    } else {
        i
    }
}

/// First position at or after `i` where `*/` starts
pub open spec fn block_comment_close(s: Seq<u8>, i: int) -> Option<int>
    decreases s.len() - i,
{
    if i < 0 || i + 1 >= s.len() {
        None
    } else if s[i] == ASTERISK && s[i + 1] == SLASH {
        Some(i)
    } else {
        block_comment_close(s, i + 1)
    }
}

/// Position of the quote that closes the string opened at `start`, searching from `i`: the first
/// `quote` that does not directly follow a backslash inside the string
pub open spec fn string_close(s: Seq<u8>, start: int, quote: u8, i: int) -> Option<int>
    decreases s.len() - i,
{
    if i < 0 || i >= s.len() {
        None
    } else if s[i] == quote && !(i > start + 1 && s[i - 1] == BACKSLASH) {
        Some(i)
    } else {
        string_close(s, start, quote, i + 1)
    }
}

/// The kind and end of the token at `i`, before words are told apart and text is decoded
pub open spec fn raw_lexeme(s: Seq<u8>, i: int) -> Result<(TokenType, int), LexError> {
    let c = s[i];
    if c == SEMICOLON {
        Ok((TokenType::SemiColon, i + 1))
    } else if c == PLUS {
        Ok((TokenType::Plus, i + 1))
    } else if c == LEFT_CURLY_BRACKET {
        Ok((TokenType::OpenCurlyBrace, i + 1))
    } else if c == RIGHT_CURLY_BRACKET {
        Ok((TokenType::ClosingCurlyBrace, i + 1))
    } else if c == SPACE || c == TAB {
        Ok((TokenType::WhiteSpace, whitespace_end(s, i)))
    } else if line_break_len(s, i) > 0 {
        Ok((TokenType::LineBreak, i + line_break_len(s, i)))
    } else if c == DOUBLE_QUOTE || c == SINGLE_QUOTE {
        match string_close(s, i, c, i + 1) {
            Some(j) => Ok((TokenType::String, j + 1)),
            None => Err(LexError::UnterminatedString { start: i as usize }),
        }
    } else if c == SLASH && i + 1 < s.len() && s[i + 1] == SLASH {
        Ok((TokenType::Comment, line_end(s, i + 2)))
    } else if c == SLASH && i + 1 < s.len() && s[i + 1] == ASTERISK {
        match block_comment_close(s, i + 2) {
            Some(j) => Ok((TokenType::Comment, j + 2)),
            None => Err(LexError::UnterminatedComment { start: i as usize }),
        }
    } else if !is_delimiter_byte(c) {
        Ok((TokenType::Other, word_end(s, i)))
    } else {
        Err(LexError::UnexpectedCharacter { position: i as usize, character: c as char })
    }
}

/// Kind of an undelimited word: a number, a date, or anything else
pub open spec fn word_type(text: Seq<char>) -> TokenType {
    if regex_finds(NUMBER_PATTERN@, text) {
        TokenType::Number
    } else if regex_finds(DATE_PATTERN@, text) {
        TokenType::Date
    } else {
        TokenType::Other
    }
}

/// The token that starts at `i`: its kind and its end (exclusive), or the error found there
pub open spec fn lexeme(s: Seq<u8>, i: int) -> Result<(TokenType, int), LexError> {
    match raw_lexeme(s, i) {
        Err(e) => Err(e),
        Ok((t, end)) => if !valid_utf8(s.subrange(i, end)) {
            Err(LexError::InvalidUtf8 { position: i as usize })
        } else if t == TokenType::Other {
            Ok((word_type(decode_utf8(s.subrange(i, end))), end))
        } else {
            Ok((t, end))
        },
    }
}

/// The tokens of `s` from position `i` on, as (kind, start, end), and the error that stopped the
/// scan, if any
pub open spec fn spec_scan(s: Seq<u8>, i: int) -> (Seq<(TokenType, int, int)>, Option<LexError>)
    decreases s.len() - i,
{
    if i < 0 || i >= s.len() {
        (seq![], None)
    } else {
        match lexeme(s, i) {
            Err(e) => (seq![], Some(e)),
            Ok((t, end)) => if end <= i || end > s.len() {
                (seq![], None)
            } else {
                let rest = spec_scan(s, end);
                (seq![(t, i, end)] + rest.0, rest.1)
            },
        }
    }
}

pub proof fn lemma_raw_lexeme_advances(s: Seq<u8>, i: int)
    requires
        0 <= i < s.len(),
    ensures
        raw_lexeme(s, i) matches Ok((t, end)) ==> i < end <= s.len(),
{
    let c = s[i];
    if c == SPACE || c == TAB {
        lemma_whitespace_end(s, i);
    } else if c == DOUBLE_QUOTE || c == SINGLE_QUOTE {
        lemma_string_close(s, i, c, i + 1);
    } else if c == SLASH && i + 1 < s.len() && s[i + 1] == SLASH {
        lemma_line_end(s, i + 2);
    } else if c == SLASH && i + 1 < s.len() && s[i + 1] == ASTERISK {
        lemma_block_comment_close(s, i + 2);
    } else {
        lemma_word_end(s, i);
    }
}

pub proof fn lemma_whitespace_end(s: Seq<u8>, i: int)
    requires
        0 <= i <= s.len(),
    ensures
        i <= whitespace_end(s, i) <= s.len(),
        i < s.len() && (s[i] == SPACE || s[i] == TAB) ==> i < whitespace_end(s, i),
    decreases s.len() - i,
{
    if i < s.len() && (s[i] == SPACE || s[i] == TAB) {
        lemma_whitespace_end(s, i + 1);
    }
}

pub proof fn lemma_word_end(s: Seq<u8>, i: int)
    requires
        0 <= i <= s.len(),
    ensures
        i <= word_end(s, i) <= s.len(),
        i < s.len() && !is_delimiter_byte(s[i]) ==> i < word_end(s, i),
    decreases s.len() - i,
{
    if i < s.len() && !is_delimiter_byte(s[i]) {
        lemma_word_end(s, i + 1);
    }
}

pub proof fn lemma_line_end(s: Seq<u8>, i: int)
    requires
        0 <= i <= s.len(),
    ensures
        i <= line_end(s, i) <= s.len(),
    decreases s.len() - i,
{
    if i < s.len() && line_break_len(s, i) == 0 {
        lemma_line_end(s, i + 1);
    }
}

pub proof fn lemma_block_comment_close(s: Seq<u8>, i: int)
    requires
        0 <= i,
    ensures
        block_comment_close(s, i) matches Some(j) ==> i <= j && j + 2 <= s.len(),
    decreases s.len() - i,
{
    if i + 1 < s.len() && !(s[i] == ASTERISK && s[i + 1] == SLASH) {
        lemma_block_comment_close(s, i + 1);
    }
}

pub proof fn lemma_string_close(s: Seq<u8>, start: int, quote: u8, i: int)
    requires
        0 <= i,
    ensures
        string_close(s, start, quote, i) matches Some(j) ==> i <= j < s.len(),
    decreases s.len() - i,
{
    if i < s.len() && !(s[i] == quote && !(i > start + 1 && s[i - 1] == BACKSLASH)) {
        lemma_string_close(s, start, quote, i + 1);
    }
}

/// Returns true if this byte ends an undelimited word
pub fn is_delimiter(c: u8) -> (r: bool)
    ensures
        r == is_delimiter_byte(c),
{
    c == SPACE || c == TAB || c == CARRIAGE_RETURN || c == NEWLINE || c == SEMICOLON || c
        == LEFT_CURLY_BRACKET || c == RIGHT_CURLY_BRACKET
}

/// Length of the run of spaces and tabs at `cursor`, if there is one
fn scan_whitespace(buffer: &[u8], cursor: usize) -> (r: Option<usize>)
    requires
        cursor < buffer@.len(),
    ensures
        (buffer@[cursor as int] == SPACE || buffer@[cursor as int] == TAB) <==> r is Some,
        r matches Some(n) ==> n == whitespace_end(buffer@, cursor as int) - cursor,
{
    let mut i: usize = cursor;
    while i < buffer.len() && (buffer[i] == SPACE || buffer[i] == TAB)
        invariant
            cursor <= i <= buffer@.len(),
            whitespace_end(buffer@, cursor as int) == whitespace_end(buffer@, i as int),
            i > cursor ==> (buffer@[cursor as int] == SPACE || buffer@[cursor as int] == TAB),
        decreases buffer@.len() - i,
    {
        i = i + 1;
    }
    if i > cursor {
        Some(i - cursor)
    } else {
        None
    }
}

/// Length of the line break at `cursor`, if there is one
fn scan_line_break(buffer: &[u8], cursor: usize) -> (r: Option<usize>)
    requires
        cursor <= buffer@.len(),
    ensures
        r is Some <==> line_break_len(buffer@, cursor as int) > 0,
        r matches Some(n) ==> n == line_break_len(buffer@, cursor as int),
{
    if cursor < buffer.len() && buffer[cursor] == NEWLINE {
        Some(1)
    } else if cursor < buffer.len() && cursor < buffer.len() - 1 && buffer[cursor]
        == CARRIAGE_RETURN && buffer[cursor + 1] == NEWLINE {
        Some(2)
    } else {
        None
    }
}

/// Length of the quoted string at `cursor`, if one starts there
fn scan_string(buffer: &[u8], cursor: usize) -> (r: Result<Option<usize>, LexError>)
    requires
        cursor < buffer@.len(),
    ensures
        ({
            let c = buffer@[cursor as int];
            if c == DOUBLE_QUOTE || c == SINGLE_QUOTE {
                match string_close(buffer@, cursor as int, c, cursor + 1) {
                    Some(j) => r == Ok::<Option<usize>, LexError>(Some((j + 1 - cursor) as usize)),
                    None => r == Err::<Option<usize>, LexError>(
                        LexError::UnterminatedString { start: cursor },
                    ),
                }
            } else {
                r == Ok::<Option<usize>, LexError>(None)
            }
        }),
{
    let quote = buffer[cursor];
    if quote != DOUBLE_QUOTE && quote != SINGLE_QUOTE {
        return Ok(None);
    }
    let mut i: usize = cursor + 1;
    while i < buffer.len()
        invariant
            cursor < i <= buffer@.len(),
            quote == buffer@[cursor as int],
            quote == DOUBLE_QUOTE || quote == SINGLE_QUOTE,
            string_close(buffer@, cursor as int, quote, cursor + 1) == string_close(
                buffer@,
                cursor as int,
                quote,
                i as int,
            ),
        decreases buffer@.len() - i,
    {
        if buffer[i] == quote && !(i > cursor + 1 && buffer[i - 1] == BACKSLASH) {
            assert(string_close(buffer@, cursor as int, quote, i as int) == Some(i as int));
            return Ok(Some(i + 1 - cursor));
        }
        i = i + 1;
    }
    Err(LexError::UnterminatedString { start: cursor })
}

/// Length of the line comment at `cursor`, if one starts there
fn scan_comment(buffer: &[u8], cursor: usize) -> (r: Option<usize>)
    requires
        cursor <= buffer@.len(),
    ensures
        ({
            let s = buffer@;
            if cursor + 1 < s.len() && s[cursor as int] == SLASH && s[cursor + 1] == SLASH {
                r == Some((line_end(s, cursor + 2) - cursor) as usize)
            } else {
                r is None
            }
        }),
{
    if !(cursor < buffer.len() && cursor < buffer.len() - 1 && buffer[cursor] == SLASH && buffer[cursor + 1] == SLASH) {
        return None;
    }
    let mut i: usize = cursor + 2;
    while i < buffer.len() && scan_line_break(buffer, i).is_none()
        invariant
            cursor + 2 <= i <= buffer@.len(),
            line_end(buffer@, cursor + 2) == line_end(buffer@, i as int),
        decreases buffer@.len() - i,
    {
        i = i + 1;
    }
    Some(i - cursor)
}

/// Length of the block comment at `cursor`, if one starts there
fn scan_block_comment(buffer: &[u8], cursor: usize) -> (r: Result<Option<usize>, LexError>)
    requires
        cursor <= buffer@.len(),
    ensures
        ({
            let s = buffer@;
            if cursor + 1 < s.len() && s[cursor as int] == SLASH && s[cursor + 1] == ASTERISK {
                match block_comment_close(s, cursor + 2) {
                    Some(j) => r == Ok::<Option<usize>, LexError>(Some((j + 2 - cursor) as usize)),
                    None => r == Err::<Option<usize>, LexError>(
                        LexError::UnterminatedComment { start: cursor },
                    ),
                }
            } else {
                r == Ok::<Option<usize>, LexError>(None)
            }
        }),
{
    if !(cursor < buffer.len() && cursor < buffer.len() - 1 && buffer[cursor] == SLASH && buffer[cursor + 1] == ASTERISK) {
        return Ok(None);
    }
    let mut i: usize = cursor + 2;
    while i < buffer.len() - 1
        invariant
            cursor + 2 <= i <= buffer@.len(),
            buffer@.len() >= 2,
            buffer@[cursor as int] == SLASH && buffer@[cursor + 1] == ASTERISK,
            block_comment_close(buffer@, cursor + 2) == block_comment_close(buffer@, i as int),
        decreases buffer@.len() - i,
    {
        if buffer[i] == ASTERISK && buffer[i + 1] == SLASH {
            assert(block_comment_close(buffer@, i as int) == Some(i as int));
            return Ok(Some(i + 2 - cursor));
        }
        i = i + 1;
    }
    Err(LexError::UnterminatedComment { start: cursor })
}

/// Length of the undelimited word at `cursor`, if one starts there
fn scan_other(buffer: &[u8], cursor: usize) -> (r: Option<usize>)
    requires
        cursor < buffer@.len(),
    ensures
        !is_delimiter_byte(buffer@[cursor as int]) <==> r is Some,
        r matches Some(n) ==> n == word_end(buffer@, cursor as int) - cursor,
{
    let mut i: usize = cursor;
    while i < buffer.len() && !is_delimiter(buffer[i])
        invariant
            cursor <= i <= buffer@.len(),
            word_end(buffer@, cursor as int) == word_end(buffer@, i as int),
            i > cursor ==> !is_delimiter_byte(buffer@[cursor as int]),
        decreases buffer@.len() - i,
    {
        i = i + 1;
    }
    if i > cursor {
        Some(i - cursor)
    } else {
        None
    }
}

/// Builds the token of kind `token_type` that covers `length` bytes from `cursor`
fn read_token(buffer: &[u8], cursor: usize, length: usize, token_type: TokenType) -> (r: Result<
    (usize, Token),
    LexError,
>)
    requires
        0 < length,
        cursor + length <= buffer@.len(),
        buffer@.len() <= usize::MAX,
    ensures
        ({
            let sub = buffer@.subrange(cursor as int, cursor + length);
            &&& r is Ok <==> valid_utf8(sub)
            &&& r is Err ==> r == Err::<(usize, Token), LexError>(
                LexError::InvalidUtf8 { position: cursor },
            )
            &&& r matches Ok((next, tok)) ==> next == cursor + length && tok.is_lexeme_of(
                buffer@,
                (token_type, cursor as int, cursor + length),
            )
        }),
{
    let bytes = slice_subrange(buffer, cursor, cursor + length);
    match utf8_text(bytes) {
        Some(text) => Ok(
            (cursor + length, Token { token_type, span: (cursor, cursor + length - 1), text }),
        ),
        None => Err(LexError::InvalidUtf8 { position: cursor }),
    }
}

/// Reads the token at `cursor`; returns `None` at the end of the buffer, and otherwise the
/// position right after the token together with the token
pub fn next_token(buffer: &[u8], cursor: usize) -> (r: Result<Option<(usize, Token)>, LexError>)
    requires
        cursor <= buffer@.len(),
    ensures
        cursor == buffer@.len() ==> r == Ok::<Option<(usize, Token)>, LexError>(None),
        cursor < buffer@.len() ==> match lexeme(buffer@, cursor as int) {
            Err(e) => r == Err::<Option<(usize, Token)>, LexError>(e),
            Ok((t, end)) => r matches Ok(Some((next, tok))) && next == end && tok.is_lexeme_of(
                buffer@,
                (t, cursor as int, end),
            ),
        },
{
    if cursor >= buffer.len() {
        return Ok(None);
    }
    proof {
        lemma_raw_lexeme_advances(buffer@, cursor as int);
    }
    let c = buffer[cursor];
    let (token_type, length): (TokenType, usize) = if c == SEMICOLON {
        (TokenType::SemiColon, 1)
    } else if c == PLUS {
        (TokenType::Plus, 1)
    } else if c == LEFT_CURLY_BRACKET {
        (TokenType::OpenCurlyBrace, 1)
    } else if c == RIGHT_CURLY_BRACKET {
        (TokenType::ClosingCurlyBrace, 1)
    } else if let Some(n) = scan_whitespace(buffer, cursor) {
        (TokenType::WhiteSpace, n)
    } else if let Some(n) = scan_line_break(buffer, cursor) {
        (TokenType::LineBreak, n)
    } else if let Some(n) = scan_string(buffer, cursor)? {
        (TokenType::String, n)
    } else if let Some(n) = scan_comment(buffer, cursor) {
        (TokenType::Comment, n)
    } else if let Some(n) = scan_block_comment(buffer, cursor)? {
        (TokenType::Comment, n)
    } else if let Some(n) = scan_other(buffer, cursor) {
        (TokenType::Other, n)
    } else {
        return Err(LexError::UnexpectedCharacter { position: cursor, character: c as char });
    };
    let (next, mut token) = read_token(buffer, cursor, length, token_type)?;
    if token_type == TokenType::Other {
        if regex_is_match(NUMBER_PATTERN, token.text.as_str()) {
            token.token_type = TokenType::Number;
        } else if regex_is_match(DATE_PATTERN, token.text.as_str()) {
            token.token_type = TokenType::Date;
        }
    }
    Ok(Some((next, token)))
}

/// The scanned tokens of a buffer, read one at a time
///
/// Scanning stops at the first lexical error; the tokens before it are handed out first, then
/// the error.
pub struct ScanIterator {
    /// Tokens not handed out yet, the next one last
    pending: Vec<Token>,
    error: Option<LexError>,
}

impl ScanIterator {
    /// Tokens not handed out yet, in order
    pub closed spec fn tokens(&self) -> Seq<Token> {
        backwards(self.pending@)
    }

    /// The error that follows the tokens, if any
    pub closed spec fn error(&self) -> Option<LexError> {
        self.error
    }

    /// What the next call of `next` returns
    pub open spec fn spec_peek(&self) -> Option<Result<Token, LexError>> {
        if self.tokens().len() > 0 {
            Some(Ok(self.tokens()[0]))
        } else if self.error() is Some {
            Some(Err(self.error()->0))
        } else {
            None
        }
    }

    /// `other` is the stream after one call of `next` on this one
    pub open spec fn advanced(&self, other: &ScanIterator) -> bool {
        if self.tokens().len() > 0 {
            other.error() == self.error() && other.tokens() == self.tokens().skip(1)
        } else {
            other.error() is None && other.tokens().len() == 0
        }
    }

    pub fn peek(&self) -> (r: Option<Result<&Token, LexError>>)
        ensures
            match self.spec_peek() {
                None => r is None,
                Some(Ok(t)) => r matches Some(Ok(u)) && *u == t,
                Some(Err(e)) => r == Some(Err::<&Token, LexError>(e)),
            },
    {
        let n = self.pending.len();
        if n > 0 {
            Some(Ok(&self.pending[n - 1]))
        } else {
            match self.error {
                Some(e) => Some(Err(e)),
                None => None,
            }
        }
    }

    pub fn next(&mut self) -> (r: Option<Result<Token, LexError>>)
        ensures
            r == old(self).spec_peek(),
            old(self).advanced(final(self)),
    {
        match self.pending.pop() {
            Some(token) => {
                proof {
                    assert(self.tokens() =~= old(self).tokens().skip(1));
                }
                Some(Ok(token))
            },
            None => match self.error.take() {
                Some(e) => Some(Err(e)),
                None => None,
            },
        }
    }
}

/// The tokens of `s`, in order, are exactly the lexemes that `spec_scan` gives
pub open spec fn tokens_match(s: Seq<u8>, tokens: Seq<Token>, lexemes: Seq<(TokenType, int, int)>) -> bool {
    &&& tokens.len() == lexemes.len()
    &&& forall|k: int| 0 <= k < tokens.len() ==> #[trigger] tokens[k].is_lexeme_of(s, lexemes[k])
}

/// Scans the whole buffer
pub fn scan(buffer: &[u8]) -> (r: ScanIterator)
    ensures
        tokens_match(buffer@, r.tokens(), spec_scan(buffer@, 0).0),
        r.error() == spec_scan(buffer@, 0).1,
{
    let mut tokens: Vec<Token> = Vec::new();
    let mut cursor: usize = 0;
    let ghost s = buffer@;
    loop
        invariant
            s == buffer@,
            cursor <= s.len(),
            spec_scan(s, cursor as int).1 == spec_scan(s, 0).1,
            tokens@.len() + spec_scan(s, cursor as int).0.len() == spec_scan(s, 0).0.len(),
            tokens_match(s, tokens@, spec_scan(s, 0).0.take(tokens@.len() as int)),
            spec_scan(s, 0).0.skip(tokens@.len() as int) == spec_scan(s, cursor as int).0,
        decreases s.len() - cursor,
    {
        let ghost before = tokens@;
        match next_token(buffer, cursor) {
            Ok(Some((next, token))) => {
                proof {
                    lemma_raw_lexeme_advances(s, cursor as int);
                    let lex = spec_scan(s, cursor as int).0;
                    assert(lex[0] == (token.token_type, cursor as int, next as int));
                    assert(spec_scan(s, next as int).0 == lex.skip(1));
                }
                tokens.push(token);
                cursor = next;
                proof {
                    let all = spec_scan(s, 0).0;
                    let n = tokens@.len() as int;
                    assert(all.skip(n) =~= all.skip(n - 1).skip(1));
                    assert forall|k: int| 0 <= k < n implies #[trigger] tokens@[k].is_lexeme_of(
                        s,
                        all.take(n)[k],
                    ) by {
                        if k < n - 1 {
                            assert(tokens@[k] == before[k]);
                            assert(all.take(n)[k] == all.take(n - 1)[k]);
                        } else {
                            assert(all.take(n)[k] == all.skip(n - 1)[0]);
                        }
                    }
                }
            },
            Ok(None) => {
                proof {
                    assert(spec_scan(s, 0).0.take(tokens@.len() as int) =~= spec_scan(s, 0).0);
                }
                return ScanIterator { pending: reversed(tokens), error: None };
            },
            Err(e) => {
                proof {
                    assert(spec_scan(s, 0).0.take(tokens@.len() as int) =~= spec_scan(s, 0).0);
                }
                return ScanIterator { pending: reversed(tokens), error: Some(e) };
            },
        }
    }
}

/// 1-based line and column of a byte offset
pub struct TextPosition {
    pub line: usize,
    pub col: usize,
}

/// Number of line feeds among the first `n` bytes
pub open spec fn newlines_before(s: Seq<u8>, n: int) -> int
    decreases n,
{
    if n <= 0 {
        0
    } else {
        newlines_before(s, n - 1) + if s[n - 1] == NEWLINE {
            1int
        } else {
            0int
        }
    }
}

/// Number of bytes between the last line feed before position `n` (or the start) and `n`
pub open spec fn bytes_since_newline(s: Seq<u8>, n: int) -> int
    decreases n,
{
    if n <= 0 {
        0
    } else if s[n - 1] == NEWLINE {
        0
    } else {
        bytes_since_newline(s, n - 1) + 1
    }
}

impl TextPosition {
    /// Position of byte `index`; an index past the end gives the position just after the buffer
    pub fn from_buffer_index(buffer: &[u8], index: usize) -> (r: Self)
        requires
            buffer@.len() < usize::MAX,
        ensures
            ({
                let n = if index < buffer@.len() {
                    index as int
                } else {
                    buffer@.len() as int
                };
                r.line == newlines_before(buffer@, n) + 1 && r.col == bytes_since_newline(
                    buffer@,
                    n,
                ) + 1
            }),
    {
        let mut line: usize = 1;
        let mut col: usize = 1;
        let mut i: usize = 0;
        while i < buffer.len() && i != index
            invariant
                i <= buffer@.len(),
                i <= index,
                line == newlines_before(buffer@, i as int) + 1,
                col == bytes_since_newline(buffer@, i as int) + 1,
                line <= i + 1,
                col <= i + 1,
                buffer@.len() < usize::MAX,
            decreases buffer@.len() - i,
        {
            if buffer[i] == NEWLINE {
                line = line + 1;
                col = 1;
            } else {
                col = col + 1;
            }
            i = i + 1;
        }
        TextPosition { line, col }
    }
}

/// The digits of `n` in decimal
pub open spec fn decimal(n: nat) -> Seq<char>
    decreases n,
{
    if n < 10 {
        seq![digit_char(n)]
    } else {
        decimal(n / 10) + seq![digit_char(n % 10)]
    }
}

pub open spec fn digit_char(d: nat) -> char {
    if d == 0 { '0' } else if d == 1 { '1' } else if d == 2 { '2' } else if d == 3 { '3' }
    else if d == 4 { '4' } else if d == 5 { '5' } else if d == 6 { '6' } else if d == 7 { '7' }
    else if d == 8 { '8' } else { '9' }
}

fn digit(d: usize) -> (r: char)
    requires
        d < 10,
    ensures
        r == digit_char(d as nat),
{
    if d == 0 { '0' } else if d == 1 { '1' } else if d == 2 { '2' } else if d == 3 { '3' }
    else if d == 4 { '4' } else if d == 5 { '5' } else if d == 6 { '6' } else if d == 7 { '7' }
    else if d == 8 { '8' } else { '9' }
}

/// Writes `n` in decimal
pub fn write_decimal(out: &mut String, n: usize)
    ensures
        final(out)@ == old(out)@ + decimal(n as nat),
    decreases n,
{
    if n >= 10 {
        write_decimal(out, n / 10);
    }
    push_char(out, digit(n % 10));
}

/// `s` followed by spaces up to `width` characters
pub open spec fn padded(s: Seq<char>, width: int) -> Seq<char> {
    if s.len() >= width {
        s
    } else {
        s + Seq::new((width - s.len()) as nat, |i: int| ' ')
    }
}

fn pad_to(s: &mut String, width: usize)
    ensures
        final(s)@ == padded(old(s)@, width as int),
{
    let mut n = chars_of(s.as_str()).len();
    let ghost start = s@;
    let ghost n0 = n;
    while n < width
        invariant
            n0 == start.len(),
            n >= n0,
            n <= width || n == n0,
            s@ == start + Seq::new((n - n0) as nat, |i: int| ' '),
        decreases width - n,
    {
        push_char(s, ' ');
        n = n + 1;
        proof {
            assert(s@ =~= start + Seq::new((n - n0) as nat, |i: int| ' '));
        }
    }
    proof {
        if start.len() >= width {
            assert(s@ =~= start);
        } else {
            assert(s@ =~= padded(start, width as int));
        }
    }
}

pub open spec fn token_type_name(t: TokenType) -> Seq<char> {
    match t {
        TokenType::String => "String"@,
        TokenType::Date => "Date"@,
        TokenType::Number => "Number"@,
        TokenType::Comment => "Comment"@,
        TokenType::OpenCurlyBrace => "OpenCurlyBrace"@,
        TokenType::ClosingCurlyBrace => "ClosingCurlyBrace"@,
        TokenType::Plus => "Plus"@,
        TokenType::SemiColon => "SemiColon"@,
        TokenType::WhiteSpace => "WhiteSpace"@,
        TokenType::LineBreak => "LineBreak"@,
        TokenType::Other => "Other"@,
    }
}

impl TokenType {
    /// The kind's name
    pub fn name(&self) -> (r: &'static str)
        ensures
            r@ == token_type_name(*self),
    {
        match self {
            TokenType::String => "String",
            TokenType::Date => "Date",
            TokenType::Number => "Number",
            TokenType::Comment => "Comment",
            TokenType::OpenCurlyBrace => "OpenCurlyBrace",
            TokenType::ClosingCurlyBrace => "ClosingCurlyBrace",
            TokenType::Plus => "Plus",
            TokenType::SemiColon => "SemiColon",
            TokenType::WhiteSpace => "WhiteSpace",
            TokenType::LineBreak => "LineBreak",
            TokenType::Other => "Other",
        }
    }
}

/// One line per token: its kind, its span and its quoted text, in columns
pub open spec fn token_line(t: Token) -> Seq<char> {
    padded(token_type_name(t.token_type), 20) + seq![' '] + padded(
        decimal(t.span.0 as nat) + " -> "@ + decimal(t.span.1 as nat),
        15,
    ) + seq![' ', '"'] + escaped(t.text@) + seq!['"', '\n']
}

/// The lines of all the tokens
pub open spec fn token_lines(ts: Seq<Token>) -> Seq<char>
    decreases ts.len(),
{
    if ts.len() == 0 {
        Seq::empty()
    } else {
        token_lines(ts.drop_last()) + token_line(ts.last())
    }
}

/// A readable listing of tokens, for troubleshooting
pub trait DebugTokenExt {
    spec fn spec_listing(&self) -> Seq<char>;

    fn human_readable_string(&self) -> (r: String)
        ensures
            r@ == self.spec_listing(),
    ;
}

impl DebugTokenExt for Token {
    open spec fn spec_listing(&self) -> Seq<char> {
        token_line(*self)
    }

    fn human_readable_string(&self) -> (r: String) {
        let mut kind = String::new();
        push_str(&mut kind, self.token_type.name());
        pad_to(&mut kind, 20);
        let mut span = String::new();
        write_decimal(&mut span, self.span.0);
        push_str(&mut span, " -> ");
        write_decimal(&mut span, self.span.1);
        pad_to(&mut span, 15);
        let mut out = kind;
        push_char(&mut out, ' ');
        push_str(&mut out, span.as_str());
        push_char(&mut out, ' ');
        push_char(&mut out, '"');
        write_escaped(&mut out, self.text.as_str());
        push_char(&mut out, '"');
        push_char(&mut out, '\n');
        proof {
            assert(out@ =~= token_line(*self));
        }
        out
    }
}

impl DebugTokenExt for Vec<Token> {
    open spec fn spec_listing(&self) -> Seq<char> {
        token_lines(self@)
    }

    fn human_readable_string(&self) -> (r: String) {
        let mut out = String::new();
        let mut i: usize = 0;
        while i < self.len()
            invariant
                i <= self@.len(),
                out@ == token_lines(self@.subrange(0, i as int)),
            decreases self@.len() - i,
        {
            let line = self[i].human_readable_string();
            push_str(&mut out, line.as_str());
            proof {
                let part = self@.subrange(0, i + 1);
                assert(part.drop_last() =~= self@.subrange(0, i as int));
            }
            i = i + 1;
        }
        proof {
            assert(self@.subrange(0, self@.len() as int) =~= self@);
        }
        out
    }
}

impl ScanIterator {
    /// Every token left, or the error that stopped the scan
    pub fn collect_tokens(&mut self) -> (r: Result<Vec<Token>, LexError>)
        ensures
            old(self).error() matches Some(e) ==> r == Err::<Vec<Token>, LexError>(e),
            old(self).error() is None ==> (r matches Ok(v) && v@ == old(self).tokens()),
    {
        let mut out: Vec<Token> = Vec::new();
        loop
            invariant
                out@ + self.tokens() == old(self).tokens(),
                self.error() == old(self).error(),
            decreases self.tokens().len(),
        {
            let ghost before = self.tokens();
            match self.next() {
                Some(Ok(t)) => {
                    out.push(t);
                    proof {
                        assert(out@ + self.tokens() =~= old(self).tokens());
                    }
                },
                Some(Err(e)) => {
                    return Err(e);
                },
                None => {
                    proof {
                        assert(out@ =~= old(self).tokens());
                    }
                    return Ok(out);
                },
            }
        }
    }
}

} // verus!

use vstd::prelude::*;

use crate::span::Span;
use crate::names::{c_style, c_style_name};
use crate::text::chars_of;
use vstd::string::{StrSliceExecFns, StringSliceAdditionalSpecFns};
use vstd::utf8::{decode_utf8, encode_utf8, is_char_boundary};

verus! {

/// Why the scanner could not make a proper token out of some characters.
#[derive(Debug, Clone, Copy, PartialEq, Eq, Structural)]
pub enum ScanError {
    UnterminatedComment,
    UnterminatedString,
    UnknownToken,
}

impl ScanError {
    /// The message that reports this error.
    pub fn message(&self) -> (m: &'static str)
        ensures
            m@ == self.message_text(),
    {
        match self {
            ScanError::UnterminatedComment => "Expect closing '*/' for multiline comment.",
            ScanError::UnterminatedString => "Unterminated string.",
            ScanError::UnknownToken => "Unknown token.",
        }
    }

    pub open spec fn message_text(self) -> Seq<char> {
        match self {
            ScanError::UnterminatedComment => "Expect closing '*/' for multiline comment."@,
            ScanError::UnterminatedString => "Unterminated string."@,
            ScanError::UnknownToken => "Unknown token."@,
        }
    }
}

#[derive(Debug, Clone, Copy, PartialEq, Eq, Structural)]
pub enum TokenKind {
    // Single-character tokens
    LeftParen,
    RightParen,
    LeftBrace,
    RightBrace,
    Comma,
    Dot,
    Minus,
    Plus,
    Semicolon,
    Slash,
    Star,
    // One or two character tokens
    Bang,
    BangEqual,
    Equal,
    EqualEqual,
    Greater,
    GreaterEqual,
    Less,
    LessEqual,
    // Literals
    Ident,
    String,
    Number,
    // Keywords
    And,
    Class,
    Else,
    False,
    Fun,
    For,
    If,
    Nil,
    Or,
    Print,
    Super,
    Return,
    This,
    True,
    Var,
    While,
    // Ignorable
    SingleLineComment,
    MultiLineComment,
    Whitespace,
    Error(ScanError),
    Eof,
}

impl TokenKind {
    /// Whitespace and comments, which a scanner that skips the ignorable never hands out.
    pub open spec fn is_ignorable(self) -> bool {
        self is Whitespace || self is MultiLineComment || self is SingleLineComment
    }
}

#[derive(Debug, Clone, Copy, PartialEq, Eq, Structural)]
pub struct Token {
    pub kind: TokenKind,
    pub span: Span,
}

// ---------------------------------------------------------------------------
// The lexical grammar, over the characters of the source.
// ---------------------------------------------------------------------------

pub open spec fn is_digit(c: char) -> bool {
    '0' <= c && c <= '9'
}

pub open spec fn is_ascii_letter(c: char) -> bool {
    ('a' <= c && c <= 'z') || ('A' <= c && c <= 'Z')
}

/// A character that may start an identifier.
pub open spec fn is_word_start(c: char) -> bool {
    is_ascii_letter(c) || c == '_'
}

/// A character that may continue an identifier.
pub open spec fn is_word_char(c: char) -> bool {
    is_word_start(c) || is_digit(c)
}

/// ASCII whitespace: space, tab, line feed, form feed and carriage return.
pub open spec fn is_ascii_space(c: char) -> bool {
    c == ' ' || c == '\t' || c == '\n' || c == '\x0C' || c == '\r'
}

/// The result of `char::is_alphanumeric`, Unicode's Alphabetic or Numeric property.
pub uninterp spec fn unicode_alphanumeric(c: char) -> bool;

/// Whether `c` is alphanumeric: for an ASCII character, exactly the letters
/// and digits; for any other, as Unicode's tables say (`unicode_alphanumeric`).
pub open spec fn alphanumeric(c: char) -> bool {
    if c <= '\x7f' {
        is_ascii_letter(c) || is_digit(c)
    } else {
        unicode_alphanumeric(c)
    }
}

/// Calls `char::is_alphanumeric` (std). Trusted: the result is the value
/// that `unicode_alphanumeric` names for `c`, and for an ASCII character it
/// is true exactly for the letters and the digits (an ASCII character is
/// alphabetic exactly when it is a letter, numeric exactly when it is a
/// digit). Which other characters have the property is left to Unicode's
/// tables and not stated here.
#[verifier::external_body]
fn char_is_alphanumeric(c: char) -> (b: bool)
    ensures
        b == unicode_alphanumeric(c),
        b == alphanumeric(c),
{
    c.is_alphanumeric()
}

/// Number of line feeds in `s`.
pub open spec fn newlines(s: Seq<char>) -> nat
    decreases s.len(),
{
    if s.len() == 0 {
        0
    } else {
        newlines(s.drop_last()) + if s.last() == '\n' { 1nat } else { 0nat }
    }
}

/// The line the scanner is on after `pos` steps over `s`; a step past the end reads nothing.
pub open spec fn line_at(s: Seq<char>, pos: int) -> int {
    1 + newlines(s.take(if pos < s.len() { pos } else { s.len() as int })) as int
}

/// End of the run of identifier characters that starts at `i`.
pub open spec fn word_end(s: Seq<char>, i: int) -> int
    decreases s.len() - i,
{
    if 0 <= i < s.len() && is_word_char(s[i]) {
        word_end(s, i + 1)
    } else {
        i
    }
}

/// End of the run of ASCII whitespace that starts at `i`.
pub open spec fn space_end(s: Seq<char>, i: int) -> int
    decreases s.len() - i,
{
    if 0 <= i < s.len() && is_ascii_space(s[i]) {
        space_end(s, i + 1)
    } else {
        i
    }
}

/// Index of the first line feed at or after `i`, or the end of `s`.
pub open spec fn line_end(s: Seq<char>, i: int) -> int
    decreases s.len() - i,
{
    if 0 <= i < s.len() && s[i] != '\n' {
        line_end(s, i + 1)
    } else {
        i
    }
}

/// End of the body of a string literal that starts at `i`: the first `"`
/// that no backslash escapes, or the end of `s`.
pub open spec fn string_body_end(s: Seq<char>, i: int, escaped: bool) -> int
    decreases s.len() - i,
{
    if 0 <= i < s.len() && (escaped || s[i] != '"') {
        string_body_end(s, i + 1, s[i] == '\\')
    } else {
        i
    }
}

/// End of a number literal from `i`: digits, and at most one `.` that a digit follows.
pub open spec fn number_end(s: Seq<char>, i: int, has_dot: bool) -> int
    decreases s.len() - i,
{
    if 0 <= i < s.len() && is_digit(s[i]) {
        number_end(s, i + 1, has_dot)
    } else if 0 <= i && i + 1 < s.len() && s[i] == '.' && !has_dot && is_digit(s[i + 1]) {
        number_end(s, i + 1, true)
    } else {
        i
    }
}

/// The scan of the inside of a block comment: `pos` is the next character,
/// `first` the character the scan holds as current (which lags behind `pos`
/// by one after a nested comment closes), `depth` the number of open comments.
/// Gives the position where the scan stops and the depth left open there.
pub open spec fn block_comment_scan(s: Seq<char>, pos: int, first: char, depth: int) -> (int, int)
    decreases s.len() + 1 - pos,
{
    if 0 <= pos && pos + 1 < s.len() {
        let second = s[pos + 1];
        let d = if first == '/' && second == '*' { depth + 1 } else { depth };
        if first == '*' && second == '/' {
            if d - 1 == 0 {
                (pos + 2, 0)
            } else {
                block_comment_scan(s, pos + 3, second, d - 1)
            }
        } else {
            block_comment_scan(s, pos + 1, second, d)
        }
    } else {
        (pos, depth)
    }
}

/// A token that starts with `/` at `i`.
pub open spec fn slash_scan(s: Seq<char>, i: int) -> (TokenKind, int) {
    if i + 1 < s.len() && s[i + 1] == '/' {
        (TokenKind::SingleLineComment, line_end(s, i + 2))
    } else if i + 1 < s.len() && s[i + 1] == '*' {
        if i + 2 < s.len() {
            let (end, depth) = block_comment_scan(s, i + 2, s[i + 2], 1);
            if depth == 0 {
                (TokenKind::MultiLineComment, end)
            } else {
                (TokenKind::Error(ScanError::UnterminatedComment), end)
            }
        } else {
            (TokenKind::Error(ScanError::UnterminatedComment), i + 2)
        }
    } else {
        (TokenKind::Slash, i + 1)
    }
}

/// `word` stands at `i` and no alphanumeric character follows it.
pub open spec fn keyword_at(s: Seq<char>, i: int, word: Seq<char>) -> bool {
    &&& 0 <= i
    &&& i + word.len() <= s.len()
    &&& s.subrange(i, i + word.len()) == word
    &&& !(i + word.len() < s.len() && alphanumeric(s[i + word.len()]))
}

/// The keywords, each with its kind.
pub open spec fn keywords() -> Seq<(Seq<char>, TokenKind)> {
    seq![
        (seq!['a', 'n', 'd'], TokenKind::And),
        (seq!['c', 'l', 'a', 's', 's'], TokenKind::Class),
        (seq!['e', 'l', 's', 'e'], TokenKind::Else),
        (seq!['f', 'a', 'l', 's', 'e'], TokenKind::False),
        (seq!['f', 'o', 'r'], TokenKind::For),
        (seq!['f', 'u', 'n'], TokenKind::Fun),
        (seq!['i', 'f'], TokenKind::If),
        (seq!['n', 'i', 'l'], TokenKind::Nil),
        (seq!['o', 'r'], TokenKind::Or),
        (seq!['p', 'r', 'i', 'n', 't'], TokenKind::Print),
        (seq!['r', 'e', 't', 'u', 'r', 'n'], TokenKind::Return),
        (seq!['s', 'u', 'p', 'e', 'r'], TokenKind::Super),
        (seq!['t', 'h', 'i', 's'], TokenKind::This),
        (seq!['t', 'r', 'u', 'e'], TokenKind::True),
        (seq!['v', 'a', 'r'], TokenKind::Var),
        (seq!['w', 'h', 'i', 'l', 'e'], TokenKind::While),
    ]
}

/// A word that starts at `i`: a keyword where one stands there, else an identifier.
pub open spec fn word_scan(s: Seq<char>, i: int) -> (TokenKind, int) {
    if keyword_at(s, i, seq!['a', 'n', 'd']) {
        (TokenKind::And, i + 3)
    } else if keyword_at(s, i, seq!['c', 'l', 'a', 's', 's']) {
        (TokenKind::Class, i + 5)
    } else if keyword_at(s, i, seq!['e', 'l', 's', 'e']) {
        (TokenKind::Else, i + 4)
    } else if keyword_at(s, i, seq!['f', 'a', 'l', 's', 'e']) {
        (TokenKind::False, i + 5)
    } else if keyword_at(s, i, seq!['f', 'o', 'r']) {
        (TokenKind::For, i + 3)
    } else if keyword_at(s, i, seq!['f', 'u', 'n']) {
        (TokenKind::Fun, i + 3)
    } else if keyword_at(s, i, seq!['i', 'f']) {
        (TokenKind::If, i + 2)
    } else if keyword_at(s, i, seq!['n', 'i', 'l']) {
        (TokenKind::Nil, i + 3)
    } else if keyword_at(s, i, seq!['o', 'r']) {
        (TokenKind::Or, i + 2)
    } else if keyword_at(s, i, seq!['p', 'r', 'i', 'n', 't']) {
        (TokenKind::Print, i + 5)
    } else if keyword_at(s, i, seq!['r', 'e', 't', 'u', 'r', 'n']) {
        (TokenKind::Return, i + 6)
    } else if keyword_at(s, i, seq!['s', 'u', 'p', 'e', 'r']) {
        (TokenKind::Super, i + 5)
    } else if keyword_at(s, i, seq!['t', 'h', 'i', 's']) {
        (TokenKind::This, i + 4)
    } else if keyword_at(s, i, seq!['t', 'r', 'u', 'e']) {
        (TokenKind::True, i + 4)
    } else if keyword_at(s, i, seq!['v', 'a', 'r']) {
        (TokenKind::Var, i + 3)
    } else if keyword_at(s, i, seq!['w', 'h', 'i', 'l', 'e']) {
        (TokenKind::While, i + 5)
    } else {
        (TokenKind::Ident, word_end(s, i))
    }
}

/// A one-character token, or one of two characters where `=` follows.
pub open spec fn operator_scan(s: Seq<char>, i: int, one: TokenKind, two: TokenKind) -> (TokenKind, int) {
    if i + 1 < s.len() && s[i + 1] == '=' {
        (two, i + 2)
    } else {
        (one, i + 1)
    }
}

/// The kind and the end of the token that starts at `i` (with `i` inside `s`).
#[verifier::opaque]
pub open spec fn token_scan(s: Seq<char>, i: int) -> (TokenKind, int) {
    let c = s[i];
    if c == '(' {
        (TokenKind::LeftParen, i + 1)
    } else if c == ')' {
        (TokenKind::RightParen, i + 1)
    } else if c == '{' {
        (TokenKind::LeftBrace, i + 1)
    } else if c == '}' {
        (TokenKind::RightBrace, i + 1)
    } else if c == ';' {
        (TokenKind::Semicolon, i + 1)
    } else if c == ',' {
        (TokenKind::Comma, i + 1)
    } else if c == '.' {
        (TokenKind::Dot, i + 1)
    } else if c == '-' {
        (TokenKind::Minus, i + 1)
    } else if c == '+' {
        (TokenKind::Plus, i + 1)
    } else if c == '*' {
        (TokenKind::Star, i + 1)
    } else if c == '!' {
        operator_scan(s, i, TokenKind::Bang, TokenKind::BangEqual)
    } else if c == '=' {
        operator_scan(s, i, TokenKind::Equal, TokenKind::EqualEqual)
    } else if c == '<' {
        operator_scan(s, i, TokenKind::Less, TokenKind::LessEqual)
    } else if c == '>' {
        operator_scan(s, i, TokenKind::Greater, TokenKind::GreaterEqual)
    } else if c == '"' {
        let e = string_body_end(s, i + 1, false);
        if e < s.len() && s[e] == '"' {
            (TokenKind::String, e + 1)
        } else {
            (TokenKind::Error(ScanError::UnterminatedString), e)
        }
    } else if c == '/' {
        slash_scan(s, i)
    } else if is_digit(c) {
        (TokenKind::Number, number_end(s, i, false))
    } else if is_word_start(c) {
        word_scan(s, i)
    } else if is_ascii_space(c) {
        (TokenKind::Whitespace, space_end(s, i))
    } else {
        (TokenKind::Error(ScanError::UnknownToken), i + 1)
    }
}

/// The token of kind `kind` from `start` to `end`, on the line where it ends.
pub open spec fn make_token(s: Seq<char>, kind: TokenKind, start: int, end: int) -> Token {
    Token {
        kind,
        span: Span { line: line_at(s, end) as usize, start: start as usize, lenth: (end - start) as usize },
    }
}

/// One call of the scanner from position `pos`, where the last token scanned
/// started at `start`: the token handed out (`None` at the end of the source),
/// then the scanner's new position and the start of the last token it scanned.
pub open spec fn scan_step(s: Seq<char>, pos: int, start: int, skip: bool) -> (Option<Token>, int, int)
    decreases s.len() - pos,
{
    if 0 <= pos < s.len() {
        let (kind, end) = token_scan(s, pos);
        if skip && kind.is_ignorable() && pos < end <= s.len() {
            scan_step(s, end, pos, skip)
        } else {
            (Some(make_token(s, kind, pos, end)), end, pos)
        }
    } else {
        (None, pos, start)
    }
}

/// All the tokens the scanner hands out from `pos` on.
pub open spec fn tokens_from(s: Seq<char>, pos: int, skip: bool) -> Seq<Token>
    decreases s.len() - pos,
{
    let (t, end, _start) = scan_step(s, pos, pos, skip);
    match t {
        Some(t) => if pos < end <= s.len() {
            seq![t] + tokens_from(s, end, skip)
        } else {
            seq![t]
        },
        None => Seq::empty(),
    }
}

/// All the tokens of `source`.
pub open spec fn tokens(source: Seq<char>, skip: bool) -> Seq<Token> {
    tokens_from(source, 0, skip)
}

} // verus!

verus! {

/// The part of the source that a token covers.
pub open spec fn lexeme(source: Seq<char>, t: Token) -> Seq<char> {
    source.subrange(t.span.start as int, t.span.start + t.span.lenth)
}

proof fn lemma_newlines_step(s: Seq<char>, p: int)
    requires
        0 <= p < s.len(),
    ensures
        newlines(s.take(p + 1)) == newlines(s.take(p)) + if s[p] == '\n' { 1nat } else { 0nat },
{
    assert(s.take(p + 1).drop_last() =~= s.take(p));
}

proof fn lemma_newlines_bound(s: Seq<char>)
    ensures
        newlines(s) <= s.len(),
    decreases s.len(),
{
    if s.len() > 0 {
        lemma_newlines_bound(s.drop_last());
    }
}

proof fn lemma_word_end_skip(s: Seq<char>, a: int, b: int)
    requires
        0 <= a <= b <= s.len(),
        forall|k: int| a <= k < b ==> is_word_char(#[trigger] s[k]),
    ensures
        word_end(s, a) == word_end(s, b),
    decreases b - a,
{
    if a < b {
        lemma_word_end_skip(s, a + 1, b);
    }
}

proof fn lemma_keyword_step(s: Seq<char>, i: int, w: Seq<char>)
    requires
        0 <= i,
        w.len() >= 1,
    ensures
        keyword_at(s, i, w) == (i < s.len() && s[i] == w[0] && keyword_at(s, i + 1, w.drop_first())),
{
    if keyword_at(s, i, w) {
        assert(s.subrange(i, i + w.len())[0] == s[i]);
        assert(s.subrange(i + 1, i + w.len()) =~= w.drop_first()) by {
            assert forall|k: int| 0 <= k < w.len() - 1 implies s.subrange(i + 1, i + w.len())[k]
                == w.drop_first()[k] by {
                assert(s.subrange(i, i + w.len())[k + 1] == w[k + 1]);
            }
        }
    }
    if i < s.len() && s[i] == w[0] && keyword_at(s, i + 1, w.drop_first()) {
        assert(s.subrange(i, i + w.len()) =~= w) by {
            assert forall|k: int| 0 <= k < w.len() implies s.subrange(i, i + w.len())[k] == w[k] by {
                if k > 0 {
                    assert(s.subrange(i + 1, i + w.len())[k - 1] == w.drop_first()[k - 1]);
                }
            }
        }
    }
}

/// What the exec dispatch on the first two letters of a word relies on.
proof fn lemma_word_scan_dispatch(s: Seq<char>, i: int)
    requires
        0 <= i < s.len(),
    ensures
        keyword_at(s, i, seq!['a', 'n', 'd']) == (s[i] == 'a' && keyword_at(s, i + 1, seq!['n', 'd'])),
        keyword_at(s, i, seq!['c', 'l', 'a', 's', 's']) == (s[i] == 'c' && keyword_at(s, i + 1, seq!['l', 'a', 's', 's'])),
        keyword_at(s, i, seq!['e', 'l', 's', 'e']) == (s[i] == 'e' && keyword_at(s, i + 1, seq!['l', 's', 'e'])),
        keyword_at(s, i, seq!['f', 'a', 'l', 's', 'e']) == (s[i] == 'f' && keyword_at(s, i + 1, seq!['a', 'l', 's', 'e'])),
        keyword_at(s, i + 1, seq!['a', 'l', 's', 'e']) == (i + 1 < s.len() && s[i + 1] == 'a' && keyword_at(s, i + 2, seq!['l', 's', 'e'])),
        keyword_at(s, i, seq!['f', 'o', 'r']) == (s[i] == 'f' && keyword_at(s, i + 1, seq!['o', 'r'])),
        keyword_at(s, i + 1, seq!['o', 'r']) == (i + 1 < s.len() && s[i + 1] == 'o' && keyword_at(s, i + 2, seq!['r'])),
        keyword_at(s, i, seq!['f', 'u', 'n']) == (s[i] == 'f' && keyword_at(s, i + 1, seq!['u', 'n'])),
        keyword_at(s, i + 1, seq!['u', 'n']) == (i + 1 < s.len() && s[i + 1] == 'u' && keyword_at(s, i + 2, seq!['n'])),
        keyword_at(s, i, seq!['i', 'f']) == (s[i] == 'i' && keyword_at(s, i + 1, seq!['f'])),
        keyword_at(s, i, seq!['n', 'i', 'l']) == (s[i] == 'n' && keyword_at(s, i + 1, seq!['i', 'l'])),
        keyword_at(s, i, seq!['o', 'r']) == (s[i] == 'o' && keyword_at(s, i + 1, seq!['r'])),
        keyword_at(s, i, seq!['p', 'r', 'i', 'n', 't']) == (s[i] == 'p' && keyword_at(s, i + 1, seq!['r', 'i', 'n', 't'])),
        keyword_at(s, i, seq!['r', 'e', 't', 'u', 'r', 'n']) == (s[i] == 'r' && keyword_at(s, i + 1, seq!['e', 't', 'u', 'r', 'n'])),
        keyword_at(s, i, seq!['s', 'u', 'p', 'e', 'r']) == (s[i] == 's' && keyword_at(s, i + 1, seq!['u', 'p', 'e', 'r'])),
        keyword_at(s, i, seq!['t', 'h', 'i', 's']) == (s[i] == 't' && keyword_at(s, i + 1, seq!['h', 'i', 's'])),
        keyword_at(s, i + 1, seq!['h', 'i', 's']) == (i + 1 < s.len() && s[i + 1] == 'h' && keyword_at(s, i + 2, seq!['i', 's'])),
        keyword_at(s, i, seq!['t', 'r', 'u', 'e']) == (s[i] == 't' && keyword_at(s, i + 1, seq!['r', 'u', 'e'])),
        keyword_at(s, i + 1, seq!['r', 'u', 'e']) == (i + 1 < s.len() && s[i + 1] == 'r' && keyword_at(s, i + 2, seq!['u', 'e'])),
        keyword_at(s, i, seq!['v', 'a', 'r']) == (s[i] == 'v' && keyword_at(s, i + 1, seq!['a', 'r'])),
        keyword_at(s, i, seq!['w', 'h', 'i', 'l', 'e']) == (s[i] == 'w' && keyword_at(s, i + 1, seq!['h', 'i', 'l', 'e'])),
{
    lemma_keyword_step(s, i, seq!['a', 'n', 'd']);
    assert(seq!['a', 'n', 'd'].drop_first() =~= seq!['n', 'd']);
    lemma_keyword_step(s, i, seq!['c', 'l', 'a', 's', 's']);
    assert(seq!['c', 'l', 'a', 's', 's'].drop_first() =~= seq!['l', 'a', 's', 's']);
    lemma_keyword_step(s, i, seq!['e', 'l', 's', 'e']);
    assert(seq!['e', 'l', 's', 'e'].drop_first() =~= seq!['l', 's', 'e']);
    lemma_keyword_step(s, i, seq!['f', 'a', 'l', 's', 'e']);
    assert(seq!['f', 'a', 'l', 's', 'e'].drop_first() =~= seq!['a', 'l', 's', 'e']);
    lemma_keyword_step(s, i + 1, seq!['a', 'l', 's', 'e']);
    assert(seq!['a', 'l', 's', 'e'].drop_first() =~= seq!['l', 's', 'e']);
    lemma_keyword_step(s, i, seq!['f', 'o', 'r']);
    assert(seq!['f', 'o', 'r'].drop_first() =~= seq!['o', 'r']);
    lemma_keyword_step(s, i + 1, seq!['o', 'r']);
    assert(seq!['o', 'r'].drop_first() =~= seq!['r']);
    lemma_keyword_step(s, i, seq!['f', 'u', 'n']);
    assert(seq!['f', 'u', 'n'].drop_first() =~= seq!['u', 'n']);
    lemma_keyword_step(s, i + 1, seq!['u', 'n']);
    assert(seq!['u', 'n'].drop_first() =~= seq!['n']);
    lemma_keyword_step(s, i, seq!['i', 'f']);
    assert(seq!['i', 'f'].drop_first() =~= seq!['f']);
    lemma_keyword_step(s, i, seq!['n', 'i', 'l']);
    assert(seq!['n', 'i', 'l'].drop_first() =~= seq!['i', 'l']);
    lemma_keyword_step(s, i, seq!['o', 'r']);
    assert(seq!['o', 'r'].drop_first() =~= seq!['r']);
    lemma_keyword_step(s, i, seq!['p', 'r', 'i', 'n', 't']);
    assert(seq!['p', 'r', 'i', 'n', 't'].drop_first() =~= seq!['r', 'i', 'n', 't']);
    lemma_keyword_step(s, i, seq!['r', 'e', 't', 'u', 'r', 'n']);
    assert(seq!['r', 'e', 't', 'u', 'r', 'n'].drop_first() =~= seq!['e', 't', 'u', 'r', 'n']);
    lemma_keyword_step(s, i, seq!['s', 'u', 'p', 'e', 'r']);
    assert(seq!['s', 'u', 'p', 'e', 'r'].drop_first() =~= seq!['u', 'p', 'e', 'r']);
    lemma_keyword_step(s, i, seq!['t', 'h', 'i', 's']);
    assert(seq!['t', 'h', 'i', 's'].drop_first() =~= seq!['h', 'i', 's']);
    lemma_keyword_step(s, i + 1, seq!['h', 'i', 's']);
    assert(seq!['h', 'i', 's'].drop_first() =~= seq!['i', 's']);
    lemma_keyword_step(s, i, seq!['t', 'r', 'u', 'e']);
    assert(seq!['t', 'r', 'u', 'e'].drop_first() =~= seq!['r', 'u', 'e']);
    lemma_keyword_step(s, i + 1, seq!['r', 'u', 'e']);
    assert(seq!['r', 'u', 'e'].drop_first() =~= seq!['u', 'e']);
    lemma_keyword_step(s, i, seq!['v', 'a', 'r']);
    assert(seq!['v', 'a', 'r'].drop_first() =~= seq!['a', 'r']);
    lemma_keyword_step(s, i, seq!['w', 'h', 'i', 'l', 'e']);
    assert(seq!['w', 'h', 'i', 'l', 'e'].drop_first() =~= seq!['h', 'i', 'l', 'e']);
}

proof fn lemma_block_comment_scan_forward(s: Seq<char>, pos: int, first: char, depth: int)
    ensures
        block_comment_scan(s, pos, first, depth).0 >= pos,
    decreases s.len() + 1 - pos,
{
    if 0 <= pos && pos + 1 < s.len() {
        let second = s[pos + 1];
        let d = if first == '/' && second == '*' { depth + 1 } else { depth };
        if first == '*' && second == '/' {
            if d - 1 != 0 {
                lemma_block_comment_scan_forward(s, pos + 3, second, d - 1);
            }
        } else {
            lemma_block_comment_scan_forward(s, pos + 1, second, d);
        }
    }
}

proof fn lemma_word_end_bounds(s: Seq<char>, i: int)
    requires
        0 <= i <= s.len(),
    ensures
        i <= word_end(s, i) <= s.len(),
    decreases s.len() - i,
{
    if i < s.len() && is_word_char(s[i]) {
        lemma_word_end_bounds(s, i + 1);
    }
}

proof fn lemma_word_scan_bounds(s: Seq<char>, i: int)
    requires
        0 <= i < s.len(),
        is_word_start(s[i]),
    ensures
        i < word_scan(s, i).1 <= s.len(),
{
    lemma_word_end_bounds(s, i + 1);
}

/// The kinds of characters that `eat_while` can skip.
enum CharClass {
    Word,
    Space,
    NotNewline,
}

impl CharClass {
    spec fn holds(self, c: char) -> bool {
        match self {
            CharClass::Word => is_word_char(c),
            CharClass::Space => is_ascii_space(c),
            CharClass::NotNewline => c != '\n',
        }
    }

    spec fn run_end(self, s: Seq<char>, i: int) -> int {
        match self {
            CharClass::Word => word_end(s, i),
            CharClass::Space => space_end(s, i),
            CharClass::NotNewline => line_end(s, i),
        }
    }

    fn test(&self, c: char) -> (b: bool)
        ensures
            b == self.holds(c),
    {
        match self {
            CharClass::Word => Scanner::is_alphanumeric(c),
            CharClass::Space => c == ' ' || c == '\t' || c == '\n' || c == '\x0C' || c == '\r',
            CharClass::NotNewline => c != '\n',
        }
    }
}

const EOF_CHAR: char = '\0';

/// A scanner over a source text: it hands out the source's tokens one by one.
pub struct Scanner {
    chars: Vec<char>,
    line: usize,
    prev: char,
    col: usize,
    pos: usize,
    start_line: usize,
    start_pos: usize,
    start_col: usize,
    skip_ignorable: bool,
}

impl Scanner {
    /// The characters of the source.
    pub closed spec fn source(&self) -> Seq<char> {
        self.chars@
    }

    /// How many steps the scanner has taken over the source.
    pub closed spec fn position(&self) -> int {
        self.pos as int
    }

    /// Where the token being scanned (or last scanned) starts.
    pub closed spec fn token_start(&self) -> int {
        self.start_pos as int
    }

    /// Whether whitespace and comments are skipped.
    pub closed spec fn skips(&self) -> bool {
        self.skip_ignorable
    }

    pub closed spec fn wf(&self) -> bool {
        &&& self.chars@.len() + 2 < usize::MAX
        &&& self.pos <= self.chars@.len() + 1
        &&& self.start_pos <= self.pos
        &&& self.line == line_at(self.chars@, self.pos as int)
        &&& self.col <= self.pos + 1
    }

    /// Where a well-formed scanner stands: the start of its last token is at
    /// or before its position, which is at most one step past the end of a
    /// source whose length fits in a `usize`.
    pub proof fn lemma_positions(&self)
        requires
            self.wf(),
        ensures
            0 <= self.token_start() <= self.position() <= self.source().len() + 1,
            self.source().len() + 2 < usize::MAX,
            line_at(self.source(), self.position()) == 1 + newlines(
                self.source().take(
                    if self.position() < self.source().len() {
                        self.position()
                    } else {
                        self.source().len() as int
                    },
                ),
            ),
    {
    }

    /// The tokens the scanner has yet to hand out.
    pub open spec fn remaining(&self) -> Seq<Token> {
        tokens_from(self.source(), self.position(), self.skips())
    }

    /// A scanner at the start of `input`, which hands out every token.
    pub fn new(input: &str) -> (s: Self)
        requires
            input@.len() + 2 < usize::MAX,
        ensures
            s.wf(),
            s.source() == input@,
            s.position() == 0,
            s.token_start() == 0,
            !s.skips(),
    {
        let chars = chars_of(input);
        proof {
            assert(chars@.take(0) =~= Seq::<char>::empty());
        }
        Self {
            chars,
            prev: EOF_CHAR,
            line: 1,
            col: 1,
            pos: 0,
            start_line: 1,
            start_col: 1,
            start_pos: 0,
            skip_ignorable: false,
        }
    }

    /// The same scanner, skipping whitespace and comments from now on.
    pub fn skip_ignorable(self) -> (s: Self)
        requires
            self.wf(),
        ensures
            s.wf(),
            s.source() == self.source(),
            s.position() == self.position(),
            s.token_start() == self.token_start(),
            s.skips(),
    {
        Self { skip_ignorable: true, ..self }
    }

    /// Steps over one character; a step past the end reads nothing.
    fn bump(&mut self)
        requires
            old(self).wf(),
            old(self).pos <= old(self).chars@.len(),
        ensures
            final(self).wf(),
            final(self).chars@ == old(self).chars@,
            final(self).pos == old(self).pos + 1,
            final(self).start_pos == old(self).start_pos,
            final(self).skip_ignorable == old(self).skip_ignorable,
    {
        proof {
            lemma_newlines_bound(self.chars@.take(self.pos as int));
            if self.pos < self.chars@.len() {
                lemma_newlines_step(self.chars@, self.pos as int);
            }
        }
        self.col = self.col + 1;
        let next = if self.pos < self.chars.len() {
            Some(self.chars[self.pos])
        } else {
            None
        };
        self.pos = self.pos + 1;
        self.prev = match next {
            Some(c) => c,
            None => EOF_CHAR,
        };
        if self.prev == '\n' {
            self.line = self.line + 1;
            self.col = 1;
        }
    }

    fn peek_first(&self) -> (c: Option<char>)
        requires
            self.wf(),
        ensures
            c == (if self.pos < self.chars@.len() {
                Some(self.chars@[self.pos as int])
            } else {
                None
            }),
    {
        if self.pos < self.chars.len() {
            Some(self.chars[self.pos])
        } else {
            None
        }
    }

    fn peek_second(&self) -> (c: Option<char>)
        requires
            self.wf(),
        ensures
            c == (if self.pos + 1 < self.chars@.len() {
                Some(self.chars@[self.pos + 1])
            } else {
                None
            }),
    {
        if self.pos + 1 < self.chars.len() {
            Some(self.chars[self.pos + 1])
        } else {
            None
        }
    }

    fn second_matches(&self, expected: char) -> (b: bool)
        requires
            self.wf(),
        ensures
            b == (self.pos + 1 < self.chars@.len() && self.chars@[self.pos + 1] == expected),
    {
        match self.peek_second() {
            Some(second_char) => second_char == expected,
            None => false,
        }
    }

    fn span(&self) -> (sp: Span)
        requires
            self.wf(),
        ensures
            sp == (Span {
                line: line_at(self.chars@, self.pos as int) as usize,
                start: self.start_pos,
                lenth: (self.pos - self.start_pos) as usize,
            }),
    {
        Span { line: self.line, start: self.start_pos, lenth: self.pos - self.start_pos }
    }

    fn error(&self, reason: ScanError) -> (t: Token)
        requires
            self.wf(),
        ensures
            t == make_token(self.chars@, TokenKind::Error(reason), self.start_pos as int, self.pos as int),
    {
        Token { kind: TokenKind::Error(reason), span: self.span() }
    }

    /// The end-of-file token: it spans from the start of the last token
    /// scanned to the scanner's position.
    pub fn eof(&self) -> (t: Token)
        requires
            self.wf(),
        ensures
            t == make_token(self.source(), TokenKind::Eof, self.token_start(), self.position()),
            t.kind == TokenKind::Eof,
            t.span.start == self.token_start(),
            t.span.start + t.span.lenth == self.position(),
            t.span.line == line_at(self.source(), self.position()),
    {
        Token { kind: TokenKind::Eof, span: self.span() }
    }

    pub fn is_alpha(c: char) -> (b: bool)
        ensures
            b == is_word_start(c),
    {
        ('a' <= c && c <= 'z') || ('A' <= c && c <= 'Z') || c == '_'
    }

    pub fn is_alphanumeric(c: char) -> (b: bool)
        ensures
            b == is_word_char(c),
    {
        Self::is_alpha(c) || ('0' <= c && c <= '9')
    }

    fn ident(&mut self) -> (kind: TokenKind)
        requires
            old(self).wf(),
        ensures
            final(self).wf(),
            final(self).chars@ == old(self).chars@,
            final(self).start_pos == old(self).start_pos,
            final(self).skip_ignorable == old(self).skip_ignorable,
            final(self).pos == word_end(old(self).chars@, old(self).pos as int),
            kind == TokenKind::Ident,
    {
        self.eat_while(CharClass::Word);
        TokenKind::Ident
    }

    /// Scans the rest of a word whose first letter is at the scanner's position:
    /// `kind` where `rest` follows that letter as a whole word, else an identifier.
    fn check_word(&mut self, rest: &str, kind: TokenKind) -> (k: TokenKind)
        requires
            old(self).wf(),
            old(self).pos < old(self).chars@.len(),
            is_word_char(old(self).chars@[old(self).pos as int]),
            forall|j: int| 0 <= j < rest@.len() ==> is_ascii_letter(#[trigger] rest@[j]),
        ensures
            final(self).wf(),
            final(self).chars@ == old(self).chars@,
            final(self).start_pos == old(self).start_pos,
            final(self).skip_ignorable == old(self).skip_ignorable,
            (k, final(self).pos as int) == (if keyword_at(old(self).chars@, old(self).pos + 1, rest@) {
                (kind, old(self).pos + 1 + rest@.len())
            } else {
                (TokenKind::Ident, word_end(old(self).chars@, old(self).pos as int))
            }),
    {
        let ghost s = self.chars@;
        let ghost p0 = self.pos as int;
        self.bump();
        let n = rest.unicode_len();
        let mut k: usize = 0;
        while k < n
            invariant
                self.wf(),
                self.chars@ == s,
                s == old(self).chars@,
                p0 == old(self).pos,
                p0 < s.len(),
                is_word_char(s[p0]),
                self.start_pos == old(self).start_pos,
                self.skip_ignorable == old(self).skip_ignorable,
                n == rest@.len(),
                forall|j: int| 0 <= j < rest@.len() ==> is_ascii_letter(#[trigger] rest@[j]),
                k <= n,
                self.pos == p0 + 1 + k,
                self.pos <= s.len(),
                s.subrange(p0 + 1, p0 + 1 + k) =~= rest@.take(k as int),
            decreases n - k,
        {
            let expected = rest.get_char(k);
            match self.peek_first() {
                Some(c) if c == expected => {
                    self.bump();
                    k = k + 1;
                    proof {
                        assert(s.subrange(p0 + 1, p0 + 1 + k) =~= rest@.take(k as int)) by {
                            assert forall|j: int| 0 <= j < k implies s.subrange(p0 + 1, p0 + 1 + k)[j]
                                == rest@.take(k as int)[j] by {
                                if j < k - 1 {
                                    assert(s.subrange(p0 + 1, p0 + k)[j] == rest@.take(k - 1)[j]);
                                }
                            }
                        }
                    }
                },
                _ => {
                    proof {
                        assert forall|j: int| p0 <= j < p0 + 1 + k implies is_word_char(#[trigger] s[j]) by {
                            if j > p0 {
                                assert(s.subrange(p0 + 1, p0 + 1 + k)[j - p0 - 1] == rest@.take(k as int)[j - p0 - 1]);
                            }
                        }
                        lemma_word_end_skip(s, p0, p0 + 1 + k);
                        if keyword_at(s, p0 + 1, rest@) {
                            assert(s.subrange(p0 + 1, p0 + 1 + rest@.len())[k as int] == rest@[k as int]);
                        }
                    }
                    return self.ident();
                },
            }
        }
        proof {
            assert(rest@.take(n as int) =~= rest@);
            assert forall|j: int| p0 <= j < p0 + 1 + n implies is_word_char(#[trigger] s[j]) by {
                if j > p0 {
                    assert(s.subrange(p0 + 1, p0 + 1 + n)[j - p0 - 1] == rest@[j - p0 - 1]);
                }
            }
            lemma_word_end_skip(s, p0, p0 + 1 + n);
        }
        match self.peek_first() {
            Some(c) => {
                if char_is_alphanumeric(c) {
                    return self.ident();
                }
            },
            None => {},
        }
        kind
    }

    /// Scans a word whose first character, a letter or `_`, is at the scanner's position.
    fn keyword_or_ident(&mut self) -> (k: TokenKind)
        requires
            old(self).wf(),
            old(self).pos < old(self).chars@.len(),
            is_word_start(old(self).chars@[old(self).pos as int]),
        ensures
            final(self).wf(),
            final(self).chars@ == old(self).chars@,
            final(self).start_pos == old(self).start_pos,
            final(self).skip_ignorable == old(self).skip_ignorable,
            (k, final(self).pos as int) == word_scan(old(self).chars@, old(self).pos as int),
    {
        let ghost s = self.chars@;
        let ghost p0 = self.pos as int;
        proof {
            lemma_word_scan_dispatch(s, p0);
            if p0 + 1 < s.len() && is_word_char(s[p0 + 1]) {
                assert(word_end(s, p0) == word_end(s, p0 + 1));
            }
        }
        match self.chars[self.pos] {
            'a' => {
                proof {
                    reveal_strlit("nd");
                    assert("nd"@ =~= seq!['n', 'd']);
                }
                self.check_word("nd", TokenKind::And)
            },
            'c' => {
                proof {
                    reveal_strlit("lass");
                    assert("lass"@ =~= seq!['l', 'a', 's', 's']);
                }
                self.check_word("lass", TokenKind::Class)
            },
            'e' => {
                proof {
                    reveal_strlit("lse");
                    assert("lse"@ =~= seq!['l', 's', 'e']);
                }
                self.check_word("lse", TokenKind::Else)
            },
            'i' => {
                proof {
                    reveal_strlit("f");
                    assert("f"@ =~= seq!['f']);
                }
                self.check_word("f", TokenKind::If)
            },
            'n' => {
                proof {
                    reveal_strlit("il");
                    assert("il"@ =~= seq!['i', 'l']);
                }
                self.check_word("il", TokenKind::Nil)
            },
            'o' => {
                proof {
                    reveal_strlit("r");
                    assert("r"@ =~= seq!['r']);
                }
                self.check_word("r", TokenKind::Or)
            },
            'p' => {
                proof {
                    reveal_strlit("rint");
                    assert("rint"@ =~= seq!['r', 'i', 'n', 't']);
                }
                self.check_word("rint", TokenKind::Print)
            },
            'r' => {
                proof {
                    reveal_strlit("eturn");
                    assert("eturn"@ =~= seq!['e', 't', 'u', 'r', 'n']);
                }
                self.check_word("eturn", TokenKind::Return)
            },
            's' => {
                proof {
                    reveal_strlit("uper");
                    assert("uper"@ =~= seq!['u', 'p', 'e', 'r']);
                }
                self.check_word("uper", TokenKind::Super)
            },
            'v' => {
                proof {
                    reveal_strlit("ar");
                    assert("ar"@ =~= seq!['a', 'r']);
                }
                self.check_word("ar", TokenKind::Var)
            },
            'w' => {
                proof {
                    reveal_strlit("hile");
                    assert("hile"@ =~= seq!['h', 'i', 'l', 'e']);
                }
                self.check_word("hile", TokenKind::While)
            },
            'f' => {
                self.bump();
                match self.peek_first() {
                    Some('a') => {
                        proof {
                            reveal_strlit("lse");
                            assert("lse"@ =~= seq!['l', 's', 'e']);
                        }
                        self.check_word("lse", TokenKind::False)
                    },
                    Some('o') => {
                        proof {
                            reveal_strlit("r");
                            assert("r"@ =~= seq!['r']);
                        }
                        self.check_word("r", TokenKind::For)
                    },
                    Some('u') => {
                        proof {
                            reveal_strlit("n");
                            assert("n"@ =~= seq!['n']);
                        }
                        self.check_word("n", TokenKind::Fun)
                    },
                    _ => self.ident(),
                }
            },
            't' => {
                self.bump();
                match self.peek_first() {
                    Some('h') => {
                        proof {
                            reveal_strlit("is");
                            assert("is"@ =~= seq!['i', 's']);
                        }
                        self.check_word("is", TokenKind::This)
                    },
                    Some('r') => {
                        proof {
                            reveal_strlit("ue");
                            assert("ue"@ =~= seq!['u', 'e']);
                        }
                        self.check_word("ue", TokenKind::True)
                    },
                    _ => self.ident(),
                }
            },
            _ => self.ident(),
        }
    }

    /// Scans a number literal whose first digit is at the scanner's position.
    fn number(&mut self) -> (k: TokenKind)
        requires
            old(self).wf(),
            old(self).pos < old(self).chars@.len(),
            is_digit(old(self).chars@[old(self).pos as int]),
        ensures
            old(self).pos < final(self).pos,
            final(self).wf(),
            final(self).chars@ == old(self).chars@,
            final(self).start_pos == old(self).start_pos,
            final(self).skip_ignorable == old(self).skip_ignorable,
            final(self).pos == number_end(old(self).chars@, old(self).pos as int, false),
            final(self).pos <= final(self).chars@.len(),
            k == TokenKind::Number,
    {
        let ghost s = self.chars@;
        let ghost p0 = self.pos as int;
        let mut has_dot = false;
        loop
            invariant
                self.wf(),
                self.chars@ == s,
                s == old(self).chars@,
                p0 == old(self).pos,
                self.start_pos == old(self).start_pos,
                self.skip_ignorable == old(self).skip_ignorable,
                self.pos <= s.len(),
                p0 <= self.pos,
                p0 < s.len(),
                is_digit(s[p0]),
                self.pos == p0 ==> !has_dot,
                number_end(s, self.pos as int, has_dot) == number_end(s, p0, false),
            ensures
                p0 < self.pos,
                self.wf(),
                self.chars@ == s,
                self.start_pos == old(self).start_pos,
                self.skip_ignorable == old(self).skip_ignorable,
                self.pos <= s.len(),
                number_end(s, p0, false) == self.pos,
            decreases s.len() - self.pos,
        {
            match self.peek_first() {
                Some(c) => {
                    if '0' <= c && c <= '9' {
                        self.bump();
                        continue;
                    }
                    if c == '.' && !has_dot {
                        match self.peek_second() {
                            Some(c2) => {
                                if '0' <= c2 && c2 <= '9' {
                                    has_dot = true;
                                    self.bump();
                                    continue;
                                }
                            },
                            None => {},
                        }
                    }
                    break;
                },
                None => {
                    break;
                },
            }
        }
        TokenKind::Number
    }

    /// Scans a string literal whose opening quote is at the scanner's position.
    fn string(&mut self) -> (r: Result<TokenKind, Token>)
        requires
            old(self).wf(),
            old(self).pos < old(self).chars@.len(),
            old(self).chars@[old(self).pos as int] == '"',
            old(self).start_pos == old(self).pos,
        ensures
            old(self).pos < final(self).pos,
            final(self).wf(),
            final(self).chars@ == old(self).chars@,
            final(self).start_pos == old(self).start_pos,
            final(self).skip_ignorable == old(self).skip_ignorable,
            final(self).pos <= final(self).chars@.len(),
            ({
                let (kind, end) = token_scan(old(self).chars@, old(self).pos as int);
                &&& final(self).pos == end
                &&& match r {
                    Ok(k) => k == kind && kind == TokenKind::String,
                    Err(t) => kind == TokenKind::Error(ScanError::UnterminatedString)
                        && t == make_token(old(self).chars@, kind, old(self).pos as int, end),
                }
            }),
    {
        let ghost s = self.chars@;
        let ghost p0 = self.pos as int;
        reveal(token_scan);
        self.bump();
        let mut escaped = false;
        loop
            invariant
                self.wf(),
                self.chars@ == s,
                s == old(self).chars@,
                p0 == old(self).pos,
                self.start_pos == p0,
                self.skip_ignorable == old(self).skip_ignorable,
                p0 < self.pos <= s.len(),
                string_body_end(s, self.pos as int, escaped) == string_body_end(s, p0 + 1, false),
            ensures
                self.wf(),
                self.chars@ == s,
                self.start_pos == p0,
                self.skip_ignorable == old(self).skip_ignorable,
                p0 < self.pos <= s.len(),
                string_body_end(s, p0 + 1, false) == self.pos,
            decreases s.len() - self.pos,
        {
            match self.peek_first() {
                Some(c) => {
                    if !(escaped || c != '"') {
                        break;
                    }
                    escaped = c == '\\';
                    self.bump();
                },
                None => {
                    break;
                },
            }
        }
        if self.peek_first() != Some('"') {
            return Err(self.error(ScanError::UnterminatedString));
        }
        self.bump();
        Ok(TokenKind::String)
    }

    /// Scans a token that starts with `/`: a comment, or the slash itself.
    fn comment_or_slash(&mut self) -> (r: Result<TokenKind, Token>)
        requires
            old(self).wf(),
            old(self).pos < old(self).chars@.len(),
            old(self).chars@[old(self).pos as int] == '/',
            old(self).start_pos == old(self).pos,
        ensures
            old(self).pos < final(self).pos,
            final(self).wf(),
            final(self).chars@ == old(self).chars@,
            final(self).start_pos == old(self).start_pos,
            final(self).skip_ignorable == old(self).skip_ignorable,
            ({
                let (kind, end) = slash_scan(old(self).chars@, old(self).pos as int);
                &&& final(self).pos == end
                &&& match r {
                    Ok(k) => k == kind && !(kind is Error) && end <= old(self).chars@.len(),
                    Err(t) => kind == TokenKind::Error(ScanError::UnterminatedComment)
                        && t == make_token(old(self).chars@, kind, old(self).pos as int, end),
                }
            }),
    {
        let ghost s = self.chars@;
        let ghost p0 = self.pos as int;
        if self.second_matches('/') {
            self.bump();
            self.bump();
            self.eat_while(CharClass::NotNewline);
            Ok(TokenKind::SingleLineComment)
        } else if self.second_matches('*') {
            self.bump();
            self.bump();
            let mut depth: usize = 1;
            match self.peek_first() {
                Some(first_char) => {
                    let mut first = first_char;
                    loop
                        invariant_except_break
                            self.wf(),
                            self.chars@ == s,
                            s == old(self).chars@,
                            p0 == old(self).pos,
                            p0 + 2 < s.len(),
                            self.start_pos == p0,
                            self.skip_ignorable == old(self).skip_ignorable,
                            p0 + 2 <= self.pos <= s.len(),
                            1 <= depth <= self.pos,
                            block_comment_scan(s, self.pos as int, first, depth as int)
                                == block_comment_scan(s, p0 + 2, s[p0 + 2], 1),
                        ensures
                            self.wf(),
                            self.chars@ == s,
                            self.start_pos == p0,
                            self.skip_ignorable == old(self).skip_ignorable,
                            block_comment_scan(s, p0 + 2, s[p0 + 2], 1) == (self.pos as int, depth as int),
                            depth == 0 ==> self.pos <= s.len(),
                            p0 + 2 <= self.pos,
                        decreases s.len() + 1 - self.pos,
                    {
                        match self.peek_second() {
                            Some(second) => {
                                let ghost pos0 = self.pos as int;
                                let ghost depth0 = depth as int;
                                let ghost first0 = first;
                                assert(block_comment_scan(s, pos0, first0, depth0) == (if first0 == '*' && second == '/' {
                                    let d = depth0;
                                    if d - 1 == 0 { (pos0 + 2, 0) } else { block_comment_scan(s, pos0 + 3, second, d - 1) }
                                } else {
                                    block_comment_scan(s, pos0 + 1, second, if first0 == '/' && second == '*' { depth0 + 1 } else { depth0 })
                                }));
                                if first == '/' && second == '*' {
                                    depth = depth + 1;
                                }
                                if first == '*' && second == '/' {
                                    self.bump();
                                    self.bump();
                                    depth = depth - 1;
                                    if depth == 0 {
                                        break;
                                    }
                                }
                                first = second;
                                self.bump();
                                if self.pos > self.chars.len() {
                                    break;
                                }
                            },
                            None => {
                                break;
                            },
                        }
                    }
                },
                None => {},
            }
            if depth == 0 {
                Ok(TokenKind::MultiLineComment)
            } else {
                Err(self.error(ScanError::UnterminatedComment))
            }
        } else {
            self.bump();
            Ok(TokenKind::Slash)
        }
    }

    /// Scans the token that starts at the scanner's position, whose first
    /// character is `first_char`. Unterminated strings and comments come back
    /// as `Err`, every other token as `Ok`.
    fn advance_token(&mut self, first_char: char) -> (r: Result<Token, Token>)
        requires
            old(self).wf(),
            old(self).pos < old(self).chars@.len(),
            first_char == old(self).chars@[old(self).pos as int],
        ensures
            final(self).wf(),
            final(self).chars@ == old(self).chars@,
            final(self).skip_ignorable == old(self).skip_ignorable,
            final(self).start_pos == old(self).pos,
            final(self).pos == token_scan(old(self).chars@, old(self).pos as int).1,
            old(self).pos < final(self).pos,
            final(self).pos <= old(self).chars@.len() || r is Err,
            ({
                let (kind, end) = token_scan(old(self).chars@, old(self).pos as int);
                match r {
                    Ok(t) => t == make_token(old(self).chars@, kind, old(self).pos as int, end)
                        && kind != TokenKind::Error(ScanError::UnterminatedString)
                        && kind != TokenKind::Error(ScanError::UnterminatedComment),
                    Err(t) => t == make_token(old(self).chars@, kind, old(self).pos as int, end)
                        && (kind == TokenKind::Error(ScanError::UnterminatedString)
                        || kind == TokenKind::Error(ScanError::UnterminatedComment)),
                }
            }),
    {
        reveal(token_scan);
        self.start_pos = self.pos;
        self.start_col = self.col;
        self.start_line = self.line;
        let ghost s = self.chars@;
        let ghost p0 = self.pos as int;
        proof {
            if p0 + 2 < s.len() {
                lemma_block_comment_scan_forward(s, p0 + 2, s[p0 + 2], 1);
            }
            if is_word_start(first_char) {
                lemma_word_scan_bounds(s, p0);
            }
        }
        let token = match first_char {
            '(' => TokenKind::LeftParen,
            ')' => TokenKind::RightParen,
            '{' => TokenKind::LeftBrace,
            '}' => TokenKind::RightBrace,
            ';' => TokenKind::Semicolon,
            ',' => TokenKind::Comma,
            '.' => TokenKind::Dot,
            '-' => TokenKind::Minus,
            '+' => TokenKind::Plus,
            '*' => TokenKind::Star,
            '!' => {
                if self.second_matches('=') {
                    self.bump();
                    TokenKind::BangEqual
                } else {
                    TokenKind::Bang
                }
            },
            '=' => {
                if self.second_matches('=') {
                    self.bump();
                    TokenKind::EqualEqual
                } else {
                    TokenKind::Equal
                }
            },
            '<' => {
                if self.second_matches('=') {
                    self.bump();
                    TokenKind::LessEqual
                } else {
                    TokenKind::Less
                }
            },
            '>' => {
                if self.second_matches('=') {
                    self.bump();
                    TokenKind::GreaterEqual
                } else {
                    TokenKind::Greater
                }
            },
            _ => TokenKind::Error(ScanError::UnknownToken),
        };
        let token_kind = match token {
            TokenKind::Error(_) => {
                if first_char == '"' {
                    match self.string() {
                        Ok(k) => k,
                        Err(t) => {
                            return Err(t);
                        },
                    }
                } else if first_char == '/' {
                    match self.comment_or_slash() {
                        Ok(k) => k,
                        Err(t) => {
                            return Err(t);
                        },
                    }
                } else if '0' <= first_char && first_char <= '9' {
                    self.number()
                } else if Self::is_alpha(first_char) {
                    self.keyword_or_ident()
                } else if first_char == ' ' || first_char == '\t' || first_char == '\n'
                    || first_char == '\x0C' || first_char == '\r' {
                    self.eat_while(CharClass::Space);
                    TokenKind::Whitespace
                } else {
                    self.bump();
                    token
                }
            },
            _ => {
                self.bump();
                token
            },
        };
        Ok(Token { kind: token_kind, span: self.span() })
    }

    /// Hands out the next token; a scanner that skips the ignorable passes
    /// over whitespace and comments. `None` once the source is used up.
    pub fn next(&mut self) -> (t: Option<Token>)
        requires
            old(self).wf(),
        ensures
            final(self).wf(),
            final(self).source() == old(self).source(),
            final(self).skips() == old(self).skips(),
            (t, final(self).position(), final(self).token_start()) == scan_step(
                old(self).source(),
                old(self).position(),
                old(self).token_start(),
                old(self).skips(),
            ),
    {
        let ghost s = self.chars@;
        loop
            invariant
                self.wf(),
                self.chars@ == s,
                s == old(self).chars@,
                self.skip_ignorable == old(self).skip_ignorable,
                scan_step(s, self.pos as int, self.start_pos as int, self.skip_ignorable) == scan_step(
                    s,
                    old(self).pos as int,
                    old(self).start_pos as int,
                    old(self).skip_ignorable,
                ),
            decreases s.len() + 1 - self.pos,
        {
            match self.peek_first() {
                None => {
                    return None;
                },
                Some(first_char) => {
                    let token_result = self.advance_token(first_char);
                    match token_result {
                        Ok(token) => {
                            if self.skip_ignorable && (token.kind == TokenKind::Whitespace
                                || token.kind == TokenKind::MultiLineComment
                                || token.kind == TokenKind::SingleLineComment) {
                                continue;
                            }
                            return Some(token);
                        },
                        Err(token) => {
                            return Some(token);
                        },
                    }
                },
            }
        }
    }

    fn eat_while(&mut self, class: CharClass)
        requires
            old(self).wf(),
        ensures
            final(self).wf(),
            final(self).chars@ == old(self).chars@,
            final(self).start_pos == old(self).start_pos,
            final(self).skip_ignorable == old(self).skip_ignorable,
            final(self).pos == class.run_end(old(self).chars@, old(self).pos as int),
            old(self).pos <= old(self).chars@.len() ==> final(self).pos <= final(self).chars@.len(),
            old(self).pos <= final(self).pos,
            old(self).pos < old(self).chars@.len() && class.holds(old(self).chars@[old(self).pos as int])
                ==> old(self).pos < final(self).pos,
    {
        let ghost s = self.chars@;
        let ghost p0 = self.pos as int;
        loop
            invariant
                self.wf(),
                self.chars@ == s,
                s == old(self).chars@,
                p0 == old(self).pos,
                self.start_pos == old(self).start_pos,
                self.skip_ignorable == old(self).skip_ignorable,
                class.run_end(s, self.pos as int) == class.run_end(s, p0),
                p0 <= self.pos,
                self.pos == p0 || p0 < self.pos,
                p0 <= s.len() ==> self.pos <= s.len(),
            decreases s.len() - self.pos,
        {
            match self.peek_first() {
                Some(c) => {
                    if !class.test(c) {
                        return;
                    }
                    self.bump();
                },
                None => {
                    return;
                },
            }
        }
    }
}

} // verus!

verus! {

/// The bytes of `source` that the token's span picks out when its start
/// and length are taken as byte positions.
pub open spec fn span_bytes(source: Seq<char>, t: Token) -> Seq<u8> {
    encode_utf8(source).subrange(t.span.start as int, token_end(t))
}

/// Slicing `source` at the token's span taken as byte positions succeeds:
/// the span lies within the bytes, and both ends fall on character boundaries.
pub open spec fn slices_at_bytes(source: Seq<char>, t: Token) -> bool {
    &&& token_end(t) <= encode_utf8(source).len()
    &&& is_char_boundary(encode_utf8(source), t.span.start as int)
    &&& is_char_boundary(encode_utf8(source), token_end(t))
}

impl Token {
    /// The part of `source` that the token's span picks out, its start and
    /// length taken as byte positions of `source` (the scanner counts
    /// characters, so for a source that is not ASCII the part may differ
    /// from the token's text).
    pub fn slice<'a>(&self, source: &'a str) -> (r: &'a str)
        requires
            token_end(*self) <= usize::MAX,
            slices_at_bytes(source@, *self),
        ensures
            r.spec_bytes() == span_bytes(source@, *self),
            r@ == decode_utf8(span_bytes(source@, *self)),
    {
        proof {
            broadcast use vstd::utf8::group_utf8_lib;
        }
        let ghost bytes = source.spec_bytes();
        let end = self.span.start + self.span.lenth;
        let (head, _rest) = source.split_at(end);
        proof {
            let start = self.span.start as int;
            vstd::utf8::valid_utf8_split(bytes, end as int);
            let prefix = bytes.subrange(0, end as int);
            assert(head.spec_bytes() == prefix);
            if start < end {
                vstd::utf8::is_char_boundary_iff_not_is_continuation_byte(bytes, start);
                vstd::utf8::is_char_boundary_iff_not_is_continuation_byte(prefix, start);
            } else {
                vstd::utf8::is_char_boundary_start_end_of_seq(prefix);
            }
        }
        let (_before, r) = head.split_at(self.span.start);
        proof {
            assert(r.spec_bytes() =~= bytes.subrange(self.span.start as int, end as int));
            vstd::utf8::encode_utf8_decode_utf8(r@);
        }
        r
    }
}

} // verus!

verus! {

// ---------------------------------------------------------------------------
// Laws of the token stream.
// ---------------------------------------------------------------------------

proof fn lemma_space_end_bounds(s: Seq<char>, i: int)
    requires
        0 <= i <= s.len(),
    ensures
        i <= space_end(s, i) <= s.len(),
    decreases s.len() - i,
{
    if i < s.len() && is_ascii_space(s[i]) {
        lemma_space_end_bounds(s, i + 1);
    }
}

proof fn lemma_line_end_bounds(s: Seq<char>, i: int)
    requires
        0 <= i <= s.len(),
    ensures
        i <= line_end(s, i) <= s.len(),
    decreases s.len() - i,
{
    if i < s.len() && s[i] != '\n' {
        lemma_line_end_bounds(s, i + 1);
    }
}

proof fn lemma_string_body_end_bounds(s: Seq<char>, i: int, escaped: bool)
    requires
        0 <= i <= s.len(),
    ensures
        i <= string_body_end(s, i, escaped) <= s.len(),
    decreases s.len() - i,
{
    if i < s.len() && (escaped || s[i] != '"') {
        lemma_string_body_end_bounds(s, i + 1, s[i] == '\\');
    }
}

proof fn lemma_number_end_bounds(s: Seq<char>, i: int, has_dot: bool)
    requires
        0 <= i <= s.len(),
    ensures
        i <= number_end(s, i, has_dot) <= s.len(),
    decreases s.len() - i,
{
    if i < s.len() && is_digit(s[i]) {
        lemma_number_end_bounds(s, i + 1, has_dot);
    } else if i + 1 < s.len() && s[i] == '.' && !has_dot && is_digit(s[i + 1]) {
        lemma_number_end_bounds(s, i + 1, true);
    }
}

proof fn lemma_block_comment_scan_bounds(s: Seq<char>, pos: int, first: char, depth: int)
    requires
        0 <= pos <= s.len() + 1,
    ensures
        pos <= block_comment_scan(s, pos, first, depth).0 <= s.len() + 1,
        block_comment_scan(s, pos, first, depth).1 == 0 ==> block_comment_scan(s, pos, first, depth).0 <= s.len()
            || (depth == 0 && pos == s.len() + 1),
    decreases s.len() + 1 - pos,
{
    if 0 <= pos && pos + 1 < s.len() {
        let second = s[pos + 1];
        let d = if first == '/' && second == '*' { depth + 1 } else { depth };
        if first == '*' && second == '/' {
            if d - 1 != 0 {
                lemma_block_comment_scan_bounds(s, pos + 3, second, d - 1);
            }
        } else {
            lemma_block_comment_scan_bounds(s, pos + 1, second, d);
        }
    }
}

/// Every token takes at least one character; only an unterminated block
/// comment may reach one step past the end of the source.
pub proof fn lemma_token_scan_bounds(s: Seq<char>, i: int)
    requires
        0 <= i < s.len(),
    ensures
        i < token_scan(s, i).1 <= s.len() + 1,
        token_scan(s, i).0 != TokenKind::Error(ScanError::UnterminatedComment) ==> token_scan(s, i).1 <= s.len(),
{
    reveal(token_scan);
    let c = s[i];
    if c == '"' {
        lemma_string_body_end_bounds(s, i + 1, false);
    } else if c == '/' {
        if i + 1 < s.len() && s[i + 1] == '/' {
            lemma_line_end_bounds(s, i + 2);
        } else if i + 1 < s.len() && s[i + 1] == '*' && i + 2 < s.len() {
            lemma_block_comment_scan_bounds(s, i + 2, s[i + 2], 1);
            lemma_block_comment_scan_forward(s, i + 2, s[i + 2], 1);
        }
    } else if is_digit(c) {
        lemma_number_end_bounds(s, i + 1, false);
    } else if is_word_start(c) {
        lemma_word_scan_bounds(s, i);
    } else if is_ascii_space(c) {
        lemma_space_end_bounds(s, i + 1);
    }
}

/// A call of the scanner moves forward, and past the token it hands out;
/// the start of the last token scanned only matters once nothing is left.
pub proof fn lemma_scan_step_forward(s: Seq<char>, pos: int, start: int, other: int, skip: bool)
    ensures
        scan_step(s, pos, start, skip).0 == scan_step(s, pos, other, skip).0,
        scan_step(s, pos, start, skip).1 == scan_step(s, pos, other, skip).1,
        scan_step(s, pos, start, skip).0 is None ==> skip || pos < 0 || pos >= s.len(),
        scan_step(s, pos, start, skip).0 is Some ==> pos < scan_step(s, pos, start, skip).1 <= s.len() + 1,
        scan_step(s, pos, start, skip).0 is None ==> 0 <= pos <= s.len() ==> scan_step(s, pos, start, skip).1
            <= s.len(),
        scan_step(s, pos, start, skip).0 is None ==> scan_step(s, pos, start, skip).1 >= s.len()
            || scan_step(s, pos, start, skip).1 < 0,
        pos <= scan_step(s, pos, start, skip).1,
    decreases s.len() - pos,
{
    if 0 <= pos < s.len() {
        lemma_token_scan_bounds(s, pos);
        let (kind, end) = token_scan(s, pos);
        if skip && kind.is_ignorable() && pos < end <= s.len() {
            lemma_scan_step_forward(s, end, pos, other, skip);
            lemma_scan_step_forward(s, end, pos, end, skip);
        }
    }
}

/// A token handed out starts at or after the scanner's position.
pub proof fn lemma_scan_step(s: Seq<char>, pos: int, start: int, other: int, skip: bool)
    requires
        0 <= pos,
        s.len() + 2 < usize::MAX,
    ensures
        scan_step(s, pos, start, skip).0 == scan_step(s, pos, other, skip).0,
        scan_step(s, pos, start, skip).1 == scan_step(s, pos, other, skip).1,
        scan_step(s, pos, start, skip).0 is None ==> skip || pos >= s.len(),
        scan_step(s, pos, start, skip).0 matches Some(t) ==> pos <= t.span.start < scan_step(s, pos, start, skip).1
            <= s.len() + 1,
        scan_step(s, pos, start, skip).0 is None ==> pos <= s.len() ==> scan_step(s, pos, start, skip).1 <= s.len(),
        pos <= scan_step(s, pos, start, skip).1,
    decreases s.len() - pos,
{
    lemma_scan_step_forward(s, pos, start, other, skip);
    if pos < s.len() {
        lemma_token_scan_bounds(s, pos);
        let (kind, end) = token_scan(s, pos);
        if skip && kind.is_ignorable() && pos < end <= s.len() {
            lemma_scan_step(s, end, pos, other, skip);
        }
    }
}

} // verus!

verus! {

/// Where a token ends: one past its last character.
pub open spec fn token_end(t: Token) -> int {
    t.span.start + t.span.lenth
}

proof fn lemma_tokens_from_unfold(s: Seq<char>, pos: int)
    requires
        0 <= pos < s.len(),
        s.len() + 2 < usize::MAX,
    ensures
        ({
            let (kind, end) = token_scan(s, pos);
            tokens_from(s, pos, false) == if end <= s.len() {
                seq![make_token(s, kind, pos, end)] + tokens_from(s, end, false)
            } else {
                seq![make_token(s, kind, pos, end)]
            }
        }),
{
    lemma_token_scan_bounds(s, pos);
}

/// `ts` tiles the text from `pos` to `n`: the first token starts at `pos`,
/// each next one starts where the one before it ends, every token takes at
/// least one character, and the last one ends at `n` (or one step past it,
/// for an unterminated block comment).
pub open spec fn tiles(ts: Seq<Token>, pos: int, n: int) -> bool {
    &&& (ts.len() == 0 <==> pos == n)
    &&& ts.len() > 0 ==> ts[0].span.start == pos
    &&& forall|k: int| 0 <= k < ts.len() ==> #[trigger] ts[k].span.lenth > 0
    &&& forall|k: int| 0 <= k < ts.len() - 1 ==> #[trigger] token_end(ts[k]) == ts[k + 1].span.start
    &&& ts.len() > 0 ==> (token_end(ts.last()) == n || (token_end(ts.last()) == n + 1 && ts.last().kind
        == TokenKind::Error(ScanError::UnterminatedComment)))
}

proof fn lemma_tiles_cons(t: Token, rest: Seq<Token>, pos: int, n: int)
    requires
        t.span.start == pos,
        t.span.lenth > 0,
        token_end(t) < n,
        tiles(rest, token_end(t), n),
    ensures
        tiles(seq![t] + rest, pos, n),
{
    let ts = seq![t] + rest;
    assert forall|k: int| 0 <= k < ts.len() - 1 implies #[trigger] token_end(ts[k]) == ts[k + 1].span.start by {
        if k > 0 {
            assert(ts[k] == rest[k - 1]);
        }
        assert(ts[k + 1] == rest[k]);
    }
    assert forall|k: int| 0 <= k < ts.len() implies #[trigger] ts[k].span.lenth > 0 by {
        if k > 0 {
            assert(ts[k] == rest[k - 1]);
        }
    }
    assert(ts.last() == rest.last());
}

/// Without skipping, the tokens tile the source from the scan's start to
/// its end (see `tiles`); there are no more of them than characters; and the
/// last one reaches one step past the end only where an unterminated block
/// comment's scan steps over a `*/` that ends the source.
pub proof fn law_tokens_tile_source(s: Seq<char>, pos: int)
    requires
        0 <= pos <= s.len(),
        s.len() + 2 < usize::MAX,
    ensures
        tiles(tokens_from(s, pos, false), pos, s.len() as int),
        tokens_from(s, pos, false).len() <= s.len() - pos,
        tokens_from(s, pos, false).len() > 0 && token_end(tokens_from(s, pos, false).last()) == s.len() + 1
            ==> pair_at(s, s.len() - 2, '*', '/'),
    decreases s.len() - pos,
{
    if pos < s.len() {
        law_scan_past_end(s, pos);
        lemma_token_scan_bounds(s, pos);
        lemma_tokens_from_unfold(s, pos);
        let kind = token_scan(s, pos).0;
        let end = token_scan(s, pos).1;
        let t = make_token(s, kind, pos, end);
        assert(t.span.start == pos && t.span.lenth > 0 && token_end(t) == end);
        if end < s.len() {
            law_tokens_tile_source(s, end);
            lemma_tiles_cons(t, tokens_from(s, end, false), pos, s.len() as int);
            assert((seq![t] + tokens_from(s, end, false)).last() == tokens_from(s, end, false).last());
        } else if end == s.len() {
            assert(tokens_from(s, end, false) =~= Seq::<Token>::empty());
            assert(seq![t] + Seq::<Token>::empty() =~= seq![t]);
        }
    } else {
        assert(tokens_from(s, pos, false) =~= Seq::<Token>::empty());
    }
}

/// Once the scan has reached the end of the source, every call hands out
/// nothing and leaves the scanner where it is.
pub proof fn law_end_is_final(s: Seq<char>, pos: int, start: int, skip: bool)
    requires
        pos >= s.len(),
    ensures
        scan_step(s, pos, start, skip) == (None::<Token>, pos, start),
{
}

proof fn lemma_block_comment_past_end(s: Seq<char>, pos: int, first: char, depth: int)
    requires
        0 <= pos <= s.len(),
        pos < s.len() ==> first == s[pos] || first == '/',
    ensures
        block_comment_scan(s, pos, first, depth).0 == s.len() + 1 ==> pair_at(s, s.len() - 2, '*', '/'),
    decreases s.len() + 1 - pos,
{
    if pos + 1 < s.len() {
        let second = s[pos + 1];
        let d = if first == '/' && second == '*' { depth + 1 } else { depth };
        if first == '*' && second == '/' {
            if d - 1 != 0 {
                if pos + 3 <= s.len() {
                    lemma_block_comment_past_end(s, pos + 3, second, d - 1);
                } else {
                    assert(pos == s.len() - 2);
                }
            }
        } else {
            lemma_block_comment_past_end(s, pos + 1, second, d);
        }
    }
}

/// A token reaches one step past the end of the source only where it is an
/// unterminated block comment and the source ends with `*/`.
pub proof fn law_scan_past_end(s: Seq<char>, i: int)
    requires
        0 <= i < s.len(),
    ensures
        token_scan(s, i).1 == s.len() + 1 ==> token_scan(s, i).0 == TokenKind::Error(ScanError::UnterminatedComment)
            && pair_at(s, s.len() - 2, '*', '/'),
{
    reveal(token_scan);
    lemma_token_scan_bounds(s, i);
    if s[i] == '/' && i + 1 < s.len() && s[i + 1] == '*' && i + 2 < s.len() {
        lemma_block_comment_past_end(s, i + 2, s[i + 2], 1);
    }
}

/// Skipping whitespace and comments hands out exactly the tokens that are
/// not whitespace or comments, in the same order.
pub proof fn law_skipping_filters(s: Seq<char>, pos: int)
    requires
        0 <= pos <= s.len(),
        s.len() + 2 < usize::MAX,
    ensures
        tokens_from(s, pos, true) == tokens_from(s, pos, false).filter(|t: Token| !t.kind.is_ignorable()),
    decreases s.len() - pos,
{
    let keep = |t: Token| !t.kind.is_ignorable();
    broadcast use vstd::seq_lib::group_filter_ensures;
    if pos == s.len() {
        assert(tokens_from(s, pos, false).filter(keep) =~= Seq::<Token>::empty()) by {
            reveal_with_fuel(Seq::<_>::filter, 1);
        }
    } else {
        lemma_token_scan_bounds(s, pos);
        let (kind, end) = token_scan(s, pos);
        let t = make_token(s, kind, pos, end);
        let plain = tokens_from(s, pos, false);
        if end <= s.len() {
            law_skipping_filters(s, end);
            let rest = tokens_from(s, end, false);
            if end < s.len() || true {
                assert(plain == seq![t] + rest);
            }
            Seq::filter_distributes_over_add(seq![t], rest, keep);
            assert(seq![t].filter(keep) == if keep(t) { seq![t] } else { Seq::<Token>::empty() }) by {
                reveal_with_fuel(Seq::<_>::filter, 2);
                assert(seq![t].drop_last() =~= Seq::<Token>::empty());
            }
            if kind.is_ignorable() {
                lemma_scan_step(s, end, pos, end, true);
                assert(tokens_from(s, pos, true) == tokens_from(s, end, true));
            } else {
                assert(tokens_from(s, pos, true) == seq![t] + tokens_from(s, end, true));
            }
        } else {
            assert(plain == seq![t]);
            assert(seq![t].filter(keep) == seq![t]) by {
                reveal_with_fuel(Seq::<_>::filter, 2);
                assert(seq![t].drop_last() =~= Seq::<Token>::empty());
            }
            assert(tokens_from(s, pos, true) == seq![t]);
        }
    }
}

} // verus!

verus! {

impl TokenKind {
    /// The variant's identifier.
    pub open spec fn ident_text(self) -> Seq<char> {
        match self {
            TokenKind::LeftParen => "LeftParen"@,
            TokenKind::RightParen => "RightParen"@,
            TokenKind::LeftBrace => "LeftBrace"@,
            TokenKind::RightBrace => "RightBrace"@,
            TokenKind::Comma => "Comma"@,
            TokenKind::Dot => "Dot"@,
            TokenKind::Minus => "Minus"@,
            TokenKind::Plus => "Plus"@,
            TokenKind::Semicolon => "Semicolon"@,
            TokenKind::Slash => "Slash"@,
            TokenKind::Star => "Star"@,
            TokenKind::Bang => "Bang"@,
            TokenKind::BangEqual => "BangEqual"@,
            TokenKind::Equal => "Equal"@,
            TokenKind::EqualEqual => "EqualEqual"@,
            TokenKind::Greater => "Greater"@,
            TokenKind::GreaterEqual => "GreaterEqual"@,
            TokenKind::Less => "Less"@,
            TokenKind::LessEqual => "LessEqual"@,
            TokenKind::Ident => "Ident"@,
            TokenKind::String => "String"@,
            TokenKind::Number => "Number"@,
            TokenKind::And => "And"@,
            TokenKind::Class => "Class"@,
            TokenKind::Else => "Else"@,
            TokenKind::False => "False"@,
            TokenKind::Fun => "Fun"@,
            TokenKind::For => "For"@,
            TokenKind::If => "If"@,
            TokenKind::Nil => "Nil"@,
            TokenKind::Or => "Or"@,
            TokenKind::Print => "Print"@,
            TokenKind::Super => "Super"@,
            TokenKind::Return => "Return"@,
            TokenKind::This => "This"@,
            TokenKind::True => "True"@,
            TokenKind::Var => "Var"@,
            TokenKind::While => "While"@,
            TokenKind::SingleLineComment => "SingleLineComment"@,
            TokenKind::MultiLineComment => "MultiLineComment"@,
            TokenKind::Whitespace => "Whitespace"@,
            TokenKind::Error(..) => "Error"@,
            TokenKind::Eof => "Eof"@,
        }
    }

    /// The variant's identifier.
    pub fn ident(&self) -> (name: &'static str)
        ensures
            name@ == self.ident_text(),
    {
        match self {
            TokenKind::LeftParen => "LeftParen",
            TokenKind::RightParen => "RightParen",
            TokenKind::LeftBrace => "LeftBrace",
            TokenKind::RightBrace => "RightBrace",
            TokenKind::Comma => "Comma",
            TokenKind::Dot => "Dot",
            TokenKind::Minus => "Minus",
            TokenKind::Plus => "Plus",
            TokenKind::Semicolon => "Semicolon",
            TokenKind::Slash => "Slash",
            TokenKind::Star => "Star",
            TokenKind::Bang => "Bang",
            TokenKind::BangEqual => "BangEqual",
            TokenKind::Equal => "Equal",
            TokenKind::EqualEqual => "EqualEqual",
            TokenKind::Greater => "Greater",
            TokenKind::GreaterEqual => "GreaterEqual",
            TokenKind::Less => "Less",
            TokenKind::LessEqual => "LessEqual",
            TokenKind::Ident => "Ident",
            TokenKind::String => "String",
            TokenKind::Number => "Number",
            TokenKind::And => "And",
            TokenKind::Class => "Class",
            TokenKind::Else => "Else",
            TokenKind::False => "False",
            TokenKind::Fun => "Fun",
            TokenKind::For => "For",
            TokenKind::If => "If",
            TokenKind::Nil => "Nil",
            TokenKind::Or => "Or",
            TokenKind::Print => "Print",
            TokenKind::Super => "Super",
            TokenKind::Return => "Return",
            TokenKind::This => "This",
            TokenKind::True => "True",
            TokenKind::Var => "Var",
            TokenKind::While => "While",
            TokenKind::SingleLineComment => "SingleLineComment",
            TokenKind::MultiLineComment => "MultiLineComment",
            TokenKind::Whitespace => "Whitespace",
            TokenKind::Error(..) => "Error",
            TokenKind::Eof => "Eof",
        }
    }

    /// The variant's name as the bytecode's debugging output writes it,
    /// such as `TOKEN_LEFT_PAREN`.
    pub fn debug_name(&self) -> (name: String)
        ensures
            name@ == c_style_name("TOKEN"@, self.ident_text()),
    {
        c_style("TOKEN", self.ident())
    }
}

} // verus!

verus! {

proof fn lemma_token_scan_kind(s: Seq<char>, i: int)
    requires
        0 <= i < s.len(),
    ensures
        token_scan(s, i).0 != TokenKind::Eof,
{
    reveal(token_scan);
}

/// The scanner never hands out an end-of-file token: that one only comes from `eof`.
pub proof fn lemma_scan_step_kind(s: Seq<char>, pos: int, start: int, skip: bool)
    ensures
        scan_step(s, pos, start, skip).0 matches Some(t) ==> t.kind != TokenKind::Eof,
    decreases s.len() - pos,
{
    if 0 <= pos < s.len() {
        lemma_token_scan_kind(s, pos);
        let (kind, end) = token_scan(s, pos);
        if skip && kind.is_ignorable() && pos < end <= s.len() {
            lemma_scan_step_kind(s, end, pos, skip);
        }
    }
}

} // verus!

verus! {

/// A token handed out covers the characters from its start to the scanner's
/// new position; only an error token may reach past the end of the source.
pub proof fn lemma_scan_step_token(s: Seq<char>, pos: int, start: int, skip: bool)
    requires
        0 <= pos,
        s.len() + 2 < usize::MAX,
    ensures
        scan_step(s, pos, start, skip).0 matches Some(t) ==> {
            &&& token_end(t) == scan_step(s, pos, start, skip).1
            &&& (!(t.kind is Error) ==> token_end(t) <= s.len())
        },
    decreases s.len() - pos,
{
    if pos < s.len() {
        lemma_token_scan_bounds(s, pos);
        let (kind, end) = token_scan(s, pos);
        if skip && kind.is_ignorable() && pos < end <= s.len() {
            lemma_scan_step_token(s, end, pos, skip);
        }
    }
}

} // verus!

verus! {

/// A keyword that stands as a whole word scans as its keyword token.
pub proof fn law_keywords(s: Seq<char>, i: int, k: int)
    requires
        0 <= i < s.len(),
        0 <= k < keywords().len(),
        keyword_at(s, i, keywords()[k].0),
    ensures
        token_scan(s, i) == (keywords()[k].1, i + keywords()[k].0.len()),
{
    reveal(token_scan);
    lemma_word_scan_dispatch(s, i);
}

} // verus!

verus! {

/// `s` has the two characters `a` and `b` at `k`.
pub open spec fn pair_at(s: Seq<char>, k: int, a: char, b: char) -> bool {
    0 <= k && k + 1 < s.len() && s[k] == a && s[k + 1] == b
}

proof fn lemma_flat_comment_scan(s: Seq<char>, pos: int, j: int)
    requires
        0 <= pos <= j,
        pair_at(s, j, '*', '/'),
        forall|k: int| pos <= k < j ==> !pair_at(s, k, '/', '*') && !pair_at(s, k, '*', '/'),
    ensures
        block_comment_scan(s, pos, s[pos], 1) == (j + 2, 0int),
    decreases j - pos,
{
    if pos < j {
        assert(!pair_at(s, pos, '/', '*') && !pair_at(s, pos, '*', '/'));
        lemma_flat_comment_scan(s, pos + 1, j);
    }
}

/// A block comment that opens no other comment ends right after its first
/// `*/`.
pub proof fn law_flat_block_comment(s: Seq<char>, i: int, j: int)
    requires
        pair_at(s, i, '/', '*'),
        i + 2 <= j,
        pair_at(s, j, '*', '/'),
        forall|k: int| i + 2 <= k < j ==> !pair_at(s, k, '/', '*') && !pair_at(s, k, '*', '/'),
    ensures
        token_scan(s, i) == (TokenKind::MultiLineComment, j + 2),
{
    reveal(token_scan);
    lemma_flat_comment_scan(s, i + 2, j);
}

proof fn lemma_open_comment_scan(s: Seq<char>, pos: int, first: char, depth: int)
    requires
        0 <= pos,
        depth >= 1,
        forall|k: int| pos <= k ==> !pair_at(s, k, '*', '/'),
        pos < s.len() ==> first == s[pos],
    ensures
        block_comment_scan(s, pos, first, depth).1 >= 1,
    decreases s.len() + 1 - pos,
{
    if pos + 1 < s.len() {
        assert(!pair_at(s, pos, '*', '/'));
        let d = if first == '/' && s[pos + 1] == '*' { depth + 1 } else { depth };
        lemma_open_comment_scan(s, pos + 1, s[pos + 1], d);
    }
}

/// A block comment with no `*/` after its opening is unterminated.
pub proof fn law_unclosed_block_comment(s: Seq<char>, i: int)
    requires
        pair_at(s, i, '/', '*'),
        forall|k: int| i + 2 <= k ==> !pair_at(s, k, '*', '/'),
    ensures
        token_scan(s, i).0 == TokenKind::Error(ScanError::UnterminatedComment),
{
    reveal(token_scan);
    if i + 2 < s.len() {
        lemma_open_comment_scan(s, i + 2, s[i + 2], 1);
    }
}

} // verus!

verus! {

/// The slices of `source` at the spans of `ts`, one after the other.
pub open spec fn joined_slices(source: Seq<char>, ts: Seq<Token>) -> Seq<u8>
    decreases ts.len(),
{
    if ts.len() == 0 {
        Seq::empty()
    } else {
        span_bytes(source, ts[0]) + joined_slices(source, ts.drop_first())
    }
}

proof fn lemma_ascii_boundaries(s: Seq<char>, i: int)
    requires
        vstd::utf8::is_ascii_chars(s),
        0 <= i <= s.len(),
    ensures
        encode_utf8(s).len() == s.len(),
        is_char_boundary(encode_utf8(s), i),
{
    broadcast use vstd::utf8::group_utf8_lib;

    vstd::utf8::is_ascii_chars_encode_utf8(s);
    let b = encode_utf8(s);
    vstd::utf8::encode_utf8_valid_utf8(s);
    if i < s.len() {
        assert(s[i] as u8 == b[i]);
        assert(s[i] <= '\u{7f}');
        vstd::utf8::is_char_boundary_iff_not_is_continuation_byte(b, i);
    } else {
        vstd::utf8::is_char_boundary_start_end_of_seq(b);
    }
}

proof fn lemma_joined_tiles(s: Seq<char>, ts: Seq<Token>, pos: int)
    requires
        vstd::utf8::is_ascii_chars(s),
        0 <= pos <= s.len(),
        tiles(ts, pos, s.len() as int),
        ts.len() > 0 ==> token_end(ts.last()) == s.len(),
    ensures
        joined_slices(s, ts) == encode_utf8(s).subrange(pos, s.len() as int),
        forall|k: int| 0 <= k < ts.len() ==> slices_at_bytes(s, #[trigger] ts[k]),
    decreases ts.len(),
{
    vstd::utf8::is_ascii_chars_encode_utf8(s);
    let b = encode_utf8(s);
    if ts.len() == 0 {
        assert(b.subrange(pos, s.len() as int) =~= Seq::<u8>::empty());
    } else {
        let t = ts[0];
        let rest = ts.drop_first();
        let e = token_end(t);
        assert(t.span.start == pos);
        assert(t.span.lenth > 0);
        if rest.len() > 0 {
            assert(token_end(ts[0]) == ts[1].span.start);
            assert(rest.last() == ts.last());
            assert forall|k: int| 0 <= k < rest.len() implies #[trigger] rest[k].span.lenth > 0 by {
                assert(rest[k] == ts[k + 1]);
            }
            assert forall|k: int| 0 <= k < rest.len() - 1 implies #[trigger] token_end(rest[k])
                == rest[k + 1].span.start by {
                assert(rest[k] == ts[k + 1]);
                assert(rest[k + 1] == ts[k + 2]);
            }
            assert(token_end(rest[0]) > rest[0].span.start);
            assert(e < s.len()) by {
                if e >= s.len() {
                    // the tokens after the first start at or past the end and take characters
                    assert(rest[0].span.start == e);
                    lemma_tiles_ends_after(rest, s.len() as int);
                }
            }
            lemma_joined_tiles(s, rest, e);
        } else {
            assert(e == s.len());
            assert(b.subrange(e, s.len() as int) =~= Seq::<u8>::empty());
        }
        lemma_ascii_boundaries(s, pos);
        lemma_ascii_boundaries(s, e);
        assert(b.subrange(pos, s.len() as int) =~= b.subrange(pos, e) + b.subrange(e, s.len() as int));
        assert(span_bytes(s, t) == b.subrange(pos, e));
        assert(joined_slices(s, ts) == span_bytes(s, t) + joined_slices(s, rest));
        if rest.len() == 0 {
            assert(joined_slices(s, rest) =~= Seq::<u8>::empty());
        }
        assert forall|k: int| 0 <= k < ts.len() implies slices_at_bytes(s, #[trigger] ts[k]) by {
            if k > 0 {
                assert(ts[k] == rest[k - 1]);
            }
        }
    }
}

/// Tokens that follow one another and each take a character end later than
/// the first one starts.
proof fn lemma_tiles_ends_after(ts: Seq<Token>, n: int)
    requires
        ts.len() > 0,
        forall|k: int| 0 <= k < ts.len() ==> #[trigger] ts[k].span.lenth > 0,
        forall|k: int| 0 <= k < ts.len() - 1 ==> #[trigger] token_end(ts[k]) == ts[k + 1].span.start,
    ensures
        token_end(ts.last()) > ts[0].span.start,
    decreases ts.len(),
{
    if ts.len() > 1 {
        let rest = ts.drop_first();
        assert forall|k: int| 0 <= k < rest.len() implies #[trigger] rest[k].span.lenth > 0 by {
            assert(rest[k] == ts[k + 1]);
        }
        assert forall|k: int| 0 <= k < rest.len() - 1 implies #[trigger] token_end(rest[k]) == rest[k
            + 1].span.start by {
            assert(rest[k] == ts[k + 1]);
            assert(rest[k + 1] == ts[k + 2]);
        }
        lemma_tiles_ends_after(rest, n);
        assert(ts[0].span.lenth > 0);
        assert(token_end(ts[0]) == ts[1].span.start);
        assert(rest.last() == ts.last());
    }
}

/// In an ASCII source, slicing at each token's span (`Token::slice`) never
/// fails, and the slices, joined in order, give back the whole source,
/// unless an unterminated block comment's scan runs past the end.
pub proof fn law_slices_rebuild_source(s: Seq<char>)
    requires
        vstd::utf8::is_ascii_chars(s),
        s.len() + 2 < usize::MAX,
        !(tokens_from(s, 0, false).len() > 0 && token_end(tokens_from(s, 0, false).last()) == s.len() + 1),
    ensures
        forall|k: int|
            0 <= k < tokens_from(s, 0, false).len() ==> slices_at_bytes(s, #[trigger] tokens_from(s, 0, false)[k]),
        joined_slices(s, tokens_from(s, 0, false)) == encode_utf8(s),
{
    law_tokens_tile_source(s, 0);
    lemma_joined_tiles(s, tokens_from(s, 0, false), 0);
    vstd::utf8::is_ascii_chars_encode_utf8(s);
    assert(encode_utf8(s).subrange(0, s.len() as int) =~= encode_utf8(s));
}

} // verus!

verus! {

/// Every ASCII decimal digit starts a number literal. The literal runs over
/// digits and at most one `.`, which a digit follows; it ends at the end of
/// the source or before a character that cannot continue it: one that is
/// not a digit, and not a first `.` with a digit after it.
pub proof fn law_digits_start_numbers(s: Seq<char>, i: int)
    requires
        0 <= i < s.len(),
        '0' <= s[i] <= '9',
    ensures
        ({
            let (kind, end) = token_scan(s, i);
            &&& kind == TokenKind::Number
            &&& i < end <= s.len()
            &&& forall|m: int| i <= m < end ==> is_digit(#[trigger] s[m]) || s[m] == '.'
            &&& forall|m: int| i <= m < end && #[trigger] s[m] == '.' ==> m + 1 < end && is_digit(s[m + 1])
            &&& forall|m1: int, m2: int| i <= m1 < m2 < end && #[trigger] s[m1] == '.' ==> #[trigger] s[m2] != '.'
            &&& end == s.len() || !(is_digit(s[end]) || (s[end] == '.' && end + 1 < s.len() && is_digit(s[end + 1])
                && forall|m: int| i <= m < end ==> #[trigger] s[m] != '.'))
        }),
{
    reveal(token_scan);
    lemma_number_end_run(s, i, i, false);
}

proof fn lemma_number_end_run(s: Seq<char>, i0: int, i: int, has_dot: bool)
    requires
        0 <= i0 <= i <= s.len(),
        has_dot == exists|m: int| i0 <= m < i && #[trigger] s[m] == '.',
        forall|m: int| i0 <= m < i ==> is_digit(#[trigger] s[m]) || s[m] == '.',
        forall|m: int| i0 <= m < i && #[trigger] s[m] == '.' ==> m + 1 < i && is_digit(s[m + 1]),
        forall|m1: int, m2: int| i0 <= m1 < m2 < i && #[trigger] s[m1] == '.' ==> #[trigger] s[m2] != '.',
    ensures
        ({
            let end = number_end(s, i, has_dot);
            &&& i <= end <= s.len()
            &&& forall|m: int| i0 <= m < end ==> is_digit(#[trigger] s[m]) || s[m] == '.'
            &&& forall|m: int| i0 <= m < end && #[trigger] s[m] == '.' ==> m + 1 < end && is_digit(s[m + 1])
            &&& forall|m1: int, m2: int| i0 <= m1 < m2 < end && #[trigger] s[m1] == '.' ==> #[trigger] s[m2] != '.'
            &&& end == s.len() || !(is_digit(s[end]) || (s[end] == '.' && end + 1 < s.len() && is_digit(s[end + 1])
                && forall|m: int| i0 <= m < end ==> #[trigger] s[m] != '.'))
            &&& i < s.len() && is_digit(s[i]) ==> i < end
        }),
    decreases s.len() - i,
{
    if i < s.len() && is_digit(s[i]) {
        assert(has_dot == exists|m: int| i0 <= m < i + 1 && #[trigger] s[m] == '.') by {
            if exists|m: int| i0 <= m < i + 1 && #[trigger] s[m] == '.' {
                let m = choose|m: int| i0 <= m < i + 1 && #[trigger] s[m] == '.';
                assert(m < i);
            }
        }
        lemma_number_end_run(s, i0, i + 1, has_dot);
    } else if 0 <= i && i + 1 < s.len() && s[i] == '.' && !has_dot && is_digit(s[i + 1]) {
        assert(exists|m: int| i0 <= m < i + 1 && #[trigger] s[m] == '.') by {
            assert(s[i] == '.');
        }
        assert forall|m: int| i0 <= m < i + 1 && #[trigger] s[m] == '.' implies m + 1 < i + 1 + 1 && is_digit(
            s[m + 1],
        ) by {
            if m < i {
                assert(m + 1 < i && is_digit(s[m + 1]));
            }
        }
        lemma_number_end_run_dot(s, i0, i);
    } else {
        if i < s.len() && s[i] == '.' && i + 1 < s.len() && is_digit(s[i + 1]) {
            assert(has_dot);
            let m = choose|m: int| i0 <= m < i && #[trigger] s[m] == '.';
            assert(s[m] == '.');
        }
    }
}

proof fn lemma_number_end_run_dot(s: Seq<char>, i0: int, i: int)
    requires
        0 <= i0 <= i,
        i + 1 < s.len(),
        s[i] == '.',
        is_digit(s[i + 1]),
        forall|m: int| i0 <= m < i ==> is_digit(#[trigger] s[m]),
    ensures
        ({
            let end = number_end(s, i + 1, true);
            &&& i + 1 < end <= s.len()
            &&& forall|m: int| i0 <= m < end ==> is_digit(#[trigger] s[m]) || s[m] == '.'
            &&& forall|m: int| i0 <= m < end && #[trigger] s[m] == '.' ==> m + 1 < end && is_digit(s[m + 1])
            &&& forall|m1: int, m2: int| i0 <= m1 < m2 < end && #[trigger] s[m1] == '.' ==> #[trigger] s[m2] != '.'
            &&& end == s.len() || !(is_digit(s[end]) || (s[end] == '.' && end + 1 < s.len() && is_digit(s[end + 1])
                && forall|m: int| i0 <= m < end ==> #[trigger] s[m] != '.'))
        }),
{
    lemma_digits_after_dot(s, i + 1);
    let end = number_end(s, i + 1, true);
    assert forall|m: int| i0 <= m < end && #[trigger] s[m] == '.' implies m + 1 < end && is_digit(s[m + 1]) by {
        if m != i {
            assert(is_digit(s[m]));
        }
    }
    assert forall|m1: int, m2: int| i0 <= m1 < m2 < end && #[trigger] s[m1] == '.' implies #[trigger] s[m2] != '.' by {
        if m1 != i {
            assert(is_digit(s[m1]));
        }
        if m2 > i + 1 {
            assert(is_digit(s[m2]));
        }
    }
    if end < s.len() && s[end] == '.' {
        assert(s[i] == '.');
    }
}

/// After a `.` has been read, a number literal runs over digits only.
proof fn lemma_digits_after_dot(s: Seq<char>, j: int)
    requires
        0 <= j < s.len(),
        is_digit(s[j]),
    ensures
        j < number_end(s, j, true) <= s.len(),
        forall|m: int| j <= m < number_end(s, j, true) ==> is_digit(#[trigger] s[m]),
        number_end(s, j, true) == s.len() || !is_digit(s[number_end(s, j, true)]),
    decreases s.len() - j,
{
    assert(number_end(s, j, true) == number_end(s, j + 1, true));
    if j + 1 < s.len() && is_digit(s[j + 1]) {
        lemma_digits_after_dot(s, j + 1);
    } else {
        assert(number_end(s, j + 1, true) == j + 1);
    }
}

proof fn lemma_word_end_run(s: Seq<char>, i: int)
    requires
        0 <= i <= s.len(),
    ensures
        i <= word_end(s, i) <= s.len(),
        forall|m: int| i <= m < word_end(s, i) ==> is_word_char(#[trigger] s[m]),
        word_end(s, i) == s.len() || !is_word_char(s[word_end(s, i)]),
    decreases s.len() - i,
{
    if i < s.len() && is_word_char(s[i]) {
        lemma_word_end_run(s, i + 1);
    }
}

/// A word (a letter or `_`, then letters, digits and `_`) scans as a keyword
/// only where no ASCII letter or digit follows the keyword: a keyword with
/// a letter or a digit right after it is part of a longer word. Any other
/// word scans as one identifier covering the whole run of word characters.
pub proof fn law_words(s: Seq<char>, i: int)
    requires
        0 <= i < s.len(),
        is_word_start(s[i]),
    ensures
        ({
            let (kind, end) = token_scan(s, i);
            &&& i < end <= s.len()
            &&& kind != TokenKind::Ident ==> end == s.len() || !(is_ascii_letter(s[end]) || is_digit(s[end]))
            &&& kind == TokenKind::Ident ==> (forall|m: int| i <= m < end ==> is_word_char(#[trigger] s[m])) && (end
                == s.len() || !is_word_char(s[end]))
            &&& kind != TokenKind::Ident ==> exists|k: int|
                0 <= k < keywords().len() && #[trigger] keywords()[k].1 == kind && end == i + keywords()[k].0.len()
                    && s.subrange(i, end) == keywords()[k].0
        }),
{
    reveal(token_scan);
    lemma_word_scan_bounds(s, i);
    lemma_word_end_run(s, i);
    let (kind, end) = token_scan(s, i);
    if kind != TokenKind::Ident {
        let ks = keywords();
        if kind == TokenKind::And {
            assert(ks[0].1 == kind);
        } else if kind == TokenKind::Class {
            assert(ks[1].1 == kind);
        } else if kind == TokenKind::Else {
            assert(ks[2].1 == kind);
        } else if kind == TokenKind::False {
            assert(ks[3].1 == kind);
        } else if kind == TokenKind::For {
            assert(ks[4].1 == kind);
        } else if kind == TokenKind::Fun {
            assert(ks[5].1 == kind);
        } else if kind == TokenKind::If {
            assert(ks[6].1 == kind);
        } else if kind == TokenKind::Nil {
            assert(ks[7].1 == kind);
        } else if kind == TokenKind::Or {
            assert(ks[8].1 == kind);
        } else if kind == TokenKind::Print {
            assert(ks[9].1 == kind);
        } else if kind == TokenKind::Return {
            assert(ks[10].1 == kind);
        } else if kind == TokenKind::Super {
            assert(ks[11].1 == kind);
        } else if kind == TokenKind::This {
            assert(ks[12].1 == kind);
        } else if kind == TokenKind::True {
            assert(ks[13].1 == kind);
        } else if kind == TokenKind::Var {
            assert(ks[14].1 == kind);
        } else {
            assert(ks[15].1 == kind);
        }
    }
}

/// The one-character tokens, and the operators that a following `=` makes
/// two characters long.
pub proof fn law_operators(s: Seq<char>, i: int)
    requires
        0 <= i < s.len(),
    ensures
        s[i] == '(' ==> token_scan(s, i) == (TokenKind::LeftParen, i + 1),
        s[i] == ')' ==> token_scan(s, i) == (TokenKind::RightParen, i + 1),
        s[i] == '{' ==> token_scan(s, i) == (TokenKind::LeftBrace, i + 1),
        s[i] == '}' ==> token_scan(s, i) == (TokenKind::RightBrace, i + 1),
        s[i] == ';' ==> token_scan(s, i) == (TokenKind::Semicolon, i + 1),
        s[i] == ',' ==> token_scan(s, i) == (TokenKind::Comma, i + 1),
        s[i] == '.' ==> token_scan(s, i) == (TokenKind::Dot, i + 1),
        s[i] == '-' ==> token_scan(s, i) == (TokenKind::Minus, i + 1),
        s[i] == '+' ==> token_scan(s, i) == (TokenKind::Plus, i + 1),
        s[i] == '*' ==> token_scan(s, i) == (TokenKind::Star, i + 1),
        s[i] == '/' && !(i + 1 < s.len() && (s[i + 1] == '/' || s[i + 1] == '*')) ==> token_scan(s, i) == (
            TokenKind::Slash,
            i + 1,
        ),
        s[i] == '!' ==> token_scan(s, i) == if i + 1 < s.len() && s[i + 1] == '=' {
            (TokenKind::BangEqual, i + 2)
        } else {
            (TokenKind::Bang, i + 1)
        },
        s[i] == '=' ==> token_scan(s, i) == if i + 1 < s.len() && s[i + 1] == '=' {
            (TokenKind::EqualEqual, i + 2)
        } else {
            (TokenKind::Equal, i + 1)
        },
        s[i] == '<' ==> token_scan(s, i) == if i + 1 < s.len() && s[i + 1] == '=' {
            (TokenKind::LessEqual, i + 2)
        } else {
            (TokenKind::Less, i + 1)
        },
        s[i] == '>' ==> token_scan(s, i) == if i + 1 < s.len() && s[i + 1] == '=' {
            (TokenKind::GreaterEqual, i + 2)
        } else {
            (TokenKind::Greater, i + 1)
        },
{
    reveal(token_scan);
}

/// A character that starts no token is an unknown token of its own; ASCII
/// whitespace runs to the next character that is not whitespace.
pub proof fn law_unknown_and_whitespace(s: Seq<char>, i: int)
    requires
        0 <= i < s.len(),
    ensures
        !(is_word_start(s[i]) || is_digit(s[i]) || is_ascii_space(s[i]) || s[i] == '"' || s[i] == '(' || s[i]
            == ')' || s[i] == '{' || s[i] == '}' || s[i] == ';' || s[i] == ',' || s[i] == '.' || s[i] == '-'
            || s[i] == '+' || s[i] == '*' || s[i] == '/' || s[i] == '!' || s[i] == '=' || s[i] == '<' || s[i]
            == '>') ==> token_scan(s, i) == (TokenKind::Error(ScanError::UnknownToken), i + 1),
        is_ascii_space(s[i]) ==> ({
            let (kind, end) = token_scan(s, i);
            &&& kind == TokenKind::Whitespace
            &&& i < end <= s.len()
            &&& forall|m: int| i <= m < end ==> is_ascii_space(#[trigger] s[m])
            &&& end == s.len() || !is_ascii_space(s[end])
        }),
{
    reveal(token_scan);
    if is_ascii_space(s[i]) {
        lemma_space_end_run(s, i);
    }
}

proof fn lemma_space_end_run(s: Seq<char>, i: int)
    requires
        0 <= i <= s.len(),
    ensures
        i <= space_end(s, i) <= s.len(),
        forall|m: int| i <= m < space_end(s, i) ==> is_ascii_space(#[trigger] s[m]),
        space_end(s, i) == s.len() || !is_ascii_space(s[space_end(s, i)]),
        i < s.len() && is_ascii_space(s[i]) ==> i < space_end(s, i),
    decreases s.len() - i,
{
    if i < s.len() && is_ascii_space(s[i]) {
        lemma_space_end_run(s, i + 1);
    }
}

proof fn lemma_line_end_run(s: Seq<char>, i: int)
    requires
        0 <= i <= s.len(),
    ensures
        i <= line_end(s, i) <= s.len(),
        forall|m: int| i <= m < line_end(s, i) ==> #[trigger] s[m] != '\n',
        line_end(s, i) == s.len() || s[line_end(s, i)] == '\n',
    decreases s.len() - i,
{
    if i < s.len() && s[i] != '\n' {
        lemma_line_end_run(s, i + 1);
    }
}

/// `//` starts a comment that runs to the end of its line, the line feed
/// left out.
pub proof fn law_line_comment(s: Seq<char>, i: int)
    requires
        0 <= i,
        i + 1 < s.len(),
        s[i] == '/',
        s[i + 1] == '/',
    ensures
        ({
            let (kind, end) = token_scan(s, i);
            &&& kind == TokenKind::SingleLineComment
            &&& i + 2 <= end <= s.len()
            &&& forall|m: int| i + 2 <= m < end ==> #[trigger] s[m] != '\n'
            &&& end == s.len() || s[end] == '\n'
        }),
{
    reveal(token_scan);
    lemma_line_end_run(s, i + 2);
}

/// A `"` starts a string literal: it ends right after a closing `"`, where
/// there is one, or runs to the end of the source as an unterminated string.
pub proof fn law_strings(s: Seq<char>, i: int)
    requires
        0 <= i < s.len(),
        s[i] == '"',
    ensures
        ({
            let (kind, end) = token_scan(s, i);
            &&& kind == TokenKind::String || kind == TokenKind::Error(ScanError::UnterminatedString)
            &&& kind == TokenKind::String ==> i + 2 <= end <= s.len() && s[end - 1] == '"'
            &&& kind == TokenKind::Error(ScanError::UnterminatedString) ==> end == s.len()
            &&& (forall|m: int| i < m < s.len() ==> #[trigger] s[m] != '"') ==> kind == TokenKind::Error(
                ScanError::UnterminatedString,
            )
        }),
{
    reveal(token_scan);
    lemma_string_end(s, i + 1, false);
}

proof fn lemma_string_end(s: Seq<char>, j: int, escaped: bool)
    requires
        0 <= j <= s.len(),
    ensures
        j <= string_body_end(s, j, escaped) <= s.len(),
        string_body_end(s, j, escaped) == s.len() || s[string_body_end(s, j, escaped)] == '"',
        (forall|m: int| j <= m < s.len() ==> #[trigger] s[m] != '"') ==> string_body_end(s, j, escaped) == s.len(),
    decreases s.len() - j,
{
    if j < s.len() && (escaped || s[j] != '"') {
        lemma_string_end(s, j + 1, s[j] == '\\');
    }
}

} // verus!

verus! {

/// The lines are counted by line feeds only: a token's line is one more
/// than the number of line feeds before its end (see `make_token`).
pub proof fn law_lines(s: Seq<char>)
    ensures
        newlines(s) == s.filter(|c: char| c == '\n').len(),
    decreases s.len(),
{
    reveal(Seq::filter);
    if s.len() > 0 {
        law_lines(s.drop_last());
    }
}

} // verus!

use relox::scanner::{ScanError, Scanner, Token, TokenKind};
use relox::span::Span;

fn all_tokens(source: &str, skip: bool) -> Vec<Token> {
    let mut scanner = Scanner::new(source);
    if skip {
        scanner = scanner.skip_ignorable();
    }
    let mut tokens = Vec::new();
    while let Some(token) = scanner.next() {
        tokens.push(token);
    }
    tokens
}

fn kinds(source: &str) -> Vec<TokenKind> {
    all_tokens(source, true).iter().map(|t| t.kind).collect()
}

#[test]
fn single_characters() {
    assert_eq!(
        kinds("(){};,.-+*/"),
        vec![
            TokenKind::LeftParen,
            TokenKind::RightParen,
            TokenKind::LeftBrace,
            TokenKind::RightBrace,
            TokenKind::Semicolon,
            TokenKind::Comma,
            TokenKind::Dot,
            TokenKind::Minus,
            TokenKind::Plus,
            TokenKind::Star,
            TokenKind::Slash,
        ]
    );
}

#[test]
fn one_or_two_characters() {
    assert_eq!(
        kinds("! != = == < <= > >="),
        vec![
            TokenKind::Bang,
            TokenKind::BangEqual,
            TokenKind::Equal,
            TokenKind::EqualEqual,
            TokenKind::Less,
            TokenKind::LessEqual,
            TokenKind::Greater,
            TokenKind::GreaterEqual,
        ]
    );
}

#[test]
fn every_keyword() {
    assert_eq!(
        kinds("and class else false for fun if nil or print return super this true var while"),
        vec![
            TokenKind::And,
            TokenKind::Class,
            TokenKind::Else,
            TokenKind::False,
            TokenKind::For,
            TokenKind::Fun,
            TokenKind::If,
            TokenKind::Nil,
            TokenKind::Or,
            TokenKind::Print,
            TokenKind::Return,
            TokenKind::Super,
            TokenKind::This,
            TokenKind::True,
            TokenKind::Var,
            TokenKind::While,
        ]
    );
}

#[test]
fn words_that_are_not_keywords() {
    assert_eq!(
        kinds("andy f fo fort t th tru _x x1"),
        vec![TokenKind::Ident; 9]
    );
}

#[test]
fn keyword_followed_by_underscore_ends_at_the_keyword() {
    // `_` is not alphanumeric, so `and` stands as a keyword and `_x` follows.
    let tokens = all_tokens("and_x", false);
    assert_eq!(tokens.len(), 2);
    assert_eq!(tokens[0].kind, TokenKind::And);
    assert_eq!(tokens[0].span, Span { line: 1, start: 0, lenth: 3 });
    assert_eq!(tokens[1].kind, TokenKind::Ident);
    assert_eq!(tokens[1].span, Span { line: 1, start: 3, lenth: 2 });
}

#[test]
fn numbers() {
    let tokens = all_tokens("123.45 7. 8", true);
    assert_eq!(tokens.len(), 4);
    assert_eq!(tokens[0].kind, TokenKind::Number);
    assert_eq!(tokens[0].span, Span { line: 1, start: 0, lenth: 6 });
    assert_eq!(tokens[1].kind, TokenKind::Number);
    assert_eq!(tokens[1].span, Span { line: 1, start: 7, lenth: 1 });
    assert_eq!(tokens[2].kind, TokenKind::Dot);
    assert_eq!(tokens[3].kind, TokenKind::Number);
    assert_eq!(tokens[3].span, Span { line: 1, start: 10, lenth: 1 });
}

#[test]
fn number_with_two_dots() {
    assert_eq!(kinds("1.2.3"), vec![TokenKind::Number, TokenKind::Dot, TokenKind::Number]);
}

#[test]
fn strings() {
    let tokens = all_tokens("\"hi\" \"a\\\"b\"", true);
    assert_eq!(tokens.len(), 2);
    assert_eq!(tokens[0].kind, TokenKind::String);
    assert_eq!(tokens[0].span, Span { line: 1, start: 0, lenth: 4 });
    assert_eq!(tokens[1].kind, TokenKind::String);
    assert_eq!(tokens[1].span, Span { line: 1, start: 5, lenth: 6 });
}

#[test]
fn unterminated_string() {
    let tokens = all_tokens("\"hi", true);
    assert_eq!(tokens.len(), 1);
    assert_eq!(tokens[0].kind, TokenKind::Error(ScanError::UnterminatedString));
    assert_eq!(tokens[0].span, Span { line: 1, start: 0, lenth: 3 });
    assert_eq!(ScanError::UnterminatedString.message(), "Unterminated string.");
}

#[test]
fn string_over_two_lines_is_on_its_last_line() {
    let tokens = all_tokens("\"a\nb\"", true);
    assert_eq!(tokens[0].kind, TokenKind::String);
    assert_eq!(tokens[0].span.line, 2);
}

#[test]
fn line_comment() {
    let tokens = all_tokens("// note\n1", false);
    assert_eq!(tokens.len(), 3);
    assert_eq!(tokens[0].kind, TokenKind::SingleLineComment);
    assert_eq!(tokens[0].span, Span { line: 1, start: 0, lenth: 7 });
    assert_eq!(tokens[1].kind, TokenKind::Whitespace);
    assert_eq!(tokens[2].kind, TokenKind::Number);
    assert_eq!(tokens[2].span.line, 2);
}

#[test]
fn block_comment() {
    let tokens = all_tokens("/* a */+", false);
    assert_eq!(tokens.len(), 2);
    assert_eq!(tokens[0].kind, TokenKind::MultiLineComment);
    assert_eq!(tokens[0].span, Span { line: 1, start: 0, lenth: 7 });
    assert_eq!(tokens[1].kind, TokenKind::Plus);
}

#[test]
fn nested_block_comment() {
    // The inner `*/` closes one level; the scan then steps over the
    // character after it, still holding the `/` as the current character.
    let tokens = all_tokens("/* /* */ xy*/+", false);
    assert_eq!(tokens[0].kind, TokenKind::MultiLineComment);
    assert_eq!(tokens[0].span, Span { line: 1, start: 0, lenth: 13 });
    assert_eq!(tokens[1].kind, TokenKind::Plus);
}

#[test]
fn nested_block_comment_closed_right_after_the_inner_one() {
    // Right after the inner comment closes, the scan holds a stale `/`, so
    // the outer `*/` that follows one character later is not seen.
    let tokens = all_tokens("/* /* */x*/+", false);
    assert_eq!(tokens[0].kind, TokenKind::Error(ScanError::UnterminatedComment));
    assert_eq!(tokens[0].span, Span { line: 1, start: 0, lenth: 11 });
    assert_eq!(tokens[1].kind, TokenKind::Plus);
}

#[test]
fn unterminated_block_comment() {
    // The scan stops with one character left, which makes a token of its own.
    let tokens = all_tokens("/* a", true);
    assert_eq!(tokens.len(), 2);
    assert_eq!(tokens[0].kind, TokenKind::Error(ScanError::UnterminatedComment));
    assert_eq!(tokens[0].span, Span { line: 1, start: 0, lenth: 3 });
    assert_eq!(tokens[1].kind, TokenKind::Ident);
    assert_eq!(tokens[1].span, Span { line: 1, start: 3, lenth: 1 });
    let tokens = all_tokens("/*", true);
    assert_eq!(tokens[0].kind, TokenKind::Error(ScanError::UnterminatedComment));
    assert_eq!(tokens[0].span, Span { line: 1, start: 0, lenth: 2 });
}

#[test]
fn unknown_character() {
    let tokens = all_tokens("@", true);
    assert_eq!(tokens.len(), 1);
    assert_eq!(tokens[0].kind, TokenKind::Error(ScanError::UnknownToken));
    assert_eq!(tokens[0].span, Span { line: 1, start: 0, lenth: 1 });
}

#[test]
fn whitespace_is_a_token_unless_skipped() {
    assert_eq!(all_tokens(" \t\r\n", false).len(), 1);
    assert_eq!(all_tokens(" \t\r\n", false)[0].kind, TokenKind::Whitespace);
    assert_eq!(all_tokens(" \t\r\n", true).len(), 0);
}

#[test]
fn lines_are_counted() {
    let tokens = all_tokens("1\n2\n\n3", true);
    let lines: Vec<usize> = tokens.iter().map(|t| t.span.line).collect();
    assert_eq!(lines, vec![1, 2, 4]);
}

#[test]
fn tokens_tile_the_source() {
    let source = "var x = (1 + 2) * 3; // done\n\"s\"";
    let tokens = all_tokens(source, false);
    let mut pos = 0;
    for t in &tokens {
        assert_eq!(t.span.start, pos);
        assert!(t.span.lenth > 0);
        pos = t.span.start + t.span.lenth;
    }
    assert_eq!(pos, source.chars().count());
}

#[test]
fn skipping_keeps_the_other_tokens() {
    let source = "1 /* c */ + // d\n 2";
    let plain: Vec<Token> = all_tokens(source, false)
        .into_iter()
        .filter(|t| {
            !matches!(
                t.kind,
                TokenKind::Whitespace | TokenKind::SingleLineComment | TokenKind::MultiLineComment
            )
        })
        .collect();
    assert_eq!(plain, all_tokens(source, true));
}

#[test]
fn eof_token_spans_from_the_last_token_start() {
    let mut scanner = Scanner::new("1 +").skip_ignorable();
    while scanner.next().is_some() {}
    let eof = scanner.eof();
    assert_eq!(eof.kind, TokenKind::Eof);
    assert_eq!(eof.span, Span { line: 1, start: 2, lenth: 1 });
}

#[test]
fn token_slice() {
    let source = "12 + abc";
    let tokens = all_tokens(source, true);
    assert_eq!(tokens[0].slice(source), "12");
    assert_eq!(tokens[1].slice(source), "+");
    assert_eq!(tokens[2].slice(source), "abc");
    // The span counts characters; the slice takes it as byte positions.
    let source = "\u{e9} ab";
    let tokens = all_tokens(source, true);
    assert_eq!(tokens[1].kind, TokenKind::Ident);
    assert_eq!((tokens[1].span.start, tokens[1].span.lenth), (2, 2));
    assert_eq!(tokens[1].slice(source), " a");
}

#[test]
fn character_classes() {
    assert!(Scanner::is_alpha('_'));
    assert!(Scanner::is_alpha('q'));
    assert!(!Scanner::is_alpha('1'));
    assert!(Scanner::is_alphanumeric('1'));
    assert!(!Scanner::is_alphanumeric('-'));
}

#[test]
fn token_debug_names() {
    assert_eq!(TokenKind::LeftParen.debug_name(), "TOKEN_LEFT_PAREN");
    assert_eq!(TokenKind::Eof.debug_name(), "TOKEN_EOF");
    assert_eq!(TokenKind::Error(ScanError::UnknownToken).debug_name(), "TOKEN_ERROR");
    assert_eq!(TokenKind::SingleLineComment.debug_name(), "TOKEN_SINGLE_LINE_COMMENT");
}

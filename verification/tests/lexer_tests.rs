use css_engine::kind::Production;
use css_engine::kind::TokenKind;
use css_engine::lexer::lex_token;
use css_engine::lexer::tokenize;
use css_engine::lexer::Token;

fn kinds(source: &str) -> Vec<TokenKind> {
    tokenize(source.as_bytes()).iter().map(|token| token.kind).collect()
}

fn texts(source: &str) -> Vec<String> {
    tokenize(source.as_bytes())
        .iter()
        .map(|token| source[token.start..token.end].to_string())
        .collect()
}

#[test]
fn tokens_tile_the_text() {
    let source = "@media  screen{ a:b;\r\n}/* c */'s' 12px , ~";
    let tokens = tokenize(source.as_bytes());
    let mut at = 0;
    for token in tokens.iter() {
        assert_eq!(token.start, at);
        assert!(token.end > token.start);
        at = token.end;
    }
    assert_eq!(at, source.len());
}

#[test]
fn token_kinds_and_spans() {
    let source = "@media screen{}";
    assert_eq!(
        tokenize(source.as_bytes()),
        vec![
            Token { kind: TokenKind::At, keyword: None, start: 0, end: 1 },
            Token { kind: TokenKind::Ident, keyword: Some(Production::Media), start: 1, end: 6 },
            Token { kind: TokenKind::Whitespace, keyword: None, start: 6, end: 7 },
            Token { kind: TokenKind::Ident, keyword: None, start: 7, end: 13 },
            Token { kind: TokenKind::LCurly, keyword: None, start: 13, end: 14 },
            Token { kind: TokenKind::RCurly, keyword: None, start: 14, end: 15 },
        ]
    );
}

#[test]
fn punctuation_and_delimiters() {
    assert_eq!(
        kinds("@{};:,>~"),
        vec![
            TokenKind::At,
            TokenKind::LCurly,
            TokenKind::RCurly,
            TokenKind::Semicolon,
            TokenKind::Colon,
            TokenKind::Comma,
            TokenKind::Delim,
            TokenKind::Delim,
        ]
    );
}

#[test]
fn every_at_rule_keyword_is_found_in_the_table() {
    let cases = [
        ("charset", Production::Charset),
        ("color-profile", Production::ColorProfile),
        ("counter-style", Production::CounterStyle),
        ("container", Production::Container),
        ("font-face", Production::FontFace),
        ("font-palette-values", Production::FontPaletteValues),
        ("media", Production::Media),
        ("keyframes", Production::Keyframes),
    ];
    for (word, production) in cases {
        let token = lex_token(word.as_bytes(), 0);
        assert_eq!(token.kind, TokenKind::Ident);
        assert_eq!(token.keyword, Some(production));
        assert_eq!(token.end, word.len());
    }
}

#[test]
fn other_words_are_no_at_rule_keywords() {
    for word in ["unknownrule", "Media", "MEDIA", "medi", "medias", "supports", "not", "px", "m\u{e9}dia", "a"] {
        let token = lex_token(word.as_bytes(), 0);
        assert_eq!(token.kind, TokenKind::Ident);
        assert_eq!(token.keyword, None);
    }
    let invalid: Vec<u8> = vec![0x6d, 0x65, 0xff, 0x64, 0x69, 0x61];
    let token = lex_token(&invalid, 0);
    assert_eq!(token.kind, TokenKind::Ident);
    assert_eq!(token.end, 6);
    assert_eq!(token.keyword, None);
}

#[test]
fn numbers_take_their_unit() {
    assert_eq!(texts("10px 1.5em 50% 0"), vec!["10px", " ", "1.5em", " ", "50%", " ", "0"]);
    assert_eq!(
        kinds("10px 1.5em"),
        vec![TokenKind::Number, TokenKind::Whitespace, TokenKind::Number]
    );
}

#[test]
fn strings_end_at_their_quote() {
    assert_eq!(texts("\"a;b\"c"), vec!["\"a;b\"", "c"]);
    assert_eq!(texts("'a\"b'"), vec!["'a\"b'"]);
    assert_eq!(texts("\"a\\\"b\"{"), vec!["\"a\\\"b\"", "{"]);
    assert_eq!(kinds("\"a;b\"c"), vec![TokenKind::Str, TokenKind::Ident]);
}

#[test]
fn a_string_cut_short_takes_its_line_break() {
    assert_eq!(texts("\"ab\nc"), vec!["\"ab\n", "c"]);
    assert_eq!(texts("\"ab\r\nc"), vec!["\"ab\r\n", "c"]);
    assert_eq!(texts("\"ab\r\rc"), vec!["\"ab\r", "\r", "c"]);
    assert_eq!(texts("\"ab\\\nc"), vec!["\"ab\\\n", "c"]);
    assert_eq!(texts("'ab"), vec!["'ab"]);
    assert_eq!(kinds("\"ab\nc"), vec![TokenKind::Str, TokenKind::Ident]);
}

#[test]
fn tokens_that_the_end_of_the_input_cuts_short() {
    assert_eq!(kinds("'ab"), vec![TokenKind::OpenStr]);
    assert_eq!(kinds("a \"b\\\""), vec![TokenKind::Ident, TokenKind::Whitespace, TokenKind::OpenStr]);
    assert_eq!(kinds("/* never"), vec![TokenKind::OpenComment]);
    assert_eq!(kinds("/*/"), vec![TokenKind::OpenComment]);
    assert_eq!(kinds("/**/"), vec![TokenKind::Comment]);
    assert_eq!(kinds("'ab'"), vec![TokenKind::Str]);
    assert!(TokenKind::OpenStr.is_open());
    assert!(TokenKind::OpenComment.is_open());
    assert!(!TokenKind::Str.is_open());
    assert!(!TokenKind::Comment.is_open());
}

#[test]
fn comments_end_at_their_close() {
    assert_eq!(texts("/* a */b"), vec!["/* a */", "b"]);
    assert_eq!(texts("/**/b"), vec!["/**/", "b"]);
    assert_eq!(texts("/*/ b"), vec!["/*/ b"]);
    assert_eq!(texts("/* never"), vec!["/* never"]);
    assert_eq!(texts("/ *"), vec!["/", " ", "*"]);
    assert_eq!(kinds("/* a */b"), vec![TokenKind::Comment, TokenKind::Ident]);
}

#[test]
fn line_breaks_are_one_token_each() {
    assert_eq!(texts("a\r\n\n\rb"), vec!["a", "\r\n", "\n", "\r", "b"]);
    assert_eq!(
        kinds(" \t\n"),
        vec![TokenKind::Whitespace, TokenKind::Newline]
    );
}

#[test]
fn trivia_is_blanks_and_line_breaks() {
    assert!(TokenKind::Whitespace.is_trivia());
    assert!(TokenKind::Newline.is_trivia());
    assert!(!TokenKind::Comment.is_trivia());
    assert!(!TokenKind::Ident.is_trivia());
    assert!(!TokenKind::Eof.is_trivia());
}

#[test]
fn empty_text_has_no_tokens() {
    assert_eq!(tokenize(b""), vec![]);
}

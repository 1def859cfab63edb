use aln_system_update_orchestrator::aln::lexer::{lex, LexError, Token, TokenKind};

fn kinds(text: &str) -> Vec<TokenKind> {
    lex(text).expect("text should lex").into_iter().map(|t| t.kind).collect()
}

fn ident(text: &str) -> TokenKind {
    TokenKind::Identifier(text.to_string())
}

#[test]
fn lexes_block_with_one_entry() {
    let tokens = lex("@Foo{a:1}").unwrap();
    assert_eq!(
        tokens,
        vec![
            Token { kind: TokenKind::At, offset: 0 },
            Token { kind: ident("Foo"), offset: 1 },
            Token { kind: TokenKind::LBrace, offset: 4 },
            Token { kind: ident("a"), offset: 5 },
            Token { kind: TokenKind::Colon, offset: 6 },
            Token { kind: TokenKind::NumberLiteral("1".to_string()), offset: 7 },
            Token { kind: TokenKind::RBrace, offset: 8 },
        ]
    );
}

#[test]
fn unterminated_string_reports_opening_quote() {
    assert_eq!(lex("@X{a:\"abc"), Err(LexError::UnterminatedString { offset: 5 }));
    assert_eq!(lex("'"), Err(LexError::UnterminatedString { offset: 0 }));
    assert_eq!(lex("a 'b\""), Err(LexError::UnterminatedString { offset: 2 }));
}

#[test]
fn empty_text_has_no_tokens() {
    assert_eq!(lex(""), Ok(vec![]));
    assert_eq!(lex(" \t\r\n"), Ok(vec![]));
}

#[test]
fn punctuation_is_one_token_each() {
    assert_eq!(
        kinds("@{}[]:,"),
        vec![
            TokenKind::At,
            TokenKind::LBrace,
            TokenKind::RBrace,
            TokenKind::LBracket,
            TokenKind::RBracket,
            TokenKind::Colon,
            TokenKind::Comma,
        ]
    );
}

#[test]
fn strings_are_taken_verbatim() {
    assert_eq!(
        kinds("\"a\\n 'b' @\" 'c \"d\" '"),
        vec![
            TokenKind::StringLiteral("a\\n 'b' @".to_string()),
            TokenKind::StringLiteral("c \"d\" ".to_string()),
        ]
    );
    assert_eq!(kinds("''"), vec![TokenKind::StringLiteral(String::new())]);
}

#[test]
fn identifiers_keep_dots_and_underscores() {
    assert_eq!(
        kinds("_a.b.c x9_ A.1"),
        vec![ident("_a.b.c"), ident("x9_"), ident("A.1")]
    );
}

#[test]
fn true_and_false_are_boolean_literals() {
    assert_eq!(
        kinds("true false True truer false.x tru"),
        vec![
            TokenKind::BoolLiteral(true),
            TokenKind::BoolLiteral(false),
            ident("True"),
            ident("truer"),
            ident("false.x"),
            ident("tru"),
        ]
    );
}

#[test]
fn numbers_take_digits_and_dots_unchecked() {
    assert_eq!(
        kinds("1 1.5 1..2 1.2.3 7. 12abc"),
        vec![
            TokenKind::NumberLiteral("1".to_string()),
            TokenKind::NumberLiteral("1.5".to_string()),
            TokenKind::NumberLiteral("1..2".to_string()),
            TokenKind::NumberLiteral("1.2.3".to_string()),
            TokenKind::NumberLiteral("7.".to_string()),
            TokenKind::NumberLiteral("12".to_string()),
            ident("abc"),
        ]
    );
}

#[test]
fn unexpected_character_reports_byte_offset() {
    assert_eq!(lex("a #"), Err(LexError::UnexpectedChar { ch: '#', offset: 2 }));
    assert_eq!(lex("\"\u{e9}\" #"), Err(LexError::UnexpectedChar { ch: '#', offset: 5 }));
    assert_eq!(lex("\u{e9}"), Err(LexError::UnexpectedChar { ch: '\u{e9}', offset: 0 }));
    assert_eq!(lex("-1"), Err(LexError::UnexpectedChar { ch: '-', offset: 0 }));
    assert_eq!(lex(".5"), Err(LexError::UnexpectedChar { ch: '.', offset: 0 }));
}

#[test]
fn offsets_count_bytes_not_characters() {
    let tokens = lex("'\u{1F600}\u{20AC}' a\u{2003}b").unwrap();
    assert_eq!(
        tokens,
        vec![
            Token { kind: TokenKind::StringLiteral("\u{1F600}\u{20AC}".to_string()), offset: 0 },
            Token { kind: ident("a"), offset: 10 },
            Token { kind: ident("b"), offset: 14 },
        ]
    );
}

#[test]
fn unicode_whitespace_is_skipped() {
    for c in [
        '\u{9}', '\u{a}', '\u{b}', '\u{c}', '\u{d}', ' ', '\u{85}', '\u{a0}', '\u{1680}',
        '\u{2000}', '\u{200a}', '\u{2028}', '\u{2029}', '\u{202f}', '\u{205f}', '\u{3000}',
    ] {
        assert!(c.is_whitespace());
        assert_eq!(lex(&format!("{c}")), Ok(vec![]));
    }
    for c in ['\u{8}', '\u{e}', '\u{1f}', '\u{200b}', '\u{180e}', '\u{feff}', '\u{2060}'] {
        assert!(!c.is_whitespace());
        assert_eq!(lex(&format!("{c}")), Err(LexError::UnexpectedChar { ch: c, offset: 0 }));
    }
}

#[test]
fn whitespace_matches_the_platform_on_every_character() {
    for code in 0u32..=0x10FFFF {
        if let Some(c) = char::from_u32(code) {
            let skipped = lex(&format!("{c}")) == Ok(vec![]);
            assert_eq!(skipped, c.is_whitespace(), "U+{code:04X}");
        }
    }
}

#[test]
fn lexing_is_deterministic() {
    let text = "@A b { k: [1, 'x', true] @N { f: false } }";
    assert_eq!(lex(text), lex(text));
}

#[test]
fn duplicate_keeps_kind_text_and_offset() {
    let token = Token { kind: ident("abc"), offset: 7 };
    assert_eq!(token.duplicate(), token);
    assert!(token.kind.same_variant(&ident("zzz")));
    assert!(!token.kind.same_variant(&TokenKind::StringLiteral("abc".to_string())));
}

#[test]
fn lexed_identifiers_are_never_empty() {
    for text in ["_", "a", "@a{b:c}", "a.b _ c9 true false x", "'' \"\" [a,b]", "1a 2.b"] {
        for token in lex(text).unwrap() {
            if let TokenKind::Identifier(word) = &token.kind {
                assert!(!word.is_empty(), "{text}");
            }
        }
    }
}

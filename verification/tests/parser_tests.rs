use aln_system_update_orchestrator::aln::ast::{
    AlnFile, AlnItem, Block, BlockArgs, BlockEntry, Value,
};
use aln_system_update_orchestrator::aln::error::LoadAlnError;
use aln_system_update_orchestrator::aln::lexer::{lex, LexError, Token, TokenKind};
use aln_system_update_orchestrator::aln::parser::{
    parse_document, parse_tokens, Expected, ParseError, Parser,
};

fn parse(text: &str) -> Result<AlnFile, ParseError> {
    parse_tokens(&lex(text).expect("text should lex"))
}

fn only_block(text: &str) -> Block {
    let mut file = parse(text).expect("text should parse");
    assert_eq!(file.items.len(), 1);
    match file.items.remove(0) {
        AlnItem::Block(block) => block,
    }
}

fn fails(text: &str, expected: Expected, found: Option<Token>) {
    assert_eq!(parse(text), Err(ParseError { expected, found }), "{text}");
}

fn text(s: &str) -> Value {
    Value::Str(s.to_string())
}

fn pair(key: &str, value: Value) -> BlockEntry {
    BlockEntry::KeyValue { key: key.to_string(), value }
}

#[test]
fn parses_value_list_in_order() {
    let tokens = lex("[1, \"a\", true]").unwrap();
    let mut parser = Parser::new(&tokens);
    let values = parser.parse_list().unwrap();
    assert_eq!(values, vec![Value::Number("1".to_string()), text("a"), Value::Bool(true)]);
    assert!(parser.eof());
    match &values[0] {
        Value::Number(n) => assert_eq!(n.parse::<f64>().unwrap(), 1.0),
        other => panic!("not a number: {other:?}"),
    }
}

#[test]
fn empty_token_sequence_is_an_empty_document() {
    assert_eq!(parse(""), Ok(AlnFile { items: vec![] }));
}

#[test]
fn parses_blocks_in_order() {
    let file = parse("@A{} @B{} @A{}").unwrap();
    let names: Vec<&str> = file
        .items
        .iter()
        .map(|item| match item {
            AlnItem::Block(b) => b.name.as_str(),
        })
        .collect();
    assert_eq!(names, vec!["A", "B", "A"]);
}

#[test]
fn block_without_arguments_has_none() {
    assert_eq!(only_block("@A{}"), Block { name: "A".to_string(), args: None, body: vec![] });
}

#[test]
fn block_arguments_are_joined_by_single_spaces() {
    let block = only_block("@A   b    c.d\n e {}");
    assert_eq!(block.args, Some(BlockArgs { raw: "b c.d e".to_string() }));
    let one = only_block("@A b{}");
    assert_eq!(one.args, Some(BlockArgs { raw: "b".to_string() }));
}

#[test]
fn block_arguments_are_identifiers_only() {
    fails("@A b : {}", Expected::LBrace, Some(Token { kind: TokenKind::Colon, offset: 5 }));
    fails(
        "@A b 'x' c {}",
        Expected::LBrace,
        Some(Token { kind: TokenKind::StringLiteral("x".to_string()), offset: 5 }),
    );
    fails(
        "@A b 1 {}",
        Expected::LBrace,
        Some(Token { kind: TokenKind::NumberLiteral("1".to_string()), offset: 5 }),
    );
    fails("@A b true {}", Expected::LBrace, Some(Token { kind: TokenKind::BoolLiteral(true), offset: 5 }));
    fails("@A b , c {}", Expected::LBrace, Some(Token { kind: TokenKind::Comma, offset: 5 }));
    fails("@A b @C {}", Expected::LBrace, Some(Token { kind: TokenKind::At, offset: 5 }));
    fails("@A b [c] {}", Expected::LBrace, Some(Token { kind: TokenKind::LBracket, offset: 5 }));
    fails("@A b }", Expected::LBrace, Some(Token { kind: TokenKind::RBrace, offset: 5 }));
}

#[test]
fn block_arguments_must_start_with_an_identifier() {
    fails("@A : b {}", Expected::LBrace, Some(Token { kind: TokenKind::Colon, offset: 3 }));
    fails(
        "@A 'x' {}",
        Expected::LBrace,
        Some(Token { kind: TokenKind::StringLiteral("x".to_string()), offset: 3 }),
    );
    fails("@A b c", Expected::LBrace, None);
}

#[test]
fn entries_hold_each_shape_of_value() {
    let block = only_block("@A{ s: 'x' i: word b: false n: 2.5 l: [] m: [[1], 'y'] }");
    assert_eq!(
        block.body,
        vec![
            pair("s", text("x")),
            pair("i", text("word")),
            pair("b", Value::Bool(false)),
            pair("n", Value::Number("2.5".to_string())),
            pair("l", Value::Array(vec![])),
            pair(
                "m",
                Value::Array(vec![Value::Array(vec![Value::Number("1".to_string())]), text("y")])
            ),
        ]
    );
}

#[test]
fn list_values_are_separated_by_commas() {
    let number = |text: &str| Value::Number(text.to_string());
    assert_eq!(only_block("@A{ a: [] }").body, vec![pair("a", Value::Array(vec![]))]);
    assert_eq!(only_block("@A{ a: [1] }").body, vec![pair("a", Value::Array(vec![number("1")]))]);
    assert_eq!(
        only_block("@A{ a: [1, 2,3] }").body,
        vec![pair("a", Value::Array(vec![number("1"), number("2"), number("3")]))]
    );
    fails(
        "@A{ a: [1 2] }",
        Expected::RBracket,
        Some(Token { kind: TokenKind::NumberLiteral("2".to_string()), offset: 10 }),
    );
    fails(
        "@A{ a: [x y] }",
        Expected::RBracket,
        Some(Token { kind: TokenKind::Identifier("y".to_string()), offset: 10 }),
    );
    fails("@A{ a: [1 [2]] }", Expected::RBracket, Some(Token { kind: TokenKind::LBracket, offset: 10 }));
    fails("@A{ a: [1: 2] }", Expected::RBracket, Some(Token { kind: TokenKind::Colon, offset: 9 }));
}

#[test]
fn comma_in_a_list_must_stand_between_two_values() {
    fails("@A{ a: [1,] }", Expected::Value, Some(Token { kind: TokenKind::RBracket, offset: 10 }));
    fails("@A{ a: [,] }", Expected::Value, Some(Token { kind: TokenKind::Comma, offset: 8 }));
    fails("@A{ a: [,1] }", Expected::Value, Some(Token { kind: TokenKind::Comma, offset: 8 }));
    fails("@A{ a: [1,,2] }", Expected::Value, Some(Token { kind: TokenKind::Comma, offset: 10 }));
    fails("@A{ a: [1,", Expected::Value, None);
    fails("@A{ a: [[1,], 2] }", Expected::Value, Some(Token { kind: TokenKind::RBracket, offset: 11 }));
}

#[test]
fn list_parser_rejects_values_without_a_comma() {
    let tokens = lex("[1 2]").unwrap();
    let mut parser = Parser::new(&tokens);
    assert_eq!(
        parser.parse_list(),
        Err(ParseError { expected: Expected::RBracket, found: Some(tokens[2].duplicate()) })
    );
    let tokens = lex("[1,]").unwrap();
    let mut parser = Parser::new(&tokens);
    assert_eq!(
        parser.parse_list(),
        Err(ParseError { expected: Expected::Value, found: Some(tokens[3].duplicate()) })
    );
    let tokens = lex("[").unwrap();
    let mut parser = Parser::new(&tokens);
    assert_eq!(parser.parse_list(), Err(ParseError { expected: Expected::RBracket, found: None }));
}

#[test]
fn nested_blocks_are_entries() {
    let block = only_block("@A{ k: v @B x { @C{} } j: w }");
    assert_eq!(
        block.body,
        vec![
            pair("k", text("v")),
            BlockEntry::NestedBlock(Block {
                name: "B".to_string(),
                args: Some(BlockArgs { raw: "x".to_string() }),
                body: vec![BlockEntry::NestedBlock(Block {
                    name: "C".to_string(),
                    args: None,
                    body: vec![],
                })],
            }),
            pair("j", text("w")),
        ]
    );
}

#[test]
fn trailing_tokens_are_a_syntax_error() {
    fails(
        "@A{} x",
        Expected::At,
        Some(Token { kind: TokenKind::Identifier("x".to_string()), offset: 5 }),
    );
    fails("@A{} }", Expected::At, Some(Token { kind: TokenKind::RBrace, offset: 5 }));
    fails("@A{} @", Expected::BlockName, None);
    fails("@A{} @B", Expected::LBrace, None);
    fails("x", Expected::At, Some(Token { kind: TokenKind::Identifier("x".to_string()), offset: 0 }));
}

#[test]
fn successful_parse_consumes_every_token() {
    let tokens = lex("@A{ a: 1 } @B{}").unwrap();
    let mut parser = Parser::new(&tokens);
    assert!(parser.parse_file().is_ok());
    assert_eq!(parser.pos, tokens.len());
    assert!(parser.eof());
    assert_eq!(parser.peek(), None);
}

#[test]
fn each_expectation_is_reported_with_the_token_found() {
    fails("@{}", Expected::BlockName, Some(Token { kind: TokenKind::LBrace, offset: 1 }));
    fails("@true{}", Expected::BlockName, Some(Token { kind: TokenKind::BoolLiteral(true), offset: 1 }));
    fails("@A", Expected::LBrace, None);
    fails("@A{", Expected::RBrace, None);
    fails("@A{ a: 1", Expected::RBrace, None);
    fails("@A{ 1: a }", Expected::Key, Some(Token { kind: TokenKind::NumberLiteral("1".to_string()), offset: 4 }));
    fails("@A{ [1] }", Expected::Key, Some(Token { kind: TokenKind::LBracket, offset: 4 }));
    fails("@A{ a 1 }", Expected::Colon, Some(Token { kind: TokenKind::NumberLiteral("1".to_string()), offset: 6 }));
    fails("@A{ a", Expected::Colon, None);
    fails("@A{ a: }", Expected::Value, Some(Token { kind: TokenKind::RBrace, offset: 7 }));
    fails("@A{ a:", Expected::Value, None);
    fails("@A{ a: @B{} }", Expected::Value, Some(Token { kind: TokenKind::At, offset: 7 }));
    fails("@A{ a: [1", Expected::RBracket, None);
    fails("@A{ a: [1, 2 }", Expected::RBracket, Some(Token { kind: TokenKind::RBrace, offset: 13 }));
    fails("@A{ a: [ }", Expected::Value, Some(Token { kind: TokenKind::RBrace, offset: 9 }));
    fails("@A{ a: [", Expected::RBracket, None);
}

#[test]
fn malformed_number_is_a_syntax_error_that_holds_its_text() {
    fails(
        "@A{ a: 1.2.3 }",
        Expected::Number,
        Some(Token { kind: TokenKind::NumberLiteral("1.2.3".to_string()), offset: 7 }),
    );
    fails(
        "@A{ a: [1, 2..] }",
        Expected::Number,
        Some(Token { kind: TokenKind::NumberLiteral("2..".to_string()), offset: 11 }),
    );
    assert!(parse("@A{ a: 1. b: 0.5 }").is_ok());
}

#[test]
fn list_must_start_with_a_bracket() {
    let tokens = lex("1, 2]").unwrap();
    let mut parser = Parser::new(&tokens);
    assert_eq!(
        parser.parse_list(),
        Err(ParseError {
            expected: Expected::LBracket,
            found: Some(Token { kind: TokenKind::NumberLiteral("1".to_string()), offset: 0 }),
        })
    );
}

#[test]
fn cursor_helpers_walk_the_buffer() {
    let tokens = lex("@ a").unwrap();
    let mut parser = Parser::new(&tokens);
    assert!(!parser.eof());
    assert!(parser.peek_is(&TokenKind::At));
    assert!(!parser.peek_is(&TokenKind::Colon));
    assert_eq!(parser.peek(), Some(&tokens[0]));
    assert_eq!(parser.expect(&TokenKind::At, Expected::At), Ok(()));
    assert_eq!(parser.pos, 1);
    assert!(parser.peek_is(&TokenKind::Identifier(String::new())));
    assert_eq!(
        parser.expect(&TokenKind::Colon, Expected::Colon),
        Err(ParseError { expected: Expected::Colon, found: Some(tokens[1].duplicate()) })
    );
    assert_eq!(parser.pos, 2);
    assert!(parser.eof());
    assert_eq!(parser.next(), None);
    assert_eq!(parser.pos, 2);
    assert!(!parser.peek_is(&TokenKind::At));
    assert_eq!(
        parser.expect(&TokenKind::At, Expected::At),
        Err(ParseError { expected: Expected::At, found: None })
    );
}

#[test]
fn parse_value_and_entry_stop_behind_what_they_read() {
    let tokens = lex("k: [a] rest").unwrap();
    let mut parser = Parser::new(&tokens);
    assert_eq!(parser.parse_entry(), Ok(pair("k", Value::Array(vec![text("a")]))));
    assert_eq!(parser.pos, 5);
    assert_eq!(parser.parse_value(), Ok(text("rest")));
    assert!(parser.eof());
}

#[test]
fn parse_args_stops_at_the_first_token_that_is_no_identifier() {
    let tokens = lex("a b { c").unwrap();
    let mut parser = Parser::new(&tokens);
    assert_eq!(parser.parse_args(), Some(BlockArgs { raw: "a b".to_string() }));
    assert_eq!(parser.pos, 2);
    assert_eq!(parser.parse_args(), None);
    assert_eq!(parser.pos, 2);
    let tokens = lex("a : b {").unwrap();
    let mut parser = Parser::new(&tokens);
    assert_eq!(parser.parse_args(), Some(BlockArgs { raw: "a".to_string() }));
    assert_eq!(parser.pos, 1);
    let tokens = lex("a b").unwrap();
    let mut parser = Parser::new(&tokens);
    assert_eq!(parser.parse_args(), Some(BlockArgs { raw: "a b".to_string() }));
    assert!(parser.eof());
}

#[test]
fn parse_document_reports_lexical_errors_first() {
    assert_eq!(
        parse_document("@A{ a: # }"),
        Err(LoadAlnError::Lex(LexError::UnexpectedChar { ch: '#', offset: 7 }))
    );
    assert_eq!(
        parse_document("x 'open"),
        Err(LoadAlnError::Lex(LexError::UnterminatedString { offset: 2 }))
    );
    assert_eq!(
        parse_document("x"),
        Err(LoadAlnError::Parse(ParseError {
            expected: Expected::At,
            found: Some(Token { kind: TokenKind::Identifier("x".to_string()), offset: 0 }),
        }))
    );
}

#[test]
fn parsing_is_deterministic() {
    let source = "@A b { k: [1, 'x', true] @N { f: false } } @B{}";
    assert_eq!(parse_document(source), parse_document(source));
    assert!(parse_document(source).is_ok());
}

#[test]
fn tokens_behind_a_document_parse_as_a_document_of_their_own() {
    let first = lex("@A{ k: v }").unwrap();
    for tail in ["x", "}", "@B{", "@B", "@", "@B{} @C{ k }", ": @B{}", "@B{ a: 1.2.3 }"] {
        let more = lex(tail).unwrap();
        let alone = parse_tokens(&more).expect_err("the tail should not parse");
        let mut all = first.clone();
        all.extend(more.iter().cloned());
        assert_eq!(parse_tokens(&all), Err(alone), "{tail}");
    }
    for tail in ["", "@B{}", "@B x { @C{} } @D{}"] {
        let more = lex(tail).unwrap();
        let mut expected = parse_tokens(&first).unwrap();
        expected.items.extend(parse_tokens(&more).unwrap().items);
        let mut all = first.clone();
        all.extend(more.iter().cloned());
        assert_eq!(parse_tokens(&all), Ok(expected), "{tail}");
    }
}

#[test]
fn document_that_parses_ends_with_a_closing_brace() {
    for text in ["@A{}", "@A b c { k: [1] @N{} }", "@A{} @B{ k: v }"] {
        let tokens = lex(text).unwrap();
        assert!(parse_tokens(&tokens).is_ok());
        assert_eq!(tokens[0].kind, TokenKind::At);
        assert_eq!(tokens[tokens.len() - 1].kind, TokenKind::RBrace);
    }
}

#[test]
fn block_names_and_keys_are_never_empty() {
    fn check(block: &Block) {
        assert!(!block.name.is_empty());
        for entry in &block.body {
            match entry {
                BlockEntry::KeyValue { key, .. } => assert!(!key.is_empty()),
                BlockEntry::NestedBlock(nested) => check(nested),
                BlockEntry::List(_) => {}
            }
        }
    }
    let file = parse("@A x { k: v @B { _: 1 @C{} } j: [w] } @D{}").unwrap();
    assert_eq!(file.items.len(), 2);
    for item in &file.items {
        match item {
            AlnItem::Block(block) => check(block),
        }
    }
}

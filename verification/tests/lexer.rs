use oxc_graphql_parser::lexer::{Lexer, TokenKind};

#[test]
fn lexer_tests() {
    let source = r#"
type Query {
  hello(name: String = "world"): String
}
"#;
    let (tokens, errors) = Lexer::new(source).lex();
    assert!(errors.is_empty());
    assert!(tokens.iter().any(|token| token.kind() == TokenKind::Name && token.data() == "Query"));
}

fn kinds(source: &str) -> Vec<TokenKind> {
    let (tokens, errors) = Lexer::new(source).lex();
    assert!(errors.is_empty(), "{errors:?}");
    tokens.iter().map(|t| t.kind()).collect()
}

#[test]
fn lexes_every_punctuator() {
    assert_eq!(
        kinds("!$&...:=@()[]{}|"),
        [
            TokenKind::Bang,
            TokenKind::Dollar,
            TokenKind::Amp,
            TokenKind::Spread,
            TokenKind::Colon,
            TokenKind::Eq,
            TokenKind::At,
            TokenKind::LParen,
            TokenKind::RParen,
            TokenKind::LBracket,
            TokenKind::RBracket,
            TokenKind::LCurly,
            TokenKind::RCurly,
            TokenKind::Pipe,
            TokenKind::Eof,
        ]
    );
}

#[test]
fn lexes_ignored_tokens_and_values() {
    assert_eq!(
        kinds("a, # c\n-12 3.5e+2 \"s\" \"\"\"b\"\"\""),
        [
            TokenKind::Name,
            TokenKind::Comma,
            TokenKind::Whitespace,
            TokenKind::Comment,
            TokenKind::Whitespace,
            TokenKind::Int,
            TokenKind::Whitespace,
            TokenKind::Float,
            TokenKind::Whitespace,
            TokenKind::StringValue,
            TokenKind::Whitespace,
            TokenKind::StringValue,
            TokenKind::Eof,
        ]
    );
}

#[test]
fn tokens_and_errors_tile_the_source() {
    let source = "query { a(b: \"x\\q\") ? .. 1. } \u{e9} # end";
    let (tokens, errors) = Lexer::new(source).lex();
    let mut pieces: Vec<(usize, &str)> = tokens.iter().map(|t| (t.index(), t.data())).collect();
    pieces.extend(errors.iter().map(|e| (e.index(), e.data())));
    pieces.sort();
    let mut offset = 0;
    let mut rebuilt = String::new();
    for (index, data) in pieces {
        assert_eq!(index, offset);
        rebuilt.push_str(data);
        offset += data.len();
    }
    assert_eq!(rebuilt, source);
    assert_eq!(tokens.last().unwrap().kind(), TokenKind::Eof);
    assert_eq!(tokens.last().unwrap().index(), source.len());
}

fn single_error(source: &str) -> (String, String, usize) {
    let (_, errors) = Lexer::new(source).lex();
    assert_eq!(errors.len(), 1, "{errors:?}");
    (errors[0].message().to_string(), errors[0].data().to_string(), errors[0].index())
}

#[test]
fn unexpected_character_error() {
    assert_eq!(single_error("a ? b"), ("Unexpected character".to_string(), "?".to_string(), 2));
}

#[test]
fn unterminated_spread_error() {
    assert_eq!(
        single_error("..a"),
        ("Unterminated spread operator".to_string(), "..".to_string(), 0)
    );
}

#[test]
fn unterminated_string_error() {
    let (message, data, index) = single_error("x \"abc\ny");
    assert_eq!(message, "Unterminated string value");
    assert_eq!(index, 2);
    assert!(data.starts_with("\"abc"));
}

#[test]
fn unterminated_block_string_error() {
    let (message, data, index) = single_error("\"\"\"abc");
    assert_eq!(message, "Unterminated block string value");
    assert_eq!(data, "\"\"\"abc");
    assert_eq!(index, 0);
}

#[test]
fn invalid_escape_error() {
    let (message, data, index) = single_error("\"a\\qb\"");
    assert_eq!(message, "Invalid escape sequence in string value");
    assert_eq!(data, "\"a\\qb\"");
    assert_eq!(index, 0);
}

#[test]
fn invalid_number_error() {
    let (message, _, index) = single_error("1.");
    assert_eq!(message, "Invalid number");
    assert_eq!(index, 0);
}

#[test]
fn token_limit_stops_lexing() {
    let (tokens, errors) = Lexer::new("a b c").with_limit(2).lex();
    assert_eq!(tokens.len(), 2);
    assert_eq!(errors.len(), 1);
    assert!(errors[0].is_limit());
    assert_eq!(errors[0].message(), "token limit reached, aborting lexing");
    assert_eq!(errors[0].index(), 2);
}

#[test]
fn next_item_hands_out_items_then_none() {
    let mut lexer = Lexer::new("a");
    let first = lexer.next_item().unwrap().unwrap();
    assert_eq!(first.kind(), TokenKind::Name);
    assert_eq!(first.data(), "a");
    let eof = lexer.next_item().unwrap().unwrap();
    assert_eq!(eof.kind(), TokenKind::Eof);
    assert!(lexer.next_item().is_none());
    assert!(lexer.next_item().is_none());
}

#[test]
fn limit_tracker_counts_tokens() {
    let mut lexer = Lexer::new("a b").with_limit(10);
    while lexer.next_item().is_some() {}
    assert_eq!(lexer.limit_tracker().limit(), 10);
    assert_eq!(lexer.limit_tracker().current(), 3);
}

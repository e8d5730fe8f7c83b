use oxc_allocator::Allocator;
use oxc_graphql_parser::ast::{
    Argument, Definition, Directive, OperationType, Selection, SelectionSet, Type, Value,
};
use oxc_graphql_parser::lexer::{Lexer, TokenKind};
use oxc_graphql_parser::parser::Parser;

type Tok = (TokenKind, String);

fn significant_tokens(source: &str) -> Vec<Tok> {
    let (tokens, errors) = Lexer::new(source).lex();
    assert!(errors.is_empty());
    tokens
        .iter()
        .filter(|t| {
            !matches!(t.kind(), TokenKind::Whitespace | TokenKind::Comment | TokenKind::Comma)
        })
        .map(|t| {
            let text = match t.kind() {
                TokenKind::Name | TokenKind::Int | TokenKind::Float | TokenKind::StringValue => {
                    t.data().to_string()
                }
                _ => String::new(),
            };
            (t.kind(), text)
        })
        .collect()
}

fn p(k: TokenKind) -> Tok {
    (k, String::new())
}

fn name(s: &str) -> Tok {
    (TokenKind::Name, s.to_string())
}

fn type_tokens(t: &Type, out: &mut Vec<Tok>) {
    match t {
        Type::Named(n) => out.push(name(n.name.as_str())),
        Type::List(l) => {
            out.push(p(TokenKind::LBracket));
            type_tokens(&l.ty, out);
            out.push(p(TokenKind::RBracket));
        }
        Type::NonNull(n) => {
            type_tokens(&n.ty, out);
            out.push(p(TokenKind::Bang));
        }
        Type::Missing(_) => {}
    }
}

fn value_tokens(v: &Value, out: &mut Vec<Tok>) {
    match v {
        Value::Variable(x) => {
            out.push(p(TokenKind::Dollar));
            out.push(name(x.name.as_str()));
        }
        Value::Int(x) => out.push((TokenKind::Int, x.raw.to_string())),
        Value::Float(x) => out.push((TokenKind::Float, x.raw.to_string())),
        Value::String(x) => out.push((TokenKind::StringValue, x.raw.to_string())),
        Value::Boolean(x) => out.push(name(if x.value { "true" } else { "false" })),
        Value::Null(_) => out.push(name("null")),
        Value::Enum(x) => out.push(name(x.name.as_str())),
        Value::List(l) => {
            out.push(p(TokenKind::LBracket));
            for v in &l.values {
                value_tokens(v, out);
            }
            out.push(p(TokenKind::RBracket));
        }
        Value::Object(o) => {
            out.push(p(TokenKind::LCurly));
            for f in &o.fields {
                out.push(name(f.name.as_str()));
                out.push(p(TokenKind::Colon));
                if let Some(v) = &f.value {
                    value_tokens(v, out);
                }
            }
            out.push(p(TokenKind::RCurly));
        }
        Value::Missing(_) => {}
    }
}

fn arguments_tokens(args: &[Argument], out: &mut Vec<Tok>) {
    if args.is_empty() {
        return;
    }
    out.push(p(TokenKind::LParen));
    for a in args {
        out.push(name(a.name.as_str()));
        out.push(p(TokenKind::Colon));
        if let Some(v) = &a.value {
            value_tokens(v, out);
        }
    }
    out.push(p(TokenKind::RParen));
}

fn directives_tokens(ds: &[Directive], out: &mut Vec<Tok>) {
    for d in ds {
        out.push(p(TokenKind::At));
        out.push(name(d.name.as_str()));
        arguments_tokens(&d.arguments, out);
    }
}

fn selection_set_tokens(ss: &SelectionSet, out: &mut Vec<Tok>) {
    out.push(p(TokenKind::LCurly));
    for s in &ss.selections {
        match s {
            Selection::Field(f) => {
                if let Some(a) = &f.alias {
                    out.push(name(a.as_str()));
                    out.push(p(TokenKind::Colon));
                }
                out.push(name(f.name.as_str()));
                arguments_tokens(&f.arguments, out);
                directives_tokens(&f.directives, out);
                if let Some(inner) = &f.selection_set {
                    selection_set_tokens(inner, out);
                }
            }
            Selection::FragmentSpread(f) => {
                out.push(p(TokenKind::Spread));
                out.push(name(f.name.as_str()));
                directives_tokens(&f.directives, out);
            }
            Selection::InlineFragment(f) => {
                out.push(p(TokenKind::Spread));
                if let Some(t) = &f.type_condition {
                    out.push(name("on"));
                    out.push(name(t.name.as_str()));
                }
                directives_tokens(&f.directives, out);
                if let Some(inner) = &f.selection_set {
                    selection_set_tokens(inner, out);
                }
            }
        }
    }
    out.push(p(TokenKind::RCurly));
}

#[test]
fn selection_set_tokens_are_the_first_source_tokens() {
    let source = r#"{ a: b(x: [1, 2.5, "s", true, null, RED, {k: $v}]) @d(y: 1) { c }
        ...F @skip(if: $x) ... on T { d } ... @e { f } } trailing tokens"#;
    let allocator = Allocator::default();
    let ast = Parser::new(&allocator, source).parse_selection_set();
    assert_eq!(ast.errors().len(), 0);
    let mut printed = Vec::new();
    selection_set_tokens(ast.field_set(), &mut printed);
    let all = significant_tokens(source);
    assert_eq!(&all[..printed.len()], &printed[..]);
}

#[test]
fn type_tokens_are_the_first_source_tokens() {
    for source in ["[[Int!]]!", "String", "[ID] rest", "Int!!"] {
        let allocator = Allocator::default();
        let ast = Parser::new(&allocator, source).parse_type();
        assert_eq!(ast.errors().len(), 0, "{source}");
        let mut printed = Vec::new();
        type_tokens(ast.ty(), &mut printed);
        let all = significant_tokens(source);
        assert_eq!(&all[..printed.len()], &printed[..], "{source}");
        if !matches!(ast.ty(), Type::NonNull(_)) {
            assert_ne!(all[printed.len()].0, TokenKind::Bang);
        }
    }
}

#[test]
fn empty_argument_lists_leave_no_trace() {
    let allocator = Allocator::default();
    let ast = Parser::new(&allocator, "{ f() }").parse_selection_set();
    assert_eq!(ast.errors().len(), 0);
    let Selection::Field(field) = &ast.field_set().selections[0] else {
        panic!("expected a field");
    };
    assert!(field.arguments.is_empty());
}

#[test]
fn selection_sets_as_deep_as_the_recursion_limit_parse_cleanly() {
    let allocator = Allocator::default();
    let ast = Parser::new(&allocator, "{ a { b } }").recursion_limit(2).parse_selection_set();
    assert_eq!(ast.errors().len(), 0);
    let allocator = Allocator::default();
    let ast = Parser::new(&allocator, "{ a { b } }").recursion_limit(1).parse_selection_set();
    assert!(ast.errors().len() > 0);
}

#[test]
fn a_spread_named_on_is_read_as_an_inline_fragment() {
    let allocator = Allocator::default();
    let ast = Parser::new(&allocator, "{ ...on }").parse_selection_set();
    assert!(ast.errors().len() > 0);
    let allocator = Allocator::default();
    let ast = Parser::new(&allocator, "{ ...onion }").parse_selection_set();
    assert_eq!(ast.errors().len(), 0);
    assert!(matches!(ast.field_set().selections[0], Selection::FragmentSpread(_)));
}

#[test]
fn executable_documents_parse_cleanly() {
    let source = r#"query Q($a: [Int!]! = [1, 2] @d(x: {k: "v"}), $b: ID) @dir(y: $b) {
        f(a: $a) ...F ... on T { g }
    }
    fragment F on T @x { g }
    { h }
    mutation { m }
    subscription S { s }"#;
    let allocator = Allocator::default();
    let ast = Parser::new(&allocator, source).parse();
    assert_eq!(ast.errors().len(), 0);
    assert_eq!(ast.document().definitions.len(), 5);
}

#[test]
fn a_variable_in_a_default_value_is_an_error() {
    let allocator = Allocator::default();
    let ast = Parser::new(&allocator, "query ($a: Int = $b) { f }").parse();
    assert!(ast.errors().len() > 0);
}

fn definition_tokens(d: &Definition, shorthand: bool, out: &mut Vec<Tok>) {
    match d {
        Definition::Operation(op) => {
            if !shorthand {
                out.push(name(match op.operation_type {
                    OperationType::Query => "query",
                    OperationType::Mutation => "mutation",
                    OperationType::Subscription => "subscription",
                }));
                if let Some(n) = &op.name {
                    out.push(name(n.as_str()));
                }
                if !op.variable_definitions.is_empty() {
                    out.push(p(TokenKind::LParen));
                    for v in &op.variable_definitions {
                        out.push(p(TokenKind::Dollar));
                        out.push(name(v.variable.name.as_str()));
                        out.push(p(TokenKind::Colon));
                        if let Some(t) = &v.ty {
                            type_tokens(t, out);
                        }
                        if let Some(d) = &v.default_value {
                            out.push(p(TokenKind::Eq));
                            value_tokens(d, out);
                        }
                        directives_tokens(&v.directives, out);
                    }
                    out.push(p(TokenKind::RParen));
                }
                directives_tokens(&op.directives, out);
            }
            if let Some(ss) = &op.selection_set {
                selection_set_tokens(ss, out);
            }
        }
        Definition::Fragment(f) => {
            out.push(name("fragment"));
            out.push(name(f.name.as_str()));
            out.push(name("on"));
            out.push(name(f.type_condition.name.as_str()));
            directives_tokens(&f.directives, out);
            if let Some(ss) = &f.selection_set {
                selection_set_tokens(ss, out);
            }
        }
        _ => {}
    }
}

#[test]
fn executable_document_tokens_are_the_source_tokens() {
    let source = "query Q($a: [Int]! = [1] @d, $b: ID) @e { f(x: $a) } { g } fragment F on T @h { i }";
    let allocator = Allocator::default();
    let ast = Parser::new(&allocator, source).parse();
    assert_eq!(ast.errors().len(), 0);
    let mut printed = Vec::new();
    for (d, shorthand) in ast.document().definitions.iter().zip([false, true, false]) {
        definition_tokens(d, shorthand, &mut printed);
    }
    let all = significant_tokens(source);
    assert_eq!(all.last().map(|t| t.0), Some(TokenKind::Eof));
    assert_eq!(&all[..all.len() - 1], &printed[..]);
}

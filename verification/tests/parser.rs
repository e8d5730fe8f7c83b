use oxc_allocator::Allocator;
use oxc_graphql_parser::ast;
use oxc_graphql_parser::parser::Parser;
use oxc_graphql_parser::variables::collect_variables;

#[test]
fn parser_parses_object_type_definition() {
    let source = r#"
type Query {
  hello(name: String = "world"): String
}
"#;
    let allocator = Allocator::default();
    let ast = Parser::new(&allocator, source).parse();

    assert_eq!(ast.errors().len(), 0);
    let document = ast.document();
    assert_eq!(document.definitions.len(), 1);

    let ast::Definition::ObjectType(object) = &document.definitions[0] else {
        panic!("expected object type definition");
    };
    assert_eq!(object.name.as_str(), "Query");
    assert_eq!(object.fields.len(), 1);
    assert_eq!(object.fields[0].name.as_str(), "hello");
    assert_eq!(object.fields[0].arguments[0].name.as_str(), "name");
}

#[test]
fn parser_parses_query_variables_and_used_variables() {
    let source = r#"
query GraphQuery($graph_id: ID!, $variant: String) {
  service(id: $graph_id) {
    schema(tag: $variant) {
      document
    }
  }
}
"#;
    let allocator = Allocator::default();
    let ast = Parser::new(&allocator, source).parse();
    assert_eq!(ast.errors().len(), 0);

    let ast::Definition::Operation(operation) = &ast.document().definitions[0] else {
        panic!("expected operation definition");
    };
    assert_eq!(operation.name.as_ref().unwrap().as_str(), "GraphQuery");
    assert_eq!(operation.variable_definitions.len(), 2);

    let mut used = Vec::new();
    collect_variables(operation.selection_set.as_ref().unwrap(), &mut used);
    assert_eq!(used, ["graph_id", "variant"]);
}

#[test]
fn parser_parses_selection_set_and_type_roots() {
    let allocator = Allocator::default();
    let selection = Parser::new(&allocator, "{ product { name } }").parse_selection_set();
    assert_eq!(selection.errors().len(), 0);
    assert_eq!(selection.field_set().selections.len(), 1);

    let ty = Parser::new(&allocator, "[String!]!").parse_type();
    assert_eq!(ty.errors().len(), 0);
    assert!(matches!(ty.ty(), ast::Type::NonNull(_)));
}

#[test]
fn parser_parses_legacy_fragment_variables() {
    let source = "fragment F($v: Int) on T { f(x: $v) }";
    let allocator = Allocator::default();
    let ast = Parser::new(&allocator, source).allow_legacy_fragment_variables(true).parse();
    assert_eq!(ast.errors().len(), 0);

    let ast::Definition::Fragment(fragment) = &ast.document().definitions[0] else {
        panic!("expected fragment definition");
    };
    assert_eq!(fragment.name.as_str(), "F");
    assert_eq!(fragment.variable_definitions.len(), 1);
    assert_eq!(fragment.variable_definitions[0].variable.name.as_str(), "v");
}

#[test]
fn it_parses_fragment_description_when_enabled() {
    let input = "\"Fragment description\"\nfragment ProfilePic on User { id }";
    let allocator = Allocator::default();
    let ast = Parser::new(&allocator, input).allow_executable_descriptions(true).parse();

    assert_eq!(ast.errors().len(), 0);
    let def = &ast.document().definitions[0];
    let ast::Definition::Fragment(frag) = def else {
        panic!("expected a FragmentDefinition");
    };
    assert!(frag.description.is_some());
}

#[test]
fn it_parses_legacy_fragment_variables_when_enabled() {
    let input = "fragment ProfilePic($size: Int = 32) on User { profilePic(size: $size) }";
    let allocator = Allocator::default();
    let ast = Parser::new(&allocator, input).allow_legacy_fragment_variables(true).parse();

    assert_eq!(ast.errors().len(), 0);
    let def = &ast.document().definitions[0];
    let ast::Definition::Fragment(frag) = def else {
        panic!("expected a FragmentDefinition");
    };
    assert!(!frag.variable_definitions.is_empty());
}

#[test]
fn it_errors_on_legacy_fragment_variables_when_disabled() {
    let input = "fragment ProfilePic($size: Int) on User { id }";
    let allocator = Allocator::default();
    let ast = Parser::new(&allocator, input).parse();

    assert_ne!(ast.errors().len(), 0);
}

#[test]
fn it_parses_operation_description_when_enabled() {
    let input = "\"Query description\"\nquery MyQuery { field }";
    let allocator = Allocator::default();
    let ast = Parser::new(&allocator, input).allow_executable_descriptions(true).parse();

    assert_eq!(ast.errors().len(), 0);
    let def = &ast.document().definitions[0];
    let ast::Definition::Operation(op) = def else {
        panic!("expected an OperationDefinition");
    };
    assert!(op.description.is_some());
}

#[test]
fn it_accesses_variable_name_and_type() {
    let gql = r#"
query GroceryStoreTrip($budget: Int) {
    name
}
        "#;
    let allocator = Allocator::default();
    let ast = Parser::new(&allocator, gql).parse();

    assert!(ast.errors().len() == 0);

    for definition in &ast.document().definitions {
        if let ast::Definition::Operation(op_def) = definition {
            for var in &op_def.variable_definitions {
                assert_eq!(var.variable.name.as_str(), "budget");
                if let Some(ast::Type::Named(named)) = &var.ty {
                    assert_eq!(named.name.as_str(), "Int")
                }
            }
        }
    }
}

#[test]
fn it_parses_variable_definition_description_when_enabled() {
    let input = "query Q(\"Budget for the trip\" $budget: Int) { name }";
    let allocator = Allocator::default();
    let ast = Parser::new(&allocator, input).allow_executable_descriptions(true).parse();

    assert_eq!(ast.errors().len(), 0);
    let def = &ast.document().definitions[0];
    let ast::Definition::Operation(op) = def else {
        panic!("expected an OperationDefinition");
    };
    let var = &op.variable_definitions[0];
    assert!(var.description.is_some());
}

#[test]
fn variable_definition_description_is_an_error_when_disabled() {
    let input = "query Q(\"Budget for the trip\" $budget: Int) { name }";
    let allocator = Allocator::default();
    let ast = Parser::new(&allocator, input).parse();
    assert_ne!(ast.errors().len(), 0);
}

#[test]
fn readme_union_parses_without_errors() {
    let allocator = Allocator::default();
    let ast = Parser::new(&allocator, "union SearchResult = Photo | Person | Cat | Dog").parse();
    assert_eq!(0, ast.errors().len());
    let ast::Definition::UnionType(union) = &ast.document().definitions[0] else {
        panic!("expected a union type definition");
    };
    assert_eq!(union.name.as_str(), "SearchResult");
    let members: Vec<&str> = union.members.iter().map(|m| m.name.as_str()).collect();
    assert_eq!(members, ["Photo", "Person", "Cat", "Dog"]);
}

#[test]
fn readme_object_field_names() {
    let input = "
type ProductDimension {
  size: String
  weight: Float @tag(name: \"hi from inventory value type field\")
}
";
    let allocator = Allocator::default();
    let ast = Parser::new(&allocator, input).parse();
    assert_eq!(0, ast.errors().len());
    let ast::Definition::ObjectType(object) = &ast.document().definitions[0] else {
        panic!("expected object type");
    };
    assert_eq!(object.name.as_str(), "ProductDimension");
    let names: Vec<&str> = object.fields.iter().map(|f| f.name.as_str()).collect();
    assert_eq!(names, ["size", "weight"]);
    let ast::Value::String(s) = object.fields[1].directives[0].arguments[0].value.as_ref().unwrap()
    else {
        panic!("expected a string value");
    };
    assert_eq!(s.value, "hi from inventory value type field");
}

#[test]
fn readme_query_variable_definitions() {
    let input = "
query GraphQuery($graph_id: ID!, $variant: String) {
  service(id: $graph_id) {
    schema(tag: $variant) {
      document
    }
  }
}
";
    let allocator = Allocator::default();
    let ast = Parser::new(&allocator, input).parse();
    assert_eq!(0, ast.errors().len());
    let ast::Definition::Operation(operation) = &ast.document().definitions[0] else {
        panic!("expected an operation");
    };
    let names: Vec<&str> =
        operation.variable_definitions.iter().map(|d| d.variable.name.as_str()).collect();
    assert_eq!(names, ["graph_id", "variant"]);
}

#[test]
fn architecture_entry_points() {
    let allocator = Allocator::default();
    let document = Parser::new(&allocator, "query Q { viewer { id } }").parse();
    assert_eq!(document.errors().len(), 0);
    let selection_set = Parser::new(&allocator, "{ viewer { id } }").parse_selection_set();
    assert_eq!(selection_set.errors().len(), 0);
    let ty = Parser::new(&allocator, "[String!]!").parse_type();
    assert_eq!(ty.errors().len(), 0);

    let parsed = Parser::new(&allocator, "type Query { hello: String }").parse();
    let ast::Definition::ObjectType(object) = &parsed.document().definitions[0] else {
        panic!("expected object type");
    };
    assert_eq!(object.name.as_str(), "Query");
    assert_eq!(object.fields[0].name.as_str(), "hello");
}

#[test]
fn it_continues_parsing_when_operation_definition_starts_with_description() {
    let allocator = Allocator::default();
    let ast = Parser::new(&allocator, "\"description\"{}").parse();
    assert_eq!(ast.errors().len(), 2);
    assert_eq!(ast.document().definitions.len(), 1);
}

#[test]
fn descriptions_on_executable_definitions_need_the_flag() {
    for source in ["\"d\" query Q { f }", "\"d\" fragment F on T { a }"] {
        let allocator = Allocator::default();
        let ast = Parser::new(&allocator, source).parse();
        assert!(ast.errors().len() >= 1, "{source}");
        let allocator = Allocator::default();
        let ast = Parser::new(&allocator, source).allow_executable_descriptions(true).parse();
        assert_eq!(ast.errors().len(), 0, "{source}");
    }
    let allocator = Allocator::default();
    let ast = Parser::new(&allocator, "\"d\" { f }").allow_executable_descriptions(true).parse();
    assert_eq!(ast.errors().len(), 1);
}

#[test]
fn a_fragment_cannot_be_named_on() {
    let allocator = Allocator::default();
    let ast = Parser::new(&allocator, "fragment on on T { a }").parse();
    assert_eq!(ast.errors().len(), 1);
    assert_eq!(ast.errors().as_slice()[0].message(), "Fragment Name cannot be 'on'");
}

#[test]
fn empty_document_is_an_error() {
    let allocator = Allocator::default();
    let ast = Parser::new(&allocator, "   ").parse();
    assert_eq!(ast.errors().len(), 1);
    assert_eq!(ast.errors().as_slice()[0].message(), "Unexpected <EOF>.");
    assert!(ast.document().definitions.is_empty());
}

#[test]
fn parse_always_returns_a_tree_on_garbage() {
    let allocator = Allocator::default();
    let source = "{ ) } ] query ( $ : @ ... } type { ? \"open";
    let ast = Parser::new(&allocator, source).parse();
    assert!(ast.errors().len() != 0);
    for error in ast.errors() {
        assert!(error.index() <= source.len());
    }
}

#[test]
fn selection_set_with_stray_token_terminates() {
    let allocator = Allocator::default();
    let ast = Parser::new(&allocator, "{ ) }").parse_selection_set();
    assert!(ast.errors().len() != 0);
}

#[test]
fn variable_definitions_with_string_without_descriptions_terminate() {
    let allocator = Allocator::default();
    let ast = Parser::new(&allocator, "query Q(\"x\") { a }").parse();
    assert!(ast.errors().len() != 0);
}

#[test]
fn comments_are_collected_in_order() {
    let allocator = Allocator::default();
    let source = "# first\nquery { a } # second\n# third";
    let ast = Parser::new(&allocator, source).parse();
    assert_eq!(ast.errors().len(), 0);
    let texts: Vec<&str> = ast
        .comments()
        .iter()
        .map(|s| &source[s.start as usize..s.end as usize])
        .collect();
    assert_eq!(texts, ["# first", "# second", "# third"]);
}

#[test]
fn partial_roots_collect_only_comments_read() {
    let allocator = Allocator::default();
    let source = "# before\n[Int] next # after";
    let ast = Parser::new(&allocator, source).parse_type();
    assert_eq!(ast.errors().len(), 0);
    let texts: Vec<&str> = ast
        .comments()
        .iter()
        .map(|s| &source[s.start as usize..s.end as usize])
        .collect();
    assert_eq!(texts, ["# before"]);
}

#[test]
fn spans_point_back_into_the_source() {
    let allocator = Allocator::default();
    let source = "query Q($v: [Int!]) { f(a: $v, b: 12, c: 1.5, d: RED) }";
    let ast = Parser::new(&allocator, source).parse();
    assert_eq!(ast.errors().len(), 0);
    assert_eq!(ast.source(), source);
    let definition = &ast.document().definitions[0];
    assert_eq!(definition.name().unwrap().as_str(), "Q");
    let span = definition.span();
    assert_eq!(&source[span.start as usize..span.end as usize], source);
    let ast::Definition::Operation(op) = definition else {
        panic!("expected an operation");
    };
    let ty = op.variable_definitions[0].ty.as_ref().unwrap();
    let ts = ty.span();
    assert_eq!(&source[ts.start as usize..ts.end as usize], "[Int!]");
    let ast::Selection::Field(field) = &op.selection_set.as_ref().unwrap().selections[0] else {
        panic!("expected a field");
    };
    let texts: Vec<&str> = field
        .arguments
        .iter()
        .map(|a| {
            let s = a.value.as_ref().unwrap().span();
            &source[s.start as usize..s.end as usize]
        })
        .collect();
    assert_eq!(texts, ["$v", "12", "1.5", "RED"]);
    let selection_span = op.selection_set.as_ref().unwrap().selections[0].span();
    assert_eq!(
        &source[selection_span.start as usize..selection_span.end as usize],
        "f(a: $v, b: 12, c: 1.5, d: RED)"
    );
}

#[test]
fn string_values_are_unescaped_into_the_arena() {
    let allocator = Allocator::default();
    let source = r#"{ f(a: "x\ny\u0041", b: """
    block
      text
  """) }"#;
    let ast = Parser::new(&allocator, source).parse_selection_set();
    assert_eq!(ast.errors().len(), 0);
    let ast::Selection::Field(field) = &ast.field_set().selections[0] else {
        panic!("expected a field");
    };
    let ast::Value::String(a) = field.arguments[0].value.as_ref().unwrap() else {
        panic!("expected a string");
    };
    assert_eq!(a.raw, r#""x\ny\u0041""#);
    assert_eq!(a.value, "x\nyA");
    assert!(!a.block);
    let ast::Value::String(b) = field.arguments[1].value.as_ref().unwrap() else {
        panic!("expected a block string");
    };
    assert!(b.block);
    assert_eq!(b.value, "block\n  text");
}

#[test]
fn an_escaped_closing_quote_stays_in_the_value() {
    let allocator = Allocator::default();
    let ast = Parser::new(&allocator, r#"{ f(a: "a\"", b: "") }"#).parse_selection_set();
    assert_eq!(ast.errors().len(), 0);
    let ast::Selection::Field(field) = &ast.field_set().selections[0] else {
        panic!("expected a field");
    };
    let ast::Value::String(a) = field.arguments[0].value.as_ref().unwrap() else {
        panic!("expected a string");
    };
    assert_eq!(a.value, "a\"");
    let ast::Value::String(b) = field.arguments[1].value.as_ref().unwrap() else {
        panic!("expected a string");
    };
    assert_eq!(b.value, "");
}

#[test]
fn definition_names_and_extensions() {
    let allocator = Allocator::default();
    let source = "schema { query: Q } extend type T @d scalar S directive @x on FIELD | QUERY enum E { A B } input I { a: Int } interface N { f: Int } extend schema @d";
    let ast = Parser::new(&allocator, source).parse();
    assert_eq!(ast.errors().len(), 0);
    let names: Vec<Option<&str>> =
        ast.document().definitions.iter().map(|d| d.name().map(|n| n.as_str())).collect();
    assert_eq!(
        names,
        [None, Some("T"), Some("S"), Some("x"), Some("E"), Some("I"), Some("N"), None]
    );
}

#[test]
fn recursion_limit_is_reported() {
    let allocator = Allocator::default();
    let ast = Parser::new(&allocator, "{ a { b { c } } }").recursion_limit(2).parse_selection_set();
    assert!(ast.errors().any(|e| e.message() == "parser recursion limit reached"));
    assert!(ast.errors().any(|e| e.is_limit()));
    assert_eq!(ast.recursion_limit().limit(), 2);
    assert_eq!(ast.recursion_limit().current(), 0);

    let ok = Parser::new(&allocator, "{ a { b { c } } }").recursion_limit(3).parse_selection_set();
    assert_eq!(ok.errors().len(), 0);
    assert_eq!(ok.recursion_limit().high(), 3);
}

#[test]
fn token_limit_is_reported() {
    let allocator = Allocator::default();
    let ast = Parser::new(&allocator, "query { a b c d }").token_limit(4).parse();
    assert!(ast.errors().any(|e| e.message() == "token limit reached, aborting lexing"));
    assert_eq!(ast.token_limit().limit(), 4);

    let ok = Parser::new(&allocator, "query { a }").token_limit(100).parse();
    assert_eq!(ok.errors().len(), 0);
}

#[test]
fn lexing_errors_reach_the_parser_errors() {
    let allocator = Allocator::default();
    let ast = Parser::new(&allocator, "query { a ? }").parse();
    assert!(ast.errors().any(|e| e.message() == "Unexpected character" && e.data() == "?"));
}

#[test]
fn into_root_gives_the_root() {
    let allocator = Allocator::default();
    let ast = Parser::new(&allocator, "Int").parse_type();
    assert_eq!(ast.errors().len(), 0);
    let ast::Type::Named(named) = ast.into_root() else {
        panic!("expected a named type");
    };
    assert_eq!(named.name.as_str(), "Int");
}

#[test]
fn missing_type_is_reported() {
    let allocator = Allocator::default();
    let ast = Parser::new(&allocator, "!").parse_type();
    assert!(matches!(ast.root(), ast::Type::Missing(_)));
    assert_eq!(ast.errors().len(), 2);
    assert!(ast.errors().all(|e| e.message() == "expected a type"));
}

#[test]
fn placeholders_come_with_errors() {
    let allocator = Allocator::default();
    let ast = Parser::new(&allocator, "query { f(a: ) }").parse();
    assert!(ast.errors().len() != 0);
    let ast::Definition::Operation(op) = &ast.document().definitions[0] else {
        panic!("expected an operation");
    };
    let ast::Selection::Field(field) = &op.selection_set.as_ref().unwrap().selections[0] else {
        panic!("expected a field");
    };
    assert!(matches!(field.arguments[0].value, Some(ast::Value::Missing(_))));

    let ast = Parser::new(&allocator, "type T { f: }").parse();
    assert!(ast.errors().len() != 0);
    let ast::Definition::ObjectType(object) = &ast.document().definitions[0] else {
        panic!("expected an object type");
    };
    assert!(object.fields[0].ty.is_none());

    let ast = Parser::new(&allocator, "fragment on T { a }").parse();
    assert!(ast.errors().len() != 0);
}

#[test]
fn error_free_documents_have_definitions() {
    let allocator = Allocator::default();
    let ast = Parser::new(&allocator, "# only a comment\n").parse();
    assert!(ast.errors().len() != 0);
    assert!(ast.document().definitions.is_empty());
    let ast = Parser::new(&allocator, "scalar Date").parse();
    assert!(ast.errors().len() == 0);
    assert_eq!(ast.document().definitions.len(), 1);
}

#[test]
fn comments_stop_before_the_line_terminator() {
    let allocator = Allocator::default();
    let source = "# a\r\n{ b } #c\r";
    let ast = Parser::new(&allocator, source).parse();
    let texts: Vec<&str> = ast
        .comments()
        .iter()
        .map(|s| &source[s.start as usize..s.end as usize])
        .collect();
    assert_eq!(texts, ["# a", "#c"]);
}

#[test]
fn empty_selection_set_is_an_error() {
    let allocator = Allocator::default();
    let ast = Parser::new(&allocator, "{ }").parse_selection_set();
    assert_eq!(ast.errors().len(), 1);
    assert_eq!(ast.errors().as_slice()[0].message(), "expected Selection");
    assert!(ast.field_set().selections.is_empty());
}

#[test]
fn default_parser_has_no_token_limit_error() {
    let allocator = Allocator::default();
    let source = "query { a b c d e f g h i j k l m n o p q r s t u v w x y z }";
    let ast = Parser::new(&allocator, source).parse();
    assert!(ast.errors().len() == 0);
    assert_eq!(ast.token_limit().limit(), usize::MAX);
}

#[test]
fn a_document_mixing_types_unions_and_operations_parses_cleanly() {
    let source = "type Query { hello: String! tags: [String] @deprecated }\nunion U = A | B\nquery Q { hello }\n{ tags }";
    let allocator = Allocator::default();
    let ast = Parser::new(&allocator, source).parse();
    assert_eq!(ast.errors().len(), 0);
    let definitions = &ast.document().definitions;
    assert_eq!(definitions.len(), 4);
    let ast::Definition::ObjectType(object) = &definitions[0] else {
        panic!("expected an object type");
    };
    let names: Vec<&str> = object.fields.iter().map(|f| f.name.as_str()).collect();
    assert_eq!(names, ["hello", "tags"]);
    assert_eq!(object.fields[1].directives.len(), 1);
    let ast::Definition::UnionType(union) = &definitions[1] else {
        panic!("expected a union type");
    };
    let members: Vec<&str> = union.members.iter().map(|m| m.name.as_str()).collect();
    assert_eq!(members, ["A", "B"]);
    let ast::Definition::Operation(shorthand) = &definitions[3] else {
        panic!("expected an operation");
    };
    assert_eq!(shorthand.operation_type, ast::OperationType::Query);
    assert!(shorthand.name.is_none());
}

#[test]
fn a_union_with_a_leading_pipe_and_none_without_members_parse_cleanly() {
    let allocator = Allocator::default();
    let ast = Parser::new(&allocator, "union U = | A | B\nunion V").parse();
    assert_eq!(ast.errors().len(), 0);
    let ast::Definition::UnionType(u) = &ast.document().definitions[0] else {
        panic!("expected a union type");
    };
    assert_eq!(u.members.len(), 2);
    let ast::Definition::UnionType(v) = &ast.document().definitions[1] else {
        panic!("expected a union type");
    };
    assert_eq!(v.members.len(), 0);
}

#[test]
fn an_object_type_with_empty_braces_is_an_error() {
    let allocator = Allocator::default();
    let ast = Parser::new(&allocator, "type Query {}").parse();
    assert_eq!(ast.errors().len(), 1);
}

#[test]
fn a_description_before_an_extension_is_an_error() {
    let allocator = Allocator::default();
    let ast = Parser::new(&allocator, "\"d\" extend type T @a").parse();
    assert_eq!(ast.errors().len(), 1);
    assert!(matches!(ast.document().definitions[0], ast::Definition::ObjectTypeExtension(_)));
}

#[test]
fn an_extension_that_adds_nothing_is_an_error() {
    let allocator = Allocator::default();
    let ast = Parser::new(&allocator, "extend union U").parse();
    assert_eq!(ast.errors().len(), 1);
    assert!(matches!(ast.document().definitions[0], ast::Definition::UnionTypeExtension(_)));
}

#[test]
fn extensions_are_read_by_the_keyword_after_extend() {
    let allocator = Allocator::default();
    let ast = Parser::new(&allocator, "extend scalar Date @a\nextend union U = A\nextend enum E { X }").parse();
    assert_eq!(ast.errors().len(), 0);
    let definitions = &ast.document().definitions;
    assert_eq!(definitions.len(), 3);
    let ast::Definition::ScalarTypeExtension(scalar) = &definitions[0] else {
        panic!("expected a scalar extension");
    };
    assert_eq!(scalar.name.as_str(), "Date");
    let ast::Definition::UnionTypeExtension(union) = &definitions[1] else {
        panic!("expected a union extension");
    };
    assert_eq!(union.name.as_str(), "U");
    assert!(matches!(definitions[2], ast::Definition::EnumTypeExtension(_)));
}

#[test]
fn an_unknown_extension_is_an_error() {
    let allocator = Allocator::default();
    let ast = Parser::new(&allocator, "extend query Q { a }").parse();
    assert!(ast.errors().len() > 0);
}

#[test]
fn a_scalar_extension_without_directives_is_an_error() {
    let allocator = Allocator::default();
    let ast = Parser::new(&allocator, "extend scalar Date").parse();
    assert_eq!(ast.errors().len(), 1);
}

#[test]
fn a_type_nested_past_the_recursion_limit_is_an_error() {
    let allocator = Allocator::default();
    let deep = Parser::new(&allocator, "[[String]]").recursion_limit(1).parse_type();
    assert!(deep.errors().len() > 0);
    let fits = Parser::new(&allocator, "[[String]]").recursion_limit(2).parse_type();
    assert!(fits.errors().len() == 0);
}

#[test]
fn a_fragment_keeps_its_legacy_variables_and_description() {
    let allocator = Allocator::default();
    let ast = Parser::new(&allocator, "\"d\" fragment F($a: Int = 1) on T { f(x: $a) }")
        .allow_executable_descriptions(true)
        .allow_legacy_fragment_variables(true)
        .parse();
    assert_eq!(ast.errors().len(), 0);
    let ast::Definition::Fragment(fragment) = &ast.document().definitions[0] else {
        panic!("expected a fragment");
    };
    assert!(fragment.description.is_some());
    assert_eq!(fragment.variable_definitions.len(), 1);
    assert_eq!(fragment.span.start, 0);
}

#[test]
fn a_schema_with_arguments_and_extensions_parses_cleanly() {
    let source = "type Query { hello(name: String = \"world\", times: [Int!] @a): String }\nextend scalar Date @b\nextend union U = A | B";
    let allocator = Allocator::default();
    let ast = Parser::new(&allocator, source).parse();
    assert_eq!(ast.errors().len(), 0);
    let definitions = &ast.document().definitions;
    assert_eq!(definitions.len(), 3);
    let ast::Definition::ObjectType(object) = &definitions[0] else {
        panic!("expected an object type");
    };
    let arguments: Vec<&str> = object.fields[0].arguments.iter().map(|a| a.name.as_str()).collect();
    assert_eq!(arguments, ["name", "times"]);
    assert!(object.fields[0].arguments[0].default_value.is_some());
    let ast::Definition::UnionTypeExtension(union) = &definitions[2] else {
        panic!("expected a union extension");
    };
    let members: Vec<&str> = union.members.iter().map(|m| m.name.as_str()).collect();
    assert_eq!(members, ["A", "B"]);
}

#[test]
fn the_document_span_runs_from_the_first_token_to_the_last() {
    let allocator = Allocator::default();
    let ast = Parser::new(&allocator, "query Q { viewer { id } }").parse();
    assert_eq!(ast.errors().len(), 0);
    assert_eq!(ast.document().span.start, 0);
    assert_eq!(ast.document().span.end, 25);
    let padded = Parser::new(&allocator, "  # c\n  { a }  \n").parse();
    assert_eq!(padded.errors().len(), 0);
    assert_eq!(padded.document().span.start, 8);
    assert_eq!(padded.document().span.end, 13);
    let ast::Definition::Operation(op) = &padded.document().definitions[0] else {
        panic!("expected an operation");
    };
    assert_eq!(op.span.start, 8);
    assert_eq!(op.span.end, 13);
}

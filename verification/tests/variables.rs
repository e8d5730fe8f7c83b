use oxc_allocator::Allocator;
use oxc_graphql_parser::ast;
use oxc_graphql_parser::parser::Parser;
use oxc_graphql_parser::variables::{collect_variable_value, collect_variables};

#[test]
fn collects_variables_in_lists_objects_and_nested_selections() {
    let allocator = Allocator::default();
    let source = "{ f(a: [$x, {k: $y, j: [1, $w]}], b: 3) { g(c: $z) ...F ... on T { h(d: $skipped) } } }";
    let ast = Parser::new(&allocator, source).parse_selection_set();
    assert_eq!(ast.errors().len(), 0);
    let mut used = vec!["before"];
    collect_variables(ast.field_set(), &mut used);
    assert_eq!(used, ["before", "x", "y", "w", "z"]);
}

#[test]
fn collect_variable_value_of_none_and_scalars() {
    let allocator = Allocator::default();
    let ast = Parser::new(&allocator, "{ f(a: 1, b: $v, c: {d: $e}) }").parse_selection_set();
    let ast::Selection::Field(field) = &ast.field_set().selections[0] else {
        panic!("expected a field");
    };
    let mut used = Vec::new();
    collect_variable_value(None, &mut used);
    assert!(used.is_empty());
    collect_variable_value(field.arguments[0].value.as_ref(), &mut used);
    assert!(used.is_empty());
    collect_variable_value(field.arguments[1].value.as_ref(), &mut used);
    collect_variable_value(field.arguments[2].value.as_ref(), &mut used);
    assert_eq!(used, ["v", "e"]);
}

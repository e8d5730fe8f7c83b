//! The GraphQL syntax tree, with spans pointing back into the source text.
//!
//! Each node type has a well-formedness predicate, `wf`, over the bytes of the
//! source: every span lies within the source with its start no later than its
//! end, and every node that holds source text (names, numbers, strings,
//! directive locations) holds exactly the text its span covers.
use crate::error::{Error, LimitTracker};
use crate::strings::string_value;
use crate::text::bytes_of;
use vstd::prelude::*;

verus! {

/// A half-open byte range into the source text.
#[derive(Debug, Clone, Copy, PartialEq, Eq, Default, Hash, Structural)]
pub struct Span {
    pub start: u32,
    pub end: u32,
}

impl Span {
    pub fn new(start: u32, end: u32) -> (r: Span)
        ensures
            r.start == start,
            r.end == end,
    {
        Span { start, end }
    }
}

/// The span lies within `b`, start first.
pub open spec fn span_in(s: Span, b: Seq<u8>) -> bool {
    s.start <= s.end <= b.len()
}

/// `t` is the text of `b` that the span `s` covers.
pub open spec fn text_is(t: &str, s: Span, b: Seq<u8>) -> bool {
    span_in(s, b) && bytes_of(t) == b.subrange(s.start as int, s.end as int)
}

#[derive(Debug, Clone, Copy, PartialEq, Eq, Hash)]
pub struct Name<'a> {
    pub value: &'a str,
    pub span: Span,
}

impl<'a> Name<'a> {
    pub fn as_str(&self) -> (r: &'a str)
        ensures
            r == self.value,
    {
        self.value
    }
}

pub open spec fn name_wf(n: Name, b: Seq<u8>) -> bool {
    text_is(n.value, n.span, b)
}

#[derive(Debug, Clone, Copy, PartialEq, Eq, Hash)]
pub struct StringValue<'a> {
    pub raw: &'a str,
    pub value: &'a str,
    pub block: bool,
    pub span: Span,
}

/// The text starts with three double quotes.
pub open spec fn starts_with_triple_quote(s: Seq<char>) -> bool {
    s.len() >= 3 && s[0] == '"' && s[1] == '"' && s[2] == '"'
}

pub open spec fn string_value_wf(s: StringValue, b: Seq<u8>) -> bool {
    &&& text_is(s.raw, s.span, b)
    &&& s.block == starts_with_triple_quote(s.raw@)
    &&& s.value@ == string_value(s.raw@, s.block)
}

pub open spec fn opt_string_value_wf(s: Option<StringValue>, b: Seq<u8>) -> bool {
    match s {
        Some(s) => string_value_wf(s, b),
        None => true,
    }
}

#[derive(Debug, Clone, Copy, PartialEq, Eq, Hash, Structural)]
pub enum OperationType {
    Query,
    Mutation,
    Subscription,
}

#[derive(Debug, PartialEq)]
pub struct Document<'a> {
    pub definitions: Vec<Definition<'a>>,
    pub span: Span,
}

#[derive(Debug, PartialEq)]
pub enum Definition<'a> {
    Operation(OperationDefinition<'a>),
    Fragment(FragmentDefinition<'a>),
    Directive(DirectiveDefinition<'a>),
    Schema(SchemaDefinition<'a>),
    SchemaExtension(SchemaExtension<'a>),
    ScalarType(ScalarTypeDefinition<'a>),
    ScalarTypeExtension(ScalarTypeExtension<'a>),
    ObjectType(ObjectTypeDefinition<'a>),
    ObjectTypeExtension(ObjectTypeExtension<'a>),
    InterfaceType(InterfaceTypeDefinition<'a>),
    InterfaceTypeExtension(InterfaceTypeExtension<'a>),
    UnionType(UnionTypeDefinition<'a>),
    UnionTypeExtension(UnionTypeExtension<'a>),
    EnumType(EnumTypeDefinition<'a>),
    EnumTypeExtension(EnumTypeExtension<'a>),
    InputObjectType(InputObjectTypeDefinition<'a>),
    InputObjectTypeExtension(InputObjectTypeExtension<'a>),
}

#[derive(Debug, PartialEq)]
pub struct OperationDefinition<'a> {
    pub description: Option<StringValue<'a>>,
    pub operation_type: OperationType,
    pub name: Option<Name<'a>>,
    pub variable_definitions: Vec<VariableDefinition<'a>>,
    pub directives: Vec<Directive<'a>>,
    pub selection_set: Option<SelectionSet<'a>>,
    pub span: Span,
}

#[derive(Debug, PartialEq)]
pub struct FragmentDefinition<'a> {
    pub description: Option<StringValue<'a>>,
    pub name: Name<'a>,
    pub variable_definitions: Vec<VariableDefinition<'a>>,
    pub type_condition: NamedType<'a>,
    pub directives: Vec<Directive<'a>>,
    pub selection_set: Option<SelectionSet<'a>>,
    pub span: Span,
}

#[derive(Debug, PartialEq)]
pub struct SelectionSet<'a> {
    pub selections: Vec<Selection<'a>>,
    pub span: Span,
}

#[derive(Debug, PartialEq)]
pub enum Selection<'a> {
    Field(Field<'a>),
    FragmentSpread(FragmentSpread<'a>),
    InlineFragment(InlineFragment<'a>),
}

#[derive(Debug, PartialEq)]
pub struct Field<'a> {
    pub alias: Option<Name<'a>>,
    pub name: Name<'a>,
    pub arguments: Vec<Argument<'a>>,
    pub directives: Vec<Directive<'a>>,
    pub selection_set: Option<SelectionSet<'a>>,
    pub span: Span,
}

#[derive(Debug, PartialEq)]
pub struct FragmentSpread<'a> {
    pub name: Name<'a>,
    pub arguments: Vec<Argument<'a>>,
    pub directives: Vec<Directive<'a>>,
    pub span: Span,
}

#[derive(Debug, PartialEq)]
pub struct InlineFragment<'a> {
    pub type_condition: Option<NamedType<'a>>,
    pub directives: Vec<Directive<'a>>,
    pub selection_set: Option<SelectionSet<'a>>,
    pub span: Span,
}

#[derive(Debug, PartialEq)]
pub struct VariableDefinition<'a> {
    pub description: Option<StringValue<'a>>,
    pub variable: Variable<'a>,
    pub ty: Option<Type<'a>>,
    pub default_value: Option<Value<'a>>,
    pub directives: Vec<Directive<'a>>,
    pub span: Span,
}

#[derive(Debug, Clone, Copy, PartialEq, Eq, Hash)]
pub struct Variable<'a> {
    pub name: Name<'a>,
    pub span: Span,
}

#[derive(Debug, PartialEq)]
pub struct Argument<'a> {
    pub name: Name<'a>,
    pub value: Option<Value<'a>>,
    pub span: Span,
}

#[derive(Debug, PartialEq)]
pub struct Directive<'a> {
    pub name: Name<'a>,
    pub arguments: Vec<Argument<'a>>,
    pub span: Span,
}

#[derive(Debug, PartialEq)]
pub enum Value<'a> {
    Variable(Variable<'a>),
    Int(IntValue<'a>),
    Float(FloatValue<'a>),
    String(StringValue<'a>),
    Boolean(BooleanValue),
    Null(NullValue),
    Enum(EnumValue<'a>),
    List(ListValue<'a>),
    Object(ObjectValue<'a>),
    Missing(Span),
}

#[derive(Debug, Clone, Copy, PartialEq, Eq, Hash)]
pub struct IntValue<'a> {
    pub raw: &'a str,
    pub span: Span,
}

#[derive(Debug, Clone, Copy, PartialEq, Eq, Hash)]
pub struct FloatValue<'a> {
    pub raw: &'a str,
    pub span: Span,
}

#[derive(Debug, Clone, Copy, PartialEq, Eq, Hash, Structural)]
pub struct BooleanValue {
    pub value: bool,
    pub span: Span,
}

#[derive(Debug, Clone, Copy, PartialEq, Eq, Hash, Structural)]
pub struct NullValue {
    pub span: Span,
}

#[derive(Debug, Clone, Copy, PartialEq, Eq, Hash)]
pub struct EnumValue<'a> {
    pub name: Name<'a>,
}

#[derive(Debug, PartialEq)]
pub struct ListValue<'a> {
    pub values: Vec<Value<'a>>,
    pub span: Span,
}

#[derive(Debug, PartialEq)]
pub struct ObjectValue<'a> {
    pub fields: Vec<ObjectField<'a>>,
    pub span: Span,
}

#[derive(Debug, PartialEq)]
pub struct ObjectField<'a> {
    pub name: Name<'a>,
    pub value: Option<Value<'a>>,
    pub span: Span,
}

#[derive(Debug, PartialEq)]
pub enum Type<'a> {
    Named(NamedType<'a>),
    List(ListType<'a>),
    NonNull(NonNullType<'a>),
    Missing(Span),
}

#[derive(Debug, Clone, Copy, PartialEq, Eq, Hash)]
pub struct NamedType<'a> {
    pub name: Name<'a>,
}

#[derive(Debug, PartialEq)]
pub struct ListType<'a> {
    pub ty: Box<Type<'a>>,
    pub span: Span,
}

#[derive(Debug, PartialEq)]
pub struct NonNullType<'a> {
    pub ty: Box<Type<'a>>,
    pub span: Span,
}

#[derive(Debug, PartialEq)]
pub struct SchemaDefinition<'a> {
    pub description: Option<StringValue<'a>>,
    pub directives: Vec<Directive<'a>>,
    pub root_operations: Vec<RootOperationTypeDefinition<'a>>,
    pub span: Span,
}

#[derive(Debug, PartialEq)]
pub struct SchemaExtension<'a> {
    pub directives: Vec<Directive<'a>>,
    pub root_operations: Vec<RootOperationTypeDefinition<'a>>,
    pub span: Span,
}

#[derive(Debug, Clone, Copy, PartialEq, Eq, Hash)]
pub struct RootOperationTypeDefinition<'a> {
    pub operation_type: OperationType,
    pub named_type: NamedType<'a>,
    pub span: Span,
}

#[derive(Debug, PartialEq)]
pub struct DirectiveDefinition<'a> {
    pub description: Option<StringValue<'a>>,
    pub name: Name<'a>,
    pub arguments: Vec<InputValueDefinition<'a>>,
    pub repeatable: bool,
    pub locations: Vec<DirectiveLocation<'a>>,
    pub span: Span,
}

#[derive(Debug, Clone, Copy, PartialEq, Eq, Hash)]
pub struct DirectiveLocation<'a> {
    pub name: &'a str,
    pub span: Span,
}

#[derive(Debug, PartialEq)]
pub struct ScalarTypeDefinition<'a> {
    pub description: Option<StringValue<'a>>,
    pub name: Name<'a>,
    pub directives: Vec<Directive<'a>>,
    pub span: Span,
}

#[derive(Debug, PartialEq)]
pub struct ScalarTypeExtension<'a> {
    pub name: Name<'a>,
    pub directives: Vec<Directive<'a>>,
    pub span: Span,
}

#[derive(Debug, PartialEq)]
pub struct ObjectTypeDefinition<'a> {
    pub description: Option<StringValue<'a>>,
    pub name: Name<'a>,
    pub interfaces: Vec<NamedType<'a>>,
    pub directives: Vec<Directive<'a>>,
    pub fields: Vec<FieldDefinition<'a>>,
    pub span: Span,
}

#[derive(Debug, PartialEq)]
pub struct ObjectTypeExtension<'a> {
    pub name: Name<'a>,
    pub interfaces: Vec<NamedType<'a>>,
    pub directives: Vec<Directive<'a>>,
    pub fields: Vec<FieldDefinition<'a>>,
    pub span: Span,
}

#[derive(Debug, PartialEq)]
pub struct InterfaceTypeDefinition<'a> {
    pub description: Option<StringValue<'a>>,
    pub name: Name<'a>,
    pub interfaces: Vec<NamedType<'a>>,
    pub directives: Vec<Directive<'a>>,
    pub fields: Vec<FieldDefinition<'a>>,
    pub span: Span,
}

#[derive(Debug, PartialEq)]
pub struct InterfaceTypeExtension<'a> {
    pub name: Name<'a>,
    pub interfaces: Vec<NamedType<'a>>,
    pub directives: Vec<Directive<'a>>,
    pub fields: Vec<FieldDefinition<'a>>,
    pub span: Span,
}

#[derive(Debug, PartialEq)]
pub struct UnionTypeDefinition<'a> {
    pub description: Option<StringValue<'a>>,
    pub name: Name<'a>,
    pub directives: Vec<Directive<'a>>,
    pub members: Vec<NamedType<'a>>,
    pub span: Span,
}

#[derive(Debug, PartialEq)]
pub struct UnionTypeExtension<'a> {
    pub name: Name<'a>,
    pub directives: Vec<Directive<'a>>,
    pub members: Vec<NamedType<'a>>,
    pub span: Span,
}

#[derive(Debug, PartialEq)]
pub struct EnumTypeDefinition<'a> {
    pub description: Option<StringValue<'a>>,
    pub name: Name<'a>,
    pub directives: Vec<Directive<'a>>,
    pub values: Vec<EnumValueDefinition<'a>>,
    pub span: Span,
}

#[derive(Debug, PartialEq)]
pub struct EnumTypeExtension<'a> {
    pub name: Name<'a>,
    pub directives: Vec<Directive<'a>>,
    pub values: Vec<EnumValueDefinition<'a>>,
    pub span: Span,
}

#[derive(Debug, PartialEq)]
pub struct EnumValueDefinition<'a> {
    pub description: Option<StringValue<'a>>,
    pub value: EnumValue<'a>,
    pub directives: Vec<Directive<'a>>,
    pub span: Span,
}

#[derive(Debug, PartialEq)]
pub struct InputObjectTypeDefinition<'a> {
    pub description: Option<StringValue<'a>>,
    pub name: Name<'a>,
    pub directives: Vec<Directive<'a>>,
    pub fields: Vec<InputValueDefinition<'a>>,
    pub span: Span,
}

#[derive(Debug, PartialEq)]
pub struct InputObjectTypeExtension<'a> {
    pub name: Name<'a>,
    pub directives: Vec<Directive<'a>>,
    pub fields: Vec<InputValueDefinition<'a>>,
    pub span: Span,
}

#[derive(Debug, PartialEq)]
pub struct FieldDefinition<'a> {
    pub description: Option<StringValue<'a>>,
    pub name: Name<'a>,
    pub arguments: Vec<InputValueDefinition<'a>>,
    pub ty: Option<Type<'a>>,
    pub directives: Vec<Directive<'a>>,
    pub span: Span,
}

#[derive(Debug, PartialEq)]
pub struct InputValueDefinition<'a> {
    pub description: Option<StringValue<'a>>,
    pub name: Name<'a>,
    pub ty: Option<Type<'a>>,
    pub default_value: Option<Value<'a>>,
    pub directives: Vec<Directive<'a>>,
    pub span: Span,
}

// ---------------------------------------------------------------------------
// Accessors
/// The name a definition declares; schema definitions and extensions have none.
pub open spec fn definition_name<'a>(d: Definition<'a>) -> Option<Name<'a>> {
    match d {
        Definition::Operation(x) => x.name,
        Definition::Fragment(x) => Some(x.name),
        Definition::Directive(x) => Some(x.name),
        Definition::Schema(_) => None,
        Definition::SchemaExtension(_) => None,
        Definition::ScalarType(x) => Some(x.name),
        Definition::ScalarTypeExtension(x) => Some(x.name),
        Definition::ObjectType(x) => Some(x.name),
        Definition::ObjectTypeExtension(x) => Some(x.name),
        Definition::InterfaceType(x) => Some(x.name),
        Definition::InterfaceTypeExtension(x) => Some(x.name),
        Definition::UnionType(x) => Some(x.name),
        Definition::UnionTypeExtension(x) => Some(x.name),
        Definition::EnumType(x) => Some(x.name),
        Definition::EnumTypeExtension(x) => Some(x.name),
        Definition::InputObjectType(x) => Some(x.name),
        Definition::InputObjectTypeExtension(x) => Some(x.name),
    }
}

/// The span of a definition, whichever variant it is.
pub open spec fn definition_span(d: Definition) -> Span {
    match d {
        Definition::Operation(x) => x.span,
        Definition::Fragment(x) => x.span,
        Definition::Directive(x) => x.span,
        Definition::Schema(x) => x.span,
        Definition::SchemaExtension(x) => x.span,
        Definition::ScalarType(x) => x.span,
        Definition::ScalarTypeExtension(x) => x.span,
        Definition::ObjectType(x) => x.span,
        Definition::ObjectTypeExtension(x) => x.span,
        Definition::InterfaceType(x) => x.span,
        Definition::InterfaceTypeExtension(x) => x.span,
        Definition::UnionType(x) => x.span,
        Definition::UnionTypeExtension(x) => x.span,
        Definition::EnumType(x) => x.span,
        Definition::EnumTypeExtension(x) => x.span,
        Definition::InputObjectType(x) => x.span,
        Definition::InputObjectTypeExtension(x) => x.span,
    }
}

impl<'a> Definition<'a> {
    pub fn name(&self) -> (r: Option<&Name<'a>>)
        ensures
            match r {
                Some(n) => definition_name(*self) == Some(*n),
                None => definition_name(*self) is None,
            },
    {
        match self {
            Definition::Operation(definition) => definition.name.as_ref(),
            Definition::Fragment(definition) => Some(&definition.name),
            Definition::Directive(definition) => Some(&definition.name),
            Definition::Schema(_) => None,
            Definition::SchemaExtension(_) => None,
            Definition::ScalarType(definition) => Some(&definition.name),
            Definition::ScalarTypeExtension(definition) => Some(&definition.name),
            Definition::ObjectType(definition) => Some(&definition.name),
            Definition::ObjectTypeExtension(definition) => Some(&definition.name),
            Definition::InterfaceType(definition) => Some(&definition.name),
            Definition::InterfaceTypeExtension(definition) => Some(&definition.name),
            Definition::UnionType(definition) => Some(&definition.name),
            Definition::UnionTypeExtension(definition) => Some(&definition.name),
            Definition::EnumType(definition) => Some(&definition.name),
            Definition::EnumTypeExtension(definition) => Some(&definition.name),
            Definition::InputObjectType(definition) => Some(&definition.name),
            Definition::InputObjectTypeExtension(definition) => Some(&definition.name),
        }
    }

    pub fn span(&self) -> (r: Span)
        ensures
            r == definition_span(*self),
    {
        match self {
            Definition::Operation(definition) => definition.span,
            Definition::Fragment(definition) => definition.span,
            Definition::Directive(definition) => definition.span,
            Definition::Schema(definition) => definition.span,
            Definition::SchemaExtension(definition) => definition.span,
            Definition::ScalarType(definition) => definition.span,
            Definition::ScalarTypeExtension(definition) => definition.span,
            Definition::ObjectType(definition) => definition.span,
            Definition::ObjectTypeExtension(definition) => definition.span,
            Definition::InterfaceType(definition) => definition.span,
            Definition::InterfaceTypeExtension(definition) => definition.span,
            Definition::UnionType(definition) => definition.span,
            Definition::UnionTypeExtension(definition) => definition.span,
            Definition::EnumType(definition) => definition.span,
            Definition::EnumTypeExtension(definition) => definition.span,
            Definition::InputObjectType(definition) => definition.span,
            Definition::InputObjectTypeExtension(definition) => definition.span,
        }
    }
}

/// The span of a selection, whichever variant it is.
pub open spec fn selection_span(s: Selection) -> Span {
    match s {
        Selection::Field(x) => x.span,
        Selection::FragmentSpread(x) => x.span,
        Selection::InlineFragment(x) => x.span,
    }
}

impl<'a> Selection<'a> {
    pub fn span(&self) -> (r: Span)
        ensures
            r == selection_span(*self),
    {
        match self {
            Selection::Field(selection) => selection.span,
            Selection::FragmentSpread(selection) => selection.span,
            Selection::InlineFragment(selection) => selection.span,
        }
    }
}

/// The span of a value; an enum value's is its name's.
pub open spec fn value_span(v: Value) -> Span {
    match v {
        Value::Variable(x) => x.span,
        Value::Int(x) => x.span,
        Value::Float(x) => x.span,
        Value::String(x) => x.span,
        Value::Boolean(x) => x.span,
        Value::Null(x) => x.span,
        Value::Enum(x) => x.name.span,
        Value::List(x) => x.span,
        Value::Object(x) => x.span,
        Value::Missing(s) => s,
    }
}

impl<'a> Value<'a> {
    pub fn span(&self) -> (r: Span)
        ensures
            r == value_span(*self),
    {
        match self {
            Value::Variable(value) => value.span,
            Value::Int(value) => value.span,
            Value::Float(value) => value.span,
            Value::String(value) => value.span,
            Value::Boolean(value) => value.span,
            Value::Null(value) => value.span,
            Value::Enum(value) => value.name.span,
            Value::List(value) => value.span,
            Value::Object(value) => value.span,
            Value::Missing(span) => *span,
        }
    }
}

/// The span of a type; a named type's is its name's.
pub open spec fn type_span(t: Type) -> Span {
    match t {
        Type::Named(x) => x.name.span,
        Type::List(x) => x.span,
        Type::NonNull(x) => x.span,
        Type::Missing(s) => s,
    }
}

impl<'a> Type<'a> {
    pub fn span(&self) -> (r: Span)
        ensures
            r == type_span(*self),
    {
        match self {
            Type::Named(value) => value.name.span,
            Type::List(value) => value.span,
            Type::NonNull(value) => value.span,
            Type::Missing(span) => *span,
        }
    }
}

/// The result of parsing: the root node, the source it came from, the
/// diagnostics, the comments read, and the state of the two limits.
#[derive(Debug, PartialEq)]
pub struct Ast<'a, T> {
    source: &'a str,
    root: T,
    errors: Vec<Error>,
    comments: Vec<Span>,
    recursion_limit: LimitTracker,
    token_limit: LimitTracker,
}

impl<'a, T> Ast<'a, T> {
    pub closed spec fn spec_source(&self) -> &'a str {
        self.source
    }

    pub closed spec fn spec_root(&self) -> T {
        self.root
    }

    pub closed spec fn spec_errors(&self) -> Seq<Error> {
        self.errors@
    }

    pub closed spec fn spec_comments(&self) -> Seq<Span> {
        self.comments@
    }

    pub closed spec fn spec_recursion_limit(&self) -> LimitTracker {
        self.recursion_limit
    }

    pub closed spec fn spec_token_limit(&self) -> LimitTracker {
        self.token_limit
    }

    pub fn new(
        source: &'a str,
        root: T,
        errors: Vec<Error>,
        comments: Vec<Span>,
        recursion_limit: LimitTracker,
        token_limit: LimitTracker,
    ) -> (r: Self)
        ensures
            r.spec_source() == source,
            r.spec_root() == root,
            r.spec_errors() == errors@,
            r.spec_comments() == comments@,
            r.spec_recursion_limit() == recursion_limit,
            r.spec_token_limit() == token_limit,
    {
        Ast { source, root, errors, comments, recursion_limit, token_limit }
    }

    pub fn root(&self) -> (r: &T)
        ensures
            *r == self.spec_root(),
    {
        &self.root
    }

    pub fn into_root(self) -> (r: T)
        ensures
            r == self.spec_root(),
    {
        self.root
    }

    pub fn source(&self) -> (r: &'a str)
        ensures
            r == self.spec_source(),
    {
        self.source
    }

    /// The lexing and parsing errors, in the order they were found.
    pub fn errors(&self) -> (r: std::slice::Iter<'_, Error>)
        ensures
            vstd::std_specs::slice::into_iter_elts(r) == self.spec_errors(),
    {
        broadcast use vstd::std_specs::slice::axiom_spec_slice_iter;

        let r = self.errors.as_slice().iter();
        assert(vstd::std_specs::slice::into_iter_elts(r) =~= self.spec_errors());
        r
    }

    /// Comment token spans in document order.
    ///
    /// GraphQL comments are always line comments: each span covers `#` through
    /// the end of the line (excluding the line terminator).
    ///
    /// Only comments read while parsing are recorded. `Parser::parse` reads
    /// to the end of the input, so it collects every comment in the source;
    /// partial roots (`Parser::parse_selection_set`, `Parser::parse_type`)
    /// stop at the end of the root, so comments past it are not included.
    pub fn comments(&self) -> (r: &[Span])
        ensures
            r@ == self.spec_comments(),
    {
        self.comments.as_slice()
    }

    pub fn recursion_limit(&self) -> (r: LimitTracker)
        ensures
            r == self.spec_recursion_limit(),
    {
        self.recursion_limit
    }

    pub fn token_limit(&self) -> (r: LimitTracker)
        ensures
            r == self.spec_token_limit(),
    {
        self.token_limit
    }
}

impl<'a> Ast<'a, Document<'a>> {
    pub fn document(&self) -> (r: &Document<'a>)
        ensures
            *r == self.spec_root(),
    {
        self.root()
    }
}

impl<'a> Ast<'a, SelectionSet<'a>> {
    pub fn field_set(&self) -> (r: &SelectionSet<'a>)
        ensures
            *r == self.spec_root(),
    {
        self.root()
    }
}

impl<'a> Ast<'a, Type<'a>> {
    pub fn ty(&self) -> (r: &Type<'a>)
        ensures
            *r == self.spec_root(),
    {
        self.root()
    }
}

// ---------------------------------------------------------------------------
// Well-formedness
pub open spec fn variable_wf(v: Variable, b: Seq<u8>) -> bool {
    name_wf(v.name, b) && span_in(v.span, b)
}

pub open spec fn value_wf(v: Value, b: Seq<u8>) -> bool
    decreases v,
{
    match v {
        Value::Variable(x) => variable_wf(x, b),
        Value::Int(x) => text_is(x.raw, x.span, b),
        Value::Float(x) => text_is(x.raw, x.span, b),
        Value::String(x) => string_value_wf(x, b),
        Value::Boolean(x) => span_in(x.span, b),
        Value::Null(x) => span_in(x.span, b),
        Value::Enum(x) => name_wf(x.name, b),
        Value::List(l) => span_in(l.span, b) && forall|i: int|
            0 <= i < l.values@.len() ==> value_wf(#[trigger] l.values@[i], b),
        Value::Object(o) => span_in(o.span, b) && forall|i: int|
            0 <= i < o.fields@.len() ==> object_field_wf(#[trigger] o.fields@[i], b),
        Value::Missing(s) => span_in(s, b),
    }
}

pub open spec fn object_field_wf(f: ObjectField, b: Seq<u8>) -> bool
    decreases f,
{
    &&& name_wf(f.name, b)
    &&& span_in(f.span, b)
    &&& match f.value {
        Some(v) => value_wf(v, b),
        None => true,
    }
}

pub open spec fn opt_value_wf(v: Option<Value>, b: Seq<u8>) -> bool {
    match v {
        Some(v) => value_wf(v, b),
        None => true,
    }
}

pub open spec fn argument_wf(a: Argument, b: Seq<u8>) -> bool {
    name_wf(a.name, b) && span_in(a.span, b) && opt_value_wf(a.value, b)
}

pub open spec fn arguments_wf(v: Seq<Argument>, b: Seq<u8>) -> bool {
    forall|i: int| 0 <= i < v.len() ==> argument_wf(#[trigger] v[i], b)
}

pub open spec fn directive_wf(d: Directive, b: Seq<u8>) -> bool {
    name_wf(d.name, b) && span_in(d.span, b) && arguments_wf(d.arguments@, b)
}

pub open spec fn directives_wf(v: Seq<Directive>, b: Seq<u8>) -> bool {
    forall|i: int| 0 <= i < v.len() ==> directive_wf(#[trigger] v[i], b)
}

pub open spec fn type_wf(t: Type, b: Seq<u8>) -> bool
    decreases t,
{
    match t {
        Type::Named(n) => name_wf(n.name, b),
        Type::List(l) => span_in(l.span, b) && type_wf(*l.ty, b),
        Type::NonNull(n) => span_in(n.span, b) && type_wf(*n.ty, b),
        Type::Missing(s) => span_in(s, b),
    }
}

pub open spec fn opt_type_wf(t: Option<Type>, b: Seq<u8>) -> bool {
    match t {
        Some(t) => type_wf(t, b),
        None => true,
    }
}

pub open spec fn named_types_wf(v: Seq<NamedType>, b: Seq<u8>) -> bool {
    forall|i: int| 0 <= i < v.len() ==> name_wf(#[trigger] v[i].name, b)
}

pub open spec fn selection_set_wf(s: SelectionSet, b: Seq<u8>) -> bool
    decreases s,
{
    span_in(s.span, b) && forall|i: int|
        0 <= i < s.selections@.len() ==> selection_wf(#[trigger] s.selections@[i], b)
}

pub open spec fn opt_selection_set_wf(s: Option<SelectionSet>, b: Seq<u8>) -> bool
    decreases s,
{
    match s {
        Some(s) => selection_set_wf(s, b),
        None => true,
    }
}

pub open spec fn selection_wf(s: Selection, b: Seq<u8>) -> bool
    decreases s,
{
    match s {
        Selection::Field(f) => {
            &&& match f.alias {
                Some(a) => name_wf(a, b),
                None => true,
            }
            &&& name_wf(f.name, b)
            &&& arguments_wf(f.arguments@, b)
            &&& directives_wf(f.directives@, b)
            &&& opt_selection_set_wf(f.selection_set, b)
            &&& span_in(f.span, b)
        },
        Selection::FragmentSpread(f) => {
            &&& name_wf(f.name, b)
            &&& arguments_wf(f.arguments@, b)
            &&& directives_wf(f.directives@, b)
            &&& span_in(f.span, b)
        },
        Selection::InlineFragment(f) => {
            &&& match f.type_condition {
                Some(t) => name_wf(t.name, b),
                None => true,
            }
            &&& directives_wf(f.directives@, b)
            &&& opt_selection_set_wf(f.selection_set, b)
            &&& span_in(f.span, b)
        },
    }
}

pub open spec fn variable_definition_wf(v: VariableDefinition, b: Seq<u8>) -> bool {
    &&& opt_string_value_wf(v.description, b)
    &&& variable_wf(v.variable, b)
    &&& opt_type_wf(v.ty, b)
    &&& opt_value_wf(v.default_value, b)
    &&& directives_wf(v.directives@, b)
    &&& span_in(v.span, b)
}

pub open spec fn variable_definitions_wf(v: Seq<VariableDefinition>, b: Seq<u8>) -> bool {
    forall|i: int| 0 <= i < v.len() ==> variable_definition_wf(#[trigger] v[i], b)
}

pub open spec fn input_value_definition_wf(v: InputValueDefinition, b: Seq<u8>) -> bool {
    &&& opt_string_value_wf(v.description, b)
    &&& name_wf(v.name, b)
    &&& opt_type_wf(v.ty, b)
    &&& opt_value_wf(v.default_value, b)
    &&& directives_wf(v.directives@, b)
    &&& span_in(v.span, b)
}

pub open spec fn input_value_definitions_wf(v: Seq<InputValueDefinition>, b: Seq<u8>) -> bool {
    forall|i: int| 0 <= i < v.len() ==> input_value_definition_wf(#[trigger] v[i], b)
}

pub open spec fn field_definition_wf(f: FieldDefinition, b: Seq<u8>) -> bool {
    &&& opt_string_value_wf(f.description, b)
    &&& name_wf(f.name, b)
    &&& input_value_definitions_wf(f.arguments@, b)
    &&& opt_type_wf(f.ty, b)
    &&& directives_wf(f.directives@, b)
    &&& span_in(f.span, b)
}

pub open spec fn field_definitions_wf(v: Seq<FieldDefinition>, b: Seq<u8>) -> bool {
    forall|i: int| 0 <= i < v.len() ==> field_definition_wf(#[trigger] v[i], b)
}

pub open spec fn enum_value_definition_wf(v: EnumValueDefinition, b: Seq<u8>) -> bool {
    &&& opt_string_value_wf(v.description, b)
    &&& name_wf(v.value.name, b)
    &&& directives_wf(v.directives@, b)
    &&& span_in(v.span, b)
}

pub open spec fn enum_value_definitions_wf(v: Seq<EnumValueDefinition>, b: Seq<u8>) -> bool {
    forall|i: int| 0 <= i < v.len() ==> enum_value_definition_wf(#[trigger] v[i], b)
}

pub open spec fn root_operations_wf(v: Seq<RootOperationTypeDefinition>, b: Seq<u8>) -> bool {
    forall|i: int|
        0 <= i < v.len() ==> name_wf(#[trigger] v[i].named_type.name, b) && span_in(
            v[i].span,
            b,
        )
}

pub open spec fn directive_locations_wf(v: Seq<DirectiveLocation>, b: Seq<u8>) -> bool {
    forall|i: int| 0 <= i < v.len() ==> text_is(#[trigger] v[i].name, v[i].span, b)
}

pub open spec fn definition_wf(d: Definition, b: Seq<u8>) -> bool {
    match d {
        Definition::Operation(x) => {
            &&& opt_string_value_wf(x.description, b)
            &&& match x.name {
                Some(n) => name_wf(n, b),
                None => true,
            }
            &&& variable_definitions_wf(x.variable_definitions@, b)
            &&& directives_wf(x.directives@, b)
            &&& opt_selection_set_wf(x.selection_set, b)
            &&& span_in(x.span, b)
        },
        Definition::Fragment(x) => {
            &&& opt_string_value_wf(x.description, b)
            &&& name_wf(x.name, b)
            &&& variable_definitions_wf(x.variable_definitions@, b)
            &&& name_wf(x.type_condition.name, b)
            &&& directives_wf(x.directives@, b)
            &&& opt_selection_set_wf(x.selection_set, b)
            &&& span_in(x.span, b)
        },
        Definition::Directive(x) => {
            &&& opt_string_value_wf(x.description, b)
            &&& name_wf(x.name, b)
            &&& input_value_definitions_wf(x.arguments@, b)
            &&& directive_locations_wf(x.locations@, b)
            &&& span_in(x.span, b)
        },
        Definition::Schema(x) => {
            &&& opt_string_value_wf(x.description, b)
            &&& directives_wf(x.directives@, b)
            &&& root_operations_wf(x.root_operations@, b)
            &&& span_in(x.span, b)
        },
        Definition::SchemaExtension(x) => {
            &&& directives_wf(x.directives@, b)
            &&& root_operations_wf(x.root_operations@, b)
            &&& span_in(x.span, b)
        },
        Definition::ScalarType(x) => {
            &&& opt_string_value_wf(x.description, b)
            &&& name_wf(x.name, b)
            &&& directives_wf(x.directives@, b)
            &&& span_in(x.span, b)
        },
        Definition::ScalarTypeExtension(x) => {
            &&& name_wf(x.name, b)
            &&& directives_wf(x.directives@, b)
            &&& span_in(x.span, b)
        },
        Definition::ObjectType(x) => {
            &&& opt_string_value_wf(x.description, b)
            &&& name_wf(x.name, b)
            &&& named_types_wf(x.interfaces@, b)
            &&& directives_wf(x.directives@, b)
            &&& field_definitions_wf(x.fields@, b)
            &&& span_in(x.span, b)
        },
        Definition::ObjectTypeExtension(x) => {
            &&& name_wf(x.name, b)
            &&& named_types_wf(x.interfaces@, b)
            &&& directives_wf(x.directives@, b)
            &&& field_definitions_wf(x.fields@, b)
            &&& span_in(x.span, b)
        },
        Definition::InterfaceType(x) => {
            &&& opt_string_value_wf(x.description, b)
            &&& name_wf(x.name, b)
            &&& named_types_wf(x.interfaces@, b)
            &&& directives_wf(x.directives@, b)
            &&& field_definitions_wf(x.fields@, b)
            &&& span_in(x.span, b)
        },
        Definition::InterfaceTypeExtension(x) => {
            &&& name_wf(x.name, b)
            &&& named_types_wf(x.interfaces@, b)
            &&& directives_wf(x.directives@, b)
            &&& field_definitions_wf(x.fields@, b)
            &&& span_in(x.span, b)
        },
        Definition::UnionType(x) => {
            &&& opt_string_value_wf(x.description, b)
            &&& name_wf(x.name, b)
            &&& directives_wf(x.directives@, b)
            &&& named_types_wf(x.members@, b)
            &&& span_in(x.span, b)
        },
        Definition::UnionTypeExtension(x) => {
            &&& name_wf(x.name, b)
            &&& directives_wf(x.directives@, b)
            &&& named_types_wf(x.members@, b)
            &&& span_in(x.span, b)
        },
        Definition::EnumType(x) => {
            &&& opt_string_value_wf(x.description, b)
            &&& name_wf(x.name, b)
            &&& directives_wf(x.directives@, b)
            &&& enum_value_definitions_wf(x.values@, b)
            &&& span_in(x.span, b)
        },
        Definition::EnumTypeExtension(x) => {
            &&& name_wf(x.name, b)
            &&& directives_wf(x.directives@, b)
            &&& enum_value_definitions_wf(x.values@, b)
            &&& span_in(x.span, b)
        },
        Definition::InputObjectType(x) => {
            &&& opt_string_value_wf(x.description, b)
            &&& name_wf(x.name, b)
            &&& directives_wf(x.directives@, b)
            &&& input_value_definitions_wf(x.fields@, b)
            &&& span_in(x.span, b)
        },
        Definition::InputObjectTypeExtension(x) => {
            &&& name_wf(x.name, b)
            &&& directives_wf(x.directives@, b)
            &&& input_value_definitions_wf(x.fields@, b)
            &&& span_in(x.span, b)
        },
    }
}

pub open spec fn document_wf(d: Document, b: Seq<u8>) -> bool {
    span_in(d.span, b) && forall|i: int|
        0 <= i < d.definitions@.len() ==> definition_wf(#[trigger] d.definitions@[i], b)
}

// ---------------------------------------------------------------------------
// Completeness
//
// Where the source does not say what the grammar asks for, the parser records
// an error and puts a placeholder in the tree: a `Missing` value or type, a
// name with an empty span, or no node where one is required. A tree is
// complete when it holds no such placeholder.
pub open spec fn name_complete(n: Name) -> bool {
    n.span.start < n.span.end
}

pub open spec fn value_complete(v: Value) -> bool
    decreases v,
{
    match v {
        Value::Variable(x) => name_complete(x.name),
        Value::Enum(x) => name_complete(x.name),
        Value::List(l) => forall|i: int|
            0 <= i < l.values@.len() ==> value_complete(#[trigger] l.values@[i]),
        Value::Object(o) => forall|i: int|
            0 <= i < o.fields@.len() ==> object_field_complete(#[trigger] o.fields@[i]),
        Value::Missing(_) => false,
        _ => true,
    }
}

pub open spec fn object_field_complete(f: ObjectField) -> bool
    decreases f,
{
    &&& name_complete(f.name)
    &&& match f.value {
        Some(v) => value_complete(v),
        None => false,
    }
}

pub open spec fn opt_value_complete(v: Option<Value>) -> bool {
    match v {
        Some(v) => value_complete(v),
        None => true,
    }
}

pub open spec fn argument_complete(a: Argument) -> bool {
    &&& name_complete(a.name)
    &&& match a.value {
        Some(v) => value_complete(v),
        None => false,
    }
}

pub open spec fn arguments_complete(v: Seq<Argument>) -> bool {
    forall|i: int| 0 <= i < v.len() ==> argument_complete(#[trigger] v[i])
}

pub open spec fn directive_complete(d: Directive) -> bool {
    name_complete(d.name) && arguments_complete(d.arguments@)
}

pub open spec fn directives_complete(v: Seq<Directive>) -> bool {
    forall|i: int| 0 <= i < v.len() ==> directive_complete(#[trigger] v[i])
}

pub open spec fn type_complete(t: Type) -> bool
    decreases t,
{
    match t {
        Type::Named(n) => name_complete(n.name),
        Type::List(l) => type_complete(*l.ty),
        Type::NonNull(n) => type_complete(*n.ty),
        Type::Missing(_) => false,
    }
}

pub open spec fn opt_type_complete(t: Option<Type>) -> bool {
    match t {
        Some(t) => type_complete(t),
        None => false,
    }
}

pub open spec fn named_types_complete(v: Seq<NamedType>) -> bool {
    forall|i: int| 0 <= i < v.len() ==> name_complete(#[trigger] v[i].name)
}

pub open spec fn selection_set_complete(s: SelectionSet) -> bool
    decreases s,
{
    s.selections@.len() > 0 && forall|i: int|
        0 <= i < s.selections@.len() ==> selection_complete(#[trigger] s.selections@[i])
}

pub open spec fn opt_selection_set_complete(s: Option<SelectionSet>) -> bool
    decreases s,
{
    match s {
        Some(s) => selection_set_complete(s),
        None => true,
    }
}

pub open spec fn selection_complete(s: Selection) -> bool
    decreases s,
{
    match s {
        Selection::Field(f) => {
            &&& match f.alias {
                Some(a) => name_complete(a),
                None => true,
            }
            &&& name_complete(f.name)
            &&& arguments_complete(f.arguments@)
            &&& directives_complete(f.directives@)
            &&& opt_selection_set_complete(f.selection_set)
        },
        Selection::FragmentSpread(f) => {
            &&& name_complete(f.name)
            &&& arguments_complete(f.arguments@)
            &&& directives_complete(f.directives@)
        },
        Selection::InlineFragment(f) => {
            &&& match f.type_condition {
                Some(t) => name_complete(t.name),
                None => true,
            }
            &&& directives_complete(f.directives@)
            &&& f.selection_set is Some
            &&& opt_selection_set_complete(f.selection_set)
        },
    }
}

pub open spec fn variable_definition_complete(v: VariableDefinition) -> bool {
    &&& name_complete(v.variable.name)
    &&& opt_type_complete(v.ty)
    &&& opt_value_complete(v.default_value)
    &&& directives_complete(v.directives@)
}

pub open spec fn variable_definitions_complete(v: Seq<VariableDefinition>) -> bool {
    forall|i: int| 0 <= i < v.len() ==> variable_definition_complete(#[trigger] v[i])
}

pub open spec fn input_value_definition_complete(v: InputValueDefinition) -> bool {
    &&& name_complete(v.name)
    &&& opt_type_complete(v.ty)
    &&& opt_value_complete(v.default_value)
    &&& directives_complete(v.directives@)
}

pub open spec fn input_value_definitions_complete(v: Seq<InputValueDefinition>) -> bool {
    forall|i: int| 0 <= i < v.len() ==> input_value_definition_complete(#[trigger] v[i])
}

pub open spec fn field_definition_complete(f: FieldDefinition) -> bool {
    &&& name_complete(f.name)
    &&& input_value_definitions_complete(f.arguments@)
    &&& opt_type_complete(f.ty)
    &&& directives_complete(f.directives@)
}

pub open spec fn field_definitions_complete(v: Seq<FieldDefinition>) -> bool {
    forall|i: int| 0 <= i < v.len() ==> field_definition_complete(#[trigger] v[i])
}

pub open spec fn enum_value_definitions_complete(v: Seq<EnumValueDefinition>) -> bool {
    forall|i: int|
        0 <= i < v.len() ==> name_complete(#[trigger] v[i].value.name) && directives_complete(
            v[i].directives@,
        )
}

pub open spec fn root_operations_complete(v: Seq<RootOperationTypeDefinition>) -> bool {
    forall|i: int| 0 <= i < v.len() ==> name_complete(#[trigger] v[i].named_type.name)
}

pub open spec fn definition_complete(d: Definition) -> bool {
    match d {
        Definition::Operation(x) => {
            &&& match x.name {
                Some(n) => name_complete(n),
                None => true,
            }
            &&& variable_definitions_complete(x.variable_definitions@)
            &&& directives_complete(x.directives@)
            &&& x.selection_set is Some
            &&& opt_selection_set_complete(x.selection_set)
        },
        Definition::Fragment(x) => {
            &&& name_complete(x.name)
            &&& variable_definitions_complete(x.variable_definitions@)
            &&& name_complete(x.type_condition.name)
            &&& directives_complete(x.directives@)
            &&& x.selection_set is Some
            &&& opt_selection_set_complete(x.selection_set)
        },
        Definition::Directive(x) => {
            &&& name_complete(x.name)
            &&& input_value_definitions_complete(x.arguments@)
        },
        Definition::Schema(x) => {
            &&& directives_complete(x.directives@)
            &&& root_operations_complete(x.root_operations@)
        },
        Definition::SchemaExtension(x) => {
            &&& directives_complete(x.directives@)
            &&& root_operations_complete(x.root_operations@)
        },
        Definition::ScalarType(x) => name_complete(x.name) && directives_complete(x.directives@),
        Definition::ScalarTypeExtension(x) => name_complete(x.name) && directives_complete(
            x.directives@,
        ),
        Definition::ObjectType(x) => {
            &&& name_complete(x.name)
            &&& named_types_complete(x.interfaces@)
            &&& directives_complete(x.directives@)
            &&& field_definitions_complete(x.fields@)
        },
        Definition::ObjectTypeExtension(x) => {
            &&& name_complete(x.name)
            &&& named_types_complete(x.interfaces@)
            &&& directives_complete(x.directives@)
            &&& field_definitions_complete(x.fields@)
        },
        Definition::InterfaceType(x) => {
            &&& name_complete(x.name)
            &&& named_types_complete(x.interfaces@)
            &&& directives_complete(x.directives@)
            &&& field_definitions_complete(x.fields@)
        },
        Definition::InterfaceTypeExtension(x) => {
            &&& name_complete(x.name)
            &&& named_types_complete(x.interfaces@)
            &&& directives_complete(x.directives@)
            &&& field_definitions_complete(x.fields@)
        },
        Definition::UnionType(x) => {
            &&& name_complete(x.name)
            &&& directives_complete(x.directives@)
            &&& named_types_complete(x.members@)
        },
        Definition::UnionTypeExtension(x) => {
            &&& name_complete(x.name)
            &&& directives_complete(x.directives@)
            &&& named_types_complete(x.members@)
        },
        Definition::EnumType(x) => {
            &&& name_complete(x.name)
            &&& directives_complete(x.directives@)
            &&& enum_value_definitions_complete(x.values@)
        },
        Definition::EnumTypeExtension(x) => {
            &&& name_complete(x.name)
            &&& directives_complete(x.directives@)
            &&& enum_value_definitions_complete(x.values@)
        },
        Definition::InputObjectType(x) => {
            &&& name_complete(x.name)
            &&& directives_complete(x.directives@)
            &&& input_value_definitions_complete(x.fields@)
        },
        Definition::InputObjectTypeExtension(x) => {
            &&& name_complete(x.name)
            &&& directives_complete(x.directives@)
            &&& input_value_definitions_complete(x.fields@)
        },
    }
}

/// A complete document: at least one definition, none with a placeholder.
pub open spec fn document_complete(d: Document) -> bool {
    d.definitions@.len() > 0 && forall|i: int|
        0 <= i < d.definitions@.len() ==> definition_complete(#[trigger] d.definitions@[i])
}

} // verus!

//! The recursive-descent GraphQL parser.
//!
//! The parser reads significant tokens from a [`Lexer`], skipping whitespace,
//! commas and comments (comments are recorded), and builds the syntax tree
//! directly. It never stops at an error: every error is recorded and parsing
//! goes on.
//!
//! The lexemes the parser will see are fixed when it is made (the ghost
//! `stream`); the parser's position in them only moves forward, which is what
//! makes every loop and every recursion terminate.
use crate::ast::{Ast, Span, span_in, text_is, Name, name_wf, StringValue, starts_with_triple_quote, string_value_wf, opt_string_value_wf, OperationType, Document, Definition, OperationDefinition, FragmentDefinition, SelectionSet, Selection, Field, FragmentSpread, InlineFragment, VariableDefinition, Variable, Argument, Directive, Value, IntValue, FloatValue, BooleanValue, NullValue, EnumValue, ListValue, ObjectValue, ObjectField, Type, NamedType, ListType, NonNullType, SchemaDefinition, SchemaExtension, RootOperationTypeDefinition, DirectiveDefinition, DirectiveLocation, ScalarTypeDefinition, ScalarTypeExtension, ObjectTypeDefinition, ObjectTypeExtension, InterfaceTypeDefinition, InterfaceTypeExtension, UnionTypeDefinition, UnionTypeExtension, EnumTypeDefinition, EnumTypeExtension, EnumValueDefinition, InputObjectTypeDefinition, InputObjectTypeExtension, FieldDefinition, InputValueDefinition, definition_name, definition_span, selection_span, value_span, type_span, name_complete, value_complete, object_field_complete, opt_value_complete, argument_complete, arguments_complete, directive_complete, directives_complete, type_complete, opt_type_complete, named_types_complete, selection_set_complete, opt_selection_set_complete, selection_complete, variable_definition_complete, variable_definitions_complete, input_value_definition_complete, input_value_definitions_complete, field_definition_complete, field_definitions_complete, enum_value_definitions_complete, root_operations_complete, definition_complete, document_complete, variable_wf, value_wf, object_field_wf, opt_value_wf, argument_wf, arguments_wf, directive_wf, directives_wf, type_wf, opt_type_wf, named_types_wf, selection_set_wf, opt_selection_set_wf, selection_wf, variable_definition_wf, variable_definitions_wf, input_value_definition_wf, input_value_definitions_wf, field_definition_wf, field_definitions_wf, enum_value_definition_wf, enum_value_definitions_wf, root_operations_wf, directive_locations_wf, definition_wf, document_wf};
use crate::error::{Error, LimitTracker};
use crate::lexer::{
    Lexeme,
    LexemeKind,
    Lexer,
    Token,
    TokenKind,
    error_matches,
    is_line_comment,
    lemma_comments_are_line_comments,
    lemma_lexemes_tile,
    lexemes,
    token_matches,
};
use crate::strings::{normalize_block_string, string_value, trim_quotes_of, unescape_string};
use crate::text::{bytes_of, lemma_same_bytes_same_chars, slice_str, text_eq};
use oxc_allocator::Allocator;
use vstd::prelude::*;
use vstd::utf8::is_char_boundary;

verus! {

/// oxc_allocator's arena `Allocator`, declared so that the parser can hold a
/// reference to it. Verus sees nothing inside it.
#[verifier::external_type_specification]
#[verifier::external_body]
pub struct ExAllocator(oxc_allocator::Allocator);

/// Copies `s` into the arena (oxc_allocator's `Allocator::alloc_str`). The copy
/// lives as long as the allocator and holds the same text. The call panics
/// only when the arena cannot reserve the space, that is when memory runs out;
/// nothing here rules that out.
#[verifier::external_body]
fn arena_str<'a>(allocator: &'a Allocator, s: &str) -> (r: &'a str)
    ensures
        r@ == s@,
{
    allocator.alloc_str(s)
}

/// The next token can start a value.
pub open spec fn starts_value(k: Option<TokenKind>) -> bool {
    k == Some(TokenKind::Dollar) || k == Some(TokenKind::Int) || k == Some(TokenKind::Float) || k
        == Some(TokenKind::StringValue) || k == Some(TokenKind::Name) || k == Some(
        TokenKind::LBracket,
    ) || k == Some(TokenKind::LCurly)
}

/// Whitespace, commas and comments: tokens the grammar ignores.
pub open spec fn is_trivia(k: TokenKind) -> bool {
    k == TokenKind::Whitespace || k == TokenKind::Comment || k == TokenKind::Comma
}

/// A token the grammar does not ignore (the `Eof` token included).
pub open spec fn is_significant(l: Lexeme) -> bool {
    l.kind matches LexemeKind::Token(k) && !is_trivia(k)
}

/// The index of the first significant lexeme of `s` at or after `i`, or the
/// length of `s` when there is none.
pub open spec fn first_sig_from(s: Seq<Lexeme>, i: int) -> int
    decreases s.len() - i,
{
    if i >= s.len() {
        s.len() as int
    } else if is_significant(s[i]) {
        i
    } else {
        first_sig_from(s, i + 1)
    }
}

proof fn lemma_first_sig_from(s: Seq<Lexeme>, i: int)
    requires
        0 <= i <= s.len(),
    ensures
        i <= first_sig_from(s, i) <= s.len(),
        first_sig_from(s, i) < s.len() ==> is_significant(s[first_sig_from(s, i)]),
        forall|j: int| i <= j < first_sig_from(s, i) ==> !is_significant(#[trigger] s[j]),
    decreases s.len() - i,
{
    if i < s.len() && !is_significant(s[i]) {
        lemma_first_sig_from(s, i + 1);
    }
}

/// Where the last significant lexeme before index `j` ends, or 0 where
/// there is none.
pub open spec fn prev_sig_end(s: Seq<Lexeme>, j: int) -> int
    decreases j,
{
    if j <= 0 || j > s.len() {
        0
    } else if is_significant(s[j - 1]) {
        s[j - 1].end as int
    } else {
        prev_sig_end(s, j - 1)
    }
}

/// The span `sp` runs to `end`, or is empty where `end` lies before its
/// start.
#[verifier::opaque]
pub open spec fn ends_at(sp: Span, end: int) -> bool {
    sp.end == (if end > sp.start {
        end
    } else {
        sp.start as int
    })
}

/// Skipping lexemes that are not significant does not move where the last
/// significant one ended.
proof fn lemma_prev_sig_end_skip(s: Seq<Lexeme>, i: int, j: int)
    requires
        0 <= i <= j <= s.len(),
        forall|m: int| i <= m < j ==> !is_significant(#[trigger] s[m]),
    ensures
        prev_sig_end(s, j) == prev_sig_end(s, i),
    decreases j - i,
{
    if j > i {
        assert(!is_significant(s[j - 1]));
        lemma_prev_sig_end_skip(s, i, j - 1);
    }
}

/// After a significant lexeme, the last significant one ends where it does,
/// until the next significant one.
proof fn lemma_prev_sig_end_after(s: Seq<Lexeme>, i: int)
    requires
        0 <= i < s.len(),
        is_significant(s[i]),
    ensures
        prev_sig_end(s, first_sig_from(s, i + 1)) == s[i].end,
{
    lemma_first_sig_from(s, i + 1);
    lemma_prev_sig_end_skip(s, i + 1, first_sig_from(s, i + 1));
}

proof fn lemma_first_sig_monotone(s: Seq<Lexeme>, i: int, j: int)
    requires
        0 <= i <= j <= s.len(),
    ensures
        first_sig_from(s, i) <= first_sig_from(s, j) || first_sig_from(s, i) >= j,
        j <= first_sig_from(s, i) ==> first_sig_from(s, i) == first_sig_from(s, j),
        first_sig_from(s, i) <= first_sig_from(s, j),
    decreases j - i,
{
    lemma_first_sig_from(s, i);
    lemma_first_sig_from(s, j);
    if i < j {
        lemma_first_sig_monotone(s, i + 1, j);
        lemma_first_sig_from(s, i + 1);
    }
}

/// A token as the grammar sees it: its kind, and its text where the kind
/// carries one (names, numbers and strings). Punctuators are known by kind.
pub open spec fn token_of(l: Lexeme, b: Seq<u8>) -> (TokenKind, Seq<u8>) {
    let k = l.kind->Token_0;
    if k == TokenKind::Name || k == TokenKind::Int || k == TokenKind::Float || k
        == TokenKind::StringValue {
        (k, b.subrange(l.start, l.end))
    } else {
        (k, Seq::empty())
    }
}

/// The significant tokens among the lexemes of `s` with index in `[i, j)`.
pub open spec fn sig_tokens(s: Seq<Lexeme>, b: Seq<u8>, i: int, j: int) -> Seq<
    (TokenKind, Seq<u8>),
>
    decreases j - i,
{
    if j <= i {
        Seq::empty()
    } else if is_significant(s[j - 1]) {
        sig_tokens(s, b, i, j - 1).push(token_of(s[j - 1], b))
    } else {
        sig_tokens(s, b, i, j - 1)
    }
}

pub proof fn lemma_sig_tokens_split(s: Seq<Lexeme>, b: Seq<u8>, i: int, j: int, k: int)
    requires
        i <= j <= k,
    ensures
        sig_tokens(s, b, i, k) == sig_tokens(s, b, i, j) + sig_tokens(s, b, j, k),
    decreases k - j,
{
    if k > j {
        lemma_sig_tokens_split(s, b, i, j, k - 1);
        assert(sig_tokens(s, b, i, k) =~= sig_tokens(s, b, i, j) + sig_tokens(s, b, j, k));
    } else {
        assert(sig_tokens(s, b, i, j) + sig_tokens(s, b, j, k) =~= sig_tokens(s, b, i, j));
    }
}

proof fn lemma_sig_tokens_none(s: Seq<Lexeme>, b: Seq<u8>, i: int, j: int)
    requires
        i <= j,
        forall|m: int| i <= m < j ==> !is_significant(#[trigger] s[m]),
    ensures
        sig_tokens(s, b, i, j) == Seq::<(TokenKind, Seq<u8>)>::empty(),
    decreases j - i,
{
    if j > i {
        lemma_sig_tokens_none(s, b, i, j - 1);
    }
}

/// The significant token at `i` comes first among those from `i` on.
proof fn lemma_sig_tokens_first(s: Seq<Lexeme>, b: Seq<u8>, i: int, j: int)
    requires
        0 <= i < j,
        is_significant(s[i]),
    ensures
        sig_tokens(s, b, i, j).len() > 0,
        sig_tokens(s, b, i, j)[0] == token_of(s[i], b),
{
    lemma_sig_tokens_split(s, b, i, i + 1, j);
    assert(sig_tokens(s, b, i, i) =~= Seq::<(TokenKind, Seq<u8>)>::empty());
}

/// The tokens a type is written with.
pub open spec fn type_tokens(t: Type) -> Seq<(TokenKind, Seq<u8>)>
    decreases t,
{
    match t {
        Type::Named(n) => seq![(TokenKind::Name, bytes_of(n.name.value))],
        Type::List(l) => seq![(TokenKind::LBracket, Seq::empty())] + type_tokens(*l.ty) + seq![
            (TokenKind::RBracket, Seq::empty()),
        ],
        Type::NonNull(n) => type_tokens(*n.ty) + seq![(TokenKind::Bang, Seq::empty())],
        Type::Missing(_) => Seq::empty(),
    }
}

/// How deeply list types nest in a type.
pub open spec fn type_depth(t: Type) -> nat
    decreases t,
{
    match t {
        Type::List(l) => 1 + type_depth(*l.ty),
        Type::NonNull(n) => type_depth(*n.ty),
        _ => 0,
    }
}

/// No `!` is put directly on a type that already has one.
pub open spec fn type_canonical(t: Type) -> bool
    decreases t,
{
    match t {
        Type::List(l) => type_canonical(*l.ty),
        Type::NonNull(n) => !(*n.ty is NonNull) && type_canonical(*n.ty),
        _ => true,
    }
}

/// The type `t`, complete and without a doubled `!`, is written at the
/// start of `toks` and nests its lists more deeply than `room` allows.
pub open spec fn too_deep_type(t: Type, toks: Seq<(TokenKind, Seq<u8>)>, room: int) -> bool {
    &&& type_complete(t)
    &&& type_canonical(t)
    &&& type_tokens(t).is_prefix_of(toks)
    &&& type_depth(t) > room
}

/// The type under a type's `!`, if it has one.
pub open spec fn type_base(t: Type) -> Type {
    match t {
        Type::NonNull(n) => *n.ty,
        _ => t,
    }
}

/// The item type of a list type, under its `!` if it has one.
pub open spec fn list_item(t: Type) -> Type {
    match type_base(t) {
        Type::List(l) => *l.ty,
        _ => t,
    }
}

/// The tokens of a type: those of its base, then its `!` if it has one.
#[verifier::spinoff_prover]
proof fn lemma_type_tokens_shape(t: Type)
    requires
        type_complete(t),
        type_canonical(t),
    ensures
        type_complete(type_base(t)),
        type_canonical(type_base(t)),
        !(type_base(t) is NonNull),
        !(type_base(t) is Missing),
        type_depth(type_base(t)) == type_depth(t),
        type_tokens(t) == type_tokens(type_base(t)) + (if t is NonNull {
            seq![punct(TokenKind::Bang)]
        } else {
            Seq::empty()
        }),
        type_base(t) is Named ==> type_tokens(type_base(t)) == seq![
            name_token(type_base(t)->Named_0.name),
        ],
        type_base(t) is List ==> type_tokens(type_base(t)) == seq![punct(TokenKind::LBracket)]
            + type_tokens(list_item(t)) + seq![punct(TokenKind::RBracket)],
        type_base(t) is List ==> type_complete(list_item(t)) && type_canonical(list_item(t))
            && type_depth(list_item(t)) + 1 == type_depth(t),
{
    match t {
        Type::NonNull(n) => {
            assert(type_complete(*n.ty));
            assert(type_tokens(t) =~= type_tokens(*n.ty) + seq![punct(TokenKind::Bang)]);
            match *n.ty {
                Type::List(l) => {
                    assert(type_complete(*l.ty));
                    assert(type_canonical(*n.ty));
                    assert(type_canonical(*l.ty));
                    assert(list_item(t) == *l.ty);
                    assert(type_depth(t) == type_depth(*n.ty));
                    assert(type_depth(*n.ty) == type_depth(*l.ty) + 1);
                },
                _ => {},
            }
        },
        Type::List(l) => {
            assert(type_complete(*l.ty));
            assert(type_tokens(t) =~= type_tokens(t) + Seq::<(TokenKind, Seq<u8>)>::empty());
        },
        _ => {
            assert(type_tokens(t) =~= type_tokens(t) + Seq::<(TokenKind, Seq<u8>)>::empty());
        },
    }
}

/// A punctuator token.
pub open spec fn punct(k: TokenKind) -> (TokenKind, Seq<u8>) {
    (k, Seq::empty())
}

/// The token of a name.
pub open spec fn name_token(n: Name) -> (TokenKind, Seq<u8>) {
    (TokenKind::Name, bytes_of(n.value))
}

/// The tokens a value is written with.
pub open spec fn value_tokens(v: Value) -> Seq<(TokenKind, Seq<u8>)>
    decreases v,
{
    match v {
        Value::Variable(x) => seq![punct(TokenKind::Dollar), name_token(x.name)],
        Value::Int(x) => seq![(TokenKind::Int, bytes_of(x.raw))],
        Value::Float(x) => seq![(TokenKind::Float, bytes_of(x.raw))],
        Value::String(x) => seq![(TokenKind::StringValue, bytes_of(x.raw))],
        Value::Boolean(x) => seq![
            (TokenKind::Name, if x.value {
                bytes_of("true")
            } else {
                bytes_of("false")
            }),
        ],
        Value::Null(_) => seq![(TokenKind::Name, bytes_of("null"))],
        Value::Enum(x) => seq![name_token(x.name)],
        Value::List(l) => seq![punct(TokenKind::LBracket)] + values_tokens(l.values@) + seq![
            punct(TokenKind::RBracket),
        ],
        Value::Object(o) => seq![punct(TokenKind::LCurly)] + object_fields_tokens(o.fields@)
            + seq![punct(TokenKind::RCurly)],
        Value::Missing(_) => Seq::empty(),
    }
}

pub open spec fn values_tokens(vs: Seq<Value>) -> Seq<(TokenKind, Seq<u8>)>
    decreases vs,
{
    if vs.len() == 0 {
        Seq::empty()
    } else {
        values_tokens(vs.subrange(0, vs.len() - 1)) + value_tokens(vs[vs.len() - 1])
    }
}

pub open spec fn object_field_tokens(f: ObjectField) -> Seq<(TokenKind, Seq<u8>)>
    decreases f,
{
    seq![name_token(f.name), punct(TokenKind::Colon)] + match f.value {
        Some(v) => value_tokens(v),
        None => Seq::empty(),
    }
}

pub open spec fn object_fields_tokens(fs: Seq<ObjectField>) -> Seq<(TokenKind, Seq<u8>)>
    decreases fs,
{
    if fs.len() == 0 {
        Seq::empty()
    } else {
        object_fields_tokens(fs.subrange(0, fs.len() - 1)) + object_field_tokens(
            fs[fs.len() - 1],
        )
    }
}

pub open spec fn argument_tokens(a: Argument) -> Seq<(TokenKind, Seq<u8>)> {
    seq![name_token(a.name), punct(TokenKind::Colon)] + match a.value {
        Some(v) => value_tokens(v),
        None => Seq::empty(),
    }
}

pub open spec fn argument_list_tokens(args: Seq<Argument>) -> Seq<(TokenKind, Seq<u8>)>
    decreases args.len(),
{
    if args.len() == 0 {
        Seq::empty()
    } else {
        argument_list_tokens(args.drop_last()) + argument_tokens(args.last())
    }
}

/// The tokens of an argument list: nothing when there is no argument.
pub open spec fn arguments_tokens(args: Seq<Argument>) -> Seq<(TokenKind, Seq<u8>)> {
    if args.len() == 0 {
        Seq::empty()
    } else {
        seq![punct(TokenKind::LParen)] + argument_list_tokens(args) + seq![
            punct(TokenKind::RParen),
        ]
    }
}

pub open spec fn directive_tokens(d: Directive) -> Seq<(TokenKind, Seq<u8>)> {
    seq![punct(TokenKind::At), name_token(d.name)] + arguments_tokens(d.arguments@)
}

pub open spec fn directives_tokens(ds: Seq<Directive>) -> Seq<(TokenKind, Seq<u8>)>
    decreases ds.len(),
{
    if ds.len() == 0 {
        Seq::empty()
    } else {
        directives_tokens(ds.drop_last()) + directive_tokens(ds.last())
    }
}

/// The tokens a selection set is written with.
pub open spec fn selection_set_tokens(ss: SelectionSet) -> Seq<(TokenKind, Seq<u8>)>
    decreases ss,
{
    seq![punct(TokenKind::LCurly)] + selections_tokens(ss.selections@) + seq![
        punct(TokenKind::RCurly),
    ]
}

pub open spec fn opt_selection_set_tokens(ss: Option<SelectionSet>) -> Seq<(TokenKind, Seq<u8>)>
    decreases ss,
{
    match ss {
        Some(ss) => selection_set_tokens(ss),
        None => Seq::empty(),
    }
}

pub open spec fn selections_tokens(s: Seq<Selection>) -> Seq<(TokenKind, Seq<u8>)>
    decreases s,
{
    if s.len() == 0 {
        Seq::empty()
    } else {
        selections_tokens(s.subrange(0, s.len() - 1)) + selection_tokens(s[s.len() - 1])
    }
}

pub open spec fn selection_tokens(s: Selection) -> Seq<(TokenKind, Seq<u8>)>
    decreases s,
{
    match s {
        Selection::Field(f) => (match f.alias {
            Some(a) => seq![name_token(a), punct(TokenKind::Colon)],
            None => Seq::empty(),
        }) + seq![name_token(f.name)] + arguments_tokens(f.arguments@) + directives_tokens(
            f.directives@,
        ) + opt_selection_set_tokens(f.selection_set),
        Selection::FragmentSpread(f) => seq![punct(TokenKind::Spread), name_token(f.name)]
            + directives_tokens(f.directives@),
        Selection::InlineFragment(f) => seq![punct(TokenKind::Spread)] + (match f.type_condition {
            Some(t) => seq![(TokenKind::Name, bytes_of("on")), name_token(t.name)],
            None => Seq::empty(),
        }) + directives_tokens(f.directives@) + opt_selection_set_tokens(f.selection_set),
    }
}

proof fn lemma_empty_parens_prefix(a: Seq<(TokenKind, Seq<u8>)>, b: Seq<(TokenKind, Seq<u8>)>)
    requires
        a.is_prefix_of(b),
        has_empty_parens(a),
    ensures
        has_empty_parens(b),
{
    let i = choose|i: int| 0 <= i < a.len() - 1 && #[trigger] empty_parens_at(a, i);
    assert(a[i] == b[i] && a[i + 1] == b[i + 1]);
    assert(empty_parens_at(b, i));
}

proof fn lemma_push_selection(
    r1: Seq<(TokenKind, Seq<u8>)>,
    items: Seq<Selection>,
    r2: Seq<(TokenKind, Seq<u8>)>,
    sel: Selection,
)
    requires
        reads_as(r1, seq![punct(TokenKind::LCurly)] + selections_tokens(items)),
        reads_as(r2, selection_tokens(sel)),
    ensures
        reads_as(r1 + r2, seq![punct(TokenKind::LCurly)] + selections_tokens(items.push(sel))),
{
    lemma_reads_as_concat(
        r1,
        seq![punct(TokenKind::LCurly)] + selections_tokens(items),
        r2,
        selection_tokens(sel),
    );
    let all = items.push(sel);
    assert(all.subrange(0, all.len() - 1) =~= items);
    assert(seq![punct(TokenKind::LCurly)] + selections_tokens(all) =~= seq![
        punct(TokenKind::LCurly),
    ] + selections_tokens(items) + selection_tokens(sel));
}

/// The value holds no variable, as a constant context asks.
pub open spec fn value_const(v: Value) -> bool
    decreases v,
{
    match v {
        Value::Variable(_) => false,
        Value::List(l) => forall|i: int|
            0 <= i < l.values@.len() ==> value_const(#[trigger] l.values@[i]),
        Value::Object(o) => forall|i: int|
            0 <= i < o.fields@.len() ==> object_field_const(#[trigger] o.fields@[i]),
        _ => true,
    }
}

pub open spec fn object_field_const(f: ObjectField) -> bool
    decreases f,
{
    match f.value {
        Some(v) => value_const(v),
        None => true,
    }
}

pub open spec fn argument_const(a: Argument) -> bool {
    match a.value {
        Some(v) => value_const(v),
        None => true,
    }
}

pub open spec fn arguments_const(args: Seq<Argument>) -> bool {
    forall|i: int| 0 <= i < args.len() ==> argument_const(#[trigger] args[i])
}

pub open spec fn directive_const(d: Directive) -> bool {
    arguments_const(d.arguments@)
}

pub open spec fn directives_const(ds: Seq<Directive>) -> bool {
    forall|i: int| 0 <= i < ds.len() ==> directive_const(#[trigger] ds[i])
}

pub open spec fn variable_definition_tokens(v: VariableDefinition) -> Seq<(TokenKind, Seq<u8>)> {
    seq![punct(TokenKind::Dollar), name_token(v.variable.name), punct(TokenKind::Colon)]
        + (match v.ty {
        Some(t) => type_tokens(t),
        None => Seq::empty(),
    }) + (match v.default_value {
        Some(d) => seq![punct(TokenKind::Eq)] + value_tokens(d),
        None => Seq::empty(),
    }) + directives_tokens(v.directives@)
}

pub open spec fn variable_definition_list_tokens(vs: Seq<VariableDefinition>) -> Seq<(TokenKind, Seq<u8>)>
    decreases vs.len(),
{
    if vs.len() == 0 {
        Seq::empty()
    } else {
        variable_definition_list_tokens(vs.drop_last()) + variable_definition_tokens(vs.last())
    }
}

/// The tokens of variable definitions: nothing when there is none.
pub open spec fn variable_definitions_tokens(vs: Seq<VariableDefinition>) -> Seq<(TokenKind, Seq<u8>)> {
    if vs.len() == 0 {
        Seq::empty()
    } else {
        seq![punct(TokenKind::LParen)] + variable_definition_list_tokens(vs) + seq![
            punct(TokenKind::RParen),
        ]
    }
}

/// A variable definition the parser reads without an error, given `room`
/// recursion levels: it has no description, a type without a doubled `!`,
/// a constant default value if any, and constant directives.
pub open spec fn variable_definition_ok(v: VariableDefinition, room: int) -> bool {
    &&& variable_definition_complete(v)
    &&& v.description is None
    &&& type_canonical(v.ty->0)
    &&& type_depth(v.ty->0) <= room
    &&& (v.default_value matches Some(d) ==> value_const(d) && value_depth(d) <= room)
    &&& directives_const(v.directives@)
    &&& directives_depth(v.directives@) <= room
}

/// The keyword that opens an operation of type `t`.
pub open spec fn operation_keyword(t: OperationType) -> (TokenKind, Seq<u8>) {
    match t {
        OperationType::Query => (TokenKind::Name, bytes_of("query")),
        OperationType::Mutation => (TokenKind::Name, bytes_of("mutation")),
        OperationType::Subscription => (TokenKind::Name, bytes_of("subscription")),
    }
}

/// The tokens of an operation: its selection set alone in the short form,
/// else its keyword, name, variable definitions, directives and selection
/// set.
pub open spec fn operation_tokens(op: OperationDefinition, shorthand: bool) -> Seq<(TokenKind, Seq<u8>)> {
    if shorthand {
        opt_selection_set_tokens(op.selection_set)
    } else {
        seq![operation_keyword(op.operation_type)] + (match op.name {
            Some(n) => seq![name_token(n)],
            None => Seq::empty(),
        }) + variable_definitions_tokens(op.variable_definitions@) + directives_tokens(
            op.directives@,
        ) + opt_selection_set_tokens(op.selection_set)
    }
}

/// An operation the parser reads without an error, given `room` recursion
/// levels; the short form is a query with no name, variable or directive.
pub open spec fn operation_ok(op: OperationDefinition, shorthand: bool, room: int) -> bool {
    &&& definition_complete(Definition::Operation(op))
    &&& op.description is None
    &&& shorthand ==> op.operation_type is Query && op.name is None && op.variable_definitions@.len()
        == 0 && op.directives@.len() == 0
    &&& forall|i: int|
        0 <= i < op.variable_definitions@.len() ==> variable_definition_ok(
            #[trigger] op.variable_definitions@[i],
            room,
        )
    &&& directives_depth(op.directives@) <= room
    &&& spreads_ok(op.selection_set->0)
    &&& selection_set_depth(op.selection_set->0) <= room
}

/// The tokens of a fragment definition, with its legacy variable
/// definitions, if any.
pub open spec fn fragment_definition_tokens(f: FragmentDefinition) -> Seq<(TokenKind, Seq<u8>)> {
    seq![(TokenKind::Name, bytes_of("fragment")), name_token(f.name)] + (variable_definitions_tokens(
        f.variable_definitions@,
    ) + fragment_tail_tokens(f))
}

/// The tokens of a fragment definition from its `on` on.
pub open spec fn fragment_tail_tokens(f: FragmentDefinition) -> Seq<(TokenKind, Seq<u8>)> {
    seq![(TokenKind::Name, bytes_of("on")), name_token(f.type_condition.name)] + (directives_tokens(
        f.directives@,
    ) + opt_selection_set_tokens(f.selection_set))
}

/// A fragment definition the parser reads without an error, given `room`
/// recursion levels.
#[verifier::opaque]
pub open spec fn fragment_ok(f: FragmentDefinition, room: int) -> bool {
    &&& definition_complete(Definition::Fragment(f))
    &&& f.description is None
    &&& bytes_of(f.name.value) != bytes_of("on")
    &&& f.variable_definitions@.len() == 0
    &&& directives_depth(f.directives@) <= room
    &&& spreads_ok(f.selection_set->0)
    &&& selection_set_depth(f.selection_set->0) <= room
}

/// A fragment definition with legacy variable definitions the parser reads
/// without an error when those are enabled, given `room` recursion levels.
#[verifier::opaque]
pub open spec fn fragment_vars_ok(f: FragmentDefinition, room: int) -> bool {
    &&& definition_complete(Definition::Fragment(f))
    &&& f.description is None
    &&& bytes_of(f.name.value) != bytes_of("on")
    &&& forall|i: int|
        0 <= i < f.variable_definitions@.len() ==> variable_definition_ok(
            #[trigger] f.variable_definitions@[i],
            room,
        )
    &&& directives_depth(f.directives@) <= room
    &&& spreads_ok(f.selection_set->0)
    &&& selection_set_depth(f.selection_set->0) <= room
}

/// The part of a fragment definition from `on` on that the parser reads
/// without an error, given `room` recursion levels.
pub open spec fn fragment_tail_ok(f: FragmentDefinition, room: int) -> bool {
    &&& name_complete(f.type_condition.name)
    &&& directives_complete(f.directives@)
    &&& f.selection_set is Some
    &&& opt_selection_set_complete(f.selection_set)
    &&& directives_depth(f.directives@) <= room
    &&& spreads_ok(f.selection_set->0)
    &&& selection_set_depth(f.selection_set->0) <= room
}

/// The tokens of a union type definition, its members written without a
/// leading `|`.
pub open spec fn union_definition_tokens(u: UnionTypeDefinition) -> Seq<(TokenKind, Seq<u8>)> {
    seq![(TokenKind::Name, bytes_of("union")), name_token(u.name)] + (directives_tokens(u.directives@)
        + union_members_tokens(u.members@, false))
}

/// A union type definition the parser reads without an error, given `room`
/// recursion levels.
pub open spec fn union_ok(u: UnionTypeDefinition, room: int) -> bool {
    &&& definition_complete(Definition::UnionType(u))
    &&& u.description is None
    &&& directives_const(u.directives@)
    &&& directives_depth(u.directives@) <= room
}

/// What may not follow a union type definition that the parser reads to
/// its end.
pub open spec fn union_follow(u: UnionTypeDefinition) -> Set<TokenKind> {
    if u.members@.len() == 0 {
        set![TokenKind::At, TokenKind::LParen, TokenKind::Eq]
    } else {
        set![TokenKind::Pipe]
    }
}

/// The tokens of a scalar type extension after `extend`.
pub open spec fn scalar_extension_tokens(x: ScalarTypeExtension) -> Seq<(TokenKind, Seq<u8>)> {
    seq![(TokenKind::Name, bytes_of("scalar")), name_token(x.name)] + directives_tokens(x.directives@)
}

/// A scalar type extension the parser reads without an error, given `room`
/// recursion levels: at least one constant directive.
pub open spec fn scalar_extension_ok(x: ScalarTypeExtension, room: int) -> bool {
    &&& definition_complete(Definition::ScalarTypeExtension(x))
    &&& x.directives@.len() > 0
    &&& directives_const(x.directives@)
    &&& directives_depth(x.directives@) <= room
}

/// The tokens of a union type extension after `extend`, its members written
/// without a leading `|`.
pub open spec fn union_extension_tokens(x: UnionTypeExtension) -> Seq<(TokenKind, Seq<u8>)> {
    seq![(TokenKind::Name, bytes_of("union")), name_token(x.name)] + (directives_tokens(x.directives@)
        + union_members_tokens(x.members@, false))
}

/// A union type extension the parser reads without an error, given `room`
/// recursion levels: constant directives or member types, or both.
pub open spec fn union_extension_ok(x: UnionTypeExtension, room: int) -> bool {
    &&& definition_complete(Definition::UnionTypeExtension(x))
    &&& (x.directives@.len() > 0 || x.members@.len() > 0)
    &&& directives_const(x.directives@)
    &&& directives_depth(x.directives@) <= room
}

/// What may not follow a union type extension that the parser reads to its
/// end.
pub open spec fn union_extension_follow(x: UnionTypeExtension) -> Set<TokenKind> {
    if x.members@.len() == 0 {
        set![TokenKind::At, TokenKind::LParen, TokenKind::Eq]
    } else {
        set![TokenKind::Pipe]
    }
}

/// The keyword `extend`.
pub open spec fn extend_token() -> (TokenKind, Seq<u8>) {
    (TokenKind::Name, bytes_of("extend"))
}

/// A definition whose form the parser reports an error for: a fragment
/// named `on`, or an operation or fragment with a description while
/// executable descriptions are disabled.
pub open spec fn definition_errs(d: Definition, descriptions: bool) -> bool {
    match d {
        Definition::Operation(op) => op.description is Some && !descriptions,
        Definition::Fragment(f) => bytes_of(f.name.value) == bytes_of("on") || (f.description is Some
            && !descriptions),
        _ => false,
    }
}

/// A token that, right after a leading string, makes the parser report an
/// error: `extend`, or, while executable descriptions are disabled, the
/// start of an operation or a fragment.
pub open spec fn described_start_errs(t: (TokenKind, Seq<u8>), descriptions: bool) -> bool {
    ||| t == (TokenKind::Name, bytes_of("extend"))
    ||| !descriptions && (t.0 == TokenKind::LCurly || t == (TokenKind::Name, bytes_of("fragment")) || t == (
        TokenKind::Name,
        bytes_of("query"),
    ) || t == (TokenKind::Name, bytes_of("mutation")) || t == (TokenKind::Name, bytes_of("subscription")))
}

/// A token that may follow a definition in a document: the start of the
/// next one, or the end of the input.
pub open spec fn definition_follows(k: TokenKind) -> bool {
    k == TokenKind::Name || k == TokenKind::LCurly || k == TokenKind::Eof
}

/// The first token of a definition the parser reads without an error may
/// start a definition.
#[verifier::spinoff_prover]
#[verifier::rlimit(60)]
proof fn lemma_definition_first(d: Definition, shorthand: bool, room: int)
    requires
        definition_ok(d, shorthand, room),
    ensures
        definition_tokens(d, shorthand).len() > 0,
        definition_follows(definition_tokens(d, shorthand)[0].0),
{
    reveal(definition_ok);
    match d {
        Definition::Operation(op) => {
            let sst = selection_set_tokens(op.selection_set->0);
            assert(sst[0] == punct(TokenKind::LCurly));
            if !shorthand {
                assert(definition_tokens(d, shorthand)[0] == operation_keyword(op.operation_type));
            }
        },
        Definition::Fragment(f) => {
            assert(definition_tokens(d, shorthand)[0] == (TokenKind::Name, bytes_of("fragment")));
        },
        Definition::UnionType(u) => {
            assert(definition_tokens(d, shorthand)[0] == (TokenKind::Name, bytes_of("union")));
        },
        Definition::ObjectType(o) => {
            assert(definition_tokens(d, shorthand)[0] == (TokenKind::Name, bytes_of("type")));
        },
        Definition::ScalarTypeExtension(x) => {
            assert(definition_tokens(d, shorthand)[0] == extend_token());
        },
        Definition::UnionTypeExtension(x) => {
            assert(definition_tokens(d, shorthand)[0] == extend_token());
        },
        _ => {},
    }
}

/// The tokens of a definition the document law covers (`shorthand` tells
/// whether an operation is written in its short form).
pub open spec fn definition_tokens(d: Definition, shorthand: bool) -> Seq<(TokenKind, Seq<u8>)> {
    match d {
        Definition::Operation(op) => operation_tokens(op, shorthand),
        Definition::Fragment(f) => fragment_definition_tokens(f),
        Definition::UnionType(u) => union_definition_tokens(u),
        Definition::ObjectType(o) => object_definition_tokens(o),
        Definition::ScalarTypeExtension(x) => seq![extend_token()] + scalar_extension_tokens(x),
        Definition::UnionTypeExtension(x) => seq![extend_token()] + union_extension_tokens(x),
        _ => Seq::empty(),
    }
}

/// A definition the parser reads without an error, given `room` recursion
/// levels: an operation, a fragment, a union type, an object type, or a
/// scalar or union type extension.
#[verifier::opaque]
pub open spec fn definition_ok(d: Definition, shorthand: bool, room: int) -> bool {
    match d {
        Definition::Operation(op) => operation_ok(op, shorthand, room),
        Definition::Fragment(f) => !shorthand && fragment_ok(f, room),
        Definition::UnionType(u) => !shorthand && union_ok(u, room),
        Definition::ObjectType(o) => !shorthand && object_ok(o, room),
        Definition::ScalarTypeExtension(x) => !shorthand && scalar_extension_ok(x, room),
        Definition::UnionTypeExtension(x) => !shorthand && union_extension_ok(x, room),
        _ => false,
    }
}

/// The tokens of definitions, each with whether it is an
/// operation in short form.
pub open spec fn definitions_tokens(ds: Seq<(Definition, bool)>) -> Seq<(TokenKind, Seq<u8>)>
    decreases ds.len(),
{
    if ds.len() == 0 {
        Seq::empty()
    } else {
        definitions_tokens(ds.drop_last()) + definition_tokens(ds.last().0, ds.last().1)
    }
}

/// An operation as its short form reads: a query with no name, variable
/// or directive.
#[verifier::opaque]
pub open spec fn short_form(d: Definition) -> bool {
    d matches Definition::Operation(op) && op.operation_type is Query && op.name is None
        && op.variable_definitions@.len() == 0 && op.directives@.len() == 0
}

/// The definitions `defs`, each written in full or short form as fits,
/// have the tokens `toks`.
pub open spec fn reads_back(defs: Seq<Definition>, toks: Seq<(TokenKind, Seq<u8>)>) -> bool {
    exists|got: Seq<(Definition, bool)>|
        {
            &&& got.len() == defs.len()
            &&& forall|i: int| 0 <= i < got.len() ==> (#[trigger] got[i]).0 == defs[i]
            &&& forall|i: int| 0 <= i < got.len() ==> (#[trigger] got[i]).1 ==> short_form(got[i].0)
            &&& #[trigger] definitions_tokens(got) == toks
        }
}

proof fn lemma_definitions_tokens_append(a: Seq<(Definition, bool)>, b: Seq<(Definition, bool)>)
    ensures
        definitions_tokens(a + b) == definitions_tokens(a) + definitions_tokens(b),
    decreases b.len(),
{
    if b.len() == 0 {
        assert(a + b =~= a);
        assert(definitions_tokens(a) + definitions_tokens(b) =~= definitions_tokens(a));
    } else {
        let c = a + b;
        assert(c.drop_last() =~= a + b.drop_last());
        assert(c.last() == b.last());
        lemma_definitions_tokens_append(a, b.drop_last());
        assert(definitions_tokens(a + b) =~= definitions_tokens(a) + definitions_tokens(b));
    }
}

/// Two strings whose first characters differ have different bytes.
proof fn lemma_first_char_differs(a: &str, b: &str)
    requires
        a@.len() > 0,
        b@.len() > 0,
        a@[0] != b@[0],
    ensures
        bytes_of(a) != bytes_of(b),
{
    crate::text::lemma_same_bytes_same_chars(a, b);
}

/// The keyword of an object type differs from the keywords tested before
/// it and from those of the other definitions the document law covers.
proof fn lemma_type_keyword_differs()
    ensures
        bytes_of("type") != bytes_of("directive"),
        bytes_of("type") != bytes_of("enum"),
        bytes_of("type") != bytes_of("extend"),
        bytes_of("type") != bytes_of("input"),
        bytes_of("type") != bytes_of("interface"),
        bytes_of("type") != bytes_of("query"),
        bytes_of("type") != bytes_of("mutation"),
        bytes_of("type") != bytes_of("subscription"),
        bytes_of("type") != bytes_of("fragment"),
        bytes_of("type") != bytes_of("union"),
{
    reveal_strlit("type");
    reveal_strlit("directive");
    reveal_strlit("enum");
    reveal_strlit("extend");
    reveal_strlit("input");
    reveal_strlit("interface");
    reveal_strlit("query");
    reveal_strlit("mutation");
    reveal_strlit("subscription");
    reveal_strlit("fragment");
    reveal_strlit("union");
    lemma_first_char_differs("type", "directive");
    lemma_first_char_differs("type", "enum");
    lemma_first_char_differs("type", "extend");
    lemma_first_char_differs("type", "input");
    lemma_first_char_differs("type", "interface");
    lemma_first_char_differs("type", "query");
    lemma_first_char_differs("type", "mutation");
    lemma_first_char_differs("type", "subscription");
    lemma_first_char_differs("type", "fragment");
    lemma_first_char_differs("type", "union");
}

/// The keywords that may follow `extend` differ from one another.
proof fn lemma_extension_keywords_differ()
    ensures
        bytes_of("scalar") != bytes_of("schema"),
        bytes_of("type") != bytes_of("schema"),
        bytes_of("type") != bytes_of("scalar"),
        bytes_of("interface") != bytes_of("schema"),
        bytes_of("interface") != bytes_of("scalar"),
        bytes_of("interface") != bytes_of("type"),
        bytes_of("union") != bytes_of("schema"),
        bytes_of("union") != bytes_of("scalar"),
        bytes_of("union") != bytes_of("type"),
        bytes_of("union") != bytes_of("interface"),
        bytes_of("enum") != bytes_of("schema"),
        bytes_of("enum") != bytes_of("scalar"),
        bytes_of("enum") != bytes_of("type"),
        bytes_of("enum") != bytes_of("interface"),
        bytes_of("enum") != bytes_of("union"),
        bytes_of("input") != bytes_of("schema"),
        bytes_of("input") != bytes_of("scalar"),
        bytes_of("input") != bytes_of("type"),
        bytes_of("input") != bytes_of("interface"),
        bytes_of("input") != bytes_of("union"),
        bytes_of("input") != bytes_of("enum"),
{
    reveal_strlit("schema");
    reveal_strlit("scalar");
    reveal_strlit("type");
    reveal_strlit("interface");
    reveal_strlit("union");
    reveal_strlit("enum");
    reveal_strlit("input");
    crate::text::lemma_same_bytes_same_chars("scalar", "schema");
    assert("scalar"@[2] != "schema"@[2]);
    crate::text::lemma_same_bytes_same_chars("type", "schema");
    assert("type"@.len() != "schema"@.len());
    crate::text::lemma_same_bytes_same_chars("type", "scalar");
    assert("type"@.len() != "scalar"@.len());
    crate::text::lemma_same_bytes_same_chars("interface", "schema");
    assert("interface"@.len() != "schema"@.len());
    crate::text::lemma_same_bytes_same_chars("interface", "scalar");
    assert("interface"@.len() != "scalar"@.len());
    crate::text::lemma_same_bytes_same_chars("interface", "type");
    assert("interface"@.len() != "type"@.len());
    crate::text::lemma_same_bytes_same_chars("union", "schema");
    assert("union"@.len() != "schema"@.len());
    crate::text::lemma_same_bytes_same_chars("union", "scalar");
    assert("union"@.len() != "scalar"@.len());
    crate::text::lemma_same_bytes_same_chars("union", "type");
    assert("union"@.len() != "type"@.len());
    crate::text::lemma_same_bytes_same_chars("union", "interface");
    assert("union"@.len() != "interface"@.len());
    crate::text::lemma_same_bytes_same_chars("enum", "schema");
    assert("enum"@.len() != "schema"@.len());
    crate::text::lemma_same_bytes_same_chars("enum", "scalar");
    assert("enum"@.len() != "scalar"@.len());
    crate::text::lemma_same_bytes_same_chars("enum", "type");
    assert("enum"@[0] != "type"@[0]);
    crate::text::lemma_same_bytes_same_chars("enum", "interface");
    assert("enum"@.len() != "interface"@.len());
    crate::text::lemma_same_bytes_same_chars("enum", "union");
    assert("enum"@.len() != "union"@.len());
    crate::text::lemma_same_bytes_same_chars("input", "schema");
    assert("input"@.len() != "schema"@.len());
    crate::text::lemma_same_bytes_same_chars("input", "scalar");
    assert("input"@.len() != "scalar"@.len());
    crate::text::lemma_same_bytes_same_chars("input", "type");
    assert("input"@.len() != "type"@.len());
    crate::text::lemma_same_bytes_same_chars("input", "interface");
    assert("input"@.len() != "interface"@.len());
    crate::text::lemma_same_bytes_same_chars("input", "union");
    assert("input"@[0] != "union"@[0]);
    crate::text::lemma_same_bytes_same_chars("input", "enum");
    assert("input"@.len() != "enum"@.len());
}

/// The names `true`, `false` and `null` differ from one another.
proof fn lemma_value_names_differ()
    ensures
        bytes_of("true") != bytes_of("false"),
        bytes_of("true") != bytes_of("null"),
        bytes_of("false") != bytes_of("null"),
{
    reveal_strlit("true");
    reveal_strlit("false");
    reveal_strlit("null");
    lemma_first_char_differs("true", "false");
    lemma_first_char_differs("true", "null");
    lemma_first_char_differs("false", "null");
}

/// The keyword of an extension differs from the keywords tested before it.
proof fn lemma_extend_keyword_differs()
    ensures
        bytes_of("extend") != bytes_of("directive"),
        bytes_of("extend") != bytes_of("enum"),
{
    reveal_strlit("extend");
    reveal_strlit("directive");
    reveal_strlit("enum");
    lemma_first_char_differs("extend", "directive");
    crate::text::lemma_same_bytes_same_chars("extend", "enum");
    assert("extend"@.len() != "enum"@.len());
}

/// The keyword of a union type differs from the keywords tested before it.
proof fn lemma_union_keyword_differs()
    ensures
        bytes_of("union") != bytes_of("directive"),
        bytes_of("union") != bytes_of("enum"),
        bytes_of("union") != bytes_of("extend"),
        bytes_of("union") != bytes_of("input"),
        bytes_of("union") != bytes_of("interface"),
        bytes_of("union") != bytes_of("type"),
        bytes_of("union") != bytes_of("scalar"),
        bytes_of("union") != bytes_of("schema"),
        bytes_of("union") != bytes_of("query"),
        bytes_of("union") != bytes_of("mutation"),
        bytes_of("union") != bytes_of("subscription"),
        bytes_of("union") != bytes_of("fragment"),
{
    reveal_strlit("union");
    reveal_strlit("directive");
    reveal_strlit("enum");
    reveal_strlit("extend");
    reveal_strlit("input");
    reveal_strlit("interface");
    reveal_strlit("type");
    reveal_strlit("scalar");
    reveal_strlit("schema");
    reveal_strlit("query");
    reveal_strlit("mutation");
    reveal_strlit("subscription");
    reveal_strlit("fragment");
    lemma_first_char_differs("union", "directive");
    lemma_first_char_differs("union", "enum");
    lemma_first_char_differs("union", "extend");
    lemma_first_char_differs("union", "input");
    lemma_first_char_differs("union", "interface");
    lemma_first_char_differs("union", "type");
    lemma_first_char_differs("union", "scalar");
    lemma_first_char_differs("union", "schema");
    lemma_first_char_differs("union", "query");
    lemma_first_char_differs("union", "mutation");
    lemma_first_char_differs("union", "subscription");
    lemma_first_char_differs("union", "fragment");
}

/// The keywords of executable definitions differ from those tested before
/// them.
proof fn lemma_keywords_differ()
    ensures
        bytes_of("query") != bytes_of("directive"),
        bytes_of("query") != bytes_of("enum"),
        bytes_of("query") != bytes_of("extend"),
        bytes_of("query") != bytes_of("fragment"),
        bytes_of("query") != bytes_of("input"),
        bytes_of("query") != bytes_of("interface"),
        bytes_of("query") != bytes_of("type"),
        bytes_of("mutation") != bytes_of("directive"),
        bytes_of("mutation") != bytes_of("enum"),
        bytes_of("mutation") != bytes_of("extend"),
        bytes_of("mutation") != bytes_of("fragment"),
        bytes_of("mutation") != bytes_of("input"),
        bytes_of("mutation") != bytes_of("interface"),
        bytes_of("mutation") != bytes_of("type"),
        bytes_of("mutation") != bytes_of("query"),
        bytes_of("subscription") != bytes_of("directive"),
        bytes_of("subscription") != bytes_of("enum"),
        bytes_of("subscription") != bytes_of("extend"),
        bytes_of("subscription") != bytes_of("fragment"),
        bytes_of("subscription") != bytes_of("input"),
        bytes_of("subscription") != bytes_of("interface"),
        bytes_of("subscription") != bytes_of("type"),
        bytes_of("subscription") != bytes_of("query"),
        bytes_of("subscription") != bytes_of("mutation"),
        bytes_of("fragment") != bytes_of("directive"),
        bytes_of("fragment") != bytes_of("enum"),
        bytes_of("fragment") != bytes_of("extend"),
{
    reveal_strlit("query");
    reveal_strlit("mutation");
    reveal_strlit("subscription");
    reveal_strlit("fragment");
    reveal_strlit("directive");
    reveal_strlit("enum");
    reveal_strlit("extend");
    reveal_strlit("input");
    reveal_strlit("interface");
    reveal_strlit("type");
    lemma_first_char_differs("query", "directive");
    lemma_first_char_differs("query", "enum");
    lemma_first_char_differs("query", "extend");
    lemma_first_char_differs("query", "fragment");
    lemma_first_char_differs("query", "input");
    lemma_first_char_differs("query", "interface");
    lemma_first_char_differs("query", "type");
    lemma_first_char_differs("mutation", "directive");
    lemma_first_char_differs("mutation", "enum");
    lemma_first_char_differs("mutation", "extend");
    lemma_first_char_differs("mutation", "fragment");
    lemma_first_char_differs("mutation", "input");
    lemma_first_char_differs("mutation", "interface");
    lemma_first_char_differs("mutation", "type");
    lemma_first_char_differs("mutation", "query");
    lemma_first_char_differs("subscription", "directive");
    lemma_first_char_differs("subscription", "enum");
    lemma_first_char_differs("subscription", "extend");
    lemma_first_char_differs("subscription", "fragment");
    lemma_first_char_differs("subscription", "input");
    lemma_first_char_differs("subscription", "interface");
    lemma_first_char_differs("subscription", "type");
    lemma_first_char_differs("subscription", "query");
    lemma_first_char_differs("subscription", "mutation");
    lemma_first_char_differs("fragment", "directive");
    lemma_first_char_differs("fragment", "enum");
    lemma_first_char_differs("fragment", "extend");
}

pub open spec fn root_operation_tokens(r: RootOperationTypeDefinition) -> Seq<(TokenKind, Seq<u8>)> {
    seq![operation_keyword(r.operation_type), punct(TokenKind::Colon), name_token(r.named_type.name)]
}

pub open spec fn root_operation_list_tokens(rs: Seq<RootOperationTypeDefinition>) -> Seq<(TokenKind, Seq<u8>)>
    decreases rs.len(),
{
    if rs.len() == 0 {
        Seq::empty()
    } else {
        root_operation_list_tokens(rs.drop_last()) + root_operation_tokens(rs.last())
    }
}

pub open spec fn enum_value_definition_tokens(e: EnumValueDefinition) -> Seq<(TokenKind, Seq<u8>)> {
    description_tokens(e.description) + seq![name_token(e.value.name)] + directives_tokens(e.directives@)
}

pub open spec fn enum_value_list_tokens(es: Seq<EnumValueDefinition>) -> Seq<(TokenKind, Seq<u8>)>
    decreases es.len(),
{
    if es.len() == 0 {
        Seq::empty()
    } else {
        enum_value_list_tokens(es.drop_last()) + enum_value_definition_tokens(es.last())
    }
}

pub open spec fn opt_type_tokens(t: Option<Type>) -> Seq<(TokenKind, Seq<u8>)> {
    match t {
        Some(t) => type_tokens(t),
        None => Seq::empty(),
    }
}

pub open spec fn default_value_tokens(v: Option<Value>) -> Seq<(TokenKind, Seq<u8>)> {
    match v {
        Some(v) => seq![punct(TokenKind::Eq)] + value_tokens(v),
        None => Seq::empty(),
    }
}

pub open spec fn input_value_definition_tokens(v: InputValueDefinition) -> Seq<(TokenKind, Seq<u8>)> {
    description_tokens(v.description) + seq![name_token(v.name), punct(TokenKind::Colon)]
        + opt_type_tokens(v.ty) + default_value_tokens(v.default_value) + directives_tokens(
        v.directives@,
    )
}

pub open spec fn input_value_list_tokens(vs: Seq<InputValueDefinition>) -> Seq<(TokenKind, Seq<u8>)>
    decreases vs.len(),
{
    if vs.len() == 0 {
        Seq::empty()
    } else {
        input_value_list_tokens(vs.drop_last()) + input_value_definition_tokens(vs.last())
    }
}

/// The tokens of argument definitions: nothing when there is none.
pub open spec fn arguments_definition_tokens(vs: Seq<InputValueDefinition>) -> Seq<(TokenKind, Seq<u8>)> {
    if vs.len() == 0 {
        Seq::empty()
    } else {
        seq![punct(TokenKind::LParen)] + input_value_list_tokens(vs) + seq![punct(TokenKind::RParen)]
    }
}

pub open spec fn field_definition_tokens(f: FieldDefinition) -> Seq<(TokenKind, Seq<u8>)> {
    description_tokens(f.description) + seq![name_token(f.name)] + arguments_definition_tokens(
        f.arguments@,
    ) + seq![punct(TokenKind::Colon)] + opt_type_tokens(f.ty) + directives_tokens(f.directives@)
}

pub open spec fn field_definition_list_tokens(fs: Seq<FieldDefinition>) -> Seq<(TokenKind, Seq<u8>)>
    decreases fs.len(),
{
    if fs.len() == 0 {
        Seq::empty()
    } else {
        field_definition_list_tokens(fs.drop_last()) + field_definition_tokens(fs.last())
    }
}

proof fn lemma_field_list_append(a: Seq<FieldDefinition>, b: Seq<FieldDefinition>)
    ensures
        field_definition_list_tokens(a + b) == field_definition_list_tokens(a) + field_definition_list_tokens(b),
    decreases b.len(),
{
    if b.len() == 0 {
        assert(a + b =~= a);
        assert(field_definition_list_tokens(a) + field_definition_list_tokens(b) =~= field_definition_list_tokens(a));
    } else {
        let c = a + b;
        assert(c.drop_last() =~= a + b.drop_last());
        assert(c.last() == b.last());
        lemma_field_list_append(a, b.drop_last());
        assert(field_definition_list_tokens(a + b) =~= field_definition_list_tokens(a) + field_definition_list_tokens(b));
    }
}

/// An input value definition the parser reads without an error, given
/// `room` recursion levels: no description, a type without a doubled `!`,
/// and a constant default value and directives.
pub open spec fn input_value_ok(v: InputValueDefinition, room: int) -> bool {
    &&& input_value_definition_complete(v)
    &&& v.description is None
    &&& v.ty is Some
    &&& type_canonical(v.ty->0)
    &&& type_depth(v.ty->0) <= room
    &&& (v.default_value matches Some(d) ==> value_const(d) && value_depth(d) <= room)
    &&& directives_const(v.directives@)
    &&& directives_depth(v.directives@) <= room
}

/// The tokens of an input value definition from its `:` on.
pub open spec fn input_value_tail_tokens(v: InputValueDefinition) -> Seq<(TokenKind, Seq<u8>)> {
    seq![punct(TokenKind::Colon)] + (opt_type_tokens(v.ty) + (default_value_tokens(v.default_value)
        + directives_tokens(v.directives@)))
}

proof fn lemma_input_list_append(a: Seq<InputValueDefinition>, b: Seq<InputValueDefinition>)
    ensures
        input_value_list_tokens(a + b) == input_value_list_tokens(a) + input_value_list_tokens(b),
    decreases b.len(),
{
    if b.len() == 0 {
        assert(a + b =~= a);
        assert(input_value_list_tokens(a) + input_value_list_tokens(b) =~= input_value_list_tokens(a));
    } else {
        let c = a + b;
        assert(c.drop_last() =~= a + b.drop_last());
        assert(c.last() == b.last());
        lemma_input_list_append(a, b.drop_last());
        assert(input_value_list_tokens(a + b) =~= input_value_list_tokens(a) + input_value_list_tokens(b));
    }
}

/// After `k` of the argument definitions `vs` come definition `k`, starting
/// with its name, or the closing parenthesis.
proof fn lemma_inputs_tail(vs: Seq<InputValueDefinition>, k: int, room: int)
    requires
        0 <= k <= vs.len(),
        forall|i: int| 0 <= i < vs.len() ==> input_value_ok(#[trigger] vs[i], room),
    ensures
        k < vs.len() ==> input_value_list_tokens(vs.skip(k)) + seq![punct(TokenKind::RParen)]
            == input_value_definition_tokens(vs[k]) + (input_value_list_tokens(vs.skip(k + 1)) + seq![
            punct(TokenKind::RParen),
        ]),
        k < vs.len() ==> input_value_definition_tokens(vs[k]).len() > 0 && input_value_definition_tokens(vs[k])[0]
            == name_token(vs[k].name),
        k == vs.len() ==> input_value_list_tokens(vs.skip(k)) + seq![punct(TokenKind::RParen)] == seq![
            punct(TokenKind::RParen),
        ],
{
    if k < vs.len() {
        let x = vs[k];
        assert(vs.skip(k) =~= seq![x] + vs.skip(k + 1));
        lemma_input_list_append(seq![x], vs.skip(k + 1));
        assert(seq![x].drop_last() =~= Seq::<InputValueDefinition>::empty());
        assert(seq![x].last() == x);
        assert(input_value_list_tokens(Seq::<InputValueDefinition>::empty()) =~= Seq::<(TokenKind, Seq<u8>)>::empty());
        assert(input_value_list_tokens(seq![x]) =~= input_value_definition_tokens(x));
        assert(input_value_ok(vs[k], room));
        assert(input_value_definition_tokens(x) =~= seq![name_token(x.name)] + input_value_tail_tokens(x));
        assert(input_value_list_tokens(vs.skip(k)) + seq![punct(TokenKind::RParen)] =~= input_value_definition_tokens(x)
            + (input_value_list_tokens(vs.skip(k + 1)) + seq![punct(TokenKind::RParen)]));
    } else {
        assert(vs.skip(k) =~= Seq::<InputValueDefinition>::empty());
        assert(input_value_list_tokens(vs.skip(k)) + seq![punct(TokenKind::RParen)] =~= seq![
            punct(TokenKind::RParen),
        ]);
    }
}

/// After `k` of the fields `fs` come field `k`, starting with its name,
/// or the closing brace.
proof fn lemma_fields_tail(fs: Seq<FieldDefinition>, k: int, room: int)
    requires
        0 <= k <= fs.len(),
        forall|i: int| 0 <= i < fs.len() ==> field_ok(#[trigger] fs[i], room),
    ensures
        k < fs.len() ==> field_definition_list_tokens(fs.skip(k)) + seq![punct(TokenKind::RCurly)]
            == field_definition_tokens(fs[k]) + (field_definition_list_tokens(fs.skip(k + 1)) + seq![
            punct(TokenKind::RCurly),
        ]),
        k < fs.len() ==> field_definition_tokens(fs[k]).len() > 0 && field_definition_tokens(fs[k])[0]
            == name_token(fs[k].name),
        k == fs.len() ==> field_definition_list_tokens(fs.skip(k)) + seq![punct(TokenKind::RCurly)] == seq![
            punct(TokenKind::RCurly),
        ],
{
    if k < fs.len() {
        let x = fs[k];
        assert(fs.skip(k) =~= seq![x] + fs.skip(k + 1));
        lemma_field_list_append(seq![x], fs.skip(k + 1));
        assert(seq![x].drop_last() =~= Seq::<FieldDefinition>::empty());
        assert(seq![x].last() == x);
        assert(field_definition_list_tokens(Seq::<FieldDefinition>::empty()) =~= Seq::<(TokenKind, Seq<u8>)>::empty());
        assert(field_definition_list_tokens(seq![x]) =~= field_definition_tokens(x));
        assert(field_ok(fs[k], room));
        assert(field_definition_tokens(x) =~= seq![name_token(x.name)] + (arguments_definition_tokens(x.arguments@)
            + (seq![punct(TokenKind::Colon)] + (type_tokens(x.ty->0) + directives_tokens(x.directives@)))));
        assert(field_definition_list_tokens(fs.skip(k)) + seq![punct(TokenKind::RCurly)] =~= field_definition_tokens(x)
            + (field_definition_list_tokens(fs.skip(k + 1)) + seq![punct(TokenKind::RCurly)]));
    } else {
        assert(fs.skip(k) =~= Seq::<FieldDefinition>::empty());
        assert(field_definition_list_tokens(fs.skip(k)) + seq![punct(TokenKind::RCurly)] =~= seq![
            punct(TokenKind::RCurly),
        ]);
    }
}

/// A field definition the parser reads without an error, given `room`
/// recursion levels: no description, arguments read without an error, a
/// type without a doubled `!`, and constant directives.
pub open spec fn field_ok(f: FieldDefinition, room: int) -> bool {
    &&& field_definition_complete(f)
    &&& f.description is None
    &&& forall|i: int| 0 <= i < f.arguments@.len() ==> input_value_ok(#[trigger] f.arguments@[i], room)
    &&& f.ty is Some
    &&& type_canonical(f.ty->0)
    &&& type_depth(f.ty->0) <= room
    &&& directives_const(f.directives@)
    &&& directives_depth(f.directives@) <= room
}

/// The tokens of an object type definition that implements no interface.
pub open spec fn object_definition_tokens(o: ObjectTypeDefinition) -> Seq<(TokenKind, Seq<u8>)> {
    seq![(TokenKind::Name, bytes_of("type")), name_token(o.name)] + (directives_tokens(o.directives@) + (seq![
        punct(TokenKind::LCurly),
    ] + field_definition_list_tokens(o.fields@) + seq![punct(TokenKind::RCurly)]))
}

/// An object type definition the parser reads without an error, given
/// `room` recursion levels: no description, no interface, constant
/// directives, and at least one field, each of them read without an error.
pub open spec fn object_ok(o: ObjectTypeDefinition, room: int) -> bool {
    &&& name_complete(o.name)
    &&& o.description is None
    &&& o.interfaces@.len() == 0
    &&& directives_complete(o.directives@)
    &&& directives_const(o.directives@)
    &&& directives_depth(o.directives@) <= room
    &&& o.fields@.len() > 0
    &&& forall|i: int| 0 <= i < o.fields@.len() ==> field_ok(#[trigger] o.fields@[i], room)
}

/// Field definitions in braces, or nothing where there is none.
pub open spec fn fields_block_tokens(fs: Seq<FieldDefinition>) -> Seq<(TokenKind, Seq<u8>)> {
    if fs.len() == 0 {
        Seq::empty()
    } else {
        seq![punct(TokenKind::LCurly)] + field_definition_list_tokens(fs) + seq![punct(TokenKind::RCurly)]
    }
}

/// The tokens, after `extend`, of an object (`kw` is `type`) or interface
/// (`kw` is `interface`) type extension that implements no interface.
pub open spec fn fields_extension_tokens(kw: &str, name: Name, ds: Seq<Directive>, fs: Seq<FieldDefinition>) -> Seq<
    (TokenKind, Seq<u8>),
> {
    seq![(TokenKind::Name, bytes_of(kw)), name_token(name)] + (directives_tokens(ds) + fields_block_tokens(fs))
}

/// An object or interface type extension the parser reads without an
/// error, given `room` recursion levels: no interface, constant directives,
/// fields read without an error, and at least one directive or field.
pub open spec fn fields_extension_ok(
    name: Name,
    interfaces: Seq<NamedType>,
    ds: Seq<Directive>,
    fs: Seq<FieldDefinition>,
    room: int,
) -> bool {
    &&& name_complete(name)
    &&& interfaces.len() == 0
    &&& directives_complete(ds)
    &&& directives_const(ds)
    &&& directives_depth(ds) <= room
    &&& (ds.len() > 0 || fs.len() > 0)
    &&& forall|i: int| 0 <= i < fs.len() ==> field_ok(#[trigger] fs[i], room)
}

/// What may not follow an object or interface type extension with the
/// fields `fs` that the parser reads to its end.
pub open spec fn fields_extension_follow(fs: Seq<FieldDefinition>) -> Set<TokenKind> {
    if fs.len() == 0 {
        set![TokenKind::At, TokenKind::LParen, TokenKind::LCurly]
    } else {
        Set::empty()
    }
}

/// The token of a description, if there is one.
pub open spec fn description_tokens(d: Option<StringValue>) -> Seq<(TokenKind, Seq<u8>)> {
    match d {
        Some(v) => seq![(TokenKind::StringValue, bytes_of(v.raw))],
        None => Seq::empty(),
    }
}

/// Named types separated by `sep`.
pub open spec fn joined_names(ns: Seq<NamedType>, sep: TokenKind) -> Seq<(TokenKind, Seq<u8>)>
    decreases ns.len(),
{
    if ns.len() == 0 {
        Seq::empty()
    } else if ns.len() == 1 {
        seq![name_token(ns[0].name)]
    } else {
        joined_names(ns.drop_last(), sep) + seq![punct(sep), name_token(ns.last().name)]
    }
}

/// Named types, each preceded by `sep`.
pub open spec fn sep_names(ns: Seq<NamedType>, sep: TokenKind) -> Seq<(TokenKind, Seq<u8>)>
    decreases ns.len(),
{
    if ns.len() == 0 {
        Seq::empty()
    } else {
        seq![punct(sep), name_token(ns[0].name)] + sep_names(ns.drop_first(), sep)
    }
}

proof fn lemma_sep_names_push(ns: Seq<NamedType>, x: NamedType, sep: TokenKind)
    ensures
        sep_names(ns.push(x), sep) == sep_names(ns, sep) + seq![punct(sep), name_token(x.name)],
    decreases ns.len(),
{
    if ns.len() == 0 {
        assert(ns.push(x).drop_first() =~= Seq::<NamedType>::empty());
        assert(sep_names(Seq::<NamedType>::empty(), sep) =~= Seq::<(TokenKind, Seq<u8>)>::empty());
        assert(ns =~= Seq::<NamedType>::empty());
        assert(ns.push(x)[0] == x);
        assert(sep_names(ns.push(x), sep) =~= sep_names(ns, sep) + seq![punct(sep), name_token(x.name)]);
    } else {
        lemma_sep_names_push(ns.drop_first(), x, sep);
        assert(ns.push(x).drop_first() =~= ns.drop_first().push(x));
        assert(sep_names(ns.push(x), sep) =~= sep_names(ns, sep) + seq![punct(sep), name_token(x.name)]);
    }
}

/// The first `m` of the names `ns`, joined, are the first `k` joined and
/// then the others each preceded by `sep`.
proof fn lemma_joined_names_split(ns: Seq<NamedType>, k: int, m: int, sep: TokenKind)
    requires
        0 < k <= m <= ns.len(),
    ensures
        joined_names(ns.take(m), sep) == joined_names(ns.take(k), sep) + sep_names(ns.subrange(k, m), sep),
    decreases m - k,
{
    if m == k {
        assert(ns.subrange(k, m) =~= Seq::<NamedType>::empty());
        assert(joined_names(ns.take(m), sep) =~= joined_names(ns.take(k), sep) + sep_names(ns.subrange(k, m), sep));
    } else {
        lemma_joined_names_split(ns, k, m - 1, sep);
        assert(ns.subrange(k, m) =~= ns.subrange(k, m - 1).push(ns[m - 1]));
        lemma_sep_names_push(ns.subrange(k, m - 1), ns[m - 1], sep);
        assert(ns.take(m).drop_last() =~= ns.take(m - 1));
        assert(joined_names(ns.take(m), sep) =~= joined_names(ns.take(k), sep) + sep_names(ns.subrange(k, m), sep));
    }
}

/// The `implements` clause of the interfaces `ns`, with or without a
/// leading `&`: nothing when there is no interface.
pub open spec fn implements_tokens(ns: Seq<NamedType>, lead: bool) -> Seq<(TokenKind, Seq<u8>)> {
    if ns.len() == 0 {
        Seq::empty()
    } else {
        seq![(TokenKind::Name, bytes_of("implements"))] + (if lead {
            seq![punct(TokenKind::Amp)]
        } else {
            Seq::empty()
        }) + joined_names(ns, TokenKind::Amp)
    }
}

/// The member types of a union, after `=` and with or without a leading
/// `|`: nothing when there is no member.
pub open spec fn union_members_tokens(ns: Seq<NamedType>, lead: bool) -> Seq<(TokenKind, Seq<u8>)> {
    if ns.len() == 0 {
        Seq::empty()
    } else {
        seq![punct(TokenKind::Eq)] + (if lead {
            seq![punct(TokenKind::Pipe)]
        } else {
            Seq::empty()
        }) + joined_names(ns, TokenKind::Pipe)
    }
}

/// Directive locations separated by `|`.
pub open spec fn joined_locations(ls: Seq<DirectiveLocation>) -> Seq<(TokenKind, Seq<u8>)>
    decreases ls.len(),
{
    if ls.len() == 0 {
        Seq::empty()
    } else if ls.len() == 1 {
        seq![(TokenKind::Name, bytes_of(ls[0].name))]
    } else {
        joined_locations(ls.drop_last()) + seq![
            punct(TokenKind::Pipe),
            (TokenKind::Name, bytes_of(ls.last().name)),
        ]
    }
}

/// The directive locations `ls`, with or without a leading `|`.
pub open spec fn locations_tokens(ls: Seq<DirectiveLocation>, lead: bool) -> Seq<(TokenKind, Seq<u8>)> {
    (if lead {
        seq![punct(TokenKind::Pipe)]
    } else {
        Seq::empty()
    }) + joined_locations(ls)
}

/// Every lexeme is a token: the source has no lexing error and the token
/// limit was not reached.
pub open spec fn lexes_cleanly(s: Seq<Lexeme>) -> bool {
    forall|i: int| 0 <= i < s.len() ==> (#[trigger] s[i]).kind is Token
}

pub open spec fn max_of(a: nat, b: nat) -> nat {
    if a >= b {
        a
    } else {
        b
    }
}

/// How many recursion levels reading a value takes: one per list item.
pub open spec fn value_depth(v: Value) -> nat
    decreases v,
{
    match v {
        Value::List(l) => values_depth(l.values@),
        Value::Object(o) => fields_depth(o.fields@),
        _ => 0,
    }
}

pub open spec fn values_depth(vs: Seq<Value>) -> nat
    decreases vs,
{
    if vs.len() == 0 {
        0
    } else {
        max_of(values_depth(vs.subrange(0, vs.len() - 1)), 1 + value_depth(vs[vs.len() - 1]))
    }
}

pub open spec fn fields_depth(fs: Seq<ObjectField>) -> nat
    decreases fs,
{
    if fs.len() == 0 {
        0
    } else {
        max_of(
            fields_depth(fs.subrange(0, fs.len() - 1)),
            match fs[fs.len() - 1].value {
                Some(v) => value_depth(v),
                None => 0,
            },
        )
    }
}

pub open spec fn arguments_depth(args: Seq<Argument>) -> nat
    decreases args.len(),
{
    if args.len() == 0 {
        0
    } else {
        max_of(
            arguments_depth(args.drop_last()),
            match args.last().value {
                Some(v) => value_depth(v),
                None => 0,
            },
        )
    }
}

pub open spec fn directives_depth(ds: Seq<Directive>) -> nat
    decreases ds.len(),
{
    if ds.len() == 0 {
        0
    } else {
        max_of(directives_depth(ds.drop_last()), arguments_depth(ds.last().arguments@))
    }
}

/// How many recursion levels reading a selection set takes: one per
/// selection, on top of what the selection itself takes.
pub open spec fn selection_set_depth(ss: SelectionSet) -> nat
    decreases ss,
{
    selections_depth(ss.selections@)
}

pub open spec fn selections_depth(s: Seq<Selection>) -> nat
    decreases s,
{
    if s.len() == 0 {
        0
    } else {
        max_of(
            selections_depth(s.subrange(0, s.len() - 1)),
            1 + selection_depth(s[s.len() - 1]),
        )
    }
}

pub open spec fn selection_depth(s: Selection) -> nat
    decreases s,
{
    match s {
        Selection::Field(f) => max_of(
            max_of(arguments_depth(f.arguments@), directives_depth(f.directives@)),
            match f.selection_set {
                Some(ss) => selection_set_depth(ss),
                None => 0,
            },
        ),
        Selection::FragmentSpread(f) => directives_depth(f.directives@),
        Selection::InlineFragment(f) => max_of(
            directives_depth(f.directives@),
            match f.selection_set {
                Some(ss) => selection_set_depth(ss),
                None => 0,
            },
        ),
    }
}

/// No fragment spread is named `on`, which the parser would take for an
/// inline fragment's type condition.
pub open spec fn spreads_ok(ss: SelectionSet) -> bool
    decreases ss,
{
    forall|i: int| 0 <= i < ss.selections@.len() ==> selection_spreads_ok(#[trigger] ss.selections@[i])
}

pub open spec fn selection_spreads_ok(s: Selection) -> bool
    decreases s,
{
    match s {
        Selection::Field(f) => match f.selection_set {
            Some(ss) => spreads_ok(ss),
            None => true,
        },
        Selection::FragmentSpread(f) => bytes_of(f.name.value) != bytes_of("on"),
        Selection::InlineFragment(f) => match f.selection_set {
            Some(ss) => spreads_ok(ss),
            None => true,
        },
    }
}

/// A complete value's tokens: its first token tells its kind.
proof fn lemma_value_first(v: Value)
    requires
        value_complete(v),
    ensures
        value_tokens(v).len() > 0,
        value_tokens(v)[0].0 == TokenKind::Dollar ==> v is Variable,
        value_tokens(v)[0].0 == TokenKind::Int ==> v is Int,
        value_tokens(v)[0].0 == TokenKind::Float ==> v is Float,
        value_tokens(v)[0].0 == TokenKind::StringValue ==> v is String,
        value_tokens(v)[0].0 == TokenKind::Name ==> v is Boolean || v is Null || v is Enum,
        value_tokens(v)[0].0 == TokenKind::LBracket ==> v is List,
        value_tokens(v)[0].0 == TokenKind::LCurly ==> v is Object,
        value_tokens(v)[0].0 == TokenKind::Dollar || value_tokens(v)[0].0 == TokenKind::Int
            || value_tokens(v)[0].0 == TokenKind::Float || value_tokens(v)[0].0
            == TokenKind::StringValue || value_tokens(v)[0].0 == TokenKind::Name
            || value_tokens(v)[0].0 == TokenKind::LBracket || value_tokens(v)[0].0
            == TokenKind::LCurly,
        v is Int || v is Float || v is String || v is Boolean || v is Null || v is Enum
            ==> value_tokens(v).len() == 1,
{
}

proof fn lemma_values_tokens_append(a: Seq<Value>, b: Seq<Value>)
    ensures
        values_tokens(a + b) == values_tokens(a) + values_tokens(b),
    decreases b.len(),
{
    if b.len() == 0 {
        assert(a + b =~= a);
        assert(values_tokens(a) + values_tokens(b) =~= values_tokens(a));
    } else {
        let c = a + b;
        let b0 = b.subrange(0, b.len() - 1);
        assert(c.subrange(0, c.len() - 1) =~= a + b0);
        lemma_values_tokens_append(a, b0);
        assert(values_tokens(a + b) =~= values_tokens(a) + values_tokens(b));
    }
}

proof fn lemma_values_depth_item(vs: Seq<Value>, k: int)
    requires
        0 <= k < vs.len(),
    ensures
        values_depth(vs) >= 1 + value_depth(vs[k]),
    decreases vs.len(),
{
    if k < vs.len() - 1 {
        lemma_values_depth_item(vs.subrange(0, vs.len() - 1), k);
    }
}

proof fn lemma_fields_tokens_append(a: Seq<ObjectField>, b: Seq<ObjectField>)
    ensures
        object_fields_tokens(a + b) == object_fields_tokens(a) + object_fields_tokens(b),
    decreases b.len(),
{
    if b.len() == 0 {
        assert(a + b =~= a);
        assert(object_fields_tokens(a) + object_fields_tokens(b) =~= object_fields_tokens(a));
    } else {
        let c = a + b;
        let b0 = b.subrange(0, b.len() - 1);
        assert(c.subrange(0, c.len() - 1) =~= a + b0);
        lemma_fields_tokens_append(a, b0);
        assert(object_fields_tokens(a + b) =~= object_fields_tokens(a) + object_fields_tokens(b));
    }
}

proof fn lemma_fields_depth_item(fs: Seq<ObjectField>, k: int)
    requires
        0 <= k < fs.len(),
        fs[k].value is Some,
    ensures
        fields_depth(fs) >= value_depth(fs[k].value->0),
    decreases fs.len(),
{
    if k < fs.len() - 1 {
        lemma_fields_depth_item(fs.subrange(0, fs.len() - 1), k);
    }
}

proof fn lemma_args_tokens_append(a: Seq<Argument>, b: Seq<Argument>)
    ensures
        argument_list_tokens(a + b) == argument_list_tokens(a) + argument_list_tokens(b),
    decreases b.len(),
{
    if b.len() == 0 {
        assert(a + b =~= a);
        assert(argument_list_tokens(a) + argument_list_tokens(b) =~= argument_list_tokens(a));
    } else {
        let c = a + b;
        assert(c.drop_last() =~= a + b.drop_last());
        assert(c.last() == b.last());
        lemma_args_tokens_append(a, b.drop_last());
        assert(argument_list_tokens(a + b) =~= argument_list_tokens(a) + argument_list_tokens(b));
    }
}

proof fn lemma_args_depth_item(args: Seq<Argument>, k: int)
    requires
        0 <= k < args.len(),
        args[k].value is Some,
    ensures
        arguments_depth(args) >= value_depth(args[k].value->0),
    decreases args.len(),
{
    if k < args.len() - 1 {
        assert(args.drop_last()[k] == args[k]);
        lemma_args_depth_item(args.drop_last(), k);
    }
}

proof fn lemma_directives_tokens_append(a: Seq<Directive>, b: Seq<Directive>)
    ensures
        directives_tokens(a + b) == directives_tokens(a) + directives_tokens(b),
    decreases b.len(),
{
    if b.len() == 0 {
        assert(a + b =~= a);
        assert(directives_tokens(a) + directives_tokens(b) =~= directives_tokens(a));
    } else {
        let c = a + b;
        assert(c.drop_last() =~= a + b.drop_last());
        assert(c.last() == b.last());
        lemma_directives_tokens_append(a, b.drop_last());
        assert(directives_tokens(a + b) =~= directives_tokens(a) + directives_tokens(b));
    }
}

proof fn lemma_directives_depth_item(ds: Seq<Directive>, k: int)
    requires
        0 <= k < ds.len(),
    ensures
        directives_depth(ds) >= arguments_depth(ds[k].arguments@),
    decreases ds.len(),
{
    if k < ds.len() - 1 {
        assert(ds.drop_last()[k] == ds[k]);
        lemma_directives_depth_item(ds.drop_last(), k);
    }
}

proof fn lemma_selections_tokens_append(a: Seq<Selection>, b: Seq<Selection>)
    ensures
        selections_tokens(a + b) == selections_tokens(a) + selections_tokens(b),
    decreases b.len(),
{
    if b.len() == 0 {
        assert(a + b =~= a);
        assert(selections_tokens(a) + selections_tokens(b) =~= selections_tokens(a));
    } else {
        let c = a + b;
        let b0 = b.subrange(0, b.len() - 1);
        assert(c.subrange(0, c.len() - 1) =~= a + b0);
        lemma_selections_tokens_append(a, b0);
        assert(selections_tokens(a + b) =~= selections_tokens(a) + selections_tokens(b));
    }
}

proof fn lemma_selections_depth_item(s: Seq<Selection>, k: int)
    requires
        0 <= k < s.len(),
    ensures
        selections_depth(s) >= 1 + selection_depth(s[k]),
    decreases s.len(),
{
    if k < s.len() - 1 {
        lemma_selections_depth_item(s.subrange(0, s.len() - 1), k);
    }
}

/// A complete selection starts with a name (a field) or `...` (a fragment).
proof fn lemma_selection_first(s: Selection)
    requires
        selection_complete(s),
    ensures
        selection_tokens(s).len() > 0,
        s is Field ==> selection_tokens(s)[0].0 == TokenKind::Name,
        !(s is Field) ==> selection_tokens(s)[0].0 == TokenKind::Spread,
{
    match s {
        Selection::Field(f) => {
            let head = match f.alias {
                Some(a) => seq![name_token(a), punct(TokenKind::Colon)],
                None => Seq::<(TokenKind, Seq<u8>)>::empty(),
            };
            assert((head + seq![name_token(f.name)])[0].0 == TokenKind::Name);
        },
        _ => {},
    }
}

spec fn field_head(f: Field) -> Seq<(TokenKind, Seq<u8>)> {
    (match f.alias {
        Some(a) => seq![name_token(a), punct(TokenKind::Colon)],
        None => Seq::<(TokenKind, Seq<u8>)>::empty(),
    }) + seq![name_token(f.name)]
}

spec fn field_tail(f: Field) -> Seq<(TokenKind, Seq<u8>)> {
    arguments_tokens(f.arguments@) + (directives_tokens(f.directives@) + opt_selection_set_tokens(
        f.selection_set,
    ))
}

/// A field is written as its name (after an alias) and a tail that starts
/// with `(`, `@` or `{` when it is not empty.
proof fn lemma_field_tokens(f: Field)
    ensures
        selection_tokens(Selection::Field(f)) == field_head(f) + field_tail(f),
        field_head(f)[0].0 == TokenKind::Name,
        field_tail(f).len() > 0 ==> field_tail(f)[0].0 == TokenKind::LParen || field_tail(f)[0].0
            == TokenKind::At || field_tail(f)[0].0 == TokenKind::LCurly,
        ({
            let b = directives_tokens(f.directives@) + opt_selection_set_tokens(f.selection_set);
            b.len() > 0 ==> b[0].0 == TokenKind::At || b[0].0 == TokenKind::LCurly
        }),
        f.selection_set is Some ==> opt_selection_set_tokens(f.selection_set).len() > 0
            && opt_selection_set_tokens(f.selection_set)[0] == punct(TokenKind::LCurly),
        f.selection_set is None ==> opt_selection_set_tokens(f.selection_set).len() == 0,
{
    let xt = arguments_tokens(f.arguments@);
    let yt = directives_tokens(f.directives@);
    let zt = opt_selection_set_tokens(f.selection_set);
    assert(selection_tokens(Selection::Field(f)) =~= field_head(f) + field_tail(f));
    lemma_directives_first(f.directives@);
    let tail = field_tail(f);
    if tail.len() > 0 {
        if xt.len() > 0 {
            assert(tail[0] == xt[0]);
        } else if yt.len() > 0 {
            assert(tail[0] == yt[0]);
        } else {
            assert(tail[0] == zt[0]);
        }
    }
    let b = yt + zt;
    if b.len() > 0 {
        if yt.len() > 0 {
            assert(b[0] == yt[0]);
        } else {
            assert(b[0] == zt[0]);
        }
    }
}

pub open spec fn fragment_directives(s: Selection) -> Seq<Directive> {
    match s {
        Selection::FragmentSpread(f) => f.directives@,
        Selection::InlineFragment(f) => f.directives@,
        _ => Seq::empty(),
    }
}

pub open spec fn fragment_selection_set(s: Selection) -> SelectionSet {
    match s {
        Selection::InlineFragment(f) => match f.selection_set {
            Some(ss) => ss,
            None => arbitrary(),
        },
        _ => arbitrary(),
    }
}

/// The tokens of a fragment selection after its `...`.
pub open spec fn fragment_rest_tokens(s: Selection) -> Seq<(TokenKind, Seq<u8>)> {
    selection_tokens(s).subrange(1, selection_tokens(s).len() as int)
}

/// An inline fragment is written as `...`, then its type condition,
/// directives and selection set.
proof fn lemma_inline_tokens(s: Selection)
    requires
        s is InlineFragment,
    ensures
        ({
            let f = s->InlineFragment_0;
            let tc = match f.type_condition {
                Some(t) => seq![(TokenKind::Name, bytes_of("on")), name_token(t.name)],
                None => Seq::<(TokenKind, Seq<u8>)>::empty(),
            };
            &&& selection_tokens(s) == seq![punct(TokenKind::Spread)] + fragment_rest_tokens(s)
            &&& fragment_rest_tokens(s) == tc + directives_tokens(f.directives@) + opt_selection_set_tokens(f.selection_set)
        }),
{
    let f = s->InlineFragment_0;
    let tc = match f.type_condition {
        Some(t) => seq![(TokenKind::Name, bytes_of("on")), name_token(t.name)],
        None => Seq::<(TokenKind, Seq<u8>)>::empty(),
    };
    let all = selection_tokens(s);
    assert(all =~= seq![punct(TokenKind::Spread)] + (tc + directives_tokens(f.directives@) + opt_selection_set_tokens(f.selection_set)));
    assert(fragment_rest_tokens(s) =~= tc + directives_tokens(f.directives@) + opt_selection_set_tokens(f.selection_set));
}

/// A fragment spread is written as `...`, its name and its directives.
proof fn lemma_spread_tokens(s: Selection)
    requires
        s is FragmentSpread,
    ensures
        selection_tokens(s) == seq![punct(TokenKind::Spread)] + fragment_rest_tokens(s),
        fragment_rest_tokens(s) == seq![name_token(s->FragmentSpread_0.name)] + directives_tokens(
            s->FragmentSpread_0.directives@,
        ),
{
    let f = s->FragmentSpread_0;
    let all = selection_tokens(s);
    assert(all =~= seq![punct(TokenKind::Spread)] + (seq![name_token(f.name)] + directives_tokens(f.directives@)));
    assert(fragment_rest_tokens(s) =~= seq![name_token(f.name)] + directives_tokens(f.directives@));
}

/// The tokens of a complete fragment selection after its `...`.
proof fn lemma_fragment_tokens(s: Selection)
    requires
        !(s is Field),
        selection_complete(s),
        selection_spreads_ok(s),
    ensures
        ({
            let wt = selection_tokens(s);
            let rest1 = wt.subrange(1, wt.len() as int);
            let dt = directives_tokens(fragment_directives(s));
            let sst = selection_set_tokens(fragment_selection_set(s));
            &&& wt.len() > 0
            &&& wt == seq![punct(TokenKind::Spread)] + rest1
            &&& s is InlineFragment ==> sst.len() > 0 && sst[0] == punct(TokenKind::LCurly)
            &&& (s matches Selection::FragmentSpread(f) ==> {
                &&& rest1 == seq![name_token(f.name)] + dt
                &&& rest1[0] == name_token(f.name)
                &&& rest1[0] != (TokenKind::Name, bytes_of("on"))
            })
            &&& (s matches Selection::InlineFragment(f) ==> (f.type_condition matches Some(t) ==> {
                &&& rest1 == seq![(TokenKind::Name, bytes_of("on"))] + (seq![name_token(t.name)] + (dt + sst))
                &&& rest1[0] == (TokenKind::Name, bytes_of("on"))
            }))
            &&& (s matches Selection::InlineFragment(f) ==> (f.type_condition is None ==> {
                &&& rest1 == dt + sst
                &&& rest1.len() > 0
                &&& rest1[0].0 == TokenKind::At || rest1[0].0 == TokenKind::LCurly
            }))
        }),
{
    let wt = selection_tokens(s);
    let rest1 = wt.subrange(1, wt.len() as int);
    let dt = directives_tokens(fragment_directives(s));
    let sst = selection_set_tokens(fragment_selection_set(s));
    lemma_directives_first(fragment_directives(s));
    match s {
        Selection::FragmentSpread(f) => {
            assert(wt =~= seq![punct(TokenKind::Spread)] + (seq![name_token(f.name)] + dt));
            assert(rest1 =~= seq![name_token(f.name)] + dt);
            assert(bytes_of(f.name.value) != bytes_of("on"));
        },
        Selection::InlineFragment(f) => {
            match f.type_condition {
                Some(t) => {
                    assert(wt =~= seq![punct(TokenKind::Spread)] + (seq![(TokenKind::Name, bytes_of("on"))] + (seq![name_token(t.name)] + (dt + sst))));
                    assert(rest1 =~= seq![(TokenKind::Name, bytes_of("on"))] + (seq![name_token(t.name)] + (dt + sst)));
                },
                None => {
                    assert(wt =~= seq![punct(TokenKind::Spread)] + (dt + sst));
                    assert(rest1 =~= dt + sst);
                    if dt.len() > 0 {
                        assert(rest1[0] == dt[0]);
                    } else {
                        assert(rest1[0] == sst[0]);
                    }
                },
            }
        },
        _ => {},
    }
}

/// Directives, when there are any, start with `@`.
proof fn lemma_directives_first(ds: Seq<Directive>)
    ensures
        ds.len() > 0 ==> directives_tokens(ds).len() > 0 && directives_tokens(ds)[0].0
            == TokenKind::At,
    decreases ds.len(),
{
    if ds.len() > 0 {
        lemma_directives_tokens_append(seq![ds[0]], ds.skip(1));
        assert(seq![ds[0]] + ds.skip(1) =~= ds);
        let one = seq![ds[0]];
        assert(one.drop_last() =~= Seq::<Directive>::empty());
        assert(one.last() == ds[0]);
        assert(directives_tokens(Seq::<Directive>::empty()) =~= Seq::<(TokenKind, Seq<u8>)>::empty());
        assert(directives_tokens(one) =~= directive_tokens(ds[0]));
    }
}

proof fn lemma_vardefs_tokens_append(a: Seq<VariableDefinition>, b: Seq<VariableDefinition>)
    ensures
        variable_definition_list_tokens(a + b) == variable_definition_list_tokens(a)
            + variable_definition_list_tokens(b),
    decreases b.len(),
{
    if b.len() == 0 {
        assert(a + b =~= a);
        assert(variable_definition_list_tokens(a) + variable_definition_list_tokens(b) =~= variable_definition_list_tokens(a));
    } else {
        let c = a + b;
        assert(c.drop_last() =~= a + b.drop_last());
        assert(c.last() == b.last());
        lemma_vardefs_tokens_append(a, b.drop_last());
        assert(variable_definition_list_tokens(a + b) =~= variable_definition_list_tokens(a)
            + variable_definition_list_tokens(b));
    }
}

/// Two fronts of the same length of one sequence are equal.
proof fn lemma_same_front(all: Seq<(TokenKind, Seq<u8>)>, a: Seq<(TokenKind, Seq<u8>)>, b: Seq<(TokenKind, Seq<u8>)>)
    requires
        a.is_prefix_of(all),
        b.is_prefix_of(all),
        a.len() == b.len(),
    ensures
        a == b,
{
    assert(a =~= b);
}

/// An empty argument list, `( )`, appears in the tokens.
pub open spec fn has_empty_parens(ts: Seq<(TokenKind, Seq<u8>)>) -> bool {
    exists|i: int| 0 <= i < ts.len() - 1 && #[trigger] empty_parens_at(ts, i)
}

pub open spec fn empty_parens_at(ts: Seq<(TokenKind, Seq<u8>)>, i: int) -> bool {
    ts[i].0 == TokenKind::LParen && ts[i + 1].0 == TokenKind::RParen
}

/// The tokens `read` are those written `expected`, but for empty argument
/// lists, which leave no trace in the tree.
pub open spec fn reads_as(read: Seq<(TokenKind, Seq<u8>)>, expected: Seq<(TokenKind, Seq<u8>)>) -> bool {
    read == expected || has_empty_parens(read)
}

pub proof fn lemma_reads_as_concat(
    r1: Seq<(TokenKind, Seq<u8>)>,
    e1: Seq<(TokenKind, Seq<u8>)>,
    r2: Seq<(TokenKind, Seq<u8>)>,
    e2: Seq<(TokenKind, Seq<u8>)>,
)
    requires
        reads_as(r1, e1),
        reads_as(r2, e2),
    ensures
        reads_as(r1 + r2, e1 + e2),
{
    let r = r1 + r2;
    if has_empty_parens(r1) {
        let i = choose|i: int| 0 <= i < r1.len() - 1 && #[trigger] empty_parens_at(r1, i);
        assert(r[i] == r1[i] && r[i + 1] == r1[i + 1]);
        assert(empty_parens_at(r, i));
    } else if has_empty_parens(r2) {
        let i = choose|i: int| 0 <= i < r2.len() - 1 && #[trigger] empty_parens_at(r2, i);
        assert(r[r1.len() + i] == r2[i] && r[r1.len() + i + 1] == r2[i + 1]);
        assert(empty_parens_at(r, r1.len() + i));
    }
}

/// The span of the source a lexeme covers.
pub open spec fn lexeme_span(l: Lexeme) -> Span {
    Span { start: l.start as u32, end: l.end as u32 }
}

/// The spans of the comments among the lexemes `s`, in order.
pub open spec fn comment_spans(s: Seq<Lexeme>) -> Seq<Span>
    decreases s.len(),
{
    if s.len() == 0 {
        Seq::empty()
    } else if s.last().kind == LexemeKind::Token(TokenKind::Comment) {
        comment_spans(s.drop_last()).push(lexeme_span(s.last()))
    } else {
        comment_spans(s.drop_last())
    }
}

/// `i` is a character boundary of `b`.
#[verifier::opaque]
pub open spec fn boundary(b: Seq<u8>, i: int) -> bool {
    is_char_boundary(b, i)
}

/// The lexemes of `b` tile it from the start (see `lemma_lexemes_tile`).
#[verifier::opaque]
pub open spec fn stream_ok(s: Seq<Lexeme>, b: Seq<u8>) -> bool {
    &&& s.len() >= 1
    &&& s[0].start == 0
    &&& forall|i: int|
        0 <= i < s.len() ==> {
            &&& 0 <= #[trigger] s[i].start <= s[i].end <= b.len()
            &&& boundary(b, s[i].start)
            &&& boundary(b, s[i].end)
            &&& (s[i].kind == LexemeKind::Token(TokenKind::Eof) ==> s[i].start == b.len() && i
                == s.len() - 1)
        }
    &&& forall|i: int, j: int|
        0 <= i && j == i + 1 && j < s.len() ==> #[trigger] s[i].end == #[trigger] s[j].start
    &&& forall|i: int| 0 <= i < s.len() - 1 ==> s[i].start < #[trigger] s[i].end
    &&& (s.last().kind == LexemeKind::Token(TokenKind::Eof) || s.last().kind == LexemeKind::Limit)
}

pub proof fn lemma_stream_ok(b: Seq<u8>, budget: nat)
    requires
        vstd::utf8::valid_utf8(b),
    ensures
        stream_ok(lexemes(b, 0, budget), b),
{
    vstd::utf8::is_char_boundary_start_end_of_seq(b);
    lemma_lexemes_tile(b, 0, budget);
    reveal(lexemes);
    reveal(stream_ok);
    reveal(boundary);
    let s = lexemes(b, 0, budget);
    assert forall|i: int|
        0 <= i < s.len() && s[i].kind == LexemeKind::Token(TokenKind::Eof) implies s[i].start
        == b.len() && i == s.len() - 1 by {
        if i < s.len() - 1 {
            assert(s[i].end == s[i + 1].start);
        }
    }
}

proof fn lemma_stream_positions(s: Seq<Lexeme>, b: Seq<u8>, i: int, j: int)
    requires
        stream_ok(s, b),
        0 <= i < j < s.len(),
    ensures
        s[i].end <= s[j].start,
    decreases j - i,
{
    reveal(stream_ok);
    assert(s[j - 1].end == s[j].start);
    if j > i + 1 {
        lemma_stream_positions(s, b, i, j - 1);
    }
}

/// Every error offset lies within the source (the end of input included).
pub open spec fn errors_within(e: Seq<Error>, b: Seq<u8>) -> bool {
    forall|i: int| 0 <= i < e.len() ==> #[trigger] e[i].spec_index() <= b.len()
}

/// The comments among a prefix of the lexemes are a prefix of all of them.
pub proof fn lemma_comment_spans_prefix(s: Seq<Lexeme>, k: int)
    requires
        0 <= k <= s.len(),
    ensures
        comment_spans(s.take(k)).is_prefix_of(comment_spans(s)),
    decreases s.len() - k,
{
    if k == s.len() {
        assert(s.take(k) =~= s);
    } else {
        lemma_comment_spans_prefix(s, k + 1);
        assert(s.take(k + 1).drop_last() =~= s.take(k));
        let a = comment_spans(s.take(k));
        let b = comment_spans(s.take(k + 1));
        let c = comment_spans(s);
        assert(a.is_prefix_of(b));
        assert(a =~= c.subrange(0, a.len() as int)) by {
            assert forall|i: int| 0 <= i < a.len() implies a[i] == c[i] by {
                assert(a[i] == b[i]);
                assert(b[i] == c[i]);
            }
        }
    }
}

/// Every span of `cs` covers a line comment of `b`: a `#` through the end of
/// its line, the line terminator excluded.
pub open spec fn line_comments(cs: Seq<Span>, b: Seq<u8>) -> bool {
    forall|k: int|
        0 <= k < cs.len() ==> is_line_comment(b, (#[trigger] cs[k]).start as int, cs[k].end as int)
}

proof fn lemma_comment_spans_line(ls: Seq<Lexeme>, b: Seq<u8>)
    requires
        b.len() <= u32::MAX,
        forall|i: int|
            0 <= i < ls.len() && (#[trigger] ls[i]).kind == LexemeKind::Token(TokenKind::Comment)
                ==> is_line_comment(b, ls[i].start, ls[i].end),
    ensures
        line_comments(comment_spans(ls), b),
    decreases ls.len(),
{
    if ls.len() > 0 {
        let init = ls.drop_last();
        assert forall|i: int|
            0 <= i < init.len() && (#[trigger] init[i]).kind == LexemeKind::Token(TokenKind::Comment)
                implies is_line_comment(b, init[i].start, init[i].end) by {
            assert(init[i] == ls[i]);
        }
        lemma_comment_spans_line(init, b);
        assert(ls.last() == ls[ls.len() - 1]);
    }
}

/// Every lexing error among the lexemes `ls` is among `errors`, with its
/// message, its text and its offset.
pub open spec fn reports_lexing_errors(errors: Seq<Error>, ls: Seq<Lexeme>, b: Seq<u8>) -> bool {
    forall|j: int|
        0 <= j < ls.len() && !(#[trigger] ls[j].kind is Token) ==> exists|i: int|
            0 <= i < errors.len() && #[trigger] error_matches(errors[i], ls[j], b)
}

proof fn lemma_reports_push_error(errors: Seq<Error>, e: Error, ls: Seq<Lexeme>, b: Seq<u8>)
    requires
        reports_lexing_errors(errors, ls, b),
    ensures
        reports_lexing_errors(errors.push(e), ls, b),
{
    assert forall|j: int| 0 <= j < ls.len() && !(#[trigger] ls[j].kind is Token) implies exists|
        i: int,
    | 0 <= i < errors.push(e).len() && #[trigger] error_matches(errors.push(e)[i], ls[j], b) by {
        let i = choose|i: int| 0 <= i < errors.len() && #[trigger] error_matches(errors[i], ls[j], b);
        assert(errors.push(e)[i] == errors[i]);
    }
}

proof fn lemma_reports_push_lexeme(errors: Seq<Error>, ls: Seq<Lexeme>, l: Lexeme, b: Seq<u8>)
    requires
        reports_lexing_errors(errors, ls, b),
        !(l.kind is Token) ==> exists|i: int|
            0 <= i < errors.len() && #[trigger] error_matches(errors[i], l, b),
    ensures
        reports_lexing_errors(errors, ls.push(l), b),
{
    assert forall|j: int| 0 <= j < ls.push(l).len() && !(#[trigger] ls.push(l)[j].kind is Token) implies exists|
        i: int,
    | 0 <= i < errors.len() && #[trigger] error_matches(errors[i], ls.push(l)[j], b) by {
        if j < ls.len() {
            assert(ls.push(l)[j] == ls[j]);
        }
    }
}

/// The GraphQL parser.
pub struct Parser<'a> {
    allocator: &'a Allocator,
    input: &'a str,
    lexer: Lexer<'a>,
    current_token: Option<Token<'a>>,
    errors: Vec<Error>,
    comments: Vec<Span>,
    recursion_limit: LimitTracker,
    accept_errors: bool,
    allow_executable_descriptions: bool,
    allow_legacy_fragment_variables: bool,
    last_end: usize,
    stream: Ghost<Seq<Lexeme>>,
}

#[derive(Clone, Copy)]
enum Constness {
    Const,
    NotConst,
}

/// How deeply selection sets, list values and list types may nest by default.
pub const DEFAULT_RECURSION_LIMIT: usize = 500;

impl<'a> Parser<'a> {
    pub closed spec fn spec_input(&self) -> &'a str {
        self.input
    }

    pub open spec fn bytes(&self) -> Seq<u8> {
        bytes_of(self.spec_input())
    }

    pub closed spec fn stream(&self) -> Seq<Lexeme> {
        self.stream@
    }

    pub closed spec fn spec_errors(&self) -> Seq<Error> {
        self.errors@
    }

    pub closed spec fn spec_comments(&self) -> Seq<Span> {
        self.comments@
    }

    pub closed spec fn spec_recursion_limit(&self) -> LimitTracker {
        self.recursion_limit
    }

    pub closed spec fn spec_token_limit(&self) -> LimitTracker {
        self.lexer.spec_tracker()
    }

    pub closed spec fn spec_flags(&self) -> (bool, bool) {
        (self.allow_executable_descriptions, self.allow_legacy_fragment_variables)
    }

    pub closed spec fn spec_last_end(&self) -> usize {
        self.last_end
    }

    pub closed spec fn spec_allocator(&self) -> &'a Allocator {
        self.allocator
    }

    /// How many lexemes were taken from the lexer.
    pub closed spec fn consumed(&self) -> int {
        self.stream@.len() - self.lexer.remaining().len()
    }

    /// The index in the stream of the first lexeme the parser has not bumped.
    pub closed spec fn cursor(&self) -> int {
        if self.current_token is Some {
            self.consumed() - 1
        } else {
            self.consumed()
        }
    }

    /// The index of the next significant token.
    pub open spec fn next_index(&self) -> int {
        first_sig_from(self.stream(), self.cursor())
    }

    /// How many lexemes are left from the next significant token on.
    pub open spec fn rank(&self) -> nat {
        if self.next_index() < self.stream().len() {
            (self.stream().len() - self.next_index()) as nat
        } else {
            0
        }
    }

    pub open spec fn has_next(&self) -> bool {
        self.next_index() < self.stream().len()
    }

    pub open spec fn next_lexeme(&self) -> Lexeme {
        self.stream()[self.next_index()]
    }

    /// The kind of the next significant token, if there is one.
    pub open spec fn next_kind(&self) -> Option<TokenKind> {
        if self.has_next() {
            Some(self.next_lexeme().kind->Token_0)
        } else {
            None
        }
    }

    /// The text of the next significant token.
    pub open spec fn next_text(&self) -> Seq<u8> {
        self.bytes().subrange(self.next_lexeme().start, self.next_lexeme().end)
    }

    pub closed spec fn lexer_inv(&self) -> bool {
        let b = self.bytes();
        let s = self.stream@;
        let rem = self.lexer.remaining();
        &&& self.lexer.wf()
        &&& self.lexer.spec_input() == self.input
        &&& b.len() <= u32::MAX
        &&& stream_ok(s, b)
        &&& rem.len() <= s.len()
        &&& rem == s.subrange(s.len() - rem.len(), s.len() as int)
    }

    pub closed spec fn current_inv(&self) -> bool {
        match self.current_token {
            Some(t) => {
                &&& self.consumed() >= 1
                &&& token_matches(t, self.stream@[self.consumed() - 1], self.bytes())
                &&& is_significant(self.stream@[self.consumed() - 1])
            },
            None => true,
        }
    }

    pub closed spec fn errors_inv(&self) -> bool {
        forall|i: int|
            0 <= i < self.errors@.len() ==> #[trigger] self.errors@[i].spec_index()
                <= self.bytes().len()
    }

    pub closed spec fn comments_inv(&self) -> bool {
        self.comments@ == comment_spans(self.stream@.take(self.consumed()))
    }

    pub closed spec fn core_inv(&self) -> bool {
        &&& self.lexer_inv()
        &&& self.current_inv()
        &&& self.last_end <= self.bytes().len()
        &&& boundary(self.bytes(), self.last_end as int)
        &&& self.errors_inv()
        &&& self.comments_inv()
        &&& reports_lexing_errors(self.errors@, self.stream@.take(self.consumed()), self.bytes())
        &&& self.recursion_limit.wf()
        &&& (!self.accept_errors ==> self.errors@.len() > 0)
    }

    /// The `Eof` token has been consumed.
    pub closed spec fn eof_taken(&self) -> bool {
        &&& self.current_token is None
        &&& self.stream@.len() > 0
        &&& self.consumed() == self.stream@.len()
        &&& self.stream@.last().kind == LexemeKind::Token(TokenKind::Eof)
    }

    /// The parser's invariant. The `Eof` token is only ever consumed after an
    /// error was recorded.
    pub closed spec fn inv(&self) -> bool {
        &&& self.inv_base()
        &&& self.last_end == prev_sig_end(self.stream@, self.next_index())
    }

    /// Where the last token the parser consumed ends (0 before the first).
    pub open spec fn last_token_end(&self) -> int {
        prev_sig_end(self.stream(), self.next_index())
    }

    /// The invariant but for where the last consumed token ended.
    pub closed spec fn inv_base(&self) -> bool {
        &&& self.core_inv()
        &&& (self.eof_taken() ==> self.errors@.len() > 0)
    }

    /// `self` may have become `other` by parsing: the same source, stream and
    /// options, the position moved forward only, errors only added, and the
    /// recursion level as it was.
    pub open spec fn evolves_to(&self, other: &Self) -> bool {
        &&& other.spec_input() == self.spec_input()
        &&& other.spec_allocator() == self.spec_allocator()
        &&& other.stream() == self.stream()
        &&& other.spec_flags() == self.spec_flags()
        &&& other.spec_token_limit().spec_limit() == self.spec_token_limit().spec_limit()
        &&& other.next_index() >= self.next_index()
        &&& self.spec_errors().len() <= other.spec_errors().len()
        &&& forall|i: int|
            0 <= i < self.spec_errors().len() ==> other.spec_errors()[i] == #[trigger] self.spec_errors()[i]
        &&& other.spec_recursion_limit().spec_current() == self.spec_recursion_limit().spec_current()
        &&& other.spec_recursion_limit().spec_limit() == self.spec_recursion_limit().spec_limit()
    }

    /// The significant tokens read from `self` to `other`.
    pub open spec fn read_until(&self, other: &Self) -> Seq<(TokenKind, Seq<u8>)> {
        sig_tokens(self.stream(), self.bytes(), self.next_index(), other.next_index())
    }

    /// The significant tokens from the next one to the end.
    pub open spec fn rest(&self) -> Seq<(TokenKind, Seq<u8>)> {
        sig_tokens(self.stream(), self.bytes(), self.next_index(), self.stream().len() as int)
    }

    /// The parser can read the type `t` from here without an error: the
    /// source lexes cleanly, `t` has no placeholder and no doubled `!`, its
    /// lists nest no deeper than the recursion limit allows, the next tokens
    /// are `t`'s, and the token after them is not a `!` that `t` could take.
    pub open spec fn fits_type(&self, t: Type) -> bool {
        &&& lexes_cleanly(self.stream())
        &&& type_complete(t)
        &&& type_canonical(t)
        &&& self.spec_recursion_limit().spec_current() + type_depth(t)
            <= self.spec_recursion_limit().spec_limit()
        &&& type_tokens(t).is_prefix_of(self.rest())
        &&& type_tokens(t).len() < self.rest().len()
        &&& !(t is NonNull) ==> self.rest()[type_tokens(t).len() as int].0 != TokenKind::Bang
    }

    /// The source lexes cleanly, the next tokens are `toks`, and the token
    /// after them is of none of the kinds `avoid`.
    pub open spec fn next_tokens(&self, toks: Seq<(TokenKind, Seq<u8>)>, avoid: Set<TokenKind>) -> bool {
        &&& lexes_cleanly(self.stream())
        &&& toks.is_prefix_of(self.rest())
        &&& toks.len() < self.rest().len()
        &&& !avoid.contains(self.rest()[toks.len() as int].0)
    }

    /// The parser can read the value `v` from here without an error.
    pub open spec fn fits_value(&self, v: Value) -> bool {
        &&& self.next_tokens(value_tokens(v), Set::empty())
        &&& value_complete(v)
        &&& value_depth(v) <= self.room()
    }

    /// The parser can read the object field `f` from here without an error.
    pub open spec fn fits_field(&self, f: ObjectField) -> bool {
        &&& self.next_tokens(object_field_tokens(f), Set::empty())
        &&& object_field_complete(f)
        &&& value_depth(f.value->0) <= self.room()
    }

    /// The parser can read the argument `a` from here without an error.
    pub open spec fn fits_argument(&self, a: Argument) -> bool {
        &&& self.next_tokens(argument_tokens(a), Set::empty())
        &&& argument_complete(a)
        &&& value_depth(a.value->0) <= self.room()
    }

    /// The parser can read the arguments `args` from here without an error,
    /// and no `(` follows them.
    pub open spec fn fits_arguments(&self, args: Seq<Argument>) -> bool {
        &&& self.next_tokens(arguments_tokens(args), set![TokenKind::LParen])
        &&& arguments_complete(args)
        &&& arguments_depth(args) <= self.room()
    }

    /// The parser can read the directive `d` from here without an error,
    /// and no `(` follows it.
    pub open spec fn fits_directive(&self, d: Directive) -> bool {
        &&& self.next_tokens(directive_tokens(d), set![TokenKind::LParen])
        &&& directive_complete(d)
        &&& arguments_depth(d.arguments@) <= self.room()
    }

    /// The parser can read the directives `ds` from here without an error,
    /// and neither `@` nor `(` follows them.
    pub open spec fn fits_directives(&self, ds: Seq<Directive>) -> bool {
        &&& self.next_tokens(directives_tokens(ds), set![TokenKind::At, TokenKind::LParen])
        &&& directives_complete(ds)
        &&& directives_depth(ds) <= self.room()
    }

    /// The parser can read the selection `s` from here without an error, and
    /// what follows cannot continue it.
    pub open spec fn fits_selection(&self, s: Selection) -> bool {
        &&& self.next_tokens(
            selection_tokens(s),
            set![TokenKind::Colon, TokenKind::LParen, TokenKind::At, TokenKind::LCurly],
        )
        &&& selection_complete(s)
        &&& selection_spreads_ok(s)
        &&& selection_depth(s) <= self.room()
    }

    /// The parser can read the selection set `ss` from here without an error.
    pub open spec fn fits_selection_set(&self, ss: SelectionSet) -> bool {
        &&& self.next_tokens(selection_set_tokens(ss), Set::empty())
        &&& selection_set_complete(ss)
        &&& spreads_ok(ss)
        &&& selection_set_depth(ss) <= self.room()
    }

    /// The parser, just past the `...` of the fragment selection `s`, can
    /// read the rest of it without an error, and what follows cannot
    /// continue it.
    pub open spec fn fits_fragment_rest(&self, s: Selection) -> bool {
        &&& !(s is Field)
        &&& self.next_tokens(
            fragment_rest_tokens(s),
            set![TokenKind::Colon, TokenKind::LParen, TokenKind::At, TokenKind::LCurly],
        )
        &&& selection_complete(s)
        &&& selection_spreads_ok(s)
        &&& selection_depth(s) <= self.room()
    }

    /// The parser can read the variable definition `v` from here without an
    /// error, and what follows cannot continue it.
    pub open spec fn fits_variable_definition(&self, v: VariableDefinition) -> bool {
        &&& self.next_tokens(
            variable_definition_tokens(v),
            set![TokenKind::Bang, TokenKind::Eq, TokenKind::At, TokenKind::LParen],
        )
        &&& variable_definition_ok(v, self.room())
    }

    /// The parser can read the variable definitions `vs` from here without
    /// an error, and no `(` follows them.
    pub open spec fn fits_variable_definitions(&self, vs: Seq<VariableDefinition>) -> bool {
        &&& self.next_tokens(variable_definitions_tokens(vs), set![TokenKind::LParen])
        &&& forall|i: int| 0 <= i < vs.len() ==> variable_definition_ok(#[trigger] vs[i], self.room())
    }

    /// The parser can read the fragment definition `f` from here without an
    /// error.
    pub open spec fn fits_fragment(&self, f: FragmentDefinition) -> bool {
        &&& self.next_tokens(fragment_definition_tokens(f), Set::empty())
        &&& (fragment_ok(f, self.room()) || (self.spec_flags().1 && fragment_vars_ok(f, self.room())))
    }

    /// The parser can read the definition `d` from here without
    /// an error.
    pub open spec fn fits_definition(&self, d: Definition, shorthand: bool) -> bool {
        &&& self.next_tokens(definition_tokens(d, shorthand), Set::empty())
        &&& definition_ok(d, shorthand, self.room())
        &&& (d is UnionType || d is ScalarTypeExtension || d is UnionTypeExtension ==> definition_follows(
            self.rest()[definition_tokens(d, shorthand).len() as int].0,
        ))
    }

    /// The parser can read the definitions `ds` from here without
    /// an error, and the source ends after them.
    pub open spec fn fits_document(&self, ds: Seq<(Definition, bool)>) -> bool {
        &&& ds.len() > 0
        &&& self.next_tokens(definitions_tokens(ds), Set::empty())
        &&& self.rest()[definitions_tokens(ds).len() as int].0 == TokenKind::Eof
        &&& forall|i: int| 0 <= i < ds.len() ==> definition_ok(#[trigger] ds[i].0, ds[i].1, self.room())
    }

    /// The parser can read the operation `op` from here without an error.
    pub open spec fn fits_operation(&self, op: OperationDefinition, shorthand: bool) -> bool {
        &&& self.next_tokens(operation_tokens(op, shorthand), Set::empty())
        &&& operation_ok(op, shorthand, self.room())
    }

    /// How many more recursion levels may be taken.
    pub open spec fn room(&self) -> int {
        self.spec_recursion_limit().spec_limit() - self.spec_recursion_limit().spec_current()
    }

    /// The next significant token, as the grammar sees it.
    pub open spec fn next_token(&self) -> (TokenKind, Seq<u8>) {
        token_of(self.next_lexeme(), self.bytes())
    }

    /// The parser can read the union members `ns`, with a leading `|` where
    /// `lead`, from here without an error, and what follows cannot continue
    /// them.
    pub open spec fn fits_union_members(&self, ns: Seq<NamedType>, lead: bool) -> bool {
        &&& self.next_tokens(
            union_members_tokens(ns, lead),
            if ns.len() == 0 {
                set![TokenKind::Eq]
            } else {
                set![TokenKind::Pipe]
            },
        )
        &&& (ns.len() == 0 ==> !lead)
    }

    /// The parser can read the input value definition `v` from here without
    /// an error, and what follows cannot continue it.
    pub open spec fn fits_input_value(&self, v: InputValueDefinition) -> bool {
        &&& self.next_tokens(
            input_value_definition_tokens(v),
            set![TokenKind::Bang, TokenKind::Eq, TokenKind::At, TokenKind::LParen],
        )
        &&& input_value_ok(v, self.room())
    }

    /// The parser can read the argument definitions `vs` from here without an
    /// error: nothing but what cannot start them where there is none, else
    /// all of them in parentheses.
    pub open spec fn fits_arguments_definition(&self, vs: Seq<InputValueDefinition>) -> bool {
        &&& self.next_tokens(
            arguments_definition_tokens(vs),
            if vs.len() == 0 {
                set![TokenKind::LParen]
            } else {
                Set::empty()
            },
        )
        &&& forall|i: int| 0 <= i < vs.len() ==> input_value_ok(#[trigger] vs[i], self.room())
    }

    /// The parser can read `extend` and then the scalar type extension `x`
    /// from here without an error, and what follows cannot continue it.
    pub open spec fn fits_scalar_extension(&self, x: ScalarTypeExtension) -> bool {
        &&& self.next_tokens(seq![extend_token()] + scalar_extension_tokens(x), set![TokenKind::At, TokenKind::LParen])
        &&& scalar_extension_ok(x, self.room())
    }

    /// The parser can read `extend` and then the union type extension `x`
    /// from here without an error, and what follows cannot continue it.
    pub open spec fn fits_union_extension(&self, x: UnionTypeExtension) -> bool {
        &&& self.next_tokens(seq![extend_token()] + union_extension_tokens(x), union_extension_follow(x))
        &&& union_extension_ok(x, self.room())
    }

    /// The parser can read the field definition `f` from here without an
    /// error, and what follows cannot continue it.
    pub open spec fn fits_field_definition(&self, f: FieldDefinition) -> bool {
        &&& self.next_tokens(field_definition_tokens(f), set![TokenKind::Bang, TokenKind::At, TokenKind::LParen])
        &&& field_ok(f, self.room())
    }

    /// The parser can read the field definitions `fs`, in braces, from here
    /// without an error.
    pub open spec fn fits_fields(&self, fs: Seq<FieldDefinition>) -> bool {
        &&& self.next_tokens(
            seq![punct(TokenKind::LCurly)] + field_definition_list_tokens(fs) + seq![punct(TokenKind::RCurly)],
            Set::empty(),
        )
        &&& fs.len() > 0
        &&& forall|i: int| 0 <= i < fs.len() ==> field_ok(#[trigger] fs[i], self.room())
    }

    /// The parser can read the object type definition `o` from here without
    /// an error.
    pub open spec fn fits_object(&self, o: ObjectTypeDefinition) -> bool {
        &&& self.next_tokens(object_definition_tokens(o), Set::empty())
        &&& object_ok(o, self.room())
    }

    /// The parser can read the union type definition `u` from here without
    /// an error, and what follows cannot continue it.
    pub open spec fn fits_union(&self, u: UnionTypeDefinition) -> bool {
        &&& self.next_tokens(union_definition_tokens(u), union_follow(u))
        &&& union_ok(u, self.room())
    }

    /// Some error has been recorded.
    pub open spec fn erred(&self) -> bool {
        self.spec_errors().len() > 0
    }

    /// The next significant token was consumed.
    pub open spec fn advanced(&self, other: &Self) -> bool {
        other.rank() < self.rank()
    }

    proof fn lemma_stream_at(&self, i: int)
        requires
            self.core_inv(),
            0 <= i < self.stream().len(),
        ensures
            0 <= self.stream()[i].start <= self.stream()[i].end <= self.bytes().len(),
            boundary(self.bytes(), self.stream()[i].start),
            boundary(self.bytes(), self.stream()[i].end),
    {
        reveal(stream_ok);
    }

    proof fn lemma_next(&self)
        requires
            self.core_inv(),
        ensures
            0 <= self.cursor() <= self.next_index() <= self.stream().len(),
            self.has_next() ==> is_significant(self.next_lexeme()),
            self.has_next() ==> 0 <= self.next_lexeme().start <= self.next_lexeme().end
                <= self.bytes().len(),
            self.has_next() ==> boundary(self.bytes(), self.next_lexeme().start) && boundary(
                self.bytes(),
                self.next_lexeme().end,
            ),
            self.next_kind() == Some(TokenKind::Eof) ==> self.next_lexeme().start
                == self.bytes().len() && self.next_index() == self.stream().len() - 1,
            forall|j: int|
                self.cursor() <= j < self.next_index() ==> !is_significant(
                    #[trigger] self.stream()[j],
                ),
            self.has_next() && self.next_kind() != Some(TokenKind::Eof) ==> self.next_lexeme().start
                < self.next_lexeme().end,
    {
        reveal(stream_ok);
        lemma_first_sig_from(self.stream(), self.cursor());
        let s = self.stream();
        if self.has_next() && self.next_index() == s.len() - 1 {
            assert(s.last() == s[s.len() - 1]);
        }
    }

    /// Lexemes further on start no earlier than earlier ones end.
    proof fn lemma_positions(&self, i: int, j: int)
        requires
            self.core_inv(),
            0 <= i < j < self.stream().len(),
        ensures
            self.stream()[i].end <= self.stream()[j].start,
    {
        lemma_stream_positions(self.stream(), self.bytes(), i, j);
    }

    /// Once past a token that is not `Eof`, the span of the next token (or
    /// the empty span at the end) differs from that token's.
    proof fn lemma_span_moves(&self, later: &Self)
        requires
            self.core_inv(),
            later.core_inv(),
            self.stream() == later.stream(),
            self.spec_input() == later.spec_input(),
            self.has_next(),
            self.next_kind() != Some(TokenKind::Eof),
            self.next_index() < later.next_index(),
        ensures
            later.has_next() ==> lexeme_span(later.next_lexeme()) != lexeme_span(self.next_lexeme()),
            !later.has_next() ==> (Span {
                start: later.spec_last_end() as u32,
                end: later.spec_last_end() as u32,
            }) != lexeme_span(self.next_lexeme()),
    {
        self.lemma_next();
        later.lemma_next();
        if later.has_next() {
            self.lemma_positions(self.next_index(), later.next_index());
        }
    }

    /// Reading tokens that stand for something moves the parser past the
    /// token it was at, so the span of what comes next differs.
    proof fn lemma_progress(&self, later: &Self, expected: Seq<(TokenKind, Seq<u8>)>)
        requires
            self.core_inv(),
            later.core_inv(),
            self.stream() == later.stream(),
            self.spec_input() == later.spec_input(),
            self.has_next(),
            self.next_kind() != Some(TokenKind::Eof),
            self.next_index() <= later.next_index(),
            expected.len() > 0,
            reads_as(self.read_until(later), expected),
        ensures
            later.has_next() ==> lexeme_span(later.next_lexeme()) != lexeme_span(self.next_lexeme()),
            !later.has_next() ==> (Span {
                start: later.spec_last_end() as u32,
                end: later.spec_last_end() as u32,
            }) != lexeme_span(self.next_lexeme()),
    {
        let read = self.read_until(later);
        if has_empty_parens(read) {
            let k = choose|k: int| 0 <= k < read.len() - 1 && #[trigger] empty_parens_at(read, k);
        }
        assert(read.len() > 0);
        self.lemma_span_moves(later);
    }

    /// What is left after reading is what was left, less what was read; the
    /// first token left is the next one.
    proof fn lemma_rest(&self, later: &Self)
        requires
            self.core_inv(),
            later.core_inv(),
            self.stream() == later.stream(),
            self.spec_input() == later.spec_input(),
            self.next_index() <= later.next_index(),
        ensures
            self.rest() == self.read_until(later) + later.rest(),
            later.has_next() ==> later.rest().len() > 0 && later.rest()[0] == later.next_token(),
            !later.has_next() ==> later.rest().len() == 0,
    {
        later.lemma_next();
        let s = self.stream();
        let n = s.len() as int;
        lemma_sig_tokens_split(s, self.bytes(), self.next_index(), later.next_index(), n);
        if later.has_next() {
            lemma_sig_tokens_first(s, self.bytes(), later.next_index(), n);
        }
    }

    /// After the `[` of a list type the parser can read, it can read the item.
    /// Inside the `[` of a list type written too deeply for the recursion
    /// limit, its item type is written too deeply for the level after.
    proof fn lemma_deep_item(&self, g2: &Self, t: Type)
        requires
            self.core_inv(),
            g2.core_inv(),
            self.stream() == g2.stream(),
            self.spec_input() == g2.spec_input(),
            too_deep_type(t, self.rest(), self.room()),
            type_base(t) is List,
            self.next_index() <= g2.next_index(),
            self.read_until(g2) == seq![punct(TokenKind::LBracket)],
            g2.room() == self.room() - 1,
        ensures
            too_deep_type(list_item(t), g2.rest(), g2.room()),
    {
        lemma_type_tokens_shape(t);
        self.lemma_rest(g2);
        let tt = type_tokens(t);
        let it = type_tokens(list_item(t));
        let rest = self.rest();
        assert(g2.rest() =~= rest.subrange(1, rest.len() as int));
        assert(tt.subrange(1, it.len() as int + 1) =~= it);
        assert forall|k: int| 0 <= k < it.len() implies it[k] == g2.rest()[k] by {
            assert(tt[k + 1] == it[k]);
            assert(rest[k + 1] == tt[k + 1]);
        }
        assert(it =~= g2.rest().subrange(0, it.len() as int));
    }

    proof fn lemma_fits_item(&self, g2: &Self, t: Type)
        requires
            self.core_inv(),
            g2.core_inv(),
            self.stream() == g2.stream(),
            self.spec_input() == g2.spec_input(),
            self.fits_type(t),
            type_base(t) is List,
            self.next_index() <= g2.next_index(),
            self.read_until(g2) == seq![punct(TokenKind::LBracket)],
            g2.spec_recursion_limit().spec_current() == self.spec_recursion_limit().spec_current()
                + 1,
            g2.spec_recursion_limit().spec_limit() == self.spec_recursion_limit().spec_limit(),
        ensures
            g2.fits_type(list_item(t)),
    {
        lemma_type_tokens_shape(t);
        self.lemma_rest(g2);
        let tt = type_tokens(t);
        let it = type_tokens(list_item(t));
        let rest = self.rest();
        assert(g2.rest() =~= rest.subrange(1, rest.len() as int));
        assert(tt.subrange(1, it.len() as int + 1) =~= it);
        assert(tt[it.len() as int + 1] == punct(TokenKind::RBracket));
        assert forall|k: int| 0 <= k < it.len() implies it[k] == g2.rest()[k] by {
            assert(tt[k + 1] == it[k]);
            assert(rest[k + 1] == tt[k + 1]);
        }
        assert(it =~= g2.rest().subrange(0, it.len() as int));
        assert(rest[it.len() as int + 1] == tt[it.len() as int + 1]);
    }

    /// After the item of a list type the parser can read comes its `]`.
    proof fn lemma_fits_close(&self, g4: &Self, t: Type)
        requires
            self.core_inv(),
            g4.core_inv(),
            self.stream() == g4.stream(),
            self.spec_input() == g4.spec_input(),
            self.fits_type(t),
            type_base(t) is List,
            self.next_index() <= g4.next_index(),
            self.read_until(g4) == seq![punct(TokenKind::LBracket)] + type_tokens(list_item(t)),
        ensures
            g4.next_kind() == Some(TokenKind::RBracket),
    {
        lemma_type_tokens_shape(t);
        self.lemma_rest(g4);
        g4.lemma_next();
        let tt = type_tokens(t);
        let n = 1 + type_tokens(list_item(t)).len() as int;
        assert(tt[n] == punct(TokenKind::RBracket));
        assert(self.rest()[n] == tt[n]);
        assert(g4.rest()[0] == self.rest()[n]);
    }

    /// After the base of a type the parser can read, a `!` comes exactly when
    /// the type has one.
    proof fn lemma_fits_bang(&self, h0: &Self, t: Type)
        requires
            self.core_inv(),
            h0.core_inv(),
            self.stream() == h0.stream(),
            self.spec_input() == h0.spec_input(),
            self.fits_type(t),
            self.next_index() <= h0.next_index(),
            self.read_until(h0) == type_tokens(type_base(t)),
        ensures
            (t is NonNull) <==> h0.next_kind() == Some(TokenKind::Bang),
    {
        lemma_type_tokens_shape(t);
        self.lemma_rest(h0);
        h0.lemma_next();
        let tt = type_tokens(t);
        let n = type_tokens(type_base(t)).len() as int;
        assert(h0.rest()[0] == self.rest()[n]);
        if t is NonNull {
            assert(tt[n] == punct(TokenKind::Bang));
            assert(self.rest()[n] == tt[n]);
        }
    }

    /// The first token left is the next one.
    proof fn lemma_head(&self)
        requires
            self.core_inv(),
            self.rest().len() > 0,
        ensures
            self.has_next(),
            self.next_token() == self.rest()[0],
            self.next_kind() == Some(self.rest()[0].0),
    {
        self.lemma_rest(self);
        self.lemma_next();
    }

    /// In a list the parser can read, after `k` items comes item `k`, or the
    /// closing `]`.
    proof fn lemma_list_head(&self, here: &Self, items: Seq<Value>, k: int)
        requires
            self.core_inv(),
            here.core_inv(),
            self.stream() == here.stream(),
            self.spec_input() == here.spec_input(),
            self.next_index() <= here.next_index(),
            self.next_tokens(seq![punct(TokenKind::LBracket)] + values_tokens(items) + seq![punct(TokenKind::RBracket)], Set::<TokenKind>::empty()),
            0 <= k <= items.len(),
            self.read_until(here) == seq![punct(TokenKind::LBracket)] + values_tokens(items.take(k)),
            forall|i: int| 0 <= i < items.len() ==> value_complete(#[trigger] items[i]),
        ensures
            here.has_next(),
            k < items.len() ==> here.next_tokens(value_tokens(items[k]), Set::<TokenKind>::empty()),
            k < items.len() ==> here.next_kind() == Some(value_tokens(items[k])[0].0),
            k == items.len() ==> here.next_kind() == Some(TokenKind::RBracket),
            k == items.len() ==> here.next_tokens(seq![punct(TokenKind::RBracket)], Set::<TokenKind>::empty()),
    {
        let head = items.take(k);
        let tail = items.skip(k);
        assert(items =~= head + tail);
        lemma_values_tokens_append(head, tail);
        let todo = values_tokens(tail) + seq![punct(TokenKind::RBracket)];
        assert(seq![punct(TokenKind::LBracket)] + values_tokens(items) + seq![punct(TokenKind::RBracket)] =~= (seq![punct(TokenKind::LBracket)] + values_tokens(head)) + todo);
        self.lemma_advance(here, seq![punct(TokenKind::LBracket)] + values_tokens(head), todo, Set::<TokenKind>::empty());
        if k < items.len() {
            let x = items[k];
            let more = items.skip(k + 1);
            assert(tail =~= seq![x] + more);
            lemma_values_tokens_append(seq![x], more);
            assert(seq![x].subrange(0, 0) =~= Seq::<Value>::empty());
            assert(values_tokens(Seq::<Value>::empty()) =~= Seq::<(TokenKind, Seq<u8>)>::empty());
            assert(seq![x][0] == x);
            assert(values_tokens(seq![x]) =~= value_tokens(x));
            lemma_value_first(x);
            assert(todo =~= value_tokens(x) + (values_tokens(more) + seq![punct(TokenKind::RBracket)]));
            here.lemma_next_tokens_front(value_tokens(x), values_tokens(more) + seq![punct(TokenKind::RBracket)], Set::<TokenKind>::empty(), Set::<TokenKind>::empty());
        } else {
            assert(tail =~= Seq::<Value>::empty());
            assert(todo =~= seq![punct(TokenKind::RBracket)]);
        }
    }

    /// In an object the parser can read, after `k` fields comes field `k`,
    /// or the closing `}`.
    proof fn lemma_object_head(&self, here: &Self, items: Seq<ObjectField>, k: int)
        requires
            self.core_inv(),
            here.core_inv(),
            self.stream() == here.stream(),
            self.spec_input() == here.spec_input(),
            self.next_index() <= here.next_index(),
            self.next_tokens(seq![punct(TokenKind::LCurly)] + object_fields_tokens(items) + seq![punct(TokenKind::RCurly)], Set::<TokenKind>::empty()),
            0 <= k <= items.len(),
            self.read_until(here) == seq![punct(TokenKind::LCurly)] + object_fields_tokens(items.take(k)),
        ensures
            here.has_next(),
            k < items.len() ==> here.next_tokens(object_field_tokens(items[k]), Set::<TokenKind>::empty()),
            k < items.len() ==> here.next_kind() == Some(TokenKind::Name),
            k == items.len() ==> here.next_kind() == Some(TokenKind::RCurly),
    {
        let head = items.take(k);
        let tail = items.skip(k);
        assert(items =~= head + tail);
        lemma_fields_tokens_append(head, tail);
        let todo = object_fields_tokens(tail) + seq![punct(TokenKind::RCurly)];
        assert(seq![punct(TokenKind::LCurly)] + object_fields_tokens(items) + seq![punct(TokenKind::RCurly)] =~= (seq![punct(TokenKind::LCurly)]
            + object_fields_tokens(head)) + todo);
        self.lemma_advance(here, seq![punct(TokenKind::LCurly)] + object_fields_tokens(head), todo, Set::<TokenKind>::empty());
        if k < items.len() {
            let x = items[k];
            let more = items.skip(k + 1);
            assert(tail =~= seq![x] + more);
            lemma_fields_tokens_append(seq![x], more);
            assert(seq![x].subrange(0, 0) =~= Seq::<ObjectField>::empty());
            assert(object_fields_tokens(Seq::<ObjectField>::empty()) =~= Seq::<(TokenKind, Seq<u8>)>::empty());
            assert(seq![x][0] == x);
            assert(object_fields_tokens(seq![x]) =~= object_field_tokens(x));
            assert(todo =~= object_field_tokens(x) + (object_fields_tokens(more) + seq![punct(TokenKind::RCurly)]));
            here.lemma_next_tokens_front(
                object_field_tokens(x),
                object_fields_tokens(more) + seq![punct(TokenKind::RCurly)],
                Set::<TokenKind>::empty(),
                Set::<TokenKind>::empty(),
            );
        } else {
            assert(tail =~= Seq::<ObjectField>::empty());
            assert(todo =~= seq![punct(TokenKind::RCurly)]);
        }
    }

    /// In an argument list the parser can read, after `k` arguments comes
    /// argument `k`, or the closing `)`.
    proof fn lemma_args_head(&self, here: &Self, items: Seq<Argument>, k: int)
        requires
            self.core_inv(),
            here.core_inv(),
            self.stream() == here.stream(),
            self.spec_input() == here.spec_input(),
            self.next_index() <= here.next_index(),
            self.next_tokens(seq![punct(TokenKind::LParen)] + argument_list_tokens(items) + seq![punct(TokenKind::RParen)], Set::<TokenKind>::empty()),
            0 <= k <= items.len(),
            self.read_until(here) == seq![punct(TokenKind::LParen)] + argument_list_tokens(items.take(k)),
        ensures
            here.has_next(),
            k < items.len() ==> here.next_tokens(argument_tokens(items[k]), Set::<TokenKind>::empty()),
            k < items.len() ==> here.next_kind() == Some(TokenKind::Name),
            k == items.len() ==> here.next_kind() == Some(TokenKind::RParen),
    {
        let head = items.take(k);
        let tail = items.skip(k);
        assert(items =~= head + tail);
        lemma_args_tokens_append(head, tail);
        let todo = argument_list_tokens(tail) + seq![punct(TokenKind::RParen)];
        assert(seq![punct(TokenKind::LParen)] + argument_list_tokens(items) + seq![punct(TokenKind::RParen)] =~= (seq![punct(TokenKind::LParen)]
            + argument_list_tokens(head)) + todo);
        self.lemma_advance(here, seq![punct(TokenKind::LParen)] + argument_list_tokens(head), todo, Set::<TokenKind>::empty());
        if k < items.len() {
            let x = items[k];
            let more = items.skip(k + 1);
            assert(tail =~= seq![x] + more);
            lemma_args_tokens_append(seq![x], more);
            assert(seq![x].drop_last() =~= Seq::<Argument>::empty());
            assert(argument_list_tokens(Seq::<Argument>::empty()) =~= Seq::<(TokenKind, Seq<u8>)>::empty());
            assert(seq![x].last() == x);
            assert(argument_list_tokens(seq![x]) =~= argument_tokens(x));
            assert(todo =~= argument_tokens(x) + (argument_list_tokens(more) + seq![punct(TokenKind::RParen)]));
            here.lemma_next_tokens_front(
                argument_tokens(x),
                argument_list_tokens(more) + seq![punct(TokenKind::RParen)],
                Set::<TokenKind>::empty(),
                Set::<TokenKind>::empty(),
            );
        } else {
            assert(tail =~= Seq::<Argument>::empty());
            assert(todo =~= seq![punct(TokenKind::RParen)]);
        }
    }

    /// Among directives the parser can read, after `k` directives comes
    /// directive `k`, or a token that neither starts nor extends one.
    proof fn lemma_directives_head(&self, here: &Self, items: Seq<Directive>, k: int)
        requires
            self.core_inv(),
            here.core_inv(),
            self.stream() == here.stream(),
            self.spec_input() == here.spec_input(),
            self.next_index() <= here.next_index(),
            self.next_tokens(directives_tokens(items), set![TokenKind::At, TokenKind::LParen]),
            0 <= k <= items.len(),
            self.read_until(here) == directives_tokens(items.take(k)),
        ensures
            here.has_next(),
            k < items.len() ==> here.next_tokens(directive_tokens(items[k]), set![TokenKind::LParen]),
            k < items.len() ==> here.next_kind() == Some(TokenKind::At),
            k == items.len() ==> here.next_kind() != Some(TokenKind::At),
    {
        let head = items.take(k);
        let tail = items.skip(k);
        assert(items =~= head + tail);
        lemma_directives_tokens_append(head, tail);
        let avoid = set![TokenKind::At, TokenKind::LParen];
        self.lemma_advance(here, directives_tokens(head), directives_tokens(tail), avoid);
        if k < items.len() {
            let x = items[k];
            let more = items.skip(k + 1);
            assert(tail =~= seq![x] + more);
            lemma_directives_tokens_append(seq![x], more);
            let one = seq![x];
            assert(one.drop_last() =~= Seq::<Directive>::empty());
            assert(one.last() == x);
            assert(directives_tokens(Seq::<Directive>::empty()) =~= Seq::<(TokenKind, Seq<u8>)>::empty());
            assert(directives_tokens(one) =~= directive_tokens(x));
            lemma_directives_first(more);
            here.lemma_next_tokens_front(
                directive_tokens(x),
                directives_tokens(more),
                avoid,
                set![TokenKind::LParen],
            );
            assert(directive_tokens(x)[0] == punct(TokenKind::At));
            assert(directives_tokens(tail)[0] == directive_tokens(x)[0]);
        } else {
            assert(tail =~= Seq::<Directive>::empty());
            assert(directives_tokens(tail) =~= Seq::<(TokenKind, Seq<u8>)>::empty());
        }
    }

    /// In a selection set the parser can read, after `k` selections comes
    /// selection `k`, or the closing `}`.
    proof fn lemma_selections_head(&self, here: &Self, items: Seq<Selection>, k: int)
        requires
            self.core_inv(),
            here.core_inv(),
            self.stream() == here.stream(),
            self.spec_input() == here.spec_input(),
            self.next_index() <= here.next_index(),
            self.next_tokens(seq![punct(TokenKind::LCurly)] + selections_tokens(items) + seq![punct(TokenKind::RCurly)], Set::<TokenKind>::empty()),
            forall|i: int| 0 <= i < items.len() ==> selection_complete(#[trigger] items[i]),
            0 <= k <= items.len(),
            self.read_until(here) == seq![punct(TokenKind::LCurly)] + selections_tokens(items.take(k)),
        ensures
            here.has_next(),
            k < items.len() ==> here.next_tokens(
                selection_tokens(items[k]),
                set![TokenKind::Colon, TokenKind::LParen, TokenKind::At, TokenKind::LCurly],
            ),
            k < items.len() && items[k] is Field ==> here.next_kind() == Some(TokenKind::Name),
            k < items.len() && !(items[k] is Field) ==> here.next_kind() == Some(TokenKind::Spread),
            k == items.len() ==> here.next_kind() == Some(TokenKind::RCurly),
    {
        let head = items.take(k);
        let tail = items.skip(k);
        assert(items =~= head + tail);
        lemma_selections_tokens_append(head, tail);
        let todo = selections_tokens(tail) + seq![punct(TokenKind::RCurly)];
        assert(seq![punct(TokenKind::LCurly)] + selections_tokens(items) + seq![punct(TokenKind::RCurly)] =~= (seq![punct(TokenKind::LCurly)]
            + selections_tokens(head)) + todo);
        self.lemma_advance(here, seq![punct(TokenKind::LCurly)] + selections_tokens(head), todo, Set::<TokenKind>::empty());
        if k < items.len() {
            let x = items[k];
            let more = items.skip(k + 1);
            assert(tail =~= seq![x] + more);
            lemma_selections_tokens_append(seq![x], more);
            let one = seq![x];
            assert(one.subrange(0, 0) =~= Seq::<Selection>::empty());
            assert(selections_tokens(Seq::<Selection>::empty()) =~= Seq::<(TokenKind, Seq<u8>)>::empty());
            assert(selections_tokens(one) =~= selection_tokens(x));
            lemma_selection_first(x);
            let b = selections_tokens(more) + seq![punct(TokenKind::RCurly)];
            if more.len() > 0 {
                let y = more[0];
                lemma_selections_tokens_append(seq![y], more.skip(1));
                assert(seq![y] + more.skip(1) =~= more);
                let one2 = seq![y];
                assert(one2.subrange(0, 0) =~= Seq::<Selection>::empty());
                assert(selections_tokens(one2) =~= selection_tokens(y));
                assert(selection_complete(items[k + 1]));
                lemma_selection_first(y);
                assert(b[0] == selection_tokens(y)[0]);
            } else {
                assert(selections_tokens(more) =~= Seq::<(TokenKind, Seq<u8>)>::empty());
                assert(b[0] == punct(TokenKind::RCurly));
            }
            assert(todo =~= selection_tokens(x) + b);
            here.lemma_next_tokens_front(
                selection_tokens(x),
                b,
                Set::<TokenKind>::empty(),
                set![TokenKind::Colon, TokenKind::LParen, TokenKind::At, TokenKind::LCurly],
            );
            assert(todo[0] == selection_tokens(x)[0]);
        } else {
            assert(tail =~= Seq::<Selection>::empty());
            assert(todo =~= seq![punct(TokenKind::RCurly)]);
        }
    }

    /// In variable definitions the parser can read, after `k` of them comes
    /// definition `k`, or the closing `)`.
    #[verifier::spinoff_prover]
    #[verifier::rlimit(40)]
    proof fn lemma_vardefs_head(&self, here: &Self, items: Seq<VariableDefinition>, k: int)
        requires
            self.core_inv(),
            here.core_inv(),
            self.stream() == here.stream(),
            self.spec_input() == here.spec_input(),
            self.next_index() <= here.next_index(),
            self.next_tokens(seq![punct(TokenKind::LParen)] + variable_definition_list_tokens(items) + seq![punct(TokenKind::RParen)], Set::<TokenKind>::empty()),
            0 <= k <= items.len(),
            self.read_until(here) == seq![punct(TokenKind::LParen)] + variable_definition_list_tokens(items.take(k)),
        ensures
            here.has_next(),
            k < items.len() ==> here.next_tokens(
                variable_definition_tokens(items[k]),
                set![TokenKind::Bang, TokenKind::Eq, TokenKind::At, TokenKind::LParen],
            ),
            k < items.len() ==> here.next_kind() == Some(TokenKind::Dollar),
            k == items.len() ==> here.next_kind() == Some(TokenKind::RParen),
    {
        let head = items.take(k);
        let tail = items.skip(k);
        assert(items =~= head + tail);
        lemma_vardefs_tokens_append(head, tail);
        let todo = variable_definition_list_tokens(tail) + seq![punct(TokenKind::RParen)];
        assert(seq![punct(TokenKind::LParen)] + variable_definition_list_tokens(items) + seq![punct(TokenKind::RParen)] =~= (seq![punct(TokenKind::LParen)]
            + variable_definition_list_tokens(head)) + todo);
        self.lemma_advance(here, seq![punct(TokenKind::LParen)] + variable_definition_list_tokens(head), todo, Set::<TokenKind>::empty());
        if k < items.len() {
            let x = items[k];
            let more = items.skip(k + 1);
            assert(tail =~= seq![x] + more);
            lemma_vardefs_tokens_append(seq![x], more);
            let one = seq![x];
            assert(one.drop_last() =~= Seq::<VariableDefinition>::empty());
            assert(one.last() == x);
            assert(variable_definition_list_tokens(Seq::<VariableDefinition>::empty()) =~= Seq::<(TokenKind, Seq<u8>)>::empty());
            assert(variable_definition_list_tokens(one) =~= variable_definition_tokens(x));
            let b = variable_definition_list_tokens(more) + seq![punct(TokenKind::RParen)];
            if more.len() > 0 {
                let y = more[0];
                lemma_vardefs_tokens_append(seq![y], more.skip(1));
                assert(seq![y] + more.skip(1) =~= more);
                let one2 = seq![y];
                assert(one2.drop_last() =~= Seq::<VariableDefinition>::empty());
                assert(one2.last() == y);
                assert(variable_definition_list_tokens(one2) =~= variable_definition_tokens(y));
                assert(b[0] == variable_definition_tokens(y)[0]);
            } else {
                assert(variable_definition_list_tokens(more) =~= Seq::<(TokenKind, Seq<u8>)>::empty());
                assert(b[0] == punct(TokenKind::RParen));
            }
            assert(todo =~= variable_definition_tokens(x) + b);
            here.lemma_next_tokens_front(
                variable_definition_tokens(x),
                b,
                Set::<TokenKind>::empty(),
                set![TokenKind::Bang, TokenKind::Eq, TokenKind::At, TokenKind::LParen],
            );
            assert(todo[0] == variable_definition_tokens(x)[0]);
        } else {
            assert(tail =~= Seq::<VariableDefinition>::empty());
            assert(todo =~= seq![punct(TokenKind::RParen)]);
        }
    }

    proof fn lemma_next_tokens_weaken(&self, toks: Seq<(TokenKind, Seq<u8>)>, avoid: Set<TokenKind>, avoid2: Set<TokenKind>)
        requires
            self.next_tokens(toks, avoid),
            avoid2.subset_of(avoid),
        ensures
            self.next_tokens(toks, avoid2),
    {
    }

    /// Among definitions the parser can read, after `k` of them
    /// comes definition `k`, or the end of the source.
    #[verifier::spinoff_prover]
    #[verifier::rlimit(60)]
    proof fn lemma_definitions_head(&self, here: &Self, ds: Seq<(Definition, bool)>, k: int)
        requires
            self.core_inv(),
            here.core_inv(),
            self.stream() == here.stream(),
            self.spec_input() == here.spec_input(),
            self.next_index() <= here.next_index(),
            here.room() == self.room(),
            self.fits_document(ds),
            0 <= k <= ds.len(),
            self.read_until(here) == definitions_tokens(ds.take(k)),
        ensures
            here.has_next(),
            k < ds.len() ==> here.fits_definition(ds[k].0, ds[k].1),
            k < ds.len() ==> here.next_kind() != Some(TokenKind::Eof),
            k == ds.len() ==> here.next_kind() == Some(TokenKind::Eof),
    {
        let head = ds.take(k);
        let tail = ds.skip(k);
        assert(ds =~= head + tail);
        lemma_definitions_tokens_append(head, tail);
        let done = definitions_tokens(head);
        let todo = definitions_tokens(tail);
        self.lemma_advance(here, done, todo, Set::<TokenKind>::empty());
        self.lemma_rest(here);
        if k < ds.len() {
            let x = ds[k];
            let more = ds.skip(k + 1);
            assert(tail =~= seq![x] + more);
            lemma_definitions_tokens_append(seq![x], more);
            let one = seq![x];
            assert(one.drop_last() =~= Seq::<(Definition, bool)>::empty());
            assert(one.last() == x);
            assert(definitions_tokens(Seq::<(Definition, bool)>::empty()) =~= Seq::<(TokenKind, Seq<u8>)>::empty());
            assert(definitions_tokens(one) =~= definition_tokens(x.0, x.1));
            here.lemma_next_tokens_front(
                definition_tokens(x.0, x.1),
                definitions_tokens(more),
                Set::<TokenKind>::empty(),
                Set::<TokenKind>::empty(),
            );
            assert(definition_ok(ds[k].0, ds[k].1, self.room()));
            let lx = definition_tokens(x.0, x.1).len() as int;
            if more.len() > 0 {
                let y = more[0];
                assert(more =~= seq![y] + more.skip(1));
                lemma_definitions_tokens_append(seq![y], more.skip(1));
                let oney = seq![y];
                assert(oney.drop_last() =~= Seq::<(Definition, bool)>::empty());
                assert(definitions_tokens(oney) =~= definition_tokens(y.0, y.1));
                assert(ds[k + 1] == y);
                assert(definition_ok(ds[k + 1].0, ds[k + 1].1, self.room()));
                lemma_definition_first(y.0, y.1, self.room());
                assert(definitions_tokens(more)[0] == definition_tokens(y.0, y.1)[0]);
                assert(here.rest()[lx] == (definition_tokens(x.0, x.1) + definitions_tokens(more))[lx]);
            } else {
                assert(more =~= Seq::<(Definition, bool)>::empty());
                assert(definitions_tokens(more) =~= Seq::<(TokenKind, Seq<u8>)>::empty());
                assert(ds =~= head + seq![x]);
                lemma_definitions_tokens_append(head, seq![x]);
                assert(definitions_tokens(ds) =~= done + definition_tokens(x.0, x.1));
                assert(self.rest()[definitions_tokens(ds).len() as int].0 == TokenKind::Eof);
                assert(here.rest()[lx] == self.rest()[done.len() + lx]);
            }
            assert(here.fits_definition(x.0, x.1));
            here.lemma_definition_head(x.0, x.1);
        } else {
            assert(tail =~= Seq::<(Definition, bool)>::empty());
            assert(todo =~= Seq::<(TokenKind, Seq<u8>)>::empty());
            assert(head =~= ds);
            assert(here.rest()[0] == self.rest()[done.len() as int]);
        }
    }

    /// What the first token of a definition the parser can read
    /// tells of its kind.
    proof fn lemma_definition_head(&self, want: Definition, shorthand: bool)
        requires
            self.core_inv(),
            self.fits_definition(want, shorthand),
        ensures
            self.has_next(),
            want is Operation || want is Fragment || want is UnionType || want is ObjectType
                || want is ScalarTypeExtension || want is UnionTypeExtension,
            definition_tokens(want, shorthand).len() > 0,
            self.next_kind() != Some(TokenKind::StringValue),
            self.next_kind() != Some(TokenKind::Eof),
            (want is Fragment) == (self.next_kind() == Some(TokenKind::Name) && self.next_text() == bytes_of(
                "fragment",
            )),
            (want is Operation) == (self.next_kind() == Some(TokenKind::LCurly) || (self.next_kind() == Some(
                TokenKind::Name,
            ) && (self.next_text() == bytes_of("query") || self.next_text() == bytes_of("mutation")
                || self.next_text() == bytes_of("subscription")))),
            (want is UnionType) == (self.next_kind() == Some(TokenKind::Name) && self.next_text() == bytes_of(
                "union",
            )),
            (want is ObjectType) == (self.next_kind() == Some(TokenKind::Name) && self.next_text() == bytes_of(
                "type",
            )),
    {
        reveal(definition_ok);
        lemma_keywords_differ();
        lemma_union_keyword_differs();
        lemma_type_keyword_differs();
        self.lemma_head();
        if self.next_kind() == Some(TokenKind::Name) {
            assert(self.next_token().1 == self.next_text());
        }
        assert(self.rest()[0] == definition_tokens(want, shorthand)[0]);
        match want {
            Definition::Operation(op) => {
                let sst = selection_set_tokens(op.selection_set->0);
                assert(sst[0] == punct(TokenKind::LCurly));
                if shorthand {
                    assert(definition_tokens(want, shorthand) == sst);
                } else {
                    assert(definition_tokens(want, shorthand)[0] == operation_keyword(op.operation_type));
                }
            },
            Definition::Fragment(f) => {
                assert(definition_tokens(want, shorthand)[0] == (TokenKind::Name, bytes_of("fragment")));
            },
            Definition::UnionType(u) => {
                assert(definition_tokens(want, shorthand)[0] == (TokenKind::Name, bytes_of("union")));
            },
            Definition::ObjectType(o) => {
                assert(definition_tokens(want, shorthand)[0] == (TokenKind::Name, bytes_of("type")));
            },
            Definition::ScalarTypeExtension(x) => {
                assert(definition_tokens(want, shorthand)[0] == extend_token());
            },
            Definition::UnionTypeExtension(x) => {
                assert(definition_tokens(want, shorthand)[0] == extend_token());
            },
            _ => {},
        }
    }

    /// A definition the parser can read is an operation, a fragment, a union
    /// type or an object type it can read.
    proof fn lemma_definition_parts(&self, later: &Self, want: Definition, shorthand: bool)
        requires
            self.fits_definition(want, shorthand),
            later.rest() == self.rest(),
            later.stream() == self.stream(),
            later.room() == self.room(),
        ensures
            want is Operation || want is Fragment || want is UnionType || want is ObjectType
                || want is ScalarTypeExtension || want is UnionTypeExtension,
            want matches Definition::Operation(op) ==> later.fits_operation(op, shorthand),
            want matches Definition::Fragment(f) ==> later.fits_fragment(f) && !shorthand,
            want matches Definition::UnionType(u) ==> later.fits_union(u) && !shorthand,
            want matches Definition::ObjectType(o) ==> later.fits_object(o) && !shorthand,
            want matches Definition::ScalarTypeExtension(x) ==> later.fits_scalar_extension(x) && !shorthand,
            want matches Definition::UnionTypeExtension(x) ==> later.fits_union_extension(x) && !shorthand,
    {
        reveal(definition_ok);
    }

    /// Having read one token where `t` and then `todo` are expected, that
    /// token was `t`, and `todo` is next.
    proof fn lemma_read_one(&self, later: &Self, t: (TokenKind, Seq<u8>), todo: Seq<(TokenKind, Seq<u8>)>, avoid: Set<TokenKind>)
        requires
            self.core_inv(),
            later.core_inv(),
            self.stream() == later.stream(),
            self.spec_input() == later.spec_input(),
            self.next_index() <= later.next_index(),
            self.next_tokens(seq![t] + todo, avoid),
            self.read_until(later).len() == 1,
        ensures
            self.read_until(later) == seq![t],
            later.next_tokens(todo, avoid),
            later.has_next(),
            later.next_kind() == Some(later.rest()[0].0),
            todo.len() > 0 ==> later.next_kind() == Some(todo[0].0),
            todo.len() == 0 ==> !avoid.contains(later.rest()[0].0),
    {
        self.lemma_rest(later);
        assert(self.rest()[0] == self.read_until(later)[0]);
        assert(self.rest()[0] == (seq![t] + todo)[0]);
        assert(self.read_until(later) =~= seq![t]);
        self.lemma_advance(later, seq![t], todo, avoid);
    }

    /// Having read `done` of the expected `done + todo`, `todo` is next.
    proof fn lemma_advance(&self, later: &Self, done: Seq<(TokenKind, Seq<u8>)>, todo: Seq<(TokenKind, Seq<u8>)>, avoid: Set<TokenKind>)
        requires
            self.core_inv(),
            later.core_inv(),
            self.stream() == later.stream(),
            self.spec_input() == later.spec_input(),
            self.next_index() <= later.next_index(),
            self.next_tokens(done + todo, avoid),
            self.read_until(later) == done,
        ensures
            later.next_tokens(todo, avoid),
            later.has_next(),
            later.next_kind() == Some(later.rest()[0].0),
            todo.len() > 0 ==> later.next_kind() == Some(todo[0].0),
            todo.len() == 0 ==> !avoid.contains(later.rest()[0].0),
    {
        self.lemma_rest(later);
        later.lemma_rest(later);
        later.lemma_next();
        let r0 = self.rest();
        let r1 = later.rest();
        let d = done.len() as int;
        assert(r1 =~= r0.subrange(d, r0.len() as int));
        assert forall|k: int| 0 <= k < todo.len() implies todo[k] == r1[k] by {
            assert((done + todo)[d + k] == todo[k]);
            assert(r0[d + k] == (done + todo)[d + k]);
        }
        assert(todo =~= r1.subrange(0, todo.len() as int));
        assert(r1[todo.len() as int] == r0[d + todo.len()]);
        if !later.has_next() {
            assert(r1.len() == 0);
        }
    }

    /// Expecting `a + b` with `b` starting with a token of none of the kinds
    /// `avoid2` (or `b` empty and `avoid2` within `avoid`), `a` is expected
    /// followed by none of `avoid2`.
    proof fn lemma_next_tokens_front(&self, a: Seq<(TokenKind, Seq<u8>)>, b: Seq<(TokenKind, Seq<u8>)>, avoid: Set<TokenKind>, avoid2: Set<TokenKind>)
        requires
            self.next_tokens(a + b, avoid),
            b.len() > 0 ==> !avoid2.contains(b[0].0),
            b.len() == 0 ==> avoid2.subset_of(avoid),
        ensures
            self.next_tokens(a, avoid2),
    {
        let r = self.rest();
        assert forall|k: int| 0 <= k < a.len() implies a[k] == r[k] by {
            assert((a + b)[k] == a[k]);
        }
        assert(a =~= r.subrange(0, a.len() as int));
        if b.len() > 0 {
            assert((a + b)[a.len() as int] == b[0]);
        }
    }

    proof fn lemma_read_chain(&self, mid: &Self, last: &Self)
        requires
            self.stream() == mid.stream(),
            mid.stream() == last.stream(),
            self.spec_input() == mid.spec_input(),
            mid.spec_input() == last.spec_input(),
            self.next_index() <= mid.next_index() <= last.next_index(),
        ensures
            self.read_until(last) == self.read_until(mid) + mid.read_until(last),
    {
        lemma_sig_tokens_split(
            self.stream(),
            self.bytes(),
            self.next_index(),
            mid.next_index(),
            last.next_index(),
        );
    }

    /// Takes one lexeme from the lexer: records it when it is a comment or an
    /// error, and returns it when it is a significant token.
    fn pull_one(&mut self) -> (r: (bool, Option<Token<'a>>))
        requires
            old(self).inv(),
            old(self).current_token is None,
        ensures
            final(self).core_inv(),
            r.1 is None ==> final(self).inv(),
            r.1 matches Some(t) && t.kind != TokenKind::Eof ==> final(self).inv_base(),
            final(self).current_token is None,
            final(self).stream() == old(self).stream(),
            final(self).spec_input() == old(self).spec_input(),
            final(self).spec_allocator() == old(self).spec_allocator(),
            final(self).spec_flags() == old(self).spec_flags(),
            final(self).spec_token_limit().spec_limit() == old(self).spec_token_limit().spec_limit(),
            final(self).spec_recursion_limit() == old(self).spec_recursion_limit(),
            old(self).spec_errors().len() <= final(self).spec_errors().len(),
            forall|i: int|
                0 <= i < old(self).spec_errors().len() ==> final(self).spec_errors()[i]
                    == #[trigger] old(self).spec_errors()[i],
            final(self).spec_last_end() == old(self).spec_last_end(),
            r.0 <==> old(self).consumed() == old(self).stream().len(),
            r.0 ==> final(self).consumed() == old(self).consumed() && r.1 is None,
            !r.0 ==> final(self).consumed() == old(self).consumed() + 1,
            !r.0 ==> (r.1 is Some <==> is_significant(old(self).stream()[old(self).consumed()])),
            r.1 matches Some(t) ==> token_matches(
                t,
                old(self).stream()[old(self).consumed()],
                old(self).bytes(),
            ),
            lexes_cleanly(old(self).stream()) ==> final(self).spec_errors() == old(self).spec_errors(),
    {
        let ghost s = self.stream@;
        let ghost k = self.consumed();
        let ghost rem = self.lexer.remaining();
        proof {
            if rem.len() > 0 {
                assert(rem[0] == s[k]);
                self.lemma_stream_at(k);
            }
        }
        match self.lexer.next_item() {
            None => (true, None),
            Some(item) => {
                proof {
                    assert(self.lexer.remaining() =~= s.subrange(
                        s.len() - self.lexer.remaining().len(),
                        s.len() as int,
                    ));
                    assert(s.take(k + 1).drop_last() =~= s.take(k));
                    assert(s.take(k + 1) =~= s.take(k).push(s[k]));
                }
                match item {
                    Ok(token) => {
                        proof {
                            lemma_reports_push_lexeme(self.errors@, s.take(k), s[k], self.bytes());
                        }
                        if token.kind == TokenKind::Comment {
                            let start = token.index;
                            let end = token.index + token.data.len();
                            self.comments.push(Span::new(start as u32, end as u32));
                            assert(self.comments@ =~= comment_spans(s.take(k + 1)));
                            (false, None)
                        } else if token.kind == TokenKind::Whitespace || token.kind
                            == TokenKind::Comma {
                            (false, None)
                        } else {
                            (false, Some(token))
                        }
                    },
                    Err(err) => {
                        if err.is_limit() {
                            self.accept_errors = false;
                        }
                        let ghost before = self.errors@;
                        self.errors.push(err);
                        proof {
                            lemma_reports_push_error(before, err, s.take(k), self.bytes());
                            assert(self.errors@[before.len() as int] == err);
                            lemma_reports_push_lexeme(self.errors@, s.take(k), s[k], self.bytes());
                        }
                        (false, None)
                    },
                }
            },
        }
    }

    /// Takes lexemes from the lexer up to and including the next significant
    /// token, recording comments and lexing errors on the way.
    fn next_significant_token(&mut self) -> (r: Option<Token<'a>>)
        requires
            old(self).inv(),
            old(self).current_token is None,
        ensures
            final(self).core_inv(),
            r is None ==> final(self).inv(),
            r matches Some(t) && t.kind != TokenKind::Eof ==> final(self).inv_base(),
            final(self).current_token is None,
            old(self).evolves_to(final(self)),
            final(self).spec_last_end() == old(self).spec_last_end(),
            r is Some <==> old(self).has_next(),
            r matches Some(t) ==> token_matches(t, old(self).next_lexeme(), old(self).bytes())
                && final(self).consumed() == old(self).next_index() + 1,
            r is None ==> final(self).consumed() == final(self).stream().len(),
            lexes_cleanly(old(self).stream()) ==> final(self).spec_errors() == old(self).spec_errors(),
    {
        let ghost s = self.stream@;
        let ghost target = self.next_index();
        proof {
            self.lemma_next();
        }
        loop
            invariant
                self.inv(),
                self.current_token is None,
                self.stream() == s,
                old(self).stream() == s,
                self.spec_input() == old(self).spec_input(),
                self.spec_allocator() == old(self).spec_allocator(),
                self.spec_flags() == old(self).spec_flags(),
                self.spec_token_limit().spec_limit() == old(self).spec_token_limit().spec_limit(),
                self.spec_recursion_limit() == old(self).spec_recursion_limit(),
                old(self).spec_errors().len() <= self.spec_errors().len(),
                forall|i: int|
                    0 <= i < old(self).spec_errors().len() ==> self.spec_errors()[i]
                        == #[trigger] old(self).spec_errors()[i],
                lexes_cleanly(s) ==> self.spec_errors() == old(self).spec_errors(),
                self.spec_last_end() == old(self).spec_last_end(),
                target == first_sig_from(s, old(self).cursor()),
                0 <= old(self).cursor() <= self.consumed() <= target <= s.len(),
                first_sig_from(s, self.consumed()) == target,
            decreases s.len() - self.consumed(),
        {
            let ghost k = self.consumed();
            proof {
                lemma_first_sig_from(s, k);
            }
            let (done, t) = self.pull_one();
            if done {
                proof {
                    lemma_first_sig_from(s, s.len() as int);
                }
                return None;
            }
            proof {
                lemma_first_sig_from(s, k + 1);
            }
            if let Some(token) = t {
                proof {
                    lemma_first_sig_monotone(s, old(self).cursor(), k + 1);
                }
                return Some(token);
            }
        }
    }

    /// The next significant token, without consuming it.
    fn peek_token(&mut self) -> (r: Option<Token<'a>>)
        requires
            old(self).inv(),
        ensures
            final(self).inv(),
            old(self).evolves_to(final(self)),
            final(self).next_index() == old(self).next_index(),
            final(self).spec_last_end() == old(self).spec_last_end(),
            r is Some <==> old(self).has_next(),
            r matches Some(t) ==> token_matches(t, old(self).next_lexeme(), old(self).bytes()),
            r is Some ==> final(self).current_token == r,
            r is None ==> final(self).consumed() == final(self).stream().len(),
            lexes_cleanly(old(self).stream()) ==> final(self).spec_errors() == old(self).spec_errors(),
    {
        proof {
            self.lemma_next();
        }
        if self.current_token.is_none() {
            let t = self.next_significant_token();
            self.current_token = t;
            proof {
                lemma_first_sig_from(self.stream@, self.cursor());
                if t is None {
                    lemma_first_sig_from(self.stream@, self.stream@.len() as int);
                }
            }
        } else {
            proof {
                lemma_first_sig_from(self.stream@, self.cursor());
            }
        }
        self.current_token
    }

    /// The kind of the next significant token.
    fn peek(&mut self) -> (r: Option<TokenKind>)
        requires
            old(self).inv(),
        ensures
            final(self).inv(),
            old(self).evolves_to(final(self)),
            final(self).next_index() == old(self).next_index(),
            final(self).spec_last_end() == old(self).spec_last_end(),
            r == old(self).next_kind(),
            r is Some ==> final(self).current_token is Some,
            r is None ==> final(self).consumed() == final(self).stream().len(),
            lexes_cleanly(old(self).stream()) ==> final(self).spec_errors() == old(self).spec_errors(),
    {
        match self.peek_token() {
            Some(t) => Some(t.kind),
            None => None,
        }
    }

    /// Whether the next significant token is of kind `k`.
    fn at(&mut self, k: TokenKind) -> (r: bool)
        requires
            old(self).inv(),
        ensures
            final(self).inv(),
            old(self).evolves_to(final(self)),
            final(self).next_index() == old(self).next_index(),
            final(self).spec_last_end() == old(self).spec_last_end(),
            r == (old(self).next_kind() == Some(k)),
            lexes_cleanly(old(self).stream()) ==> final(self).spec_errors() == old(self).spec_errors(),
    {
        match self.peek_token() {
            Some(t) => t.kind == k,
            None => false,
        }
    }

    /// Whether the next significant token's text is `kw`.
    fn at_keyword(&mut self, kw: &str) -> (r: bool)
        requires
            old(self).inv(),
        ensures
            final(self).inv(),
            old(self).evolves_to(final(self)),
            final(self).next_index() == old(self).next_index(),
            final(self).spec_last_end() == old(self).spec_last_end(),
            r == (old(self).next_kind() == Some(TokenKind::Name) && old(self).next_text()
                == bytes_of(kw)),
            lexes_cleanly(old(self).stream()) ==> final(self).spec_errors() == old(self).spec_errors(),
    {
        match self.peek_token() {
            Some(t) => {
                proof {
                    lemma_same_bytes_same_chars(t.data, kw);
                }
                t.kind == TokenKind::Name && text_eq(t.data, kw)
            },
            None => false,
        }
    }

    /// Consumes the next significant token.
    fn bump(&mut self) -> (r: Option<Token<'a>>)
        requires
            old(self).inv(),
            old(self).next_kind() == Some(TokenKind::Eof) ==> old(self).spec_errors().len() > 0,
        ensures
            final(self).inv(),
            old(self).evolves_to(final(self)),
            r is Some <==> old(self).has_next(),
            old(self).has_next() ==> old(self).advanced(final(self)),
            !old(self).has_next() ==> final(self).next_index() == old(self).next_index(),
            r matches Some(t) ==> token_matches(t, old(self).next_lexeme(), old(self).bytes()),
            r matches Some(t) ==> final(self).spec_last_end() == old(self).next_lexeme().end,
            r is None ==> final(self).spec_last_end() == old(self).spec_last_end(),
            old(self).has_next() ==> old(self).read_until(final(self)) == seq![
                old(self).next_token(),
            ],
            lexes_cleanly(old(self).stream()) ==> final(self).spec_errors() == old(self).spec_errors(),
    {
        proof {
            self.lemma_next();
        }
        let token = if self.current_token.is_some() {
            let t = self.current_token.unwrap();
            self.current_token = None;
            t
        } else {
            match self.next_significant_token() {
                Some(t) => t,
                None => {
                    proof {
                        lemma_first_sig_from(self.stream@, self.cursor());
                    }
                    return None;
                },
            }
        };
        proof {
            lemma_first_sig_from(self.stream@, self.cursor());
            lemma_first_sig_from(old(self).stream@, old(self).cursor());
            let s = self.stream@;
            let ni = old(self).next_index();
            lemma_sig_tokens_split(s, self.bytes(), ni, ni + 1, self.next_index());
            lemma_sig_tokens_none(s, self.bytes(), ni + 1, self.next_index());
            assert(sig_tokens(s, self.bytes(), ni, ni) =~= Seq::<(TokenKind, Seq<u8>)>::empty());
        }
        self.last_end = token.index + token.data.len();
        proof {
            lemma_prev_sig_end_after(self.stream@, old(self).next_index());
        }
        Some(token)
    }

    /// Where the next significant token starts, or where the last one ended.
    fn current_start(&mut self) -> (r: usize)
        requires
            old(self).inv(),
        ensures
            final(self).inv(),
            old(self).evolves_to(final(self)),
            final(self).next_index() == old(self).next_index(),
            final(self).spec_last_end() == old(self).spec_last_end(),
            r <= old(self).bytes().len(),
            old(self).has_next() ==> r == old(self).next_lexeme().start,
            !old(self).has_next() ==> r == old(self).spec_last_end(),
            lexes_cleanly(old(self).stream()) ==> final(self).spec_errors() == old(self).spec_errors(),
    {
        match self.peek_token() {
            Some(t) => t.index,
            None => self.last_end,
        }
    }

    /// The span of the next significant token, or an empty span where the
    /// last one ended.
    fn current_span(&mut self) -> (r: Span)
        requires
            old(self).inv(),
        ensures
            final(self).inv(),
            old(self).evolves_to(final(self)),
            final(self).next_index() == old(self).next_index(),
            final(self).spec_last_end() == old(self).spec_last_end(),
            span_in(r, old(self).bytes()),
            old(self).has_next() ==> r == lexeme_span(old(self).next_lexeme()),
            !old(self).has_next() ==> r == (Span {
                start: old(self).spec_last_end() as u32,
                end: old(self).spec_last_end() as u32,
            }),
            lexes_cleanly(old(self).stream()) ==> final(self).spec_errors() == old(self).spec_errors(),
    {
        match self.peek_token() {
            Some(t) => Span::new(t.index as u32, (t.index + t.data.len()) as u32),
            None => Span::new(self.last_end as u32, self.last_end as u32),
        }
    }

    /// The span from `start` to where the last consumed token ended.
    fn span_from(&self, start: usize) -> (r: Span)
        requires
            self.inv(),
            start <= self.bytes().len(),
        ensures
            span_in(r, self.bytes()),
            r.start == start,
            ends_at(r, self.last_token_end()),
    {
        let end = if self.last_end > start {
            self.last_end
        } else {
            start
        };
        proof {
            reveal(ends_at);
        }
        Span::new(start as u32, end as u32)
    }

    /// Records an error unless errors are no longer accepted.
    fn push_err(&mut self, err: Error)
        requires
            old(self).inv(),
            err.spec_index() <= old(self).bytes().len(),
        ensures
            final(self).inv(),
            old(self).evolves_to(final(self)),
            final(self).next_index() == old(self).next_index(),
            final(self).spec_last_end() == old(self).spec_last_end(),
            final(self).spec_errors().len() > 0,
    {
        if self.accept_errors {
            proof {
                lemma_reports_push_error(
                    self.errors@,
                    err,
                    self.stream@.take(self.consumed()),
                    self.bytes(),
                );
            }
            self.errors.push(err);
        }
    }

    /// The error for `token`: at the end of the input, or about its text.
    fn error_at(message: &str, token: Token<'a>) -> (r: Error)
        ensures
            r.spec_index() == token.index,
    {
        if token.kind == TokenKind::Eof {
            Error::eof(message, token.index)
        } else {
            Error::with_loc(message, String::from_str(token.data), token.index)
        }
    }

    /// Records an error about the next significant token.
    fn err(&mut self, message: &str)
        requires
            old(self).inv(),
        ensures
            final(self).inv(),
            old(self).evolves_to(final(self)),
            final(self).next_index() == old(self).next_index(),
            final(self).spec_last_end() == old(self).spec_last_end(),
            final(self).spec_errors().len() > 0,
    {
        let token = match self.peek_token() {
            Some(t) => t,
            None => {
                proof {
                    self.lemma_exhausted_has_errors();
                }
                return ;
            },
        };
        proof {
            self.lemma_next();
        }
        let err = Self::error_at(message, token);
        self.push_err(err);
    }

    /// Records an error about the next significant token and consumes it.
    fn err_and_pop(&mut self, message: &str)
        requires
            old(self).inv(),
        ensures
            final(self).inv(),
            old(self).evolves_to(final(self)),
            old(self).has_next() ==> old(self).advanced(final(self)),
            !old(self).has_next() ==> final(self).next_index() == old(self).next_index(),
            final(self).spec_errors().len() > 0,
    {
        proof {
            old(self).lemma_next();
        }
        let token = match self.peek_token() {
            Some(t) => t,
            None => {
                proof {
                    self.lemma_exhausted_has_errors();
                }
                return ;
            },
        };
        proof {
            self.lemma_next();
        }
        let err = Self::error_at(message, token);
        self.push_err(err);
        self.bump();
    }

    /// Records that a limit was reached; no error is accepted after this one.
    fn limit_err(&mut self, message: &str)
        requires
            old(self).inv(),
        ensures
            final(self).inv(),
            old(self).evolves_to(final(self)),
            final(self).next_index() == old(self).next_index(),
            final(self).spec_last_end() == old(self).spec_last_end(),
            final(self).spec_errors().len() > 0,
    {
        let index = match self.peek_token() {
            Some(t) => t.index,
            None => self.last_end,
        };
        proof {
            self.lemma_next();
        }
        self.push_err(Error::limit(message, index));
        self.accept_errors = false;
    }

    /// Consumes the next token if it is of kind `k`; records an error otherwise.
    fn expect(&mut self, k: TokenKind, message: &str)
        requires
            old(self).inv(),
            k != TokenKind::Eof,
        ensures
            final(self).inv(),
            old(self).evolves_to(final(self)),
            old(self).next_kind() == Some(k) ==> old(self).advanced(final(self)),
            old(self).next_kind() != Some(k) ==> final(self).next_index() == old(self).next_index(),
            old(self).next_kind() != Some(k) ==> final(self).erred(),
            old(self).next_kind() == Some(k) ==> old(self).read_until(final(self)) == seq![
                old(self).next_token(),
            ],
            lexes_cleanly(old(self).stream()) && old(self).next_kind() == Some(k)
                ==> final(self).spec_errors() == old(self).spec_errors(),
    {
        if self.at(k) {
            self.bump();
        } else {
            self.err(message);
        }
    }

    /// Consumes the next token if its text is `expected`; records an error otherwise.
    fn expect_name_value(&mut self, expected: &str)
        requires
            old(self).inv(),
        ensures
            final(self).inv(),
            old(self).evolves_to(final(self)),
            old(self).next_kind() == Some(TokenKind::Name) && old(self).next_text() == bytes_of(
                expected,
            ) ==> old(self).advanced(final(self)),
            !(old(self).next_kind() == Some(TokenKind::Name) && old(self).next_text() == bytes_of(
                expected,
            )) ==> final(self).erred(),
            old(self).next_kind() == Some(TokenKind::Name) && old(self).next_text() == bytes_of(
                expected,
            ) ==> old(self).read_until(final(self)) == seq![old(self).next_token()],
            lexes_cleanly(old(self).stream()) && old(self).next_kind() == Some(TokenKind::Name)
                && old(self).next_text() == bytes_of(expected) ==> final(self).spec_errors()
                == old(self).spec_errors(),
    {
        if self.at_keyword(expected) {
            self.bump();
        } else {
            let mut message = String::from_str("expected ");
            message.append(expected);
            self.err(message.as_str());
        }
    }

    /// An empty name where the last token ended, for a name that is missing.
    fn missing_name(&self) -> (r: Name<'a>)
        requires
            self.inv(),
        ensures
            name_wf(r, self.bytes()),
    {
        let le = self.last_end;
        proof {
            reveal(boundary);
        }
        let value = slice_str(self.input, le, le);
        Name { value, span: Span::new(le as u32, le as u32) }
    }

    fn missing_named_type(&self) -> (r: NamedType<'a>)
        requires
            self.inv(),
        ensures
            name_wf(r.name, self.bytes()),
    {
        NamedType { name: self.missing_name() }
    }

    fn missing_variable(&self) -> (r: Variable<'a>)
        requires
            self.inv(),
        ensures
            variable_wf(r, self.bytes()),
    {
        let le = self.last_end;
        Variable { name: self.missing_name(), span: Span::new(le as u32, le as u32) }
    }

    /// A parser that has not read anything yet, set up as `new` and the
    /// builders left it.
    pub closed spec fn fresh(&self) -> bool {
        &&& self.inv()
        &&& self.current_token is None
        &&& self.consumed() == 0
        &&& self.errors@.len() == 0
        &&& self.comments@.len() == 0
        &&& self.last_end == 0
        &&& self.recursion_limit.spec_current() == 0
        &&& self.lexer.spec_tracker().spec_current() == 0
        &&& self.lexer.spec_pos() == 0
        &&& !self.lexer.spec_finished()
        &&& self.stream@ == lexemes(self.bytes(), 0, self.lexer.spec_tracker().spec_limit() as nat)
    }

    /// A parser of `input`. Its syntax tree's nodes hold slices of `input`, and
    /// the values of its string literals are kept in `allocator`.
    pub fn new(allocator: &'a Allocator, input: &'a str) -> (r: Parser<'a>)
        requires
            bytes_of(input).len() <= u32::MAX,
            bytes_of(input).len() <= isize::MAX,
        ensures
            r.fresh(),
            r.spec_input() == input,
            r.spec_allocator() == allocator,
            r.spec_recursion_limit().spec_limit() == DEFAULT_RECURSION_LIMIT,
            r.spec_token_limit().spec_limit() == usize::MAX,
            r.spec_flags() == (false, false),
    {
        let ghost b = bytes_of(input);
        proof {
            crate::text::lemma_str_valid(input);
            lemma_stream_ok(b, usize::MAX as nat);
            vstd::utf8::is_char_boundary_start_end_of_seq(b);
            reveal(boundary);
            LimitTracker::lemma_spec_new(usize::MAX);
        }
        let lexer = Lexer::new(input);
        let r = Parser {
            allocator,
            input,
            lexer,
            current_token: None,
            errors: Vec::new(),
            comments: Vec::new(),
            recursion_limit: LimitTracker::new(DEFAULT_RECURSION_LIMIT),
            accept_errors: true,
            allow_executable_descriptions: false,
            allow_legacy_fragment_variables: false,
            last_end: 0,
            stream: Ghost(lexemes(b, 0, usize::MAX as nat)),
        };
        assert(r.stream@.take(0) =~= Seq::<Lexeme>::empty());
        assert(r.lexer.remaining() =~= r.stream@.subrange(0, r.stream@.len() as int));
        proof {
            lemma_first_sig_from(r.stream@, 0);
            lemma_prev_sig_end_skip(r.stream@, 0, first_sig_from(r.stream@, 0));
        }
        r
    }

    /// Sets how deeply selection sets, list values and list types may nest.
    pub fn recursion_limit(self, recursion_limit: usize) -> (r: Parser<'a>)
        requires
            self.fresh(),
        ensures
            r.fresh(),
            r.spec_input() == self.spec_input(),
            r.spec_allocator() == self.spec_allocator(),
            r.spec_recursion_limit().spec_limit() == recursion_limit,
            r.spec_token_limit() == self.spec_token_limit(),
            r.spec_flags() == self.spec_flags(),
    {
        proof {
            LimitTracker::lemma_spec_new(recursion_limit);
        }
        Parser { recursion_limit: LimitTracker::new(recursion_limit), ..self }
    }

    /// Sets how many tokens the lexer may make.
    pub fn token_limit(self, token_limit: usize) -> (r: Parser<'a>)
        requires
            self.fresh(),
        ensures
            r.fresh(),
            r.spec_input() == self.spec_input(),
            r.spec_allocator() == self.spec_allocator(),
            r.spec_recursion_limit() == self.spec_recursion_limit(),
            r.spec_token_limit().spec_limit() == token_limit,
            r.spec_flags() == self.spec_flags(),
    {
        let ghost b = self.bytes();
        proof {
            crate::text::lemma_str_valid(self.input);
            lemma_stream_ok(b, token_limit as nat);
            LimitTracker::lemma_spec_new(token_limit);
            reveal(lexemes);
        }
        let lexer = self.lexer.with_limit(token_limit);
        let r = Parser { lexer, stream: Ghost(lexemes(b, 0, token_limit as nat)), ..self };
        assert(r.lexer.remaining() =~= r.stream@.subrange(0, r.stream@.len() as int));
        assert(r.stream@.take(0) =~= Seq::<Lexeme>::empty());
        proof {
            lemma_first_sig_from(r.stream@, 0);
            lemma_prev_sig_end_skip(r.stream@, 0, first_sig_from(r.stream@, 0));
        }
        r
    }

    /// Accepts descriptions on executable definitions (operations, fragments
    /// and variable definitions), as the 2025 draft of the specification does.
    pub fn allow_executable_descriptions(self, allow: bool) -> (r: Parser<'a>)
        requires
            self.fresh(),
        ensures
            r.fresh(),
            r.spec_input() == self.spec_input(),
            r.spec_allocator() == self.spec_allocator(),
            r.spec_recursion_limit() == self.spec_recursion_limit(),
            r.spec_token_limit() == self.spec_token_limit(),
            r.spec_flags() == (allow, self.spec_flags().1),
    {
        Parser { allow_executable_descriptions: allow, ..self }
    }

    /// Accepts variable definitions on fragment definitions (the legacy
    /// fragment variables syntax).
    pub fn allow_legacy_fragment_variables(self, allow: bool) -> (r: Parser<'a>)
        requires
            self.fresh(),
        ensures
            r.fresh(),
            r.spec_input() == self.spec_input(),
            r.spec_allocator() == self.spec_allocator(),
            r.spec_recursion_limit() == self.spec_recursion_limit(),
            r.spec_token_limit() == self.spec_token_limit(),
            r.spec_flags() == (self.spec_flags().0, allow),
    {
        Parser { allow_legacy_fragment_variables: allow, ..self }
    }
    // -----------------------------------------------------------------------
    // Leaves
    fn parse_name(&mut self) -> (r: Option<Name<'a>>)
        requires
            old(self).inv(),
        ensures
            final(self).inv(),
            old(self).evolves_to(final(self)),
            r is Some <==> old(self).next_kind() == Some(TokenKind::Name),
            r matches Some(n) ==> name_wf(n, old(self).bytes()) && name_complete(n),
            r is None ==> final(self).spec_errors().len() > 0,
            r is Some ==> old(self).advanced(final(self)),
            r is None ==> final(self).next_index() == old(self).next_index(),
            r matches Some(n) ==> old(self).read_until(final(self)) == seq![
                (TokenKind::Name, bytes_of(n.value)),
            ],
            lexes_cleanly(old(self).stream()) && old(self).next_kind() == Some(TokenKind::Name)
                ==> final(self).spec_errors() == old(self).spec_errors(),
    {
        match self.peek() {
            None => {
                proof {
                    self.lemma_exhausted_has_errors();
                }
                return None;
            },
            Some(k) => {
                if k != TokenKind::Name {
                    self.err("expected a Name");
                    return None;
                }
            },
        }
        proof {
            self.lemma_next();
        }
        let token = self.bump().unwrap();
        let end = token.index + token.data.len();
        Some(Name { value: token.data, span: Span::new(token.index as u32, end as u32) })
    }

    fn parse_named_type(&mut self) -> (r: Option<NamedType<'a>>)
        requires
            old(self).inv(),
        ensures
            final(self).inv(),
            old(self).evolves_to(final(self)),
            r is Some <==> old(self).next_kind() == Some(TokenKind::Name),
            r matches Some(n) ==> name_wf(n.name, old(self).bytes()),
            r is Some ==> old(self).advanced(final(self)),
            r is None ==> final(self).next_index() == old(self).next_index(),
            r matches Some(n) ==> name_complete(n.name),
            r matches Some(n) ==> old(self).read_until(final(self)) == seq![name_token(n.name)],
            r is None ==> final(self).erred(),
            lexes_cleanly(old(self).stream()) && old(self).next_kind() == Some(TokenKind::Name)
                ==> final(self).spec_errors() == old(self).spec_errors(),
    {
        match self.parse_name() {
            Some(name) => Some(NamedType { name }),
            None => None,
        }
    }

    fn parse_string_value(&mut self) -> (r: Option<StringValue<'a>>)
        requires
            old(self).inv(),
            old(self).next_kind() == Some(TokenKind::StringValue),
        ensures
            final(self).inv(),
            old(self).evolves_to(final(self)),
            r is Some <==> old(self).has_next(),
            r matches Some(v) ==> string_value_wf(v, old(self).bytes()),
            old(self).has_next() ==> old(self).advanced(final(self)),
            r matches Some(v) ==> old(self).read_until(final(self)) == seq![(TokenKind::StringValue, bytes_of(v.raw))],
            lexes_cleanly(old(self).stream()) ==> final(self).spec_errors() == old(self).spec_errors(),
    {
        let token = match self.bump() {
            Some(t) => t,
            None => {
                return None;
            },
        };
        let raw = token.data;
        let chars = crate::strings::chars_of(raw);
        let block = chars.len() >= 3 && chars[0] == '"' && chars[1] == '"' && chars[2] == '"';
        let value = if block {
            let normalized = normalize_block_string(raw);
            arena_str(self.allocator, normalized.as_str())
        } else {
            let trimmed = trim_quotes_of(raw);
            let unescaped = unescape_string(trimmed.as_str());
            arena_str(self.allocator, unescaped.as_str())
        };
        let end = token.index + token.data.len();
        Some(StringValue { raw, value, block, span: Span::new(token.index as u32, end as u32) })
    }

    fn parse_description_if_present(&mut self) -> (r: Option<StringValue<'a>>)
        requires
            old(self).inv(),
        ensures
            final(self).inv(),
            old(self).evolves_to(final(self)),
            opt_string_value_wf(r, old(self).bytes()),
            old(self).next_kind() == Some(TokenKind::StringValue) ==> old(self).advanced(
                final(self),
            ),
            old(self).next_kind() != Some(TokenKind::StringValue) ==> final(self).next_index()
                == old(self).next_index(),
            old(self).next_kind() != Some(TokenKind::StringValue) ==> r is None,
            old(self).next_kind() == Some(TokenKind::StringValue) ==> r is Some,
            lexes_cleanly(old(self).stream()) && old(self).next_kind() != Some(TokenKind::StringValue)
                ==> final(self).spec_errors() == old(self).spec_errors(),
            old(self).read_until(final(self)) == description_tokens(r),
    {
        if self.at(TokenKind::StringValue) {
            self.parse_string_value()
        } else {
            None
        }
    }

    fn parse_variable(&mut self) -> (r: Option<Variable<'a>>)
        requires
            old(self).inv(),
        ensures
            final(self).inv(),
            old(self).evolves_to(final(self)),
            r is Some <==> old(self).next_kind() == Some(TokenKind::Dollar),
            r matches Some(v) ==> variable_wf(v, old(self).bytes()),
            r is Some ==> old(self).advanced(final(self)),
            r is None ==> final(self).next_index() == old(self).next_index(),
            r matches Some(v) ==> name_complete(v.name) || final(self).erred(),
            r is None ==> final(self).erred(),
            r is Some && !final(self).erred() ==> old(self).read_until(final(self)) == seq![
                punct(TokenKind::Dollar),
                name_token(r->0.name),
            ],
            lexes_cleanly(old(self).stream()) && old(self).rest().len() > 1 && old(self).rest()[0].0
                == TokenKind::Dollar && old(self).rest()[1].0 == TokenKind::Name ==> {
                &&& r is Some
                &&& final(self).spec_errors() == old(self).spec_errors()
                &&& old(self).read_until(final(self)) == seq![
                    punct(TokenKind::Dollar),
                    name_token(r->0.name),
                ]
                &&& old(self).read_until(final(self)) == old(self).rest().subrange(0, 2)
            },
    {
        let ghost ok = lexes_cleanly(old(self).stream()) && old(self).rest().len() > 1
            && old(self).rest()[0].0 == TokenKind::Dollar && old(self).rest()[1].0
            == TokenKind::Name;
        proof {
            if ok {
                old(self).lemma_head();
            }
        }
        let start = self.current_start();
        if !self.at(TokenKind::Dollar) {
            self.err("expected a Variable");
            return None;
        }
        let ghost g0 = *self;
        self.bump();
        let ghost g1 = *self;
        proof {
            if ok {
                old(self).lemma_rest(&g1);
                old(self).lemma_read_chain(&g0, &g1);
                assert(old(self).read_until(&g1) =~= seq![old(self).rest()[0]]);
                assert(g1.rest()[0] == old(self).rest()[1]);
                g1.lemma_head();
            }
        }
        let name = match self.parse_name() {
            Some(n) => n,
            None => self.missing_name(),
        };
        proof {
            if ok {
                old(self).lemma_read_chain(&g1, &*self);
                g1.lemma_rest(&*self);
                assert(old(self).read_until(&*self) =~= old(self).rest().subrange(0, 2));
                assert(old(self).rest()[0] == punct(TokenKind::Dollar));
                assert(old(self).read_until(&*self) =~= seq![
                    punct(TokenKind::Dollar),
                    name_token(name),
                ]);
            }
            if !self.erred() {
                old(self).lemma_read_chain(&g0, &*self);
                g0.lemma_read_chain(&g1, &*self);
                assert(old(self).read_until(&*self) =~= seq![
                    punct(TokenKind::Dollar),
                    name_token(name),
                ]);
            }
        }
        Some(Variable { name, span: self.span_from(start) })
    }

    fn parse_int_value(&mut self) -> (r: Value<'a>)
        requires
            old(self).inv(),
            old(self).next_kind() == Some(TokenKind::Int),
        ensures
            final(self).inv(),
            old(self).evolves_to(final(self)),
            value_wf(r, old(self).bytes()),
            value_complete(r),
            old(self).read_until(final(self)) == value_tokens(r),
            old(self).advanced(final(self)),
            lexes_cleanly(old(self).stream()) ==> final(self).spec_errors() == old(self).spec_errors(),
    {
        proof {
            self.lemma_next();
        }
        let token = self.bump().unwrap();
        let end = token.index + token.data.len();
        Value::Int(IntValue { raw: token.data, span: Span::new(token.index as u32, end as u32) })
    }

    fn parse_float_value(&mut self) -> (r: Value<'a>)
        requires
            old(self).inv(),
            old(self).next_kind() == Some(TokenKind::Float),
        ensures
            final(self).inv(),
            old(self).evolves_to(final(self)),
            value_wf(r, old(self).bytes()),
            value_complete(r),
            old(self).read_until(final(self)) == value_tokens(r),
            old(self).advanced(final(self)),
            lexes_cleanly(old(self).stream()) ==> final(self).spec_errors() == old(self).spec_errors(),
    {
        proof {
            self.lemma_next();
        }
        let token = self.bump().unwrap();
        let end = token.index + token.data.len();
        Value::Float(
            FloatValue { raw: token.data, span: Span::new(token.index as u32, end as u32) },
        )
    }

    fn parse_name_value(&mut self) -> (r: Value<'a>)
        requires
            old(self).inv(),
        ensures
            final(self).inv(),
            old(self).evolves_to(final(self)),
            value_wf(r, old(self).bytes()),
            old(self).next_kind() == Some(TokenKind::Name) ==> old(self).advanced(final(self)),
            value_complete(r) || final(self).erred(),
            !final(self).erred() ==> old(self).read_until(final(self)) == value_tokens(r),
            lexes_cleanly(old(self).stream()) && old(self).rest().len() > 0 && old(self).rest()[0].0
                == TokenKind::Name ==> {
                &&& final(self).spec_errors() == old(self).spec_errors()
                &&& old(self).read_until(final(self)) == seq![old(self).rest()[0]]
                &&& value_tokens(r) == seq![old(self).rest()[0]]
            },
            old(self).next_kind() == Some(TokenKind::Name) && old(self).next_text() == bytes_of("true") ==> r is Boolean
                && r->Boolean_0.value,
            old(self).next_kind() == Some(TokenKind::Name) && old(self).next_text() == bytes_of("false") ==> r is Boolean
                && !r->Boolean_0.value,
            old(self).next_kind() == Some(TokenKind::Name) && old(self).next_text() == bytes_of("null") ==> r is Null,
            old(self).next_kind() == Some(TokenKind::Name) && old(self).next_text() != bytes_of("true")
                && old(self).next_text() != bytes_of("false") && old(self).next_text() != bytes_of("null") ==> r is Enum
                && bytes_of(r->Enum_0.name.value) == old(self).next_text(),
    {
        let ghost ok = lexes_cleanly(old(self).stream()) && old(self).rest().len() > 0
            && old(self).rest()[0].0 == TokenKind::Name;
        proof {
            if ok {
                old(self).lemma_head();
            }
        }
        let name = match self.parse_name() {
            Some(n) => n,
            None => {
                return Value::Missing(self.current_span());
            },
        };
        proof {
            if ok {
                old(self).lemma_rest(&*self);
                assert(old(self).rest()[0] == name_token(name));
            }
            let o = *old(self);
            o.lemma_rest(&o);
            o.lemma_head();
            o.lemma_rest(&*self);
            assert(o.rest()[0] == o.read_until(&*self)[0]);
            assert(o.next_token().1 == o.next_text());
            assert(bytes_of(name.value) == o.next_text());
            lemma_value_names_differ();
        }
        proof {
            lemma_same_bytes_same_chars(name.value, "true");
            lemma_same_bytes_same_chars(name.value, "false");
            lemma_same_bytes_same_chars(name.value, "null");
        }
        if text_eq(name.value, "true") {
            Value::Boolean(BooleanValue { value: true, span: name.span })
        } else if text_eq(name.value, "false") {
            Value::Boolean(BooleanValue { value: false, span: name.span })
        } else if text_eq(name.value, "null") {
            Value::Null(NullValue { span: name.span })
        } else {
            Value::Enum(EnumValue { name })
        }
    }
    // -----------------------------------------------------------------------
    // Selection sets, arguments, directives and values.
    //
    // These functions call one another recursively. Each one's measure is
    // eight times the rank plus a small constant; where one calls another
    // without having consumed a token, the constant goes down.
    pub open spec fn measure(&self, k: int) -> int {
        8 * self.rank() + k
    }

    /// The constant of `parse_selection_set_inner`: it consumes a `{` first
    /// when there is one.
    pub open spec fn k_set(&self) -> int {
        if self.next_kind() == Some(TokenKind::LCurly) {
            0
        } else {
            6
        }
    }

    #[verifier::spinoff_prover]
    #[verifier::rlimit(100)]
    fn parse_selection_set_inner(&mut self, Ghost(want): Ghost<SelectionSet<'a>>) -> (r: SelectionSet<'a>)
        requires
            old(self).inv(),
        ensures
            final(self).inv(),
            old(self).evolves_to(final(self)),
            selection_set_wf(r, old(self).bytes()),
            old(self).next_kind() == Some(TokenKind::LCurly) ==> old(self).advanced(final(self)),
            r.selections@.len() > 0 || final(self).spec_errors().len() > 0,
            selection_set_complete(r) || final(self).erred(),
            !final(self).erred() ==> reads_as(old(self).read_until(final(self)), selection_set_tokens(r)),
            old(self).fits_selection_set(want) ==> {
                &&& final(self).spec_errors() == old(self).spec_errors()
                &&& old(self).read_until(final(self)) == selection_set_tokens(want)
                &&& selection_set_tokens(r) == selection_set_tokens(want)
            },
        decreases old(self).measure(old(self).k_set()),
    {
        let ghost ok = old(self).fits_selection_set(want);
        let ghost items = want.selections@;
        proof {
            if ok {
                old(self).lemma_head();
            }
        }
        let start = self.current_start();
        let ghost g00 = *self;
        self.expect(TokenKind::LCurly, "expected {");
        let mut selections: Vec<Selection<'a>> = Vec::new();
        proof {
            assert(selections_tokens(selections@) =~= Seq::<(TokenKind, Seq<u8>)>::empty());
            if !self.erred() {
                assert(old(self).read_until(&*self) =~= seq![punct(TokenKind::LCurly)]
                    + selections_tokens(selections@));
            }
            if ok {
                assert(g00.rest() == old(self).rest());
                g00.lemma_head();
                assert(selection_set_tokens(want)[0] == punct(TokenKind::LCurly));
                assert(g00.rest()[0] == selection_set_tokens(want)[0]);
                old(self).lemma_read_chain(&g00, &*self);
                assert(items.take(0) =~= Seq::<Selection>::empty());
                assert(old(self).read_until(&*self) =~= seq![punct(TokenKind::LCurly)]
                    + selections_tokens(items.take(0)));
            }
        }
        loop
            invariant_except_break
                !self.erred() ==> reads_as(
                    old(self).read_until(self),
                    seq![punct(TokenKind::LCurly)] + selections_tokens(selections@),
                ),
                ok ==> {
                    &&& selections@.len() <= items.len()
                    &&& self.spec_errors() == old(self).spec_errors()
                    &&& old(self).read_until(self) == seq![punct(TokenKind::LCurly)] + selections_tokens(
                        items.take(selections@.len() as int),
                    )
                    &&& selections_tokens(selections@) == selections_tokens(items.take(selections@.len() as int))
                },
            invariant
                old(self).inv(),
                ok == old(self).fits_selection_set(want),
                items == want.selections@,
                ok ==> selection_set_complete(want) && spreads_ok(want),
                ok ==> selection_set_depth(want) <= old(self).room(),
                ok ==> old(self).next_tokens(seq![punct(TokenKind::LCurly)] + selections_tokens(items)
                    + seq![punct(TokenKind::RCurly)], Set::<TokenKind>::empty()),
                self.inv(),
                old(self).evolves_to(self),
                8 * self.rank() + 6 <= old(self).measure(old(self).k_set()),
                old(self).next_kind() == Some(TokenKind::LCurly) ==> old(self).advanced(self),
                start <= old(self).bytes().len(),
                forall|i: int|
                    0 <= i < selections@.len() ==> selection_wf(
                        #[trigger] selections@[i],
                        old(self).bytes(),
                    ),
                (forall|i: int|
                    0 <= i < selections@.len() ==> selection_complete(#[trigger] selections@[i]))
                    || self.erred(),
            ensures
                selections@.len() > 0 || self.spec_errors().len() > 0,
                !self.erred() ==> reads_as(
                    old(self).read_until(self),
                    seq![punct(TokenKind::LCurly)] + selections_tokens(selections@) + seq![
                        punct(TokenKind::RCurly),
                    ],
                ),
                ok ==> {
                    &&& self.spec_errors() == old(self).spec_errors()
                    &&& selections_tokens(selections@) == selections_tokens(items)
                    &&& old(self).read_until(self) == seq![punct(TokenKind::LCurly)] + selections_tokens(items) + seq![
                        punct(TokenKind::RCurly),
                    ]
                },
            decreases self.rank(),
        {
            let ghost here = *self;
            proof {
                if ok {
                    old(self).lemma_selections_head(&here, items, selections@.len() as int);
                }
            }
            let kind = match self.peek() {
                Some(k) => k,
                None => {
                    proof {
                        self.lemma_exhausted_has_errors();
                    }
                    break ;
                },
            };
            let ghost g0 = *self;
            if kind == TokenKind::RCurly {
                if selections.len() == 0 {
                    self.err("expected Selection");
                }
                self.bump();
                proof {
                    if !self.erred() {
                        old(self).lemma_read_chain(&g0, &*self);
                        let close = seq![punct(TokenKind::RCurly)];
                        lemma_reads_as_concat(
                            old(self).read_until(&g0),
                            seq![punct(TokenKind::LCurly)] + selections_tokens(selections@),
                            g0.read_until(&*self),
                            close,
                        );
                    }
                    if ok {
                        assert(selections@.len() == items.len());
                        assert(items.take(items.len() as int) =~= items);
                        old(self).lemma_read_chain(&g0, &*self);
                    }
                }
                break ;
            } else if kind == TokenKind::Eof {
                self.err("expected }");
                break ;
            } else if self.recursion_limit.check_and_increment() {
                proof {
                    if ok {
                        lemma_selections_depth_item(items, selections@.len() as int);
                    }
                }
                self.limit_err("parser recursion limit reached");
                break ;
            } else {
                let ghost k = selections@.len() as int;
                let ghost item = if ok {
                    items[k]
                } else {
                    arbitrary()
                };
                let before = self.current_span();
                let ghost mid = *self;
                proof {
                    if ok {
                        lemma_selections_depth_item(items, k);
                        assert(selection_complete(item));
                        assert(selection_spreads_ok(item));
                        assert(mid.rest() == g0.rest());
                        assert(mid.fits_selection(item));
                    }
                }
                let selection = self.parse_selection(Ghost(item));
                let ghost items0 = selections@;
                selections.push(selection);
                self.recursion_limit.decrement();
                let ghost after = *self;
                let same = self.current_span() == before;
                proof {
                    if !after.erred() {
                        mid.lemma_progress(&after, selection_tokens(selection));
                    }
                    if ok {
                        lemma_selection_first(item);
                        mid.lemma_progress(&after, selection_tokens(item));
                    }
                }
                if same && !self.at(TokenKind::Eof) {
                    self.bump();
                }
                proof {
                    if after.next_index() == mid.next_index() {
                        assert(same);
                    }
                    if !self.erred() {
                        old(self).lemma_read_chain(&g0, &mid);
                        old(self).lemma_read_chain(&mid, &after);
                        assert(selections@ =~= items0.push(selection));
                        lemma_push_selection(
                            old(self).read_until(&mid),
                            items0,
                            mid.read_until(&after),
                            selection,
                        );
                    }
                    if ok {
                        assert(!same);
                        old(self).lemma_read_chain(&g0, &mid);
                        old(self).lemma_read_chain(&mid, &after);
                        assert(selections@ =~= items0.push(selection));
                        assert(selections@.subrange(0, selections@.len() - 1) =~= items0);
                        assert(items.take(k + 1).subrange(0, k) =~= items.take(k));
                        assert(selections_tokens(items.take(k + 1)) =~= selections_tokens(items.take(k))
                            + selection_tokens(item));
                        assert(selections_tokens(selections@) =~= selections_tokens(items0) + selection_tokens(
                            selection,
                        ));
                    }
                }
            }
        }
        let r = self.span_from_start(start, selections);
        assert(!self.erred() ==> selection_set_tokens(r) =~= seq![punct(TokenKind::LCurly)]
            + selections_tokens(r.selections@) + seq![punct(TokenKind::RCurly)]);
        proof {
            if ok {
                assert(selection_set_tokens(want) =~= seq![punct(TokenKind::LCurly)] + selections_tokens(items) + seq![punct(TokenKind::RCurly)]);
            }
        }
        r
    }

    fn span_from_start(&self, start: usize, selections: Vec<Selection<'a>>) -> (r: SelectionSet<'a>)
        requires
            self.inv(),
            start <= self.bytes().len(),
            forall|i: int|
                0 <= i < selections@.len() ==> selection_wf(#[trigger] selections@[i], self.bytes()),
        ensures
            selection_set_wf(r, self.bytes()),
            r.selections@ == selections@,
            r.span.start == start,
            ends_at(r.span, self.last_token_end()),
    {
        SelectionSet { selections, span: self.span_from(start) }
    }

    fn parse_selection(&mut self, Ghost(want): Ghost<Selection<'a>>) -> (r: Selection<'a>)
        requires
            old(self).inv(),
        ensures
            final(self).inv(),
            old(self).evolves_to(final(self)),
            selection_wf(r, old(self).bytes()),
            selection_complete(r) || final(self).erred(),
            !final(self).erred() ==> reads_as(old(self).read_until(final(self)), selection_tokens(r)),
            old(self).fits_selection(want) ==> {
                &&& final(self).spec_errors() == old(self).spec_errors()
                &&& old(self).read_until(final(self)) == selection_tokens(want)
                &&& selection_tokens(r) == selection_tokens(want)
            },
        decreases old(self).measure(5),
    {
        let ghost ok = old(self).fits_selection(want);
        proof {
            if ok {
                old(self).lemma_head();
                lemma_selection_first(want);
            }
        }
        let ghost wf = match want {
            Selection::Field(f) => f,
            _ => arbitrary(),
        };
        if self.at(TokenKind::Spread) {
            proof {
                if ok {
                    assert(self.rest() == old(self).rest());
                }
            }
            self.parse_fragment_selection(Ghost(want))
        } else {
            proof {
                if ok {
                    assert(self.rest() == old(self).rest());
                    assert(want == Selection::Field(wf));
                }
            }
            Selection::Field(self.parse_field(Ghost(wf)))
        }
    }

    #[verifier::spinoff_prover]
    #[verifier::rlimit(100)]
    fn parse_fragment_selection(&mut self, Ghost(want): Ghost<Selection<'a>>) -> (r: Selection<'a>)
        requires
            old(self).inv(),
            old(self).next_kind() == Some(TokenKind::Spread),
        ensures
            final(self).inv(),
            old(self).evolves_to(final(self)),
            selection_wf(r, old(self).bytes()),
            selection_complete(r) || final(self).erred(),
            !final(self).erred() ==> reads_as(old(self).read_until(final(self)), selection_tokens(r)),
            old(self).fits_selection(want) ==> {
                &&& final(self).spec_errors() == old(self).spec_errors()
                &&& old(self).read_until(final(self)) == selection_tokens(want)
                &&& selection_tokens(r) == selection_tokens(want)
            },
        decreases old(self).measure(0),
    {
        let ghost ok = old(self).fits_selection(want);
        let ghost av = set![TokenKind::Colon, TokenKind::LParen, TokenKind::At, TokenKind::LCurly];
        let ghost wt = selection_tokens(want);
        let ghost rest1 = fragment_rest_tokens(want);
        let start = self.current_start();
        let ghost g0 = *self;
        self.expect(TokenKind::Spread, "expected ...");
        let ghost g1 = *self;
        proof {
            if ok {
                assert(g1.fits_fragment_rest(want) && g1.next_token() == rest1[0] && old(self).read_until(&g1) == seq![punct(TokenKind::Spread)]
                    && wt == seq![punct(TokenKind::Spread)] + rest1) by {
                    old(self).lemma_head();
                    lemma_selection_first(want);
                    assert(old(self).rest()[0] == wt[0]);
                    lemma_fragment_tokens(want);
                    assert(g0.rest() == old(self).rest());
                    assert(g0.read_until(&g1).len() == 1);
                    g0.lemma_read_one(&g1, punct(TokenKind::Spread), rest1, av);
                    g1.lemma_head();
                    old(self).lemma_read_chain(&g0, &g1);
                }
            }
        }
        if self.at_keyword("on") || self.at(TokenKind::At) || self.at(TokenKind::LCurly) {
            let ghost g2 = *self;
            proof {
                if ok {
                    assert(g2.rest() == g1.rest());
                }
            }
            proof {
                if ok {
                    assert(want is InlineFragment) by {
                        lemma_selection_first(want);
                        lemma_fragment_tokens(want);
                        if want is FragmentSpread {
                            assert(g1.next_kind() == Some(TokenKind::Name));
                            assert(g1.next_token().1 == g1.next_text());
                            assert(g1.next_text() != bytes_of("on"));
                        }
                    }
                }
            }
            let r = self.parse_inline_fragment(start, Ghost(want));
            proof {
                if ok {
                    assert(old(self).read_until(&*self) == wt) by {
                        old(self).lemma_read_chain(&g1, &*self);
                        g1.lemma_read_chain(&g2, &*self);
                    }
                }
                lemma_inline_tokens(r);
                old(self).lemma_read_chain(&g0, &g1);
                old(self).lemma_read_chain(&g1, &g2);
                old(self).lemma_read_chain(&g2, &*self);
                assert(old(self).read_until(&g2) =~= seq![punct(TokenKind::Spread)]);
                if !self.erred() {
                    lemma_reads_as_concat(
                        old(self).read_until(&g2),
                        seq![punct(TokenKind::Spread)],
                        g2.read_until(&*self),
                        fragment_rest_tokens(r),
                    );
                }
            }
            return r;
        }
        let ghost g2 = *self;
        proof {
            if ok {
                assert(want is FragmentSpread) by {
                    lemma_selection_first(want);
                    lemma_fragment_tokens(want);
                }
                assert(g2.rest() == g1.rest());
            }
        }
        let r = self.parse_fragment_spread(start, Ghost(want));
        proof {
            if ok {
                assert(old(self).read_until(&*self) == wt) by {
                    old(self).lemma_read_chain(&g1, &*self);
                    g1.lemma_read_chain(&g2, &*self);
                }
            }
            lemma_spread_tokens(r);
            old(self).lemma_read_chain(&g0, &g1);
            old(self).lemma_read_chain(&g1, &g2);
            old(self).lemma_read_chain(&g2, &*self);
            assert(old(self).read_until(&g2) =~= seq![punct(TokenKind::Spread)]);
            if !self.erred() {
                lemma_reads_as_concat(
                    old(self).read_until(&g2),
                    seq![punct(TokenKind::Spread)],
                    g2.read_until(&*self),
                    fragment_rest_tokens(r),
                );
            }
        }
        r
    }

    /// The rest of a fragment spread after its `...`: its name and
    /// directives.
    #[verifier::spinoff_prover]
    #[verifier::rlimit(60)]
    fn parse_fragment_spread(&mut self, start: usize, Ghost(want): Ghost<Selection<'a>>) -> (r: Selection<'a>)
        requires
            old(self).inv(),
            start <= old(self).bytes().len(),
        ensures
            final(self).inv(),
            old(self).evolves_to(final(self)),
            r is FragmentSpread,
            selection_wf(r, old(self).bytes()),
            selection_complete(r) || final(self).erred(),
            !final(self).erred() ==> reads_as(old(self).read_until(final(self)), fragment_rest_tokens(r)),
            old(self).fits_fragment_rest(want) && want is FragmentSpread ==> {
                &&& final(self).spec_errors() == old(self).spec_errors()
                &&& old(self).read_until(final(self)) == fragment_rest_tokens(want)
                &&& fragment_rest_tokens(r) == fragment_rest_tokens(want)
            },
        decreases old(self).measure(7),
    {
        let ghost ok = old(self).fits_fragment_rest(want) && want is FragmentSpread;
        let ghost av = set![TokenKind::Colon, TokenKind::LParen, TokenKind::At, TokenKind::LCurly];
        let ghost wds = fragment_directives(want);
        let ghost dt = directives_tokens(wds);
        let ghost sn = match want {
            Selection::FragmentSpread(f) => f.name,
            _ => arbitrary(),
        };
        proof {
            if ok {
                lemma_spread_tokens(want);
                old(self).lemma_head();
                assert(old(self).rest()[0] == fragment_rest_tokens(want)[0]);
            }
        }
        let ghost g2 = *self;
        let name = match self.parse_name() {
            Some(n) => n,
            None => self.missing_name(),
        };
        let ghost g3 = *self;
        proof {
            if ok {
                assert(g3.fits_directives(wds) && g2.read_until(&g3) == seq![name_token(sn)]) by {
                    g2.lemma_read_one(&g3, name_token(sn), dt, av);
                }
            }
        }
        let directives = self.parse_directives(Constness::NotConst, Ghost(wds));
        let r = Selection::FragmentSpread(
            FragmentSpread { name, arguments: Vec::new(), directives, span: self.span_from(start) },
        );
        proof {
            lemma_spread_tokens(r);
            let head = seq![name_token(name)];
            old(self).lemma_read_chain(&g2, &g3);
            old(self).lemma_read_chain(&g3, &*self);
            if !self.erred() {
                assert(old(self).read_until(&g3) =~= head);
                lemma_reads_as_concat(
                    old(self).read_until(&g3),
                    head,
                    g3.read_until(&*self),
                    directives_tokens(directives@),
                );
            }
        }
        r
    }

    /// The rest of an inline fragment after its `...`: the type condition
    /// when `on` comes next, directives, and a selection set.
    #[verifier::spinoff_prover]
    #[verifier::rlimit(80)]
    fn parse_inline_fragment(&mut self, start: usize, Ghost(want): Ghost<Selection<'a>>) -> (r: Selection<'a>)
        requires
            old(self).inv(),
            start <= old(self).bytes().len(),
        ensures
            final(self).inv(),
            old(self).evolves_to(final(self)),
            r is InlineFragment,
            selection_wf(r, old(self).bytes()),
            selection_complete(r) || final(self).erred(),
            !final(self).erred() ==> reads_as(old(self).read_until(final(self)), fragment_rest_tokens(r)),
            old(self).fits_fragment_rest(want) && want is InlineFragment ==> {
                &&& final(self).spec_errors() == old(self).spec_errors()
                &&& old(self).read_until(final(self)) == fragment_rest_tokens(want)
                &&& fragment_rest_tokens(r) == fragment_rest_tokens(want)
            },
        decreases old(self).measure(7),
    {
        let ghost ok = old(self).fits_fragment_rest(want) && want is InlineFragment;
        let ghost av = set![TokenKind::Colon, TokenKind::LParen, TokenKind::At, TokenKind::LCurly];
        let ghost rest1 = fragment_rest_tokens(want);
        let ghost wds = fragment_directives(want);
        let ghost dt = directives_tokens(wds);
        let ghost wss = fragment_selection_set(want);
        let ghost sst = selection_set_tokens(wss);
        let ghost wtc = match want {
            Selection::InlineFragment(f) => match f.type_condition {
                Some(t) => seq![(TokenKind::Name, bytes_of("on")), name_token(t.name)],
                None => Seq::<(TokenKind, Seq<u8>)>::empty(),
            },
            _ => Seq::<(TokenKind, Seq<u8>)>::empty(),
        };
        proof {
            if ok {
                lemma_fragment_tokens(want);
                lemma_inline_tokens(want);
                old(self).lemma_head();
                assert(rest1 == wtc + dt + sst);
            }
        }
        let ghost g1 = *self;
        let type_condition = if self.at_keyword("on") {
            let ghost g2 = *self;
            let ghost tn = match want {
                Selection::InlineFragment(f) => match f.type_condition {
                    Some(t) => t.name,
                    None => arbitrary(),
                },
                _ => arbitrary(),
            };
            let ghost after_on = seq![name_token(tn)] + (dt + sst);
            proof {
                if ok {
                    assert(want matches Selection::InlineFragment(f) && f.type_condition is Some);
                    assert(rest1 == seq![(TokenKind::Name, bytes_of("on"))] + after_on);
                    assert(g2.rest() == g1.rest());
                }
            }
            self.bump();
            let ghost g3 = *self;
            proof {
                if ok {
                    assert(g3.next_tokens(after_on, av) && g3.next_kind() == Some(TokenKind::Name)) by {
                        g2.lemma_read_one(&g3, (TokenKind::Name, bytes_of("on")), after_on, av);
                    }
                }
            }
            let t = self.parse_named_type();
            proof {
                g1.lemma_read_chain(&g2, &g3);
                g1.lemma_read_chain(&g3, &*self);
                if ok {
                    assert(self.next_tokens(dt + sst, av) && g3.read_until(&*self) == seq![name_token(tn)]) by {
                        g3.lemma_read_one(&*self, name_token(tn), dt + sst, av);
                    }
                    assert(g1.read_until(&*self) =~= wtc);
                }
            }
            t
        } else {
            proof {
                if ok {
                    assert(want matches Selection::InlineFragment(f) && f.type_condition is None);
                    assert(wtc =~= Seq::<(TokenKind, Seq<u8>)>::empty());
                    assert(rest1 =~= dt + sst);
                    assert(self.rest() == g1.rest());
                }
            }
            None
        };
        let ghost g4 = *self;
        let ghost tc = match type_condition {
            Some(t) => seq![(TokenKind::Name, bytes_of("on")), name_token(t.name)],
            None => Seq::<(TokenKind, Seq<u8>)>::empty(),
        };
        proof {
            old(self).lemma_read_chain(&g1, &g4);
            if !self.erred() || ok {
                assert(old(self).read_until(&g4) =~= tc);
            }
            if ok {
                assert(tc == wtc);
                assert(g4.fits_directives(wds) && g4.next_tokens(dt + sst, av)) by {
                    g4.lemma_next_tokens_front(dt, sst, av, set![TokenKind::At, TokenKind::LParen]);
                }
            }
        }
        let directives = self.parse_directives(Constness::NotConst, Ghost(wds));
        let ghost g5 = *self;
        proof {
            if ok {
                assert(g5.fits_selection_set(wss) && g5.next_kind() == Some(TokenKind::LCurly)) by {
                    g4.lemma_advance(&g5, dt, sst, av);
                }
            }
        }
        let selection_set = if self.at(TokenKind::LCurly) {
            Some(self.parse_selection_set_inner(Ghost(wss)))
        } else {
            self.err("expected a Selection Set");
            None
        };
        let r = Selection::InlineFragment(
            InlineFragment {
                type_condition,
                directives,
                selection_set,
                span: self.span_from(start),
            },
        );
        proof {
            lemma_inline_tokens(r);
            old(self).lemma_read_chain(&g4, &g5);
            old(self).lemma_read_chain(&g5, &*self);
            if !self.erred() {
                lemma_reads_as_concat(
                    old(self).read_until(&g4),
                    tc,
                    g4.read_until(&g5),
                    directives_tokens(directives@),
                );
                lemma_reads_as_concat(
                    old(self).read_until(&g5),
                    tc + directives_tokens(directives@),
                    g5.read_until(&*self),
                    opt_selection_set_tokens(selection_set),
                );
            }
            if ok {
                assert(old(self).read_until(&*self) =~= wtc + dt + sst);
            }
        }
        r
    }

    #[verifier::spinoff_prover]
    #[verifier::rlimit(100)]
    fn parse_field(&mut self, Ghost(want): Ghost<Field<'a>>) -> (r: Field<'a>)
        requires
            old(self).inv(),
        ensures
            final(self).inv(),
            old(self).evolves_to(final(self)),
            selection_wf(Selection::Field(r), old(self).bytes()),
            selection_complete(Selection::Field(r)) || final(self).erred(),
            !final(self).erred() ==> reads_as(old(self).read_until(final(self)), selection_tokens(Selection::Field(r))),
            old(self).fits_selection(Selection::Field(want)) ==> {
                &&& final(self).spec_errors() == old(self).spec_errors()
                &&& old(self).read_until(final(self)) == selection_tokens(Selection::Field(want))
                &&& selection_tokens(Selection::Field(r)) == selection_tokens(Selection::Field(want))
            },
        decreases old(self).measure(4),
    {
        let ghost ok = old(self).fits_selection(Selection::Field(want));
        let ghost av = set![TokenKind::Colon, TokenKind::LParen, TokenKind::At, TokenKind::LCurly];
        let ghost xt = arguments_tokens(want.arguments@);
        let ghost yt = directives_tokens(want.directives@);
        let ghost zt = opt_selection_set_tokens(want.selection_set);
        let ghost tail = field_tail(want);
        proof {
            lemma_field_tokens(want);
            if ok {
                old(self).lemma_head();
                assert(old(self).rest()[0] == (field_head(want) + tail)[0]);
            }
        }
        let start = self.current_start();
        let ghost g0 = *self;
        let first_name = match self.parse_name() {
            Some(n) => n,
            None => self.missing_name(),
        };
        let ghost g1 = *self;
        let ghost after_first = match want.alias {
            Some(a) => seq![punct(TokenKind::Colon), name_token(want.name)] + tail,
            None => tail,
        };
        let ghost first = match want.alias {
            Some(a) => name_token(a),
            None => name_token(want.name),
        };
        proof {
            if ok {
                assert(g1.next_tokens(after_first, av) && g0.read_until(&g1) == seq![first]) by {
                    assert(field_head(want) + tail =~= seq![first] + after_first);
                    g0.lemma_read_one(&g1, first, after_first, av);
                }
                assert(after_first.len() > 0 ==> (g1.next_kind() == Some(TokenKind::Colon) <==> want.alias is Some)) by {
                    g1.lemma_head();
                }
                assert(after_first.len() == 0 ==> g1.next_kind() != Some(TokenKind::Colon)) by {
                    g1.lemma_head();
                }
            }
        }
        let (alias, name) = if self.at(TokenKind::Colon) {
            let ghost g2 = *self;
            self.bump();
            let ghost g3 = *self;
            proof {
                if ok {
                    assert(g3.next_tokens(seq![name_token(want.name)] + tail, av) && g3.next_kind() == Some(TokenKind::Name)) by {
                        assert(g2.rest() == g1.rest());
                        assert(after_first =~= seq![punct(TokenKind::Colon)] + (seq![name_token(want.name)] + tail));
                        g2.lemma_read_one(&g3, punct(TokenKind::Colon), seq![name_token(want.name)] + tail, av);
                    }
                }
            }
            let name = match self.parse_name() {
                Some(n) => n,
                None => self.missing_name(),
            };
            proof {
                if !self.erred() || ok {
                    g1.lemma_read_chain(&g2, &g3);
                    g1.lemma_read_chain(&g3, &*self);
                }
                if ok {
                    assert(self.next_tokens(tail, av) && g3.read_until(&*self) == seq![name_token(want.name)]) by {
                        g3.lemma_read_one(&*self, name_token(want.name), tail, av);
                    }
                }
            }
            (Some(first_name), name)
        } else {
            (None, first_name)
        };
        let ghost g4 = *self;
        let ghost head = (match alias {
            Some(a) => seq![name_token(a), punct(TokenKind::Colon)],
            None => Seq::<(TokenKind, Seq<u8>)>::empty(),
        }) + seq![name_token(name)];
        proof {
            if !self.erred() || ok {
                old(self).lemma_read_chain(&g0, &g1);
                old(self).lemma_read_chain(&g1, &g4);
                assert(old(self).read_until(&g4) =~= head);
            }
            if ok {
                assert(head =~= field_head(want));
                assert(want.alias is None ==> g4.rest() == g1.rest());
                assert(g4.fits_arguments(want.arguments@)) by {
                    assert(tail == xt + (yt + zt));
                    g4.lemma_next_tokens_front(xt, yt + zt, av, set![TokenKind::LParen]);
                }
            }
        }
        let arguments = self.parse_arguments_if_present(Constness::NotConst, Ghost(want.arguments@));
        let ghost g5 = *self;
        proof {
            if ok {
                assert(g5.fits_directives(want.directives@) && g5.next_tokens(yt + zt, av)) by {
                    g4.lemma_advance(&g5, xt, yt + zt, av);
                    g5.lemma_next_tokens_front(yt, zt, av, set![TokenKind::At, TokenKind::LParen]);
                }
            }
        }
        let directives = self.parse_directives(Constness::NotConst, Ghost(want.directives@));
        let ghost g6 = *self;
        let ghost wss = match want.selection_set {
            Some(ss) => ss,
            None => arbitrary(),
        };
        proof {
            if ok {
                assert(g6.next_tokens(zt, av)) by {
                    g5.lemma_advance(&g6, yt, zt, av);
                }
                assert(want.selection_set is Some ==> g6.fits_selection_set(wss) && g6.next_kind() == Some(TokenKind::LCurly)) by {
                    g5.lemma_advance(&g6, yt, zt, av);
                }
                assert(want.selection_set is None ==> g6.next_kind() != Some(TokenKind::LCurly)) by {
                    g5.lemma_advance(&g6, yt, zt, av);
                }
            }
        }
        let selection_set = if self.at(TokenKind::LCurly) {
            Some(self.parse_selection_set_inner(Ghost(wss)))
        } else {
            None
        };
        let r = Field {
            alias,
            name,
            arguments,
            directives,
            selection_set,
            span: self.span_from(start),
        };
        proof {
            old(self).lemma_read_chain(&g4, &g5);
            old(self).lemma_read_chain(&g5, &g6);
            old(self).lemma_read_chain(&g6, &*self);
            assert(selection_set is None ==> g6.read_until(&*self) =~= Seq::<(TokenKind, Seq<u8>)>::empty());
            assert(selection_tokens(Selection::Field(r)) =~= head + arguments_tokens(
                r.arguments@,
            ) + directives_tokens(r.directives@) + opt_selection_set_tokens(r.selection_set));
            if !self.erred() {
                lemma_reads_as_concat(
                    old(self).read_until(&g4),
                    head,
                    g4.read_until(&g5),
                    arguments_tokens(r.arguments@),
                );
                lemma_reads_as_concat(
                    old(self).read_until(&g5),
                    head + arguments_tokens(r.arguments@),
                    g5.read_until(&g6),
                    directives_tokens(r.directives@),
                );
                lemma_reads_as_concat(
                    old(self).read_until(&g6),
                    head + arguments_tokens(r.arguments@) + directives_tokens(r.directives@),
                    g6.read_until(&*self),
                    opt_selection_set_tokens(r.selection_set),
                );
            }
            if ok {
                assert(g6.read_until(&*self) == zt);
                assert(old(self).read_until(&*self) =~= field_head(want) + tail);
            }
        }
        r
    }

    #[verifier::spinoff_prover]
    #[verifier::rlimit(60)]
    fn parse_arguments_if_present(&mut self, constness: Constness, Ghost(want): Ghost<Seq<Argument<'a>>>) -> (r:
        Vec<Argument<'a>>)
        requires
            old(self).inv(),
        ensures
            final(self).inv(),
            old(self).evolves_to(final(self)),
            arguments_wf(r@, old(self).bytes()),
            arguments_complete(r@) || final(self).erred(),
            !final(self).erred() ==> reads_as(old(self).read_until(final(self)), arguments_tokens(r@)),
            old(self).fits_arguments(want) && (constness is NotConst || arguments_const(want)) ==> {
                &&& final(self).spec_errors() == old(self).spec_errors()
                &&& old(self).read_until(final(self)) == arguments_tokens(want)
                &&& arguments_tokens(r@) == arguments_tokens(want)
            },
        decreases old(self).measure(1),
    {
        let ghost ok = old(self).fits_arguments(want) && (constness is NotConst || arguments_const(want));
        let ghost items = want;
        proof {
            if ok {
                old(self).lemma_head();
            }
        }
        let mut arguments: Vec<Argument<'a>> = Vec::new();
        if !self.at(TokenKind::LParen) {
            proof {
                if ok {
                    if want.len() > 0 {
                        assert(arguments_tokens(want)[0] == punct(TokenKind::LParen));
                        assert(old(self).rest()[0] == arguments_tokens(want)[0]);
                    }
                    assert(want.len() == 0);
                    assert(old(self).read_until(&*self) =~= Seq::<(TokenKind, Seq<u8>)>::empty());
                }
            }
            return arguments;
        }
        let ghost g00 = *self;
        self.bump();
        proof {
            assert(argument_list_tokens(arguments@) =~= Seq::<(TokenKind, Seq<u8>)>::empty());
            if ok {
                assert(want.len() > 0);
                assert(items.take(0) =~= Seq::<Argument>::empty());
                old(self).lemma_read_chain(&g00, &*self);
                assert(old(self).read_until(&*self) =~= seq![punct(TokenKind::LParen)] + argument_list_tokens(items.take(0)));
            }
        }
        loop
            invariant_except_break
                !self.erred() ==> old(self).read_until(self) == seq![punct(TokenKind::LParen)]
                    + argument_list_tokens(arguments@),
                ok ==> {
                    &&& arguments@.len() <= items.len()
                    &&& self.spec_errors() == old(self).spec_errors()
                    &&& old(self).read_until(self) == seq![punct(TokenKind::LParen)] + argument_list_tokens(
                        items.take(arguments@.len() as int),
                    )
                    &&& argument_list_tokens(arguments@) == argument_list_tokens(items.take(arguments@.len() as int))
                },
            invariant
                old(self).inv(),
                ok == (old(self).fits_arguments(want) && (constness is NotConst || arguments_const(want))),
                items == want,
                ok ==> items.len() > 0,
                ok ==> arguments_complete(items),
                ok ==> old(self).next_tokens(seq![punct(TokenKind::LParen)] + argument_list_tokens(items)
                    + seq![punct(TokenKind::RParen)], Set::<TokenKind>::empty()),
                ok ==> arguments_depth(items) <= old(self).room(),
                self.inv(),
                old(self).evolves_to(self),
                self.rank() < old(self).rank(),
                arguments_wf(arguments@, old(self).bytes()),
                arguments_complete(arguments@) || self.erred(),
            ensures
                !self.erred() ==> reads_as(old(self).read_until(self), arguments_tokens(arguments@)),
                ok ==> {
                    &&& self.spec_errors() == old(self).spec_errors()
                    &&& arguments@.len() == items.len()
                    &&& argument_list_tokens(arguments@) == argument_list_tokens(items)
                    &&& old(self).read_until(self) == arguments_tokens(items)
                },
            decreases self.rank(),
        {
            let ghost here = *self;
            proof {
                if ok {
                    old(self).lemma_args_head(&here, items, arguments@.len() as int);
                }
            }
            let kind = match self.peek() {
                Some(k) => k,
                None => {
                    proof {
                        self.lemma_exhausted_has_errors();
                    }
                    break ;
                },
            };
            let ghost g0 = *self;
            if kind == TokenKind::RParen {
                self.bump();
                proof {
                    if !self.erred() {
                        old(self).lemma_read_chain(&g0, &*self);
                        let read = old(self).read_until(&*self);
                        assert(read =~= seq![punct(TokenKind::LParen)] + argument_list_tokens(
                            arguments@,
                        ) + seq![punct(TokenKind::RParen)]);
                        if arguments@.len() == 0 {
                            assert(empty_parens_at(read, 0));
                        }
                    }
                    if ok {
                        assert(arguments@.len() == items.len());
                        assert(items.take(arguments@.len() as int) =~= items);
                        assert(lexes_cleanly(g0.stream()));
                        assert(self.spec_errors() == old(self).spec_errors());
                        old(self).lemma_read_chain(&g0, &*self);
                        assert(old(self).read_until(&*self) =~= arguments_tokens(items));
                    }
                }
                break ;
            } else if kind == TokenKind::Name {
                let ghost k = arguments@.len() as int;
                let ghost item = if ok {
                    items[k]
                } else {
                    arbitrary()
                };
                proof {
                    if ok {
                        lemma_args_depth_item(items, k);
                        assert(argument_complete(item));
                        assert(g0.fits_argument(item));
                        assert(constness is NotConst || argument_const(item));
                    }
                }
                let argument = self.parse_argument(constness, Ghost(item));
                let ghost before = arguments@;
                arguments.push(argument);
                proof {
                    if !self.erred() {
                        old(self).lemma_read_chain(&g0, &*self);
                        assert(arguments@.drop_last() =~= before);
                        assert(old(self).read_until(&*self) =~= seq![punct(TokenKind::LParen)]
                            + argument_list_tokens(arguments@));
                    }
                    if ok {
                        old(self).lemma_read_chain(&g0, &*self);
                        assert(arguments@.drop_last() =~= before);
                        assert(items.take(k + 1).drop_last() =~= items.take(k));
                        assert(items.take(k + 1).last() == item);
                        assert(argument_list_tokens(items.take(k + 1)) =~= argument_list_tokens(items.take(k))
                            + argument_tokens(item));
                        assert(argument_list_tokens(arguments@) =~= argument_list_tokens(before) + argument_tokens(
                            argument,
                        ));
                    }
                }
            } else if kind == TokenKind::Eof {
                self.err("expected )");
                break ;
            } else {
                self.err_and_pop("expected an Argument");
            }
        }
        arguments
    }

    #[verifier::spinoff_prover]
    #[verifier::rlimit(40)]
    fn parse_argument(&mut self, constness: Constness, Ghost(want): Ghost<Argument<'a>>) -> (r: Argument<'a>)
        requires
            old(self).inv(),
        ensures
            final(self).inv(),
            old(self).evolves_to(final(self)),
            argument_wf(r, old(self).bytes()),
            old(self).next_kind() == Some(TokenKind::Name) ==> old(self).advanced(final(self)),
            argument_complete(r) || final(self).erred(),
            !final(self).erred() ==> old(self).read_until(final(self)) == argument_tokens(r),
            old(self).fits_argument(want) && (constness is NotConst || argument_const(want)) ==> {
                &&& final(self).spec_errors() == old(self).spec_errors()
                &&& old(self).read_until(final(self)) == argument_tokens(want)
                &&& argument_tokens(r) == argument_tokens(want)
            },
        decreases old(self).measure(0),
    {
        let ghost ok = old(self).fits_argument(want) && (constness is NotConst || argument_const(want));
        let ghost head = seq![name_token(want.name), punct(TokenKind::Colon)];
        let ghost vt = value_tokens(want.value->0);
        proof {
            if ok {
                assert(argument_tokens(want) =~= head + vt);
                old(self).lemma_head();
            }
        }
        let start = self.current_start();
        let ghost g0 = *self;
        let name = match self.parse_name() {
            Some(n) => n,
            None => self.missing_name(),
        };
        let ghost g1 = *self;
        proof {
            if ok {
                g0.lemma_rest(&g1);
                assert(g0.rest() == old(self).rest());
                assert(argument_tokens(want)[0] == old(self).rest()[0]);
                assert(g0.read_until(&g1) == seq![name_token(name)]);
                assert((g0.read_until(&g1) + g1.rest())[0] == name_token(name));
                assert(g0.read_until(&g1) =~= seq![name_token(want.name)]);
                assert(head =~= seq![name_token(want.name)] + seq![punct(TokenKind::Colon)]);
                g0.lemma_advance(&g1, seq![name_token(want.name)], seq![punct(TokenKind::Colon)] + vt, Set::<TokenKind>::empty());
            }
        }
        let value = if self.at(TokenKind::Colon) {
            let ghost g2 = *self;
            self.bump();
            let ghost g3 = *self;
            let ghost item = if ok {
                want.value->0
            } else {
                Value::Missing(Span { start: 0, end: 0 })
            };
            proof {
                if ok {
                    assert(g2.read_until(&g3) =~= seq![punct(TokenKind::Colon)]);
                    g2.lemma_advance(&g3, seq![punct(TokenKind::Colon)], vt, Set::<TokenKind>::empty());
                    assert(g3.fits_value(item));
                    assert(constness is NotConst || value_const(item));
                }
            }
            let v = self.parse_value(constness, false, Ghost(item));
            proof {
                if !self.erred() {
                    old(self).lemma_read_chain(&g0, &*self);
                    g0.lemma_read_chain(&g1, &*self);
                    g1.lemma_read_chain(&g2, &*self);
                    g2.lemma_read_chain(&g3, &*self);
                    assert(old(self).read_until(&*self) =~= seq![
                        name_token(name),
                        punct(TokenKind::Colon),
                    ] + value_tokens(v));
                }
                if ok {
                    old(self).lemma_read_chain(&g0, &g1);
                    old(self).lemma_read_chain(&g1, &g2);
                    old(self).lemma_read_chain(&g2, &g3);
                    old(self).lemma_read_chain(&g3, &*self);
                    assert(old(self).read_until(&*self) =~= head + vt);
                }
            }
            Some(v)
        } else {
            proof {
                if ok {
                    assert(false);
                }
            }
            self.err("expected :");
            None
        };
        let r = Argument { name, value, span: self.span_from(start) };
        proof {
            if ok {
                assert(argument_tokens(r) =~= head + vt);
            }
        }
        r
    }

    #[verifier::spinoff_prover]
    #[verifier::rlimit(40)]
    fn parse_directives(&mut self, constness: Constness, Ghost(want): Ghost<Seq<Directive<'a>>>) -> (r:
        Vec<Directive<'a>>)
        requires
            old(self).inv(),
        ensures
            final(self).inv(),
            old(self).evolves_to(final(self)),
            directives_wf(r@, old(self).bytes()),
            old(self).next_kind() == Some(TokenKind::At) ==> old(self).advanced(final(self)),
            old(self).next_kind() != Some(TokenKind::At) ==> final(self).next_index()
                == old(self).next_index() && r@.len() == 0,
            directives_complete(r@) || final(self).erred(),
            !final(self).erred() ==> reads_as(old(self).read_until(final(self)), directives_tokens(r@)),
            old(self).fits_directives(want) && (constness is NotConst || directives_const(want)) ==> {
                &&& final(self).spec_errors() == old(self).spec_errors()
                &&& old(self).read_until(final(self)) == directives_tokens(want)
                &&& directives_tokens(r@) == directives_tokens(want)
            },
        decreases old(self).measure(2),
    {
        let ghost ok = old(self).fits_directives(want) && (constness is NotConst || directives_const(want));
        let ghost items = want;
        let mut directives: Vec<Directive<'a>> = Vec::new();
        proof {
            assert(directives_tokens(directives@) =~= Seq::<(TokenKind, Seq<u8>)>::empty());
            if ok {
                assert(items.take(0) =~= Seq::<Directive>::empty());
                assert(old(self).read_until(&*self) =~= Seq::<(TokenKind, Seq<u8>)>::empty());
            }
        }
        while self.at(TokenKind::At)
            invariant
                !self.erred() ==> reads_as(old(self).read_until(self), directives_tokens(directives@)),
                self.inv(),
                old(self).inv(),
                old(self).evolves_to(self),
                self.rank() <= old(self).rank(),
                old(self).next_kind() == Some(TokenKind::At) && directives@.len() > 0 ==> old(
                    self,
                ).advanced(self),
                old(self).next_kind() != Some(TokenKind::At) ==> self.next_index() == old(
                    self,
                ).next_index() && directives@.len() == 0,
                directives_wf(directives@, old(self).bytes()),
                directives_complete(directives@) || self.erred(),
                ok == (old(self).fits_directives(want) && (constness is NotConst || directives_const(want))),
                items == want,
                ok ==> {
                    &&& directives@.len() <= items.len()
                    &&& self.spec_errors() == old(self).spec_errors()
                    &&& old(self).read_until(self) == directives_tokens(items.take(directives@.len() as int))
                    &&& directives_tokens(directives@) == directives_tokens(items.take(directives@.len() as int))
                },
            decreases self.rank(),
        {
            let ghost g0 = *self;
            let ghost k = directives@.len() as int;
            proof {
                if ok {
                    old(self).lemma_directives_head(&g0, items, k);
                }
            }
            let ghost item = if ok && k < items.len() {
                items[k]
            } else {
                arbitrary()
            };
            proof {
                if ok {
                    assert(k < items.len());
                    lemma_directives_depth_item(items, k);
                    assert(directive_complete(item));
                    assert(g0.fits_directive(item));
                    assert(constness is NotConst || directive_const(item));
                }
            }
            let directive = self.parse_directive(constness, Ghost(item));
            let ghost before = directives@;
            directives.push(directive);
            proof {
                if !self.erred() {
                    old(self).lemma_read_chain(&g0, &*self);
                    assert(directives@.drop_last() =~= before);
                    lemma_reads_as_concat(
                        old(self).read_until(&g0),
                        directives_tokens(before),
                        g0.read_until(&*self),
                        directive_tokens(directive),
                    );
                }
                if ok {
                    old(self).lemma_read_chain(&g0, &*self);
                    assert(directives@.drop_last() =~= before);
                    assert(items.take(k + 1).drop_last() =~= items.take(k));
                    assert(items.take(k + 1).last() == item);
                    assert(directives_tokens(items.take(k + 1)) =~= directives_tokens(items.take(k))
                        + directive_tokens(item));
                    assert(directives_tokens(directives@) =~= directives_tokens(before) + directive_tokens(
                        directive,
                    ));
                }
            }
        }
        proof {
            if ok {
                old(self).lemma_directives_head(&*self, items, directives@.len() as int);
                assert(directives@.len() == items.len());
                assert(items.take(items.len() as int) =~= items);
            }
        }
        directives
    }

    #[verifier::spinoff_prover]
    fn parse_directive(&mut self, constness: Constness, Ghost(want): Ghost<Directive<'a>>) -> (r: Directive<'a>)
        requires
            old(self).inv(),
            old(self).next_kind() == Some(TokenKind::At),
        ensures
            final(self).inv(),
            old(self).evolves_to(final(self)),
            directive_wf(r, old(self).bytes()),
            old(self).advanced(final(self)),
            directive_complete(r) || final(self).erred(),
            !final(self).erred() ==> reads_as(old(self).read_until(final(self)), directive_tokens(r)),
            old(self).fits_directive(want) && (constness is NotConst || directive_const(want)) ==> {
                &&& final(self).spec_errors() == old(self).spec_errors()
                &&& old(self).read_until(final(self)) == directive_tokens(want)
                &&& directive_tokens(r) == directive_tokens(want)
            },
        decreases old(self).measure(1),
    {
        let ghost ok = old(self).fits_directive(want) && (constness is NotConst || directive_const(want));
        let ghost first = seq![punct(TokenKind::At), name_token(want.name)];
        let ghost at = arguments_tokens(want.arguments@);
        proof {
            if ok {
                assert(directive_tokens(want) =~= first + at);
                old(self).lemma_head();
            }
        }
        let start = self.current_start();
        let ghost g0 = *self;
        self.expect(TokenKind::At, "expected @ symbol");
        let ghost g1 = *self;
        proof {
            if ok {
                assert(g0.read_until(&g1) =~= seq![punct(TokenKind::At)]);
                assert(first + at =~= seq![punct(TokenKind::At)] + (seq![name_token(want.name)] + at));
                g0.lemma_advance(&g1, seq![punct(TokenKind::At)], seq![name_token(want.name)] + at, set![TokenKind::LParen]);
            }
        }
        let name = match self.parse_name() {
            Some(n) => n,
            None => self.missing_name(),
        };
        let ghost g2 = *self;
        proof {
            if ok {
                g1.lemma_rest(&g2);
                assert((seq![name_token(want.name)] + at)[0] == g1.rest()[0]);
                assert(g1.read_until(&g2) == seq![name_token(name)]);
                assert((g1.read_until(&g2) + g2.rest())[0] == name_token(name));
                assert(g1.read_until(&g2) =~= seq![name_token(want.name)]);
                g1.lemma_advance(&g2, seq![name_token(want.name)], at, set![TokenKind::LParen]);
                assert(g2.fits_arguments(want.arguments@));
                assert(constness is NotConst || arguments_const(want.arguments@));
            }
        }
        let arguments = self.parse_arguments_if_present(constness, Ghost(want.arguments@));
        proof {
            if !self.erred() {
                old(self).lemma_read_chain(&g0, &g1);
                old(self).lemma_read_chain(&g1, &g2);
                old(self).lemma_read_chain(&g2, &*self);
                let first = seq![punct(TokenKind::At), name_token(name)];
                assert(old(self).read_until(&g2) =~= first);
                lemma_reads_as_concat(
                    first,
                    first,
                    g2.read_until(&*self),
                    arguments_tokens(arguments@),
                );
                assert(old(self).read_until(&*self) =~= first + g2.read_until(&*self));
            }
            if ok {
                old(self).lemma_read_chain(&g0, &g1);
                old(self).lemma_read_chain(&g1, &g2);
                old(self).lemma_read_chain(&g2, &*self);
                assert(old(self).read_until(&*self) =~= first + at);
            }
        }
        let r = Directive { name, arguments, span: self.span_from(start) };
        proof {
            if ok {
                assert(directive_tokens(r) =~= first + at);
            }
        }
        r
    }

    /// A value. When the next token cannot start one, an error is recorded
    /// and, if `pop_on_error`, that token is consumed.
    #[verifier::spinoff_prover]
    #[verifier::rlimit(100)]
    fn parse_value(&mut self, constness: Constness, pop_on_error: bool, Ghost(want): Ghost<Value<'a>>) -> (r:
        Value<'a>)
        requires
            old(self).inv(),
        ensures
            final(self).inv(),
            old(self).evolves_to(final(self)),
            value_wf(r, old(self).bytes()),
            pop_on_error && old(self).has_next() ==> old(self).advanced(final(self)),
            starts_value(old(self).next_kind()) ==> old(self).advanced(final(self)),
            value_complete(r) || final(self).erred(),
            !final(self).erred() ==> old(self).read_until(final(self)) == value_tokens(r),
            old(self).fits_value(want) && (constness is NotConst || value_const(want)) ==> {
                &&& final(self).spec_errors() == old(self).spec_errors()
                &&& old(self).read_until(final(self)) == value_tokens(want)
                &&& value_tokens(r) == value_tokens(want)
            },
        decreases old(self).measure(2),
    {
        let ghost ok = old(self).fits_value(want) && (constness is NotConst || value_const(want));
        let ghost vt = value_tokens(want);
        proof {
            if ok {
                old(self).lemma_head();
                lemma_value_first(want);
                assert(vt[0] == old(self).rest()[0]);
            }
        }
        let kind = self.peek();
        let ghost g0 = *self;
        let r = match kind {
            Some(TokenKind::Dollar) => {
                proof {
                    if ok {
                        assert(want is Variable);
                        assert(constness is NotConst);
                    }
                }
                if matches!(constness, Constness::Const) {
                    self.err("unexpected variable value in a Const context");
                }
                proof {
                    if ok {
                        assert(vt[1] == old(self).rest()[1]);
                    }
                }
                match self.parse_variable() {
                    Some(v) => {
                        proof {
                            if ok {
                                lemma_same_front(
                                    old(self).rest(),
                                    old(self).read_until(&*self),
                                    vt,
                                );
                            }
                        }
                        Value::Variable(v)
                    },
                    None => Value::Missing(self.current_span()),
                }
            },
            Some(TokenKind::Int) => {
                let v = self.parse_int_value();
                proof {
                    if ok {
                        old(self).lemma_rest(&*self);
                        lemma_same_front(old(self).rest(), old(self).read_until(&*self), vt);
                    }
                }
                v
            },
            Some(TokenKind::Float) => {
                let v = self.parse_float_value();
                proof {
                    if ok {
                        old(self).lemma_rest(&*self);
                        lemma_same_front(old(self).rest(), old(self).read_until(&*self), vt);
                    }
                }
                v
            },
            Some(TokenKind::StringValue) => match self.parse_string_value() {
                Some(v) => {
                    proof {
                        if ok {
                            old(self).lemma_rest(&*self);
                            lemma_same_front(old(self).rest(), old(self).read_until(&*self), vt);
                        }
                    }
                    Value::String(v)
                },
                None => Value::Missing(self.current_span()),
            },
            Some(TokenKind::Name) => {
                let v = self.parse_name_value();
                proof {
                    if ok {
                        assert(vt =~= seq![old(self).rest()[0]]);
                    }
                }
                v
            },
            Some(TokenKind::LBracket) => self.parse_list_value(constness, Ghost(want)),
            Some(TokenKind::LCurly) => self.parse_object_value(constness, Ghost(want)),
            _ => {
                if pop_on_error {
                    self.err_and_pop("expected a valid Value");
                } else {
                    self.err("expected a valid Value");
                }
                Value::Missing(self.current_span())
            },
        };
        r
    }

    #[verifier::spinoff_prover]
    #[verifier::rlimit(60)]
    fn parse_list_value(&mut self, constness: Constness, Ghost(want): Ghost<Value<'a>>) -> (r: Value<'a>)
        requires
            old(self).inv(),
            old(self).next_kind() == Some(TokenKind::LBracket),
        ensures
            final(self).inv(),
            old(self).evolves_to(final(self)),
            value_wf(r, old(self).bytes()),
            old(self).advanced(final(self)),
            value_complete(r) || final(self).erred(),
            !final(self).erred() ==> old(self).read_until(final(self)) == value_tokens(r),
            old(self).fits_value(want) && want is List && (constness is NotConst || value_const(want)) ==> {
                &&& final(self).spec_errors() == old(self).spec_errors()
                &&& old(self).read_until(final(self)) == value_tokens(want)
                &&& value_tokens(r) == value_tokens(want)
            },
        decreases old(self).measure(1),
    {
        let ghost ok = old(self).fits_value(want) && want is List && (constness is NotConst || value_const(want));
        let ghost items = if want is List {
            want->List_0.values@
        } else {
            Seq::<Value>::empty()
        };
        proof {
            if ok {
                assert(value_tokens(want) == seq![punct(TokenKind::LBracket)] + values_tokens(items)
                    + seq![punct(TokenKind::RBracket)]);
            }
        }
        let start = self.current_start();
        self.expect(TokenKind::LBracket, "expected [");
        let mut values: Vec<Value<'a>> = Vec::new();
        proof {
            assert(values_tokens(values@) =~= Seq::<(TokenKind, Seq<u8>)>::empty());
            if ok {
                assert(items.take(0) =~= Seq::<Value>::empty());
                assert(old(self).read_until(&*self) =~= seq![punct(TokenKind::LBracket)] + values_tokens(items.take(0)));
            }
        }
        loop
            invariant_except_break
                !self.erred() ==> old(self).read_until(self) == seq![punct(TokenKind::LBracket)]
                    + values_tokens(values@),
                ok ==> {
                    &&& values@.len() <= items.len()
                    &&& self.spec_errors() == old(self).spec_errors()
                    &&& old(self).read_until(self) == seq![punct(TokenKind::LBracket)] + values_tokens(
                        items.take(values@.len() as int),
                    )
                    &&& values_tokens(values@) == values_tokens(items.take(values@.len() as int))
                },
            invariant
                old(self).inv(),
                ok == (old(self).fits_value(want) && want is List && (constness is NotConst || value_const(want))),
                want is List ==> items == want->List_0.values@,
                ok ==> forall|i: int| 0 <= i < items.len() ==> value_complete(#[trigger] items[i]),
                ok ==> value_depth(want) == values_depth(items),
                ok ==> old(self).next_tokens(seq![punct(TokenKind::LBracket)] + values_tokens(items)
                    + seq![punct(TokenKind::RBracket)], Set::<TokenKind>::empty()),
                self.inv(),
                old(self).evolves_to(self),
                self.rank() < old(self).rank(),
                start <= old(self).bytes().len(),
                forall|i: int|
                    0 <= i < values@.len() ==> value_wf(#[trigger] values@[i], old(self).bytes()),
                (forall|i: int| 0 <= i < values@.len() ==> value_complete(#[trigger] values@[i]))
                    || self.erred(),
            ensures
                !self.erred() ==> old(self).read_until(self) == seq![punct(TokenKind::LBracket)]
                    + values_tokens(values@) + seq![punct(TokenKind::RBracket)],
                ok ==> {
                    &&& self.spec_errors() == old(self).spec_errors()
                    &&& values_tokens(values@) == values_tokens(items)
                    &&& old(self).read_until(self) == seq![punct(TokenKind::LBracket)] + values_tokens(items) + seq![
                        punct(TokenKind::RBracket),
                    ]
                },
            decreases self.rank(),
        {
            let ghost here = *self;
            proof {
                if ok {
                    old(self).lemma_list_head(&here, items, values@.len() as int);
                }
            }
            let kind = match self.peek() {
                Some(k) => k,
                None => {
                    proof {
                        self.lemma_exhausted_has_errors();
                    }
                    break ;
                },
            };
            let ghost g0 = *self;
            if kind == TokenKind::RBracket {
                self.bump();
                proof {
                    if !self.erred() {
                        old(self).lemma_read_chain(&g0, &*self);
                        assert(old(self).read_until(&*self) =~= seq![punct(TokenKind::LBracket)]
                            + values_tokens(values@) + seq![punct(TokenKind::RBracket)]);
                    }
                    if ok {
                        assert(values@.len() == items.len()) by {
                            if values@.len() < items.len() {
                                lemma_value_first(items[values@.len() as int]);
                            }
                        }
                        assert(items.take(values@.len() as int) =~= items);
                        old(self).lemma_read_chain(&g0, &*self);
                    }
                }
                break ;
            } else if kind == TokenKind::Eof {
                self.err("expected ]");
                break ;
            } else if self.recursion_limit.check_and_increment() {
                self.limit_err("parser recursion limit reached");
                break ;
            } else {
                let ghost g1 = *self;
                let ghost k = values@.len() as int;
                let ghost item = if ok {
                    items[k]
                } else {
                    Value::Missing(Span { start: 0, end: 0 })
                };
                proof {
                    if ok {
                        assert(k < items.len()) by {
                            if k == items.len() {
                                assert(kind == TokenKind::RBracket);
                            }
                        }
                        lemma_values_depth_item(items, k);
                        assert(value_complete(item));
                        assert(g1.fits_value(item));
                        assert(constness is NotConst || value_const(item));
                    }
                }
                let value = self.parse_value(constness, true, Ghost(item));
                let ghost before = values@;
                values.push(value);
                self.recursion_limit.decrement();
                proof {
                    if !self.erred() {
                        old(self).lemma_read_chain(&g1, &*self);
                        assert(values@.subrange(0, values@.len() - 1) =~= before);
                        assert(values_tokens(values@) =~= values_tokens(before) + value_tokens(
                            value,
                        ));
                        assert(old(self).read_until(&*self) =~= seq![punct(TokenKind::LBracket)]
                            + values_tokens(values@));
                    }
                    if ok {
                        old(self).lemma_read_chain(&g1, &*self);
                        assert(values@.subrange(0, values@.len() - 1) =~= before);
                        assert(items.take(k + 1).subrange(0, k) =~= items.take(k));
                        assert(values_tokens(items.take(k + 1)) =~= values_tokens(items.take(k))
                            + value_tokens(item));
                        assert(values_tokens(values@) =~= values_tokens(before) + value_tokens(
                            value,
                        ));
                    }
                }
            }
        }
        let r = Value::List(ListValue { values, span: self.span_from(start) });
        assert(!self.erred() ==> old(self).read_until(&*self) =~= value_tokens(r));
        r
    }

    #[verifier::spinoff_prover]
    #[verifier::rlimit(60)]
    fn parse_object_value(&mut self, constness: Constness, Ghost(want): Ghost<Value<'a>>) -> (r: Value<'a>)
        requires
            old(self).inv(),
            old(self).next_kind() == Some(TokenKind::LCurly),
        ensures
            final(self).inv(),
            old(self).evolves_to(final(self)),
            value_wf(r, old(self).bytes()),
            old(self).advanced(final(self)),
            value_complete(r) || final(self).erred(),
            !final(self).erred() ==> old(self).read_until(final(self)) == value_tokens(r),
            old(self).fits_value(want) && want is Object && (constness is NotConst || value_const(want)) ==> {
                &&& final(self).spec_errors() == old(self).spec_errors()
                &&& old(self).read_until(final(self)) == value_tokens(want)
                &&& value_tokens(r) == value_tokens(want)
            },
        decreases old(self).measure(1),
    {
        let ghost ok = old(self).fits_value(want) && want is Object && (constness is NotConst || value_const(want));
        let ghost items = if want is Object {
            want->Object_0.fields@
        } else {
            Seq::<ObjectField>::empty()
        };
        proof {
            if ok {
                assert(value_tokens(want) == seq![punct(TokenKind::LCurly)] + object_fields_tokens(items) + seq![punct(TokenKind::RCurly)]);
            }
        }
        let start = self.current_start();
        self.expect(TokenKind::LCurly, "expected {");
        let mut fields: Vec<ObjectField<'a>> = Vec::new();
        proof {
            assert(object_fields_tokens(fields@) =~= Seq::<(TokenKind, Seq<u8>)>::empty());
            if ok {
                assert(items.take(0) =~= Seq::<ObjectField>::empty());
                assert(old(self).read_until(&*self) =~= seq![punct(TokenKind::LCurly)] + object_fields_tokens(items.take(0)));
            }
        }
        loop
            invariant_except_break
                !self.erred() ==> old(self).read_until(self) == seq![punct(TokenKind::LCurly)]
                    + object_fields_tokens(fields@),
                ok ==> {
                    &&& fields@.len() <= items.len()
                    &&& self.spec_errors() == old(self).spec_errors()
                    &&& old(self).read_until(self) == seq![punct(TokenKind::LCurly)] + object_fields_tokens(
                        items.take(fields@.len() as int),
                    )
                    &&& object_fields_tokens(fields@) == object_fields_tokens(
                        items.take(fields@.len() as int),
                    )
                },
            invariant
                old(self).inv(),
                ok == (old(self).fits_value(want) && want is Object && (constness is NotConst || value_const(want))),
                want is Object ==> items == want->Object_0.fields@,
                ok ==> forall|i: int|
                    0 <= i < items.len() ==> object_field_complete(#[trigger] items[i]),
                ok ==> value_depth(want) == fields_depth(items),
                ok ==> old(self).next_tokens(seq![punct(TokenKind::LCurly)] + object_fields_tokens(items) + seq![punct(TokenKind::RCurly)], Set::<TokenKind>::empty()),
                self.inv(),
                old(self).evolves_to(self),
                self.rank() < old(self).rank(),
                start <= old(self).bytes().len(),
                forall|i: int|
                    0 <= i < fields@.len() ==> object_field_wf(
                        #[trigger] fields@[i],
                        old(self).bytes(),
                    ),
                (forall|i: int| 0 <= i < fields@.len() ==> object_field_complete(#[trigger] fields@[i]))
                    || self.erred(),
            ensures
                !self.erred() ==> old(self).read_until(self) == seq![punct(TokenKind::LCurly)]
                    + object_fields_tokens(fields@) + seq![punct(TokenKind::RCurly)],
                ok ==> {
                    &&& self.spec_errors() == old(self).spec_errors()
                    &&& object_fields_tokens(fields@) == object_fields_tokens(items)
                    &&& old(self).read_until(self) == seq![punct(TokenKind::LCurly)] + object_fields_tokens(items)
                        + seq![punct(TokenKind::RCurly)]
                },
            decreases self.rank(),
        {
            let ghost here = *self;
            proof {
                if ok {
                    old(self).lemma_object_head(&here, items, fields@.len() as int);
                }
            }
            let kind = match self.peek() {
                Some(k) => k,
                None => {
                    proof {
                        self.lemma_exhausted_has_errors();
                    }
                    break ;
                },
            };
            let ghost g0 = *self;
            if kind == TokenKind::RCurly {
                self.bump();
                proof {
                    if !self.erred() {
                        old(self).lemma_read_chain(&g0, &*self);
                        assert(old(self).read_until(&*self) =~= seq![punct(TokenKind::LCurly)]
                            + object_fields_tokens(fields@) + seq![punct(TokenKind::RCurly)]);
                    }
                    if ok {
                        assert(fields@.len() == items.len());
                        assert(items.take(fields@.len() as int) =~= items);
                        old(self).lemma_read_chain(&g0, &*self);
                    }
                }
                break ;
            } else if kind == TokenKind::Name {
                let ghost k = fields@.len() as int;
                let ghost item = if ok {
                    items[k]
                } else {
                    ObjectField { name: Name { value: "", span: Span { start: 0, end: 0 } }, value: None, span: Span { start: 0, end: 0 } }
                };
                proof {
                    if ok {
                        assert(k < items.len());
                        lemma_fields_depth_item(items, k);
                        assert(g0.fits_field(item));
                        assert(constness is NotConst || object_field_const(item));
                    }
                }
                let field = self.parse_object_field(constness, Ghost(item));
                let ghost before = fields@;
                fields.push(field);
                proof {
                    if !self.erred() {
                        old(self).lemma_read_chain(&g0, &*self);
                        assert(fields@.subrange(0, fields@.len() - 1) =~= before);
                        assert(object_fields_tokens(fields@) =~= object_fields_tokens(before)
                            + object_field_tokens(field));
                        assert(old(self).read_until(&*self) =~= seq![punct(TokenKind::LCurly)]
                            + object_fields_tokens(fields@));
                    }
                    if ok {
                        old(self).lemma_read_chain(&g0, &*self);
                        assert(fields@.subrange(0, fields@.len() - 1) =~= before);
                        assert(items.take(k + 1).subrange(0, k) =~= items.take(k));
                        assert(object_fields_tokens(items.take(k + 1)) =~= object_fields_tokens(
                            items.take(k),
                        ) + object_field_tokens(item));
                        assert(object_fields_tokens(fields@) =~= object_fields_tokens(before)
                            + object_field_tokens(field));
                    }
                }
            } else if kind == TokenKind::Eof {
                self.err("expected }");
                break ;
            } else {
                self.err_and_pop("expected Object Field");
            }
        }
        let r = Value::Object(ObjectValue { fields, span: self.span_from(start) });
        assert(!self.erred() ==> old(self).read_until(&*self) =~= value_tokens(r));
        r
    }

    #[verifier::spinoff_prover]
    #[verifier::rlimit(40)]
    fn parse_object_field(&mut self, constness: Constness, Ghost(want): Ghost<ObjectField<'a>>) -> (r:
        ObjectField<'a>)
        requires
            old(self).inv(),
        ensures
            final(self).inv(),
            old(self).evolves_to(final(self)),
            object_field_wf(r, old(self).bytes()),
            old(self).next_kind() == Some(TokenKind::Name) ==> old(self).advanced(final(self)),
            object_field_complete(r) || final(self).erred(),
            !final(self).erred() ==> old(self).read_until(final(self)) == object_field_tokens(r),
            old(self).fits_field(want) && (constness is NotConst || object_field_const(want)) ==> {
                &&& final(self).spec_errors() == old(self).spec_errors()
                &&& old(self).read_until(final(self)) == object_field_tokens(want)
                &&& object_field_tokens(r) == object_field_tokens(want)
            },
        decreases old(self).measure(0),
    {
        let ghost ok = old(self).fits_field(want) && (constness is NotConst || object_field_const(want));
        let ghost head = seq![name_token(want.name), punct(TokenKind::Colon)];
        let ghost vt = value_tokens(want.value->0);
        proof {
            if ok {
                assert(object_field_tokens(want) =~= head + vt);
                old(self).lemma_head();
            }
        }
        let start = self.current_start();
        let ghost g0 = *self;
        let name = match self.parse_name() {
            Some(n) => n,
            None => self.missing_name(),
        };
        let ghost g1 = *self;
        proof {
            if ok {
                g0.lemma_rest(&g1);
                assert(g0.rest() == old(self).rest());
                assert(object_field_tokens(want)[0] == old(self).rest()[0]);
                assert(g0.read_until(&g1) == seq![name_token(name)]);
                assert((g0.read_until(&g1) + g1.rest())[0] == name_token(name));
                assert(name_token(name) == name_token(want.name));
                assert(g0.read_until(&g1) =~= seq![name_token(want.name)]);
                assert(head =~= seq![name_token(want.name)] + seq![punct(TokenKind::Colon)]);
                g0.lemma_advance(&g1, seq![name_token(want.name)], seq![punct(TokenKind::Colon)] + vt, Set::<TokenKind>::empty());
            }
        }
        let value = if self.at(TokenKind::Colon) {
            let ghost g2 = *self;
            self.bump();
            let ghost g3 = *self;
            let ghost item = if ok {
                want.value->0
            } else {
                Value::Missing(Span { start: 0, end: 0 })
            };
            proof {
                if ok {
                    assert(g2.read_until(&g3) =~= seq![punct(TokenKind::Colon)]);
                    g2.lemma_advance(&g3, seq![punct(TokenKind::Colon)], vt, Set::<TokenKind>::empty());
                    assert(g3.fits_value(item));
                    assert(constness is NotConst || value_const(item));
                }
            }
            let v = self.parse_value(constness, true, Ghost(item));
            proof {
                if !self.erred() {
                    old(self).lemma_read_chain(&g0, &*self);
                    g0.lemma_read_chain(&g1, &*self);
                    g1.lemma_read_chain(&g2, &*self);
                    g2.lemma_read_chain(&g3, &*self);
                    assert(old(self).read_until(&*self) =~= seq![
                        name_token(name),
                        punct(TokenKind::Colon),
                    ] + value_tokens(v));
                }
                if ok {
                    old(self).lemma_read_chain(&g0, &g1);
                    old(self).lemma_read_chain(&g1, &g2);
                    old(self).lemma_read_chain(&g2, &g3);
                    old(self).lemma_read_chain(&g3, &*self);
                    assert(old(self).read_until(&*self) =~= head + vt);
                }
            }
            Some(v)
        } else {
            proof {
                if ok {
                    assert(false);
                }
            }
            self.err("expected :");
            None
        };
        let r = ObjectField { name, value, span: self.span_from(start) };
        proof {
            if ok {
                assert(object_field_tokens(r) =~= head + vt);
            }
        }
        r
    }
    // -----------------------------------------------------------------------
    // Types
    /// A type. When the parser can read the ghost type `t` from here, it
    /// reads it: no error is added and the result has `t`'s tokens.
    #[verifier::spinoff_prover]
    #[verifier::rlimit(60)]
    fn parse_type_inner(&mut self, Ghost(t): Ghost<Type<'a>>, Ghost(deep): Ghost<Type<'a>>) -> (r: Option<Type<'a>>)
        requires
            old(self).inv(),
        ensures
            final(self).inv(),
            old(self).evolves_to(final(self)),
            opt_type_wf(r, old(self).bytes()),
            old(self).next_kind() == Some(TokenKind::LBracket) || old(self).next_kind() == Some(
                TokenKind::Name,
            ) ==> r is Some && old(self).advanced(final(self)),
            r is None ==> final(self).spec_errors().len() > 0,
            r matches Some(t) ==> type_complete(t) || final(self).spec_errors().len() > 0,
            r is Some && !final(self).erred() ==> {
                &&& old(self).read_until(final(self)) == type_tokens(r->0)
                &&& type_canonical(r->0)
                &&& !(r->0 is NonNull) ==> final(self).next_kind() != Some(TokenKind::Bang)
            },
            old(self).fits_type(t) ==> {
                &&& r is Some
                &&& final(self).spec_errors() == old(self).spec_errors()
                &&& old(self).read_until(final(self)) == type_tokens(t)
                &&& type_tokens(r->0) == type_tokens(t)
            },
            too_deep_type(deep, old(self).rest(), old(self).room()) ==> final(self).erred(),
        decreases old(self).rank(),
    {
        let start = self.current_start();
        let kind = self.peek();
        let ghost g0 = *self;
        let ghost fits = old(self).fits_type(t);
        let ghost base = type_base(t);
        let ghost dp = too_deep_type(deep, old(self).rest(), old(self).room());
        proof {
            if dp {
                old(self).lemma_rest(&g0);
                assert(g0.rest() =~= old(self).rest());
                lemma_type_tokens_shape(deep);
                assert(type_tokens(deep)[0] == g0.rest()[0]);
                g0.lemma_next();
                assert(g0.next_kind() == Some(g0.rest()[0].0));
                assert(type_base(deep) is List) by {
                    if type_base(deep) is Named {
                        assert(type_depth(deep) == 0);
                    }
                }
                assert(kind == Some(TokenKind::LBracket));
            }
        }
        proof {
            if fits {
                old(self).lemma_rest(&g0);
                assert(old(self).read_until(&g0) =~= Seq::<(TokenKind, Seq<u8>)>::empty());
                assert(g0.rest() =~= old(self).rest());
                lemma_type_tokens_shape(t);
                assert(type_tokens(t)[0] == g0.rest()[0]);
                g0.lemma_next();
                assert(g0.next_kind() == Some(g0.rest()[0].0));
                assert(base is List ==> kind == Some(TokenKind::LBracket));
                assert(base is Named ==> kind == Some(TokenKind::Name));
            }
        }
        let mut ty = match kind {
            Some(TokenKind::LBracket) => {
                self.bump();
                let ghost g1 = *self;
                proof {
                    if fits {
                        assert(base is List);
                    }
                }
                if self.recursion_limit.check_and_increment() {
                    self.limit_err("parser recursion limit reached");
                    return Some(Type::Missing(self.span_from(start)));
                }
                let ghost g2 = *self;
                let ghost item = list_item(t);
                proof {
                    if fits || dp {
                        old(self).lemma_read_chain(&g0, &g1);
                        old(self).lemma_read_chain(&g1, &g2);
                        assert(old(self).read_until(&g2) =~= seq![punct(TokenKind::LBracket)]);
                    }
                    if fits {
                        old(self).lemma_fits_item(&g2, t);
                    }
                    if dp {
                        old(self).lemma_deep_item(&g2, deep);
                    }
                }
                let inner = match self.parse_type_inner(Ghost(item), Ghost(list_item(deep))) {
                    Some(t) => t,
                    None => Type::Missing(self.current_span()),
                };
                let ghost g3 = *self;
                assert(type_wf(inner, old(self).bytes()));
                assert(type_complete(inner) || self.spec_errors().len() > 0);
                self.recursion_limit.decrement();
                let ghost g4 = *self;
                proof {
                    if fits {
                        old(self).lemma_read_chain(&g2, &g3);
                        old(self).lemma_read_chain(&g3, &g4);
                        assert(old(self).read_until(&g4) =~= seq![punct(TokenKind::LBracket)]
                            + type_tokens(item));
                        old(self).lemma_fits_close(&g4, t);
                    }
                }
                self.expect(TokenKind::RBracket, "expected ]");
                let span = self.span_from(start);
                assert(span_in(span, old(self).bytes()));
                let list = Type::List(ListType { ty: Box::new(inner), span });
                assert(type_complete(list) == type_complete(inner));
                assert(type_canonical(list) == type_canonical(inner));
                assert(!self.erred() ==> type_canonical(inner));
                proof {
                    if !self.erred() {
                        old(self).lemma_read_chain(&g0, &*self);
                        g0.lemma_read_chain(&g1, &*self);
                        g1.lemma_read_chain(&g2, &*self);
                        g2.lemma_read_chain(&g3, &*self);
                        g3.lemma_read_chain(&g4, &*self);
                        assert(type_tokens(list) =~= seq![(TokenKind::LBracket, Seq::<u8>::empty())]
                            + type_tokens(inner) + seq![(TokenKind::RBracket, Seq::<u8>::empty())]);
                        assert(old(self).read_until(&*self) =~= type_tokens(list));
                    }
                    if fits {
                        old(self).lemma_read_chain(&g0, &g1);
                        old(self).lemma_read_chain(&g1, &g3);
                        old(self).lemma_read_chain(&g3, &*self);
                        assert(type_tokens(list) =~= seq![punct(TokenKind::LBracket)]
                            + type_tokens(inner) + seq![punct(TokenKind::RBracket)]);
                        assert(type_tokens(list) == type_tokens(base));
                        assert(old(self).read_until(&*self) =~= type_tokens(base));
                    }
                }
                list
            },
            Some(TokenKind::Name) => {
                let name = match self.parse_name() {
                    Some(n) => n,
                    None => self.missing_name(),
                };
                proof {
                    old(self).lemma_read_chain(&g0, &*self);
                    assert(old(self).read_until(&g0) =~= Seq::<(TokenKind, Seq<u8>)>::empty());
                    if fits {
                        assert(base is Named);
                        g0.lemma_rest(&*self);
                        assert(type_tokens(Type::Named(NamedType { name })) == type_tokens(base));
                    }
                }
                Type::Named(NamedType { name })
            },
            Some(_) => {
                self.err("expected a type");
                return None;
            },
            None => {
                proof {
                    self.lemma_exhausted_has_errors();
                }
                return None;
            },
        };
        assert(type_wf(ty, old(self).bytes()));
        assert(type_complete(ty) || self.spec_errors().len() > 0);
        let ghost h0 = *self;
        assert(!self.erred() ==> old(self).read_until(&h0) == type_tokens(ty));
        assert(!(ty is NonNull));
        assert(!self.erred() ==> type_canonical(ty));
        proof {
            if fits {
                assert(old(self).read_until(&h0) == type_tokens(base));
                old(self).lemma_fits_bang(&h0, t);
            }
        }
        if self.at(TokenKind::Bang) {
            let ghost h1 = *self;
            self.bump();
            let span = self.span_from(start);
            let ghost inner = ty;
            ty = Type::NonNull(NonNullType { ty: Box::new(ty), span });
            assert(type_complete(ty) == type_complete(inner));
            assert(type_canonical(ty) == (!(inner is NonNull) && type_canonical(inner)));
            assert(type_wf(ty, old(self).bytes()));
            proof {
                if !self.erred() {
                    old(self).lemma_read_chain(&h0, &*self);
                    h0.lemma_read_chain(&h1, &*self);
                    assert(type_tokens(ty) =~= type_tokens(inner) + seq![
                        (TokenKind::Bang, Seq::<u8>::empty()),
                    ]);
                    assert(old(self).read_until(&*self) =~= type_tokens(ty));
                }
                if fits {
                    old(self).lemma_read_chain(&h0, &h1);
                    old(self).lemma_read_chain(&h1, &*self);
                    assert(type_tokens(ty) =~= type_tokens(inner) + seq![punct(TokenKind::Bang)]);
                    assert(old(self).read_until(&*self) =~= type_tokens(t));
                }
            }
        }
        proof {
            if !self.erred() {
                assert(old(self).read_until(&*self) == type_tokens(ty));
                assert(type_canonical(ty));
                assert(!(ty is NonNull) ==> self.next_kind() != Some(TokenKind::Bang));
            }
            if fits {
                assert(old(self).read_until(&*self) =~= type_tokens(t));
                assert(type_tokens(ty) == type_tokens(t));
            }
        }
        Some(ty)
    }

    // -----------------------------------------------------------------------
    // Variable definitions
    #[verifier::spinoff_prover]
    #[verifier::rlimit(60)]
    fn parse_variable_definitions_if_present(&mut self, Ghost(want): Ghost<Seq<VariableDefinition<'a>>>) -> (r:
        Vec<VariableDefinition<'a>>)
        requires
            old(self).inv(),
        ensures
            final(self).inv(),
            old(self).evolves_to(final(self)),
            variable_definitions_wf(r@, old(self).bytes()),
            variable_definitions_complete(r@) || final(self).erred(),
            old(self).fits_variable_definitions(want) ==> {
                &&& final(self).spec_errors() == old(self).spec_errors()
                &&& old(self).read_until(final(self)) == variable_definitions_tokens(want)
                &&& variable_definitions_tokens(r@) == variable_definitions_tokens(want)
            },
    {
        let ghost ok = old(self).fits_variable_definitions(want);
        let ghost items = want;
        proof {
            if ok {
                old(self).lemma_head();
                if want.len() > 0 {
                    assert(variable_definitions_tokens(want)[0] == punct(TokenKind::LParen));
                    assert(old(self).rest()[0] == variable_definitions_tokens(want)[0]);
                }
            }
        }
        let mut definitions: Vec<VariableDefinition<'a>> = Vec::new();
        if !self.at(TokenKind::LParen) {
            proof {
                if ok {
                    assert(want.len() == 0);
                    assert(old(self).read_until(&*self) =~= Seq::<(TokenKind, Seq<u8>)>::empty());
                }
            }
            return definitions;
        }
        let ghost g00 = *self;
        self.bump();
        proof {
            if ok {
                assert(want.len() > 0);
                assert(items.take(0) =~= Seq::<VariableDefinition>::empty());
                assert(variable_definition_list_tokens(definitions@) =~= Seq::<(TokenKind, Seq<u8>)>::empty());
                old(self).lemma_read_chain(&g00, &*self);
                assert(old(self).read_until(&*self) =~= seq![punct(TokenKind::LParen)] + variable_definition_list_tokens(items.take(0)));
            }
        }
        loop
            invariant_except_break
                ok ==> {
                    &&& definitions@.len() <= items.len()
                    &&& self.spec_errors() == old(self).spec_errors()
                    &&& old(self).read_until(self) == seq![punct(TokenKind::LParen)] + variable_definition_list_tokens(
                        items.take(definitions@.len() as int),
                    )
                    &&& variable_definition_list_tokens(definitions@) == variable_definition_list_tokens(items.take(definitions@.len() as int))
                },
            invariant
                old(self).inv(),
                ok == old(self).fits_variable_definitions(want),
                items == want,
                ok ==> items.len() > 0,
                ok ==> forall|i: int| 0 <= i < items.len() ==> variable_definition_ok(#[trigger] items[i], old(self).room()),
                ok ==> old(self).next_tokens(seq![punct(TokenKind::LParen)] + variable_definition_list_tokens(items)
                    + seq![punct(TokenKind::RParen)], Set::<TokenKind>::empty()),
                self.inv(),
                old(self).evolves_to(self),
                variable_definitions_wf(definitions@, old(self).bytes()),
                variable_definitions_complete(definitions@) || self.erred(),
            ensures
                ok ==> {
                    &&& self.spec_errors() == old(self).spec_errors()
                    &&& definitions@.len() == items.len()
                    &&& variable_definition_list_tokens(definitions@) == variable_definition_list_tokens(items)
                    &&& old(self).read_until(self) == variable_definitions_tokens(items)
                },
            decreases self.rank(),
        {
            let ghost here = *self;
            proof {
                if ok {
                    old(self).lemma_vardefs_head(&here, items, definitions@.len() as int);
                }
            }
            let kind = match self.peek() {
                Some(k) => k,
                None => {
                    break ;
                },
            };
            let ghost g0 = *self;
            if kind == TokenKind::RParen {
                if definitions.len() == 0 {
                    self.err("expected a Variable Definition");
                }
                self.bump();
                proof {
                    if ok {
                        assert(definitions@.len() == items.len());
                        assert(items.take(definitions@.len() as int) =~= items);
                        old(self).lemma_read_chain(&g0, &*self);
                        assert(old(self).read_until(&*self) =~= variable_definitions_tokens(items));
                    }
                }
                break ;
            } else if kind == TokenKind::Dollar || (kind == TokenKind::StringValue
                && self.allow_executable_descriptions) {
                let ghost k = definitions@.len() as int;
                let ghost item = if ok {
                    items[k]
                } else {
                    arbitrary()
                };
                proof {
                    if ok {
                        assert(variable_definition_ok(item, old(self).room()));
                        assert(g0.fits_variable_definition(item));
                    }
                }
                let definition = self.parse_variable_definition(Ghost(item));
                let ghost before = definitions@;
                definitions.push(definition);
                proof {
                    if ok {
                        old(self).lemma_read_chain(&g0, &*self);
                        assert(definitions@.drop_last() =~= before);
                        assert(items.take(k + 1).drop_last() =~= items.take(k));
                        assert(items.take(k + 1).last() == item);
                        assert(variable_definition_list_tokens(items.take(k + 1)) =~= variable_definition_list_tokens(items.take(k))
                            + variable_definition_tokens(item));
                        assert(variable_definition_list_tokens(definitions@) =~= variable_definition_list_tokens(before)
                            + variable_definition_tokens(definition));
                    }
                }
            } else if kind == TokenKind::Eof {
                self.err("expected )");
                break ;
            } else {
                self.err_and_pop("expected a Variable Definition");
            }
        }
        definitions
    }

    #[verifier::spinoff_prover]
    #[verifier::rlimit(80)]
    fn parse_variable_definition(&mut self, Ghost(want): Ghost<VariableDefinition<'a>>) -> (r: VariableDefinition<'a>)
        requires
            old(self).inv(),
        ensures
            final(self).inv(),
            old(self).evolves_to(final(self)),
            variable_definition_wf(r, old(self).bytes()),
            variable_definition_complete(r) || final(self).erred(),
            old(self).next_kind() == Some(TokenKind::Dollar) || (old(self).next_kind() == Some(
                TokenKind::StringValue,
            ) && old(self).spec_flags().0) ==> old(self).advanced(final(self)),
            old(self).fits_variable_definition(want) ==> {
                &&& final(self).spec_errors() == old(self).spec_errors()
                &&& old(self).read_until(final(self)) == variable_definition_tokens(want)
                &&& variable_definition_tokens(r) == variable_definition_tokens(want)
                &&& r.description is None
            },
            !old(self).spec_flags().0 ==> r.description is None,
            old(self).spec_flags().0 && old(self).next_kind() == Some(TokenKind::StringValue) ==> r.description is Some
                && description_tokens(r.description) == seq![old(self).next_token()],
    {
        let ghost ok = old(self).fits_variable_definition(want);
        let ghost av = set![TokenKind::Bang, TokenKind::Eq, TokenKind::At, TokenKind::LParen];
        let ghost tt = type_tokens(want.ty->0);
        let ghost dv = match want.default_value {
            Some(d) => seq![punct(TokenKind::Eq)] + value_tokens(d),
            None => Seq::<(TokenKind, Seq<u8>)>::empty(),
        };
        let ghost dt = directives_tokens(want.directives@);
        let ghost after_name = seq![punct(TokenKind::Colon)] + (tt + (dv + dt));
        proof {
            if ok {
                assert(variable_definition_tokens(want) =~= seq![punct(TokenKind::Dollar), name_token(want.variable.name)] + after_name);
                old(self).lemma_head();
                assert(old(self).rest()[0] == variable_definition_tokens(want)[0]);
                assert(old(self).rest()[1] == variable_definition_tokens(want)[1]);
            }
        }
        let start = self.current_start();
        let description = if self.allow_executable_descriptions {
            self.parse_description_if_present()
        } else {
            None
        };
        let ghost g0 = *self;
        proof {
            if ok {
                assert(g0.rest() == old(self).rest());
            }
            if old(self).spec_flags().0 && old(self).next_kind() == Some(TokenKind::StringValue) {
                let o = *old(self);
                o.lemma_rest(&o);
                old(self).lemma_head();
                old(self).lemma_rest(&g0);
                assert(old(self).rest()[0] == old(self).read_until(&g0)[0]);
            }
        }
        let variable = match self.parse_variable() {
            Some(v) => v,
            None => self.missing_variable(),
        };
        let ghost g1 = *self;
        proof {
            if ok {
                assert(g1.next_tokens(after_name, av) && g1.next_kind() == Some(TokenKind::Colon)
                    && g0.read_until(&g1) == seq![punct(TokenKind::Dollar), name_token(want.variable.name)]) by {
                    let two = seq![punct(TokenKind::Dollar), name_token(want.variable.name)];
                    assert(g0.read_until(&g1) =~= two);
                    g0.lemma_advance(&g1, two, after_name, av);
                }
            }
        }
        let mut ty = None;
        let mut default_value = None;
        let mut directives = Vec::new();
        if self.at(TokenKind::Colon) {
            let ghost g2 = *self;
            self.bump();
            let ghost g3 = *self;
            proof {
                if ok {
                    assert(g3.fits_type(want.ty->0) && g3.next_tokens(tt + (dv + dt), av)) by {
                        assert(g2.rest() == g1.rest());
                        g2.lemma_read_one(&g3, punct(TokenKind::Colon), tt + (dv + dt), av);
                        lemma_directives_first(want.directives@);
                        if (dv + dt).len() > 0 {
                            if dv.len() > 0 {
                                assert((dv + dt)[0] == dv[0]);
                            } else {
                                assert((dv + dt)[0] == dt[0]);
                            }
                        }
                        g3.lemma_next_tokens_front(tt, dv + dt, av, set![TokenKind::Bang]);
                    }
                }
            }
            ty = self.parse_type_inner(Ghost(want.ty->0), Ghost(Type::Missing(Span { start: 0, end: 0 })));
            let ghost g4 = *self;
            proof {
                if ok {
                    assert(g4.next_tokens(dv + dt, av)) by {
                        g3.lemma_advance(&g4, tt, dv + dt, av);
                    }
                    assert(want.default_value is Some <==> g4.next_kind() == Some(TokenKind::Eq)) by {
                        g3.lemma_advance(&g4, tt, dv + dt, av);
                        lemma_directives_first(want.directives@);
                        if dv.len() == 0 && dt.len() > 0 {
                            assert((dv + dt)[0] == dt[0]);
                        }
                        if dv.len() > 0 {
                            assert((dv + dt)[0] == dv[0]);
                        }
                    }
                }
            }
            if self.at(TokenKind::Eq) {
                let ghost g5 = *self;
                self.bump();
                let ghost g6 = *self;
                let ghost d = want.default_value->0;
                proof {
                    if ok {
                        assert(g6.fits_value(d) && g6.next_tokens(value_tokens(d) + dt, av)) by {
                            assert(g5.rest() == g4.rest());
                            assert(dv + dt =~= seq![punct(TokenKind::Eq)] + (value_tokens(d) + dt));
                            g5.lemma_read_one(&g6, punct(TokenKind::Eq), value_tokens(d) + dt, av);
                            g6.lemma_next_tokens_front(value_tokens(d), dt, av, Set::<TokenKind>::empty());
                        }
                    }
                }
                default_value = Some(self.parse_value(Constness::Const, false, Ghost(d)));
                proof {
                    if ok {
                        g6.lemma_advance(&*self, value_tokens(d), dt, av);
                        g4.lemma_read_chain(&g5, &g6);
                        g4.lemma_read_chain(&g6, &*self);
                        assert(g4.read_until(&*self) =~= dv);
                    }
                }
            } else {
                proof {
                    if ok {
                        assert(dv =~= Seq::<(TokenKind, Seq<u8>)>::empty());
                        assert(dv + dt =~= dt);
                        assert(g4.read_until(&*self) =~= dv);
                    }
                }
            }
            let ghost g7 = *self;
            proof {
                if ok {
                    assert(g7.fits_directives(want.directives@)) by {
                        g7.lemma_next_tokens_weaken(dt, av, set![TokenKind::At, TokenKind::LParen]);
                    }
                }
            }
            directives = self.parse_directives(Constness::Const, Ghost(want.directives@));
            proof {
                if ok {
                    old(self).lemma_read_chain(&g0, &g1);
                    old(self).lemma_read_chain(&g1, &g2);
                    old(self).lemma_read_chain(&g2, &g3);
                    old(self).lemma_read_chain(&g3, &g4);
                    old(self).lemma_read_chain(&g4, &g7);
                    old(self).lemma_read_chain(&g7, &*self);
                    assert(g2.read_until(&g3) == seq![punct(TokenKind::Colon)]);
                }
            }
        } else {
            proof {
                if ok {
                    assert(false);
                }
            }
            self.err("expected a Name");
        }
        let r = VariableDefinition {
            description,
            variable,
            ty,
            default_value,
            directives,
            span: self.span_from(start),
        };
        proof {
            if ok {
                assert(old(self).read_until(&g0) =~= Seq::<(TokenKind, Seq<u8>)>::empty());
                assert(variable_definition_tokens(r) =~= variable_definition_tokens(want));
                assert(old(self).read_until(&*self) =~= variable_definition_tokens(want));
            }
        }
        r
    }

    // -----------------------------------------------------------------------
    // Executable definitions
    /// Where a definition starts: at its description if it has one.
    fn definition_start(&mut self, description: &Option<StringValue<'a>>) -> (r: usize)
        requires
            old(self).inv(),
            opt_string_value_wf(*description, old(self).bytes()),
        ensures
            final(self).inv(),
            old(self).evolves_to(final(self)),
            final(self).next_index() == old(self).next_index(),
            r <= old(self).bytes().len(),
            lexes_cleanly(old(self).stream()) ==> final(self).spec_errors() == old(self).spec_errors(),
            description matches Some(v) ==> r == v.span.start,
            description is None && old(self).has_next() ==> r == old(self).next_lexeme().start,
            description is None && !old(self).has_next() ==> r == old(self).spec_last_end(),
    {
        match description {
            Some(value) => value.span.start as usize,
            None => self.current_start(),
        }
    }

    #[verifier::spinoff_prover]
    #[verifier::rlimit(100)]
    fn parse_operation_definition(
        &mut self,
        description: Option<StringValue<'a>>,
        Ghost(want): Ghost<OperationDefinition<'a>>,
        Ghost(shorthand): Ghost<bool>,
    ) -> (r: OperationDefinition<'a>)
        requires
            old(self).inv(),
            opt_string_value_wf(description, old(self).bytes()),
        ensures
            final(self).inv(),
            old(self).evolves_to(final(self)),
            definition_wf(Definition::Operation(r), old(self).bytes()),
            definition_complete(Definition::Operation(r)) || final(self).erred(),
            old(self).fits_operation(want, shorthand) ==> {
                &&& final(self).spec_errors() == old(self).spec_errors()
                &&& old(self).read_until(final(self)) == operation_tokens(want, shorthand)
                &&& operation_tokens(r, shorthand) == operation_tokens(want, shorthand)
                &&& shorthand ==> short_form(Definition::Operation(r))
            },
            r.description == description,
            description matches Some(d) ==> r.span.start == d.span.start,
            description is None && old(self).has_next() ==> r.span.start == old(self).next_lexeme().start,
            ends_at(r.span, final(self).last_token_end()),
            old(self).next_kind() == Some(TokenKind::Name) && old(self).next_text() == bytes_of("query")
                ==> r.operation_type is Query,
            old(self).next_kind() == Some(TokenKind::Name) && old(self).next_text() == bytes_of("mutation")
                ==> r.operation_type is Mutation,
            old(self).next_kind() == Some(TokenKind::Name) && old(self).next_text() == bytes_of("subscription")
                ==> r.operation_type is Subscription,
            old(self).next_kind() == Some(TokenKind::LCurly) ==> r.operation_type is Query,
    {
        let ghost ok = old(self).fits_operation(want, shorthand);
        let ghost wss = want.selection_set->0;
        let ghost sst = selection_set_tokens(wss);
        proof {
            if ok {
                old(self).lemma_head();
                assert(opt_selection_set_tokens(want.selection_set) == sst);
                assert(sst[0] == punct(TokenKind::LCurly));
                if shorthand {
                    assert(old(self).rest()[0] == sst[0]);
                } else {
                    assert(operation_tokens(want, shorthand)[0] == operation_keyword(want.operation_type));
                    assert(old(self).rest()[0] == operation_keyword(want.operation_type));
                }
            }
        }
        let start = self.definition_start(&description);
        let ghost g0 = *self;
        if self.at(TokenKind::LCurly) {
            proof {
                if ok {
                    assert(shorthand);
                    assert(self.rest() == old(self).rest());
                    assert(self.fits_selection_set(wss));
                }
            }
            let selection_set = Some(self.parse_selection_set_inner(Ghost(wss)));
            let r = OperationDefinition {
                description,
                operation_type: OperationType::Query,
                name: None,
                variable_definitions: Vec::new(),
                directives: Vec::new(),
                selection_set,
                span: self.span_from(start),
            };
            proof {
                if ok {
                    old(self).lemma_read_chain(&g0, &*self);
                    assert(old(self).read_until(&g0) =~= Seq::<(TokenKind, Seq<u8>)>::empty());
                    assert(old(self).read_until(&*self) =~= sst);
                    assert(short_form(Definition::Operation(r))) by {
                        reveal(short_form);
                    }
                }
            }
            return r;
        }
        proof {
            if ok {
                assert(!shorthand);
                assert(g0.rest() == old(self).rest());
            }
        }
        let r = self.parse_typed_operation(start, description, Ghost(want));
        proof {
            if ok {
                old(self).lemma_read_chain(&g0, &*self);
                assert(old(self).read_until(&g0) =~= Seq::<(TokenKind, Seq<u8>)>::empty());
                assert(old(self).read_until(&*self) =~= g0.read_until(&*self));
            }
        }
        r
    }

    /// An operation that starts with its keyword.
    #[verifier::spinoff_prover]
    #[verifier::rlimit(100)]
    fn parse_typed_operation(
        &mut self,
        start: usize,
        description: Option<StringValue<'a>>,
        Ghost(want): Ghost<OperationDefinition<'a>>,
    ) -> (r: OperationDefinition<'a>)
        requires
            old(self).inv(),
            opt_string_value_wf(description, old(self).bytes()),
            start <= old(self).bytes().len(),
        ensures
            final(self).inv(),
            old(self).evolves_to(final(self)),
            definition_wf(Definition::Operation(r), old(self).bytes()),
            definition_complete(Definition::Operation(r)) || final(self).erred(),
            old(self).fits_operation(want, false) ==> {
                &&& final(self).spec_errors() == old(self).spec_errors()
                &&& old(self).read_until(final(self)) == operation_tokens(want, false)
                &&& operation_tokens(r, false) == operation_tokens(want, false)
            },
            r.description == description,
            r.span.start == start,
            ends_at(r.span, final(self).last_token_end()),
            old(self).next_kind() == Some(TokenKind::Name) && old(self).next_text() == bytes_of("query")
                ==> r.operation_type is Query,
            old(self).next_kind() == Some(TokenKind::Name) && old(self).next_text() == bytes_of("mutation")
                ==> r.operation_type is Mutation,
            old(self).next_kind() == Some(TokenKind::Name) && old(self).next_text() == bytes_of("subscription")
                ==> r.operation_type is Subscription,
    {
        let ghost ok = old(self).fits_operation(want, false);
        proof {
            lemma_keywords_differ();
        }
        let ghost wss = want.selection_set->0;
        let ghost nt = match want.name {
            Some(n) => seq![name_token(n)],
            None => Seq::<(TokenKind, Seq<u8>)>::empty(),
        };
        let ghost vt = variable_definitions_tokens(want.variable_definitions@);
        let ghost dt = directives_tokens(want.directives@);
        let ghost sst = selection_set_tokens(wss);
        let ghost after_kw = nt + (vt + (dt + sst));
        let ghost kw = operation_keyword(want.operation_type);
        let ghost g0 = *self;
        proof {
            if ok {
                assert(g0.next_tokens(seq![kw] + after_kw, Set::<TokenKind>::empty())) by {
                    assert(opt_selection_set_tokens(want.selection_set) == sst);
                    assert(operation_tokens(want, false) =~= seq![kw] + after_kw);
                }
                assert(g0.next_kind() == Some(TokenKind::Name)
                    && (g0.next_text() == bytes_of("query") <==> want.operation_type is Query)
                    && (g0.next_text() == bytes_of("mutation") <==> want.operation_type is Mutation)
                    && (g0.next_text() == bytes_of("subscription") <==> want.operation_type is Subscription)) by {
                    g0.lemma_head();
                    assert(g0.rest()[0] == (seq![kw] + after_kw)[0]);
                    assert(g0.next_token().1 == g0.next_text());
                    lemma_keywords_differ();
                }
            }
        }
        let operation_type = if self.at_keyword("query") {
            self.bump();
            OperationType::Query
        } else if self.at_keyword("mutation") {
            self.bump();
            OperationType::Mutation
        } else if self.at_keyword("subscription") {
            self.bump();
            OperationType::Subscription
        } else {
            proof {
                if ok {
                    assert(false);
                }
            }
            self.err("expected Operation Type");
            OperationType::Query
        };
        let ghost g1 = *self;
        proof {
            if ok {
                assert(operation_type == want.operation_type);
                assert(g1.next_tokens(after_kw, Set::<TokenKind>::empty()) && g0.read_until(&g1) == seq![kw]) by {
                    assert(g0.read_until(&g1).len() == 1);
                    g0.lemma_read_one(&g1, kw, after_kw, Set::<TokenKind>::empty());
                }
                assert(want.name is Some <==> g1.next_kind() == Some(TokenKind::Name)) by {
                    g1.lemma_head();
                    lemma_directives_first(want.directives@);
                    assert(sst[0] == punct(TokenKind::LCurly));
                    if want.name is Some {
                        assert(after_kw[0] == nt[0]);
                    } else if vt.len() > 0 {
                        assert(after_kw[0] == vt[0]);
                        assert(vt[0] == punct(TokenKind::LParen));
                    } else if dt.len() > 0 {
                        assert(after_kw[0] == dt[0]);
                    } else {
                        assert(after_kw[0] == sst[0]);
                    }
                }
            }
        }
        let name = if self.at(TokenKind::Name) {
            self.parse_name()
        } else {
            None
        };
        let ghost g2 = *self;
        proof {
            if ok {
                assert(g2.next_tokens(vt + (dt + sst), Set::<TokenKind>::empty()) && g1.read_until(&g2) == nt) by {
                    if want.name is Some {
                        assert(after_kw =~= seq![name_token(want.name->0)] + (vt + (dt + sst)));
                        g1.lemma_read_one(&g2, name_token(want.name->0), vt + (dt + sst), Set::<TokenKind>::empty());
                    } else {
                        assert(after_kw =~= vt + (dt + sst));
                        assert(g1.read_until(&g2) =~= nt);
                        assert(g2.rest() == g1.rest());
                    }
                }
                assert(g2.fits_variable_definitions(want.variable_definitions@)) by {
                    lemma_directives_first(want.directives@);
                    assert(sst[0] == punct(TokenKind::LCurly));
                    if dt.len() > 0 {
                        assert((dt + sst)[0] == dt[0]);
                    } else {
                        assert((dt + sst)[0] == sst[0]);
                    }
                    g2.lemma_next_tokens_front(vt, dt + sst, Set::<TokenKind>::empty(), set![TokenKind::LParen]);
                }
            }
        }
        let variable_definitions = self.parse_variable_definitions_if_present(Ghost(want.variable_definitions@));
        let ghost g3 = *self;
        proof {
            if ok {
                assert(g3.fits_directives(want.directives@) && g3.next_tokens(dt + sst, Set::<TokenKind>::empty())) by {
                    g2.lemma_advance(&g3, vt, dt + sst, Set::<TokenKind>::empty());
                    assert(sst[0] == punct(TokenKind::LCurly));
                    g3.lemma_next_tokens_front(dt, sst, Set::<TokenKind>::empty(), set![TokenKind::At, TokenKind::LParen]);
                }
            }
        }
        let directives = self.parse_directives(Constness::NotConst, Ghost(want.directives@));
        let ghost g4 = *self;
        proof {
            if ok {
                assert(g4.fits_selection_set(wss) && g4.next_kind() == Some(TokenKind::LCurly)) by {
                    g3.lemma_advance(&g4, dt, sst, Set::<TokenKind>::empty());
                    assert(sst[0] == punct(TokenKind::LCurly));
                }
            }
        }
        let selection_set = if self.at(TokenKind::LCurly) {
            Some(self.parse_selection_set_inner(Ghost(wss)))
        } else {
            self.err("expected a Selection Set");
            None
        };
        let r = OperationDefinition {
            description,
            operation_type,
            name,
            variable_definitions,
            directives,
            selection_set,
            span: self.span_from(start),
        };
        proof {
            if ok {
                old(self).lemma_read_chain(&g1, &g2);
                old(self).lemma_read_chain(&g2, &g3);
                old(self).lemma_read_chain(&g3, &g4);
                old(self).lemma_read_chain(&g4, &*self);
                assert(operation_tokens(r, false) =~= seq![kw] + after_kw);
                assert(old(self).read_until(&*self) =~= seq![kw] + after_kw);
            }
        }
        r
    }

    #[verifier::spinoff_prover]
    #[verifier::rlimit(60)]
    fn parse_fragment_definition(&mut self, description: Option<StringValue<'a>>, Ghost(want): Ghost<FragmentDefinition<'a>>) -> (r:
        FragmentDefinition<'a>)
        requires
            old(self).inv(),
            opt_string_value_wf(description, old(self).bytes()),
        ensures
            final(self).inv(),
            old(self).evolves_to(final(self)),
            definition_wf(Definition::Fragment(r), old(self).bytes()),
            definition_complete(Definition::Fragment(r)) || final(self).erred(),
            bytes_of(r.name.value) == bytes_of("on") ==> final(self).erred(),
            old(self).fits_fragment(want) && description is None ==> {
                &&& final(self).spec_errors() == old(self).spec_errors()
                &&& old(self).read_until(final(self)) == fragment_definition_tokens(want)
                &&& fragment_definition_tokens(r) == fragment_definition_tokens(want)
                &&& r.description is None
            },
            r.description == description,
            description matches Some(d) ==> r.span.start == d.span.start,
            description is None && old(self).has_next() ==> r.span.start == old(self).next_lexeme().start,
            ends_at(r.span, final(self).last_token_end()),
    {
        let ghost ok = old(self).fits_fragment(want) && description is None;
        let ghost kf = (TokenKind::Name, bytes_of("fragment"));
        let ghost t2 = fragment_tail_tokens(want);
        let ghost vt = variable_definitions_tokens(want.variable_definitions@);
        let ghost t1 = seq![name_token(want.name)] + (vt + t2);
        proof {
            if ok {
                reveal(fragment_ok);
                reveal(fragment_vars_ok);
                if !old(self).spec_flags().1 {
                    assert(want.variable_definitions@.len() == 0);
                }
            }
        }
        let start = self.definition_start(&description);
        let ghost g0 = *self;
        proof {
            if ok {
                assert(g0.next_tokens(seq![kf] + t1, Set::<TokenKind>::empty()) && g0.next_kind() == Some(TokenKind::Name)
                    && g0.next_text() == bytes_of("fragment")) by {
                    assert(fragment_definition_tokens(want) =~= seq![kf] + t1);
                    assert(g0.rest() == old(self).rest());
                    g0.lemma_head();
                    assert(g0.rest()[0] == (seq![kf] + t1)[0]);
                    assert(g0.next_token().1 == g0.next_text());
                }
            }
        }
        self.expect_name_value("fragment");
        let ghost g1 = *self;
        proof {
            if ok {
                assert(g1.next_tokens(t1, Set::<TokenKind>::empty()) && g1.next_kind() == Some(TokenKind::Name)
                    && g0.read_until(&g1) == seq![kf]) by {
                    g0.lemma_head();
                    g0.lemma_read_one(&g1, kf, t1, Set::<TokenKind>::empty());
                }
                assert(g1.next_text() != bytes_of("on")) by {
                    reveal(fragment_ok);
                    reveal(fragment_vars_ok);
                    g1.lemma_head();
                    assert(g1.rest()[0] == t1[0]);
                    assert(g1.next_token().1 == g1.next_text());
                }
            }
        }
        let named_on = self.at_keyword("on");
        if named_on {
            self.err("Fragment Name cannot be 'on'");
        }
        let ghost g1b = *self;
        let name = match self.parse_name() {
            Some(n) => n,
            None => self.missing_name(),
        };
        proof {
            if !self.erred() {
                g1b.lemma_rest(&*self);
                assert(g1b.rest()[0] == (TokenKind::Name, bytes_of(name.value)));
                g1b.lemma_head();
                assert(g1b.next_token().1 == g1b.next_text());
                assert(bytes_of(name.value) != bytes_of("on"));
            }
        }
        let ghost g2 = *self;
        proof {
            if ok {
                assert(g2.next_tokens(vt + t2, Set::<TokenKind>::empty()) && g1b.read_until(&g2) == seq![name_token(want.name)]
                    && (old(self).spec_flags().1 ==> g2.fits_variable_definitions(want.variable_definitions@))) by {
                    assert(g1b.rest() == g1.rest());
                    g1b.lemma_read_one(&g2, name_token(want.name), vt + t2, Set::<TokenKind>::empty());
                    reveal(fragment_ok);
                    reveal(fragment_vars_ok);
                    assert(t2[0] == (TokenKind::Name, bytes_of("on")));
                    g2.lemma_next_tokens_front(vt, t2, Set::<TokenKind>::empty(), set![TokenKind::LParen]);
                }
            }
        }
        let variable_definitions = if self.allow_legacy_fragment_variables {
            self.parse_variable_definitions_if_present(Ghost(want.variable_definitions@))
        } else {
            Vec::new()
        };
        let ghost g3 = *self;
        proof {
            if ok {
                assert(g3.next_tokens(t2, Set::<TokenKind>::empty()) && g2.read_until(&g3) == vt
                    && variable_definitions_tokens(variable_definitions@) == vt
                    && fragment_tail_ok(want, g3.room())) by {
                    reveal(fragment_ok);
                    reveal(fragment_vars_ok);
                    if !old(self).spec_flags().1 {
                        assert(vt =~= Seq::<(TokenKind, Seq<u8>)>::empty());
                        assert(variable_definitions@ =~= Seq::<VariableDefinition>::empty());
                        assert(variable_definitions_tokens(variable_definitions@) =~= Seq::<(TokenKind, Seq<u8>)>::empty());
                        assert(g2.read_until(&g3) =~= Seq::<(TokenKind, Seq<u8>)>::empty());
                    }
                    g2.lemma_advance(&g3, vt, t2, Set::<TokenKind>::empty());
                }
            }
        }
        let r = self.parse_fragment_tail(start, description, name, variable_definitions, Ghost(want));
        proof {
            if ok {
                assert(old(self).read_until(&*self) == fragment_definition_tokens(want)
                    && fragment_definition_tokens(r) == fragment_definition_tokens(want)) by {
                    old(self).lemma_read_chain(&g0, &g1);
                    old(self).lemma_read_chain(&g1, &g1b);
                    old(self).lemma_read_chain(&g1b, &g2);
                    old(self).lemma_read_chain(&g2, &g3);
                    old(self).lemma_read_chain(&g3, &*self);
                    assert(old(self).read_until(&g0) =~= Seq::<(TokenKind, Seq<u8>)>::empty());
                    assert(g1.read_until(&g1b) =~= Seq::<(TokenKind, Seq<u8>)>::empty());
                    assert(fragment_definition_tokens(r) =~= seq![kf, name_token(r.name)] + (vt + fragment_tail_tokens(r)));
                    assert(fragment_definition_tokens(want) =~= seq![kf] + t1);
                    assert(old(self).read_until(&*self) =~= seq![kf] + t1);
                }
            }
        }
        r
    }

    /// A fragment definition from its `on` on, with its start, description,
    /// name and variable definitions already read.
    #[verifier::spinoff_prover]
    #[verifier::rlimit(100)]
    fn parse_fragment_tail(
        &mut self,
        start: usize,
        description: Option<StringValue<'a>>,
        name: Name<'a>,
        variable_definitions: Vec<VariableDefinition<'a>>,
        Ghost(want): Ghost<FragmentDefinition<'a>>,
    ) -> (r: FragmentDefinition<'a>)
        requires
            old(self).inv(),
            start <= old(self).bytes().len(),
            opt_string_value_wf(description, old(self).bytes()),
            name_wf(name, old(self).bytes()),
            variable_definitions_wf(variable_definitions@, old(self).bytes()),
            (name_complete(name) && variable_definitions_complete(variable_definitions@)) || old(self).erred(),
        ensures
            final(self).inv(),
            old(self).evolves_to(final(self)),
            definition_wf(Definition::Fragment(r), old(self).bytes()),
            definition_complete(Definition::Fragment(r)) || final(self).erred(),
            r.name == name,
            r.description == description,
            old(self).next_tokens(fragment_tail_tokens(want), Set::empty()) && fragment_tail_ok(want, old(self).room()) ==> {
                &&& final(self).spec_errors() == old(self).spec_errors()
                &&& old(self).read_until(final(self)) == fragment_tail_tokens(want)
                &&& fragment_tail_tokens(r) == fragment_tail_tokens(want)
            },
            r.span.start == start,
            r.variable_definitions@ == variable_definitions@,
            ends_at(r.span, final(self).last_token_end()),
    {
        let ghost ok = old(self).next_tokens(fragment_tail_tokens(want), Set::empty()) && fragment_tail_ok(want, old(self).room());
        let ghost wss = want.selection_set->0;
        let ghost dt = directives_tokens(want.directives@);
        let ghost sst = selection_set_tokens(wss);
        let ghost kon = (TokenKind::Name, bytes_of("on"));
        let ghost t3 = seq![name_token(want.type_condition.name)] + (dt + sst);
        let ghost g3 = *self;
        proof {
            if ok {
                assert(want.selection_set is Some) by {
                }
                assert(opt_selection_set_tokens(want.selection_set) == sst);
                assert(fragment_tail_tokens(want) =~= seq![kon] + t3);
                assert(sst[0] == punct(TokenKind::LCurly));
                assert(g3.next_kind() == Some(TokenKind::Name) && g3.next_text() == bytes_of("on")) by {
                    g3.lemma_head();
                    assert(g3.rest()[0] == fragment_tail_tokens(want)[0]);
                    assert(g3.rest()[0] == kon);
                    assert(g3.next_token().1 == g3.next_text());
                }
            }
        }
        self.expect_name_value("on");
        let ghost g4 = *self;
        proof {
            if ok {
                assert(g4.next_tokens(t3, Set::<TokenKind>::empty()) && g4.next_kind() == Some(TokenKind::Name)) by {
                    g3.lemma_head();
                    assert(g3.rest()[0] == fragment_tail_tokens(want)[0]);
                    g3.lemma_read_one(&g4, kon, t3, Set::<TokenKind>::empty());
                }
            }
        }
        let type_condition = match self.parse_named_type() {
            Some(t) => t,
            None => self.missing_named_type(),
        };
        let ghost g5 = *self;
        proof {
            if ok {
                assert(g5.fits_directives(want.directives@) && g5.next_tokens(dt + sst, Set::<TokenKind>::empty())
                    && g4.read_until(&g5) == seq![name_token(want.type_condition.name)]) by {
                    g4.lemma_read_one(&g5, name_token(want.type_condition.name), dt + sst, Set::<TokenKind>::empty());
                    g5.lemma_next_tokens_front(dt, sst, Set::<TokenKind>::empty(), set![TokenKind::At, TokenKind::LParen]);
                }
            }
        }
        let directives = self.parse_directives(Constness::NotConst, Ghost(want.directives@));
        let ghost g6 = *self;
        proof {
            if ok {
                assert(g6.fits_selection_set(wss) && g6.next_kind() == Some(TokenKind::LCurly)) by {
                    g5.lemma_advance(&g6, dt, sst, Set::<TokenKind>::empty());
                }
            }
        }
        let selection_set = if self.at(TokenKind::LCurly) {
            Some(self.parse_selection_set_inner(Ghost(wss)))
        } else {
            self.err("expected a Selection Set");
            None
        };
        let r = FragmentDefinition {
            description,
            name,
            variable_definitions,
            type_condition,
            directives,
            selection_set,
            span: self.span_from(start),
        };
        proof {
            if ok {
                old(self).lemma_read_chain(&g4, &g5);
                old(self).lemma_read_chain(&g5, &g6);
                old(self).lemma_read_chain(&g6, &*self);
                assert(old(self).read_until(&g4) == seq![kon]);
                assert(fragment_tail_tokens(r) =~= seq![kon] + t3);
                assert(old(self).read_until(&*self) =~= seq![kon] + t3);
            }
        }
        r
    }

    // -----------------------------------------------------------------------
    // Type system definitions
    fn parse_schema_definition(&mut self, description: Option<StringValue<'a>>) -> (r:
        SchemaDefinition<'a>)
        requires
            old(self).inv(),
            opt_string_value_wf(description, old(self).bytes()),
        ensures
            final(self).inv(),
            old(self).evolves_to(final(self)),
            definition_wf(Definition::Schema(r), old(self).bytes()),
            definition_complete(Definition::Schema(r)) || final(self).erred(),
    {
        let start = self.definition_start(&description);
        self.expect_name_value("schema");
        let directives = self.parse_directives(Constness::Const, Ghost(Seq::empty()));
        let root_operations = self.parse_root_operation_types_if_present();
        SchemaDefinition { description, directives, root_operations, span: self.span_from(start) }
    }

    fn parse_schema_extension_from(&mut self, start: usize) -> (r: SchemaExtension<'a>)
        requires
            old(self).inv(),
            start <= old(self).bytes().len(),
        ensures
            final(self).inv(),
            old(self).evolves_to(final(self)),
            definition_wf(Definition::SchemaExtension(r), old(self).bytes()),
            definition_complete(Definition::SchemaExtension(r)) || final(self).erred(),
            r.directives@.len() == 0 && r.root_operations@.len() == 0 ==> final(self).erred(),
    {
        self.expect_name_value("schema");
        let directives = self.parse_directives(Constness::Const, Ghost(Seq::empty()));
        let root_operations = self.parse_root_operation_types_if_present();
        if directives.len() == 0 && root_operations.len() == 0 {
            self.err("expected Directives or Root Operation Types");
        }
        SchemaExtension { directives, root_operations, span: self.span_from(start) }
    }

    fn parse_root_operation_types_if_present(&mut self) -> (r: Vec<RootOperationTypeDefinition<'a>>)
        requires
            old(self).inv(),
        ensures
            final(self).inv(),
            old(self).evolves_to(final(self)),
            root_operations_wf(r@, old(self).bytes()),
            root_operations_complete(r@) || final(self).erred(),
            old(self).next_kind() != Some(TokenKind::LCurly) ==> r@.len() == 0 && final(self).next_index()
                == old(self).next_index(),
            old(self).next_kind() == Some(TokenKind::LCurly) && !final(self).erred() ==> old(self).read_until(
                final(self),
            ) == seq![punct(TokenKind::LCurly)] + root_operation_list_tokens(r@) + seq![
                punct(TokenKind::RCurly),
            ],
            old(self).next_kind() == Some(TokenKind::LCurly) ==> old(self).advanced(final(self)),
    {
        let mut root_operations: Vec<RootOperationTypeDefinition<'a>> = Vec::new();
        if !self.at(TokenKind::LCurly) {
            return root_operations;
        }
        let ghost g = *self;
        self.bump();
        proof {
            g.lemma_next();
            old(self).lemma_read_chain(&g, &*self);
            assert(root_operation_list_tokens(root_operations@) =~= Seq::<(TokenKind, Seq<u8>)>::empty());
            assert(old(self).read_until(&*self) =~= seq![punct(TokenKind::LCurly)] + root_operation_list_tokens(root_operations@));
        }
        loop
            invariant_except_break
                !self.erred() ==> old(self).read_until(self) == seq![punct(TokenKind::LCurly)]
                    + root_operation_list_tokens(root_operations@),
            invariant
                self.inv(),
                old(self).evolves_to(self),
                old(self).advanced(self),
                root_operations_wf(root_operations@, old(self).bytes()),
                root_operations_complete(root_operations@) || self.erred(),
            ensures
                self.inv(),
                old(self).evolves_to(self),
                old(self).advanced(self),
                root_operations_wf(root_operations@, old(self).bytes()),
                root_operations_complete(root_operations@) || self.erred(),
                !self.erred() ==> old(self).read_until(self) == seq![punct(TokenKind::LCurly)]
                    + root_operation_list_tokens(root_operations@) + seq![punct(TokenKind::RCurly)],
            decreases self.rank(),
        {
            let kind = match self.peek() {
                Some(k) => k,
                None => {
                    proof {
                        self.lemma_exhausted_has_errors();
                    }
                    break ;
                },
            };
            let ghost g0 = *self;
            if kind == TokenKind::RCurly {
                self.bump();
                proof {
                    if !self.erred() {
                        g0.lemma_next();
                        old(self).lemma_read_chain(&g0, &*self);
                    }
                }
                break ;
            } else if kind == TokenKind::Name {
                let definition = self.parse_root_operation_type_definition();
                let ghost before = root_operations@;
                root_operations.push(definition);
                proof {
                    if !self.erred() {
                        old(self).lemma_read_chain(&g0, &*self);
                        assert(root_operations@.drop_last() =~= before);
                        assert(old(self).read_until(&*self) =~= seq![punct(TokenKind::LCurly)]
                            + root_operation_list_tokens(root_operations@));
                    }
                }
            } else if kind == TokenKind::Eof {
                self.err("expected }");
                break ;
            } else {
                self.err_and_pop("expected Root Operation Type Definition");
            }
        }
        root_operations
    }

    fn parse_root_operation_type_definition(&mut self) -> (r: RootOperationTypeDefinition<'a>)
        requires
            old(self).inv(),
        ensures
            final(self).inv(),
            old(self).evolves_to(final(self)),
            name_wf(r.named_type.name, old(self).bytes()) && span_in(r.span, old(self).bytes()),
            name_complete(r.named_type.name) || final(self).erred(),
            old(self).next_kind() == Some(TokenKind::Name) ==> old(self).advanced(final(self)),
            !final(self).erred() ==> old(self).read_until(final(self)) == root_operation_tokens(r),
            old(self).next_kind() == Some(TokenKind::Name) && old(self).next_text() == bytes_of("query")
                ==> r.operation_type is Query,
            old(self).next_kind() == Some(TokenKind::Name) && old(self).next_text() == bytes_of("mutation")
                ==> r.operation_type is Mutation,
            old(self).next_kind() == Some(TokenKind::Name) && old(self).next_text() == bytes_of("subscription")
                ==> r.operation_type is Subscription,
    {
        let start = self.current_start();
        let ghost g0 = *self;
        proof {
            g0.lemma_next();
            lemma_keywords_differ();
            if g0.next_kind() == Some(TokenKind::Name) {
                assert(g0.next_token().1 == g0.next_text());
            }
        }
        let operation_type = if self.at_keyword("query") {
            self.bump();
            OperationType::Query
        } else if self.at_keyword("mutation") {
            self.bump();
            OperationType::Mutation
        } else if self.at_keyword("subscription") {
            self.bump();
            OperationType::Subscription
        } else {
            self.err("expected an Operation Type");
            OperationType::Query
        };
        let ghost g1 = *self;
        proof {
            g1.lemma_next();
        }
        self.expect(TokenKind::Colon, "expected :");
        let ghost g2 = *self;
        let named_type = match self.parse_named_type() {
            Some(t) => t,
            None => self.missing_named_type(),
        };
        let r = RootOperationTypeDefinition { operation_type, named_type, span: self.span_from(start) };
        proof {
            if !self.erred() {
                old(self).lemma_read_chain(&g0, &g1);
                old(self).lemma_read_chain(&g1, &g2);
                old(self).lemma_read_chain(&g2, &*self);
                assert(old(self).read_until(&g0) =~= Seq::<(TokenKind, Seq<u8>)>::empty());
                assert(g0.read_until(&g1) == seq![operation_keyword(operation_type)]);
                assert(g1.read_until(&g2) == seq![punct(TokenKind::Colon)]);
                assert(old(self).read_until(&*self) =~= root_operation_tokens(r));
            }
        }
        r
    }

    fn parse_directive_definition(&mut self, description: Option<StringValue<'a>>) -> (r:
        DirectiveDefinition<'a>)
        requires
            old(self).inv(),
            opt_string_value_wf(description, old(self).bytes()),
        ensures
            final(self).inv(),
            old(self).evolves_to(final(self)),
            definition_wf(Definition::Directive(r), old(self).bytes()),
            definition_complete(Definition::Directive(r)) || final(self).erred(),
            !final(self).erred() ==> exists|lead: bool|
                #![trigger locations_tokens(r.locations@, lead)]
                {
                    let read = old(self).read_until(final(self));
                    let k = read.len() - locations_tokens(r.locations@, lead).len() - 1;
                    &&& 2 <= k < read.len()
                    &&& read[k] == (TokenKind::Name, bytes_of("on"))
                    &&& read.subrange(k + 1, read.len() as int) == locations_tokens(r.locations@, lead)
                    &&& (r.repeatable <==> (read[k - 1] == (TokenKind::Name, bytes_of("repeatable")) && read[k
                        - 2].0 != TokenKind::At))
                },
    {
        let start = self.definition_start(&description);
        let ghost g0 = *self;
        self.expect_name_value("directive");
        let ghost g1 = *self;
        self.expect(TokenKind::At, "expected @ symbol");
        let ghost g2 = *self;
        let name = match self.parse_name() {
            Some(n) => n,
            None => self.missing_name(),
        };
        let ghost g3 = *self;
        let arguments = self.parse_arguments_definition_if_present(Ghost(Seq::empty()));
        let ghost g4 = *self;
        let repeatable = if self.at_keyword("repeatable") {
            let ghost h = *self;
            self.bump();
            proof {
                h.lemma_next();
                if h.next_kind() == Some(TokenKind::Name) {
                    assert(h.next_token().1 == h.next_text());
                }
            }
            true
        } else {
            false
        };
        let ghost g5 = *self;
        self.expect_name_value("on");
        let ghost g6 = *self;
        let locations = self.parse_directive_locations();
        let r = DirectiveDefinition {
            description,
            name,
            arguments,
            repeatable,
            locations,
            span: self.span_from(start),
        };
        proof {
            if !self.erred() {
                g1.lemma_next();
                g5.lemma_next();
                if g5.next_kind() == Some(TokenKind::Name) {
                    assert(g5.next_token().1 == g5.next_text());
                }
                old(self).lemma_read_chain(&g0, &g1);
                old(self).lemma_read_chain(&g1, &g2);
                old(self).lemma_read_chain(&g2, &g3);
                old(self).lemma_read_chain(&g3, &g4);
                old(self).lemma_read_chain(&g4, &g5);
                old(self).lemma_read_chain(&g5, &g6);
                old(self).lemma_read_chain(&g6, &*self);
                assert(old(self).read_until(&g0) =~= Seq::<(TokenKind, Seq<u8>)>::empty());
                let lead = choose|lead: bool| g6.read_until(&*self) == locations_tokens(r.locations@, lead);
                let p3 = old(self).read_until(&g3);
                let dd = g3.read_until(&g4);
                let e = g4.read_until(&g5);
                let f = g5.read_until(&g6);
                let gl = g6.read_until(&*self);
                let read = old(self).read_until(&*self);
                assert(p3.len() == 3);
                assert(p3[1].0 == TokenKind::At);
                assert(p3[2].0 == TokenKind::Name);
                assert(f == seq![(TokenKind::Name, bytes_of("on"))]);
                assert(repeatable ==> e == seq![(TokenKind::Name, bytes_of("repeatable"))]);
                assert(!repeatable ==> e =~= Seq::<(TokenKind, Seq<u8>)>::empty());
                assert(dd.len() > 0 ==> dd.last() == punct(TokenKind::RParen));
                let pre = p3 + dd + e;
                assert(read =~= pre + f + gl);
                let k = read.len() - gl.len() - 1;
                assert(k == pre.len());
                assert(read[k] == f[0]);
                assert(read.subrange(k + 1, read.len() as int) =~= gl);
                assert(read[k - 1] == pre[pre.len() - 1]);
                assert(read[k - 2] == pre[pre.len() - 2]);
                if repeatable {
                    assert(pre[pre.len() - 1] == e[0]);
                    if dd.len() > 0 {
                        assert(pre[pre.len() - 2] == dd.last());
                    } else {
                        assert(pre[pre.len() - 2] == p3[2]);
                    }
                } else {
                    if dd.len() > 0 {
                        assert(pre[pre.len() - 1] == dd.last());
                    } else {
                        assert(pre[pre.len() - 1] == p3[2]);
                        assert(pre[pre.len() - 2] == p3[1]);
                    }
                }
            }
        }
        r
    }

    fn parse_directive_locations(&mut self) -> (r: Vec<DirectiveLocation<'a>>)
        requires
            old(self).inv(),
        ensures
            final(self).inv(),
            old(self).evolves_to(final(self)),
            directive_locations_wf(r@, old(self).bytes()),
            !final(self).erred() ==> r@.len() > 0 && (old(self).read_until(final(self))
                == locations_tokens(r@, false) || old(self).read_until(final(self))
                == locations_tokens(r@, true)),
    {
        let ghost mut lead = false;
        if self.at(TokenKind::Pipe) {
            let ghost g = *self;
            self.bump();
            proof {
                lead = true;
                old(self).lemma_read_chain(&g, &*self);
            }
        }
        let mut locations: Vec<DirectiveLocation<'a>> = Vec::new();
        proof {
            assert(joined_locations(locations@) =~= Seq::<(TokenKind, Seq<u8>)>::empty());
            assert(old(self).read_until(&*self) =~= locations_tokens(locations@, lead));
        }
        loop
            invariant_except_break
                !self.erred() ==> old(self).read_until(self) == locations_tokens(locations@, lead) + (
                if locations@.len() > 0 {
                    seq![punct(TokenKind::Pipe)]
                } else {
                    Seq::<(TokenKind, Seq<u8>)>::empty()
                }),
            invariant
                self.inv(),
                old(self).evolves_to(self),
                directive_locations_wf(locations@, old(self).bytes()),
            ensures
                self.inv(),
                old(self).evolves_to(self),
                directive_locations_wf(locations@, old(self).bytes()),
                !self.erred() ==> locations@.len() > 0 && old(self).read_until(self)
                    == locations_tokens(locations@, lead),
            decreases self.rank(),
        {
            let ghost g0 = *self;
            match self.peek_token() {
                Some(token) => {
                    if token.kind == TokenKind::Name {
                        let ghost g1 = *self;
                        self.bump();
                        let end = token.index + token.data.len();
                        let ghost before = locations@;
                        let loc = DirectiveLocation {
                            name: token.data,
                            span: Span::new(token.index as u32, end as u32),
                        };
                        locations.push(loc);
                        proof {
                            if !self.erred() {
                                g0.lemma_next();
                                old(self).lemma_read_chain(&g0, &g1);
                                old(self).lemma_read_chain(&g1, &*self);
                                assert(g1.next_token() == (TokenKind::Name, bytes_of(loc.name)));
                                if before.len() > 0 {
                                    assert(locations@.drop_last() =~= before);
                                    assert(joined_locations(locations@) =~= joined_locations(before) + seq![
                                        punct(TokenKind::Pipe),
                                        (TokenKind::Name, bytes_of(loc.name)),
                                    ]);
                                } else {
                                    assert(locations@ =~= seq![loc]);
                                    assert(joined_locations(locations@) =~= seq![(TokenKind::Name, bytes_of(loc.name))]);
                                }
                                assert(old(self).read_until(&*self) =~= locations_tokens(locations@, lead));
                            }
                        }
                    } else {
                        self.err("expected valid Directive Location");
                        break ;
                    }
                },
                None => {
                    self.err("expected valid Directive Location");
                    break ;
                },
            }
            let ghost g2 = *self;
            if self.at(TokenKind::Pipe) {
                self.bump();
                proof {
                    if !self.erred() {
                        old(self).lemma_read_chain(&g2, &*self);
                    }
                }
            } else {
                break ;
            }
        }
        locations
    }

    fn parse_scalar_type_definition(&mut self, description: Option<StringValue<'a>>) -> (r:
        ScalarTypeDefinition<'a>)
        requires
            old(self).inv(),
            opt_string_value_wf(description, old(self).bytes()),
        ensures
            final(self).inv(),
            old(self).evolves_to(final(self)),
            definition_wf(Definition::ScalarType(r), old(self).bytes()),
            definition_complete(Definition::ScalarType(r)) || final(self).erred(),
    {
        let start = self.definition_start(&description);
        self.expect_name_value("scalar");
        let name = match self.parse_name() {
            Some(n) => n,
            None => self.missing_name(),
        };
        let directives = self.parse_directives(Constness::Const, Ghost(Seq::empty()));
        ScalarTypeDefinition { description, name, directives, span: self.span_from(start) }
    }

    fn parse_scalar_type_extension_from(&mut self, start: usize, Ghost(want): Ghost<ScalarTypeExtension<'a>>) -> (r:
        ScalarTypeExtension<'a>)
        requires
            old(self).inv(),
            start <= old(self).bytes().len(),
        ensures
            final(self).inv(),
            old(self).evolves_to(final(self)),
            definition_wf(Definition::ScalarTypeExtension(r), old(self).bytes()),
            definition_complete(Definition::ScalarTypeExtension(r)) || final(self).erred(),
            old(self).next_kind() == Some(TokenKind::Name) && old(self).next_text() == bytes_of("scalar") && old(self).rest().len() > 1
                && old(self).rest()[1].0 == TokenKind::Name ==> bytes_of(r.name.value) == old(self).rest()[1].1,
            r.directives@.len() == 0 ==> final(self).erred(),
            old(self).next_tokens(scalar_extension_tokens(want), set![TokenKind::At, TokenKind::LParen])
                && scalar_extension_ok(want, old(self).room()) ==> {
                &&& final(self).spec_errors() == old(self).spec_errors()
                &&& old(self).read_until(final(self)) == scalar_extension_tokens(want)
                &&& scalar_extension_tokens(r) == scalar_extension_tokens(want)
            },
    {
        let ghost hyp = old(self).next_kind() == Some(TokenKind::Name) && old(self).next_text() == bytes_of("scalar") && old(self).rest().len() > 1 && old(self).rest()[1].0 == TokenKind::Name;
        let ghost av = set![TokenKind::At, TokenKind::LParen];
        let ghost ok = old(self).next_tokens(scalar_extension_tokens(want), av) && scalar_extension_ok(want, old(self).room());
        let ghost kw = (TokenKind::Name, bytes_of("scalar"));
        let ghost dt = directives_tokens(want.directives@);
        let ghost g0 = *self;
        proof {
            if ok {
                assert(scalar_extension_tokens(want) =~= seq![kw] + (seq![name_token(want.name)] + dt));
                g0.lemma_head();
                assert(g0.rest()[0] == scalar_extension_tokens(want)[0]);
                assert(g0.next_token().1 == g0.next_text());
            }
        }
        self.expect_name_value("scalar");
        let ghost g1 = *self;
        proof {
            if hyp {
                g0.lemma_head();
                g0.lemma_rest(&g1);
                assert(g0.rest()[1] == g1.rest()[0]);
                g1.lemma_head();
            }
            if ok {
                g0.lemma_read_one(&g1, kw, seq![name_token(want.name)] + dt, av);
            }
        }
        let name = match self.parse_name() {
            Some(n) => n,
            None => self.missing_name(),
        };
        let ghost g2 = *self;
        proof {
            if hyp {
                g1.lemma_rest(&*self);
                assert(g1.rest()[0] == g1.read_until(&*self)[0]);
            }
            if ok {
                g1.lemma_read_one(&g2, name_token(want.name), dt, av);
            }
        }
        let directives = self.parse_directives(Constness::Const, Ghost(want.directives@));
        proof {
            if ok {
                lemma_directives_first(want.directives@);
                assert(directives_tokens(directives@).len() > 0);
                assert(directives@.len() > 0);
            }
        }
        if directives.len() == 0 {
            self.err("expected Directives");
        }
        let r = ScalarTypeExtension { name, directives, span: self.span_from(start) };
        proof {
            if ok {
                old(self).lemma_read_chain(&g1, &g2);
                old(self).lemma_read_chain(&g2, &*self);
                assert(old(self).read_until(&*self) =~= scalar_extension_tokens(want));
                assert(scalar_extension_tokens(r) =~= scalar_extension_tokens(want));
            }
        }
        r
    }

    #[verifier::spinoff_prover]
    #[verifier::rlimit(60)]
    fn parse_object_type_definition(
        &mut self,
        description: Option<StringValue<'a>>,
        Ghost(want): Ghost<ObjectTypeDefinition<'a>>,
    ) -> (r: ObjectTypeDefinition<'a>)
        requires
            old(self).inv(),
            opt_string_value_wf(description, old(self).bytes()),
        ensures
            final(self).inv(),
            old(self).evolves_to(final(self)),
            definition_wf(Definition::ObjectType(r), old(self).bytes()),
            definition_complete(Definition::ObjectType(r)) || final(self).erred(),
            old(self).fits_object(want) && description is None ==> {
                &&& final(self).spec_errors() == old(self).spec_errors()
                &&& old(self).read_until(final(self)) == object_definition_tokens(want)
                &&& object_definition_tokens(r) == object_definition_tokens(want)
                &&& r.description is None
                &&& r.interfaces@.len() == 0
            },
    {
        let ghost ok = old(self).fits_object(want) && description is None;
        let ghost kw = (TokenKind::Name, bytes_of("type"));
        let ghost dt = directives_tokens(want.directives@);
        let ghost ft = seq![punct(TokenKind::LCurly)] + field_definition_list_tokens(want.fields@) + seq![
            punct(TokenKind::RCurly),
        ];
        let ghost after_kw = seq![name_token(want.name)] + (dt + ft);
        let start = self.definition_start(&description);
        let ghost g1 = *self;
        proof {
            if ok {
                assert(object_definition_tokens(want) =~= seq![kw] + after_kw);
                assert(g1.rest() == old(self).rest());
                g1.lemma_head();
                assert(g1.rest()[0] == object_definition_tokens(want)[0]);
                assert(object_definition_tokens(want)[0] == kw);
                assert(g1.next_token().1 == g1.next_text());
            }
        }
        self.expect_name_value("type");
        let ghost g2 = *self;
        proof {
            if ok {
                g1.lemma_read_one(&g2, kw, after_kw, Set::empty());
            }
        }
        let name = match self.parse_name() {
            Some(n) => n,
            None => self.missing_name(),
        };
        let ghost g3 = *self;
        proof {
            if ok {
                g2.lemma_read_one(&g3, name_token(want.name), dt + ft, Set::empty());
                lemma_directives_first(want.directives@);
                if dt.len() > 0 {
                    assert((dt + ft)[0] == dt[0]);
                } else {
                    assert((dt + ft)[0] == ft[0]);
                }
                assert(ft[0] == punct(TokenKind::LCurly));
                assert(g3.next_kind() != Some(TokenKind::Name));
            }
        }
        let interfaces = self.parse_implements_interfaces();
        let ghost g3b = *self;
        proof {
            if ok {
                assert(g3.read_until(&g3b) =~= Seq::<(TokenKind, Seq<u8>)>::empty());
                assert(g3b.rest() == g3.rest());
                assert(ft.len() > 0);
                g3b.lemma_next_tokens_front(dt, ft, Set::empty(), set![TokenKind::At, TokenKind::LParen]);
            }
        }
        let directives = self.parse_directives(Constness::Const, Ghost(want.directives@));
        let ghost g4 = *self;
        proof {
            if ok {
                g3b.lemma_advance(&g4, dt, ft, Set::empty());
                assert(g4.fits_fields(want.fields@));
            }
        }
        let fields = self.parse_fields_definition_if_present(Ghost(want.fields@));
        let r = ObjectTypeDefinition {
            description,
            name,
            interfaces,
            directives,
            fields,
            span: self.span_from(start),
        };
        proof {
            if ok {
                old(self).lemma_read_chain(&g1, &g2);
                old(self).lemma_read_chain(&g2, &g3);
                old(self).lemma_read_chain(&g3, &g3b);
                old(self).lemma_read_chain(&g3b, &g4);
                old(self).lemma_read_chain(&g4, &*self);
                assert(old(self).read_until(&g1) =~= Seq::<(TokenKind, Seq<u8>)>::empty());
                assert(old(self).read_until(&*self) =~= object_definition_tokens(want));
                assert(object_definition_tokens(r) =~= object_definition_tokens(want));
            }
        }
        r
    }

    #[verifier::spinoff_prover]
    #[verifier::rlimit(60)]
    fn parse_object_type_extension_from(&mut self, start: usize, Ghost(want): Ghost<ObjectTypeExtension<'a>>) -> (r: ObjectTypeExtension<'a>)
        requires
            old(self).inv(),
            start <= old(self).bytes().len(),
        ensures
            final(self).inv(),
            old(self).evolves_to(final(self)),
            definition_wf(Definition::ObjectTypeExtension(r), old(self).bytes()),
            definition_complete(Definition::ObjectTypeExtension(r)) || final(self).erred(),
            r.interfaces@.len() == 0 && r.directives@.len() == 0 && r.fields@.len() == 0 ==> final(self).erred(),
            old(self).next_kind() == Some(TokenKind::Name) && old(self).next_text() == bytes_of("type") && old(self).rest().len() > 1
                && old(self).rest()[1].0 == TokenKind::Name ==> bytes_of(r.name.value) == old(self).rest()[1].1,
            old(self).next_tokens(
                fields_extension_tokens("type", want.name, want.directives@, want.fields@),
                fields_extension_follow(want.fields@),
            ) && fields_extension_ok(want.name, want.interfaces@, want.directives@, want.fields@, old(self).room()) ==> {
                &&& final(self).spec_errors() == old(self).spec_errors()
                &&& old(self).read_until(final(self)) == fields_extension_tokens("type", want.name, want.directives@, want.fields@)
                &&& fields_extension_tokens("type", r.name, r.directives@, r.fields@) == fields_extension_tokens(
                    "type",
                    want.name,
                    want.directives@,
                    want.fields@,
                )
                &&& r.interfaces@.len() == 0
            },
    {
        let ghost hyp = old(self).next_kind() == Some(TokenKind::Name) && old(self).next_text() == bytes_of("type") && old(self).rest().len() > 1 && old(self).rest()[1].0 == TokenKind::Name;
        let ghost av = fields_extension_follow(want.fields@);
        let ghost ok = old(self).next_tokens(
            fields_extension_tokens("type", want.name, want.directives@, want.fields@),
            av,
        ) && fields_extension_ok(want.name, want.interfaces@, want.directives@, want.fields@, old(self).room());
        let ghost kwt = (TokenKind::Name, bytes_of("type"));
        let ghost dt = directives_tokens(want.directives@);
        let ghost ft = fields_block_tokens(want.fields@);
        let ghost after_kw = seq![name_token(want.name)] + (dt + ft);
        let ghost g0 = *self;
        proof {
            if ok {
                assert(fields_extension_tokens("type", want.name, want.directives@, want.fields@) =~= seq![kwt] + after_kw);
                g0.lemma_head();
                assert(g0.rest()[0] == (seq![kwt] + after_kw)[0]);
                assert(g0.next_token().1 == g0.next_text());
            }
        }
        self.expect_name_value("type");
        let ghost g1 = *self;
        proof {
            if ok {
                g0.lemma_read_one(&g1, kwt, after_kw, av);
            }
        }
        proof {
            if hyp {
                g0.lemma_head();
                g0.lemma_rest(&g1);
                assert(g0.rest()[1] == g1.rest()[0]);
                g1.lemma_head();
            }
        }
        let name = match self.parse_name() {
            Some(n) => n,
            None => self.missing_name(),
        };
        let ghost g2 = *self;
        proof {
            if hyp {
                g1.lemma_rest(&*self);
                assert(g1.rest()[0] == g1.read_until(&*self)[0]);
            }
            if ok {
                g1.lemma_read_one(&g2, name_token(want.name), dt + ft, av);
                lemma_directives_first(want.directives@);
                if dt.len() > 0 {
                    assert((dt + ft)[0] == dt[0]);
                } else if ft.len() > 0 {
                    assert((dt + ft)[0] == ft[0]);
                }
                if ft.len() > 0 {
                    assert(ft[0] == punct(TokenKind::LCurly));
                }
                assert(g2.next_kind() != Some(TokenKind::Name));
            }
        }
        let interfaces = self.parse_implements_interfaces();
        let ghost g3 = *self;
        proof {
            if ok {
                assert(g2.read_until(&g3) =~= Seq::<(TokenKind, Seq<u8>)>::empty());
                assert(g3.rest() == g2.rest());
                g3.lemma_next_tokens_front(dt, ft, av, set![TokenKind::At, TokenKind::LParen]);
            }
        }
        let directives = self.parse_directives(Constness::Const, Ghost(want.directives@));
        let ghost g4 = *self;
        proof {
            if ok {
                g3.lemma_advance(&g4, dt, ft, av);
                if want.fields@.len() > 0 {
                    assert(ft =~= seq![punct(TokenKind::LCurly)] + field_definition_list_tokens(want.fields@) + seq![
                        punct(TokenKind::RCurly),
                    ]);
                    assert(g4.fits_fields(want.fields@));
                } else {
                    assert(ft =~= Seq::<(TokenKind, Seq<u8>)>::empty());
                    assert(g4.next_kind() != Some(TokenKind::LCurly));
                }
            }
        }
        let fields = self.parse_fields_definition_if_present(Ghost(want.fields@));
        proof {
            if ok {
                lemma_directives_first(want.directives@);
                if want.directives@.len() > 0 {
                    assert(directives_tokens(directives@).len() > 0);
                    assert(directives@.len() > 0);
                }
                if want.fields@.len() > 0 {
                    lemma_fields_tail(want.fields@, 0, old(self).room());
                    assert(want.fields@.skip(0) =~= want.fields@);
                    assert(field_definition_list_tokens(want.fields@).len() > 0);
                    assert(fields@.len() > 0);
                } else {
                    assert(fields@.len() == 0);
                }
            }
        }
        if interfaces.len() == 0 && directives.len() == 0 && fields.len() == 0 {
            self.err("expected Implements Interfaces, Directives, or Fields Definition");
        }
        let r = ObjectTypeExtension { name, interfaces, directives, fields, span: self.span_from(start) };
        proof {
            if ok {
                old(self).lemma_read_chain(&g1, &g2);
                old(self).lemma_read_chain(&g2, &g3);
                old(self).lemma_read_chain(&g3, &g4);
                old(self).lemma_read_chain(&g4, &*self);
                if want.fields@.len() == 0 {
                    assert(g4.read_until(&*self) =~= Seq::<(TokenKind, Seq<u8>)>::empty());
                }
                assert(fields_block_tokens(fields@) =~= ft);
                assert(old(self).read_until(&*self) =~= fields_extension_tokens("type", want.name, want.directives@, want.fields@));
                assert(fields_extension_tokens("type", r.name, r.directives@, r.fields@) =~= fields_extension_tokens(
                    "type",
                    want.name,
                    want.directives@,
                    want.fields@,
                ));
            }
        }
        r
    }

    fn parse_interface_type_definition(&mut self, description: Option<StringValue<'a>>) -> (r:
        InterfaceTypeDefinition<'a>)
        requires
            old(self).inv(),
            opt_string_value_wf(description, old(self).bytes()),
        ensures
            final(self).inv(),
            old(self).evolves_to(final(self)),
            definition_wf(Definition::InterfaceType(r), old(self).bytes()),
            definition_complete(Definition::InterfaceType(r)) || final(self).erred(),
    {
        let start = self.definition_start(&description);
        self.expect_name_value("interface");
        let name = match self.parse_name() {
            Some(n) => n,
            None => self.missing_name(),
        };
        let interfaces = self.parse_implements_interfaces();
        let directives = self.parse_directives(Constness::Const, Ghost(Seq::empty()));
        let fields = self.parse_fields_definition_if_present(Ghost(Seq::empty()));
        InterfaceTypeDefinition {
            description,
            name,
            interfaces,
            directives,
            fields,
            span: self.span_from(start),
        }
    }

    #[verifier::spinoff_prover]
    #[verifier::rlimit(60)]
    fn parse_interface_type_extension_from(&mut self, start: usize, Ghost(want): Ghost<InterfaceTypeExtension<'a>>) -> (r: InterfaceTypeExtension<
        'a,
    >)
        requires
            old(self).inv(),
            start <= old(self).bytes().len(),
        ensures
            final(self).inv(),
            old(self).evolves_to(final(self)),
            definition_wf(Definition::InterfaceTypeExtension(r), old(self).bytes()),
            definition_complete(Definition::InterfaceTypeExtension(r)) || final(self).erred(),
            r.interfaces@.len() == 0 && r.directives@.len() == 0 && r.fields@.len() == 0 ==> final(self).erred(),
            old(self).next_kind() == Some(TokenKind::Name) && old(self).next_text() == bytes_of("interface") && old(self).rest().len() > 1
                && old(self).rest()[1].0 == TokenKind::Name ==> bytes_of(r.name.value) == old(self).rest()[1].1,
            old(self).next_tokens(
                fields_extension_tokens("interface", want.name, want.directives@, want.fields@),
                fields_extension_follow(want.fields@),
            ) && fields_extension_ok(want.name, want.interfaces@, want.directives@, want.fields@, old(self).room()) ==> {
                &&& final(self).spec_errors() == old(self).spec_errors()
                &&& old(self).read_until(final(self)) == fields_extension_tokens("interface", want.name, want.directives@, want.fields@)
                &&& fields_extension_tokens("interface", r.name, r.directives@, r.fields@) == fields_extension_tokens(
                    "interface",
                    want.name,
                    want.directives@,
                    want.fields@,
                )
                &&& r.interfaces@.len() == 0
            },
    {
        let ghost hyp = old(self).next_kind() == Some(TokenKind::Name) && old(self).next_text() == bytes_of("interface") && old(self).rest().len() > 1 && old(self).rest()[1].0 == TokenKind::Name;
        let ghost av = fields_extension_follow(want.fields@);
        let ghost ok = old(self).next_tokens(
            fields_extension_tokens("interface", want.name, want.directives@, want.fields@),
            av,
        ) && fields_extension_ok(want.name, want.interfaces@, want.directives@, want.fields@, old(self).room());
        let ghost kwt = (TokenKind::Name, bytes_of("interface"));
        let ghost dt = directives_tokens(want.directives@);
        let ghost ft = fields_block_tokens(want.fields@);
        let ghost after_kw = seq![name_token(want.name)] + (dt + ft);
        let ghost g0 = *self;
        proof {
            if ok {
                assert(fields_extension_tokens("interface", want.name, want.directives@, want.fields@) =~= seq![kwt] + after_kw);
                g0.lemma_head();
                assert(g0.rest()[0] == (seq![kwt] + after_kw)[0]);
                assert(g0.next_token().1 == g0.next_text());
            }
        }
        self.expect_name_value("interface");
        let ghost g1 = *self;
        proof {
            if ok {
                g0.lemma_read_one(&g1, kwt, after_kw, av);
            }
        }
        proof {
            if hyp {
                g0.lemma_head();
                g0.lemma_rest(&g1);
                assert(g0.rest()[1] == g1.rest()[0]);
                g1.lemma_head();
            }
        }
        let name = match self.parse_name() {
            Some(n) => n,
            None => self.missing_name(),
        };
        let ghost g2 = *self;
        proof {
            if hyp {
                g1.lemma_rest(&*self);
                assert(g1.rest()[0] == g1.read_until(&*self)[0]);
            }
            if ok {
                g1.lemma_read_one(&g2, name_token(want.name), dt + ft, av);
                lemma_directives_first(want.directives@);
                if dt.len() > 0 {
                    assert((dt + ft)[0] == dt[0]);
                } else if ft.len() > 0 {
                    assert((dt + ft)[0] == ft[0]);
                }
                if ft.len() > 0 {
                    assert(ft[0] == punct(TokenKind::LCurly));
                }
                assert(g2.next_kind() != Some(TokenKind::Name));
            }
        }
        let interfaces = self.parse_implements_interfaces();
        let ghost g3 = *self;
        proof {
            if ok {
                assert(g2.read_until(&g3) =~= Seq::<(TokenKind, Seq<u8>)>::empty());
                assert(g3.rest() == g2.rest());
                g3.lemma_next_tokens_front(dt, ft, av, set![TokenKind::At, TokenKind::LParen]);
            }
        }
        let directives = self.parse_directives(Constness::Const, Ghost(want.directives@));
        let ghost g4 = *self;
        proof {
            if ok {
                g3.lemma_advance(&g4, dt, ft, av);
                if want.fields@.len() > 0 {
                    assert(ft =~= seq![punct(TokenKind::LCurly)] + field_definition_list_tokens(want.fields@) + seq![
                        punct(TokenKind::RCurly),
                    ]);
                    assert(g4.fits_fields(want.fields@));
                } else {
                    assert(ft =~= Seq::<(TokenKind, Seq<u8>)>::empty());
                    assert(g4.next_kind() != Some(TokenKind::LCurly));
                }
            }
        }
        let fields = self.parse_fields_definition_if_present(Ghost(want.fields@));
        proof {
            if ok {
                lemma_directives_first(want.directives@);
                if want.directives@.len() > 0 {
                    assert(directives_tokens(directives@).len() > 0);
                    assert(directives@.len() > 0);
                }
                if want.fields@.len() > 0 {
                    lemma_fields_tail(want.fields@, 0, old(self).room());
                    assert(want.fields@.skip(0) =~= want.fields@);
                    assert(field_definition_list_tokens(want.fields@).len() > 0);
                    assert(fields@.len() > 0);
                } else {
                    assert(fields@.len() == 0);
                }
            }
        }
        if interfaces.len() == 0 && directives.len() == 0 && fields.len() == 0 {
            self.err("expected an Implements Interfaces, Directives, or a Fields Definition");
        }
        let r = InterfaceTypeExtension { name, interfaces, directives, fields, span: self.span_from(start) };
        proof {
            if ok {
                old(self).lemma_read_chain(&g1, &g2);
                old(self).lemma_read_chain(&g2, &g3);
                old(self).lemma_read_chain(&g3, &g4);
                old(self).lemma_read_chain(&g4, &*self);
                if want.fields@.len() == 0 {
                    assert(g4.read_until(&*self) =~= Seq::<(TokenKind, Seq<u8>)>::empty());
                }
                assert(fields_block_tokens(fields@) =~= ft);
                assert(old(self).read_until(&*self) =~= fields_extension_tokens("interface", want.name, want.directives@, want.fields@));
                assert(fields_extension_tokens("interface", r.name, r.directives@, r.fields@) =~= fields_extension_tokens(
                    "interface",
                    want.name,
                    want.directives@,
                    want.fields@,
                ));
            }
        }
        r
    }

    fn parse_implements_interfaces(&mut self) -> (r: Vec<NamedType<'a>>)
        requires
            old(self).inv(),
        ensures
            final(self).inv(),
            old(self).evolves_to(final(self)),
            named_types_wf(r@, old(self).bytes()),
            named_types_complete(r@) || final(self).erred(),
            !(old(self).next_kind() == Some(TokenKind::Name) && old(self).next_text() == bytes_of(
                "implements",
            )) ==> r@.len() == 0 && final(self).next_index() == old(self).next_index(),
            !final(self).erred() ==> old(self).read_until(final(self)) == implements_tokens(r@, false)
                || old(self).read_until(final(self)) == implements_tokens(r@, true),
            old(self).next_kind() == Some(TokenKind::Name) && old(self).next_text() == bytes_of("implements") ==> old(self).advanced(final(self)),
            lexes_cleanly(old(self).stream()) && !(old(self).next_kind() == Some(TokenKind::Name)
                && old(self).next_text() == bytes_of("implements")) ==> final(self).spec_errors()
                == old(self).spec_errors(),
    {
        let mut interfaces: Vec<NamedType<'a>> = Vec::new();
        if !self.at_keyword("implements") {
            proof {
                assert(old(self).read_until(&*self) =~= Seq::<(TokenKind, Seq<u8>)>::empty());
            }
            return interfaces;
        }
        let ghost g = *self;
        self.bump();
        proof {
            g.lemma_next();
            assert(g.next_token().1 == g.next_text());
            old(self).lemma_read_chain(&g, &*self);
        }
        let ghost mut lead = false;
        if self.at(TokenKind::Amp) {
            let ghost h = *self;
            self.bump();
            proof {
                lead = true;
                h.lemma_next();
                old(self).lemma_read_chain(&h, &*self);
            }
        }
        let ghost head = seq![(TokenKind::Name, bytes_of("implements"))] + (if lead {
            seq![punct(TokenKind::Amp)]
        } else {
            Seq::<(TokenKind, Seq<u8>)>::empty()
        });
        proof {
            assert(joined_names(interfaces@, TokenKind::Amp) =~= Seq::<(TokenKind, Seq<u8>)>::empty());
            assert(old(self).read_until(&*self) =~= head + joined_names(interfaces@, TokenKind::Amp));
        }
        loop
            invariant_except_break
                !self.erred() ==> old(self).read_until(self) == head + joined_names(interfaces@, TokenKind::Amp) + (
                if interfaces@.len() > 0 {
                    seq![punct(TokenKind::Amp)]
                } else {
                    Seq::<(TokenKind, Seq<u8>)>::empty()
                }),
            invariant
                self.inv(),
                old(self).evolves_to(self),
                old(self).advanced(self),
                named_types_wf(interfaces@, old(self).bytes()),
                named_types_complete(interfaces@) || self.erred(),
                head == seq![(TokenKind::Name, bytes_of("implements"))] + (if lead {
                    seq![punct(TokenKind::Amp)]
                } else {
                    Seq::<(TokenKind, Seq<u8>)>::empty()
                }),
            ensures
                self.inv(),
                old(self).evolves_to(self),
                old(self).advanced(self),
                named_types_wf(interfaces@, old(self).bytes()),
                named_types_complete(interfaces@) || self.erred(),
                !self.erred() ==> interfaces@.len() > 0 && old(self).read_until(self) == head + joined_names(
                    interfaces@,
                    TokenKind::Amp,
                ),
            decreases self.rank(),
        {
            let ghost g0 = *self;
            match self.parse_named_type() {
                Some(named_type) => {
                    let ghost before = interfaces@;
                    interfaces.push(named_type);
                    proof {
                        if !self.erred() {
                            old(self).lemma_read_chain(&g0, &*self);
                            if before.len() > 0 {
                                assert(interfaces@.drop_last() =~= before);
                            } else {
                                assert(interfaces@ =~= seq![named_type]);
                            }
                            assert(old(self).read_until(&*self) =~= head + joined_names(interfaces@, TokenKind::Amp));
                        }
                    }
                },
                None => {
                    self.err("expected Implements Interface");
                    break ;
                },
            }
            let ghost g2 = *self;
            if self.at(TokenKind::Amp) {
                self.bump();
                proof {
                    if !self.erred() {
                        g2.lemma_next();
                        old(self).lemma_read_chain(&g2, &*self);
                    }
                }
            } else {
                break ;
            }
        }
        proof {
            if !self.erred() {
                assert(implements_tokens(interfaces@, lead) =~= head + joined_names(interfaces@, TokenKind::Amp));
            }
        }
        interfaces
    }

    #[verifier::spinoff_prover]
    #[verifier::rlimit(100)]
    fn parse_fields_definition_if_present(&mut self, Ghost(want): Ghost<Seq<FieldDefinition<'a>>>) -> (r: Vec<
        FieldDefinition<'a>,
    >)
        requires
            old(self).inv(),
        ensures
            final(self).inv(),
            old(self).evolves_to(final(self)),
            field_definitions_wf(r@, old(self).bytes()),
            field_definitions_complete(r@) || final(self).erred(),
            old(self).next_kind() != Some(TokenKind::LCurly) ==> r@.len() == 0 && final(self).next_index()
                == old(self).next_index(),
            old(self).next_kind() == Some(TokenKind::LCurly) && !final(self).erred() ==> r@.len() > 0
                && reads_as(
                old(self).read_until(final(self)),
                seq![punct(TokenKind::LCurly)] + field_definition_list_tokens(r@) + seq![punct(TokenKind::RCurly)],
            ),
            old(self).next_kind() == Some(TokenKind::LCurly) ==> old(self).advanced(final(self)),
            old(self).fits_fields(want) ==> {
                &&& final(self).spec_errors() == old(self).spec_errors()
                &&& old(self).read_until(final(self)) == seq![punct(TokenKind::LCurly)]
                    + field_definition_list_tokens(want) + seq![punct(TokenKind::RCurly)]
                &&& field_definition_list_tokens(r@) == field_definition_list_tokens(want)
            },
            lexes_cleanly(old(self).stream()) && old(self).next_kind() != Some(TokenKind::LCurly)
                ==> final(self).spec_errors() == old(self).spec_errors(),
    {
        let ghost ok = old(self).fits_fields(want);
        let ghost n = want.len() as int;
        let ghost close = seq![punct(TokenKind::RCurly)];
        proof {
            if ok {
                old(self).lemma_head();
                assert(old(self).rest()[0] == (seq![punct(TokenKind::LCurly)] + field_definition_list_tokens(want)
                    + close)[0]);
            }
        }
        let mut fields: Vec<FieldDefinition<'a>> = Vec::new();
        if !self.at(TokenKind::LCurly) {
            return fields;
        }
        let ghost g = *self;
        self.bump();
        proof {
            g.lemma_next();
            old(self).lemma_read_chain(&g, &*self);
            assert(field_definition_list_tokens(fields@) =~= Seq::<(TokenKind, Seq<u8>)>::empty());
            assert(old(self).read_until(&*self) =~= seq![punct(TokenKind::LCurly)] + field_definition_list_tokens(fields@));
            if ok {
                assert(want.skip(0) =~= want);
                assert(want.take(0) =~= Seq::<FieldDefinition>::empty());
                assert(seq![punct(TokenKind::LCurly)] + field_definition_list_tokens(want) + close =~= seq![
                    punct(TokenKind::LCurly),
                ] + (field_definition_list_tokens(want) + close));
                g.lemma_read_one(&*self, punct(TokenKind::LCurly), field_definition_list_tokens(want) + close, Set::empty());
            }
        }
        loop
            invariant_except_break
                !self.erred() ==> reads_as(
                    old(self).read_until(self),
                    seq![punct(TokenKind::LCurly)] + field_definition_list_tokens(fields@),
                ),
                ok ==> self.next_tokens(
                    field_definition_list_tokens(want.skip(fields@.len() as int)) + close,
                    Set::empty(),
                ),
                ok ==> old(self).read_until(self) == seq![punct(TokenKind::LCurly)] + field_definition_list_tokens(
                    fields@,
                ),
            invariant
                self.inv(),
                old(self).evolves_to(self),
                old(self).advanced(self),
                field_definitions_wf(fields@, old(self).bytes()),
                field_definitions_complete(fields@) || self.erred(),
                ok ==> self.spec_errors() == old(self).spec_errors(),
                ok ==> fields@.len() <= n,
                ok ==> field_definition_list_tokens(fields@) == field_definition_list_tokens(
                    want.take(fields@.len() as int),
                ),
                ok ==> n > 0 && forall|i: int| 0 <= i < n ==> field_ok(#[trigger] want[i], old(self).room()),
                n == want.len(),
                close == seq![punct(TokenKind::RCurly)],
            ensures
                self.inv(),
                old(self).evolves_to(self),
                old(self).advanced(self),
                field_definitions_wf(fields@, old(self).bytes()),
                field_definitions_complete(fields@) || self.erred(),
                !self.erred() ==> fields@.len() > 0 && reads_as(
                    old(self).read_until(self),
                    seq![punct(TokenKind::LCurly)] + field_definition_list_tokens(fields@) + seq![punct(TokenKind::RCurly)],
                ),
                ok ==> self.spec_errors() == old(self).spec_errors(),
                ok ==> old(self).read_until(self) == seq![punct(TokenKind::LCurly)] + field_definition_list_tokens(
                    want,
                ) + close,
                ok ==> field_definition_list_tokens(fields@) == field_definition_list_tokens(want),
            decreases self.rank(),
        {
            let ghost gp = *self;
            let ghost done_k = fields@.len() as int;
            let ghost tail = field_definition_list_tokens(want.skip(done_k)) + close;
            proof {
                if ok {
                    gp.lemma_head();
                    assert(gp.rest()[0] == tail[0]);
                    lemma_fields_tail(want, done_k, old(self).room());
                    if done_k < n {
                        assert(tail[0] == name_token(want[done_k].name));
                    } else {
                        assert(tail[0] == punct(TokenKind::RCurly));
                        assert(want.take(done_k) =~= want);
                    }
                }
            }
            let kind = match self.peek() {
                Some(k) => k,
                None => {
                    proof {
                        self.lemma_exhausted_has_errors();
                    }
                    break ;
                },
            };
            let ghost g0 = *self;
            if kind == TokenKind::RCurly {
                if fields.len() == 0 {
                    self.err("expected Field Definition");
                }
                let ghost g1 = *self;
                self.bump();
                proof {
                    if !self.erred() {
                        g1.lemma_next();
                        old(self).lemma_read_chain(&g1, &*self);
                        lemma_reads_as_concat(
                            old(self).read_until(&g1),
                            seq![punct(TokenKind::LCurly)] + field_definition_list_tokens(fields@),
                            g1.read_until(&*self),
                            seq![punct(TokenKind::RCurly)],
                        );
                    }
                    if ok {
                        g1.lemma_read_one(&*self, punct(TokenKind::RCurly), Seq::empty(), Set::empty());
                        old(self).lemma_read_chain(&g1, &*self);
                        assert(old(self).read_until(&*self) =~= seq![punct(TokenKind::LCurly)]
                            + field_definition_list_tokens(want) + close);
                    }
                }
                break ;
            } else if kind == TokenKind::Name || kind == TokenKind::StringValue {
                let ghost x = want[done_k];
                let ghost more = field_definition_list_tokens(want.skip(done_k + 1)) + close;
                proof {
                    if ok {
                        assert(done_k < n);
                        lemma_fields_tail(want, done_k + 1, old(self).room());
                        if done_k + 1 < n {
                            assert(more[0] == name_token(want[done_k + 1].name));
                        } else {
                            assert(more =~= close);
                        }
                        assert(g0.rest() == gp.rest());
                        g0.lemma_next_tokens_front(
                            field_definition_tokens(x),
                            more,
                            Set::empty(),
                            set![TokenKind::Bang, TokenKind::At, TokenKind::LParen],
                        );
                    }
                }
                let field = self.parse_field_definition(Ghost(x));
                let ghost before = fields@;
                fields.push(field);
                proof {
                    if !self.erred() {
                        old(self).lemma_read_chain(&g0, &*self);
                        lemma_reads_as_concat(
                            old(self).read_until(&g0),
                            seq![punct(TokenKind::LCurly)] + field_definition_list_tokens(before),
                            g0.read_until(&*self),
                            field_definition_tokens(field),
                        );
                        assert(fields@.drop_last() =~= before);
                        assert(seq![punct(TokenKind::LCurly)] + field_definition_list_tokens(fields@) =~= seq![
                            punct(TokenKind::LCurly),
                        ] + field_definition_list_tokens(before) + field_definition_tokens(field));
                    }
                    if ok {
                        g0.lemma_advance(&*self, field_definition_tokens(x), more, Set::empty());
                        old(self).lemma_read_chain(&g0, &*self);
                        assert(fields@.drop_last() =~= before);
                        assert(want.take(done_k + 1).drop_last() =~= want.take(done_k));
                        assert(want.take(done_k + 1).last() == x);
                        assert(field_definition_list_tokens(fields@) =~= field_definition_list_tokens(want.take(done_k + 1)));
                        assert(old(self).read_until(&*self) =~= seq![punct(TokenKind::LCurly)]
                            + field_definition_list_tokens(fields@));
                    }
                }
            } else if kind == TokenKind::Eof {
                self.err("expected }");
                break ;
            } else {
                self.err_and_pop("expected a Field Definition");
            }
        }
        fields
    }

    #[verifier::spinoff_prover]
    #[verifier::rlimit(40)]
    fn parse_field_definition(&mut self, Ghost(want): Ghost<FieldDefinition<'a>>) -> (r: FieldDefinition<'a>)
        requires
            old(self).inv(),
        ensures
            final(self).inv(),
            old(self).evolves_to(final(self)),
            field_definition_wf(r, old(self).bytes()),
            field_definition_complete(r) || final(self).erred(),
            old(self).next_kind() == Some(TokenKind::Name) || old(self).next_kind() == Some(
                TokenKind::StringValue,
            ) ==> old(self).advanced(final(self)),
            !final(self).erred() ==> reads_as(old(self).read_until(final(self)), field_definition_tokens(r)),
            old(self).fits_field_definition(want) ==> {
                &&& final(self).spec_errors() == old(self).spec_errors()
                &&& old(self).read_until(final(self)) == field_definition_tokens(want)
                &&& field_definition_tokens(r) == field_definition_tokens(want)
            },
    {
        let ghost ok = old(self).fits_field_definition(want);
        let ghost av = set![TokenKind::Bang, TokenKind::At, TokenKind::LParen];
        let ghost tt = type_tokens(want.ty->0);
        let ghost dt = directives_tokens(want.directives@);
        let ghost at = arguments_definition_tokens(want.arguments@);
        let ghost after_args = seq![punct(TokenKind::Colon)] + (tt + dt);
        let ghost after_name = at + after_args;
        proof {
            if ok {
                assert(field_definition_tokens(want) =~= seq![name_token(want.name)] + after_name);
                old(self).lemma_head();
                assert(old(self).rest()[0] == field_definition_tokens(want)[0]);
            }
        }
        let start = self.current_start();
        let ghost g0 = *self;
        let description = self.parse_description_if_present();
        let ghost g1 = *self;
        proof {
            if ok {
                assert(g0.read_until(&g1) =~= Seq::<(TokenKind, Seq<u8>)>::empty());
                assert(g1.rest() == old(self).rest());
                g1.lemma_head();
            }
        }
        let name = match self.parse_name() {
            Some(n) => n,
            None => self.missing_name(),
        };
        let ghost g2 = *self;
        proof {
            if ok {
                g1.lemma_read_one(&g2, name_token(want.name), after_name, av);
                g2.lemma_next_tokens_front(
                    at,
                    after_args,
                    av,
                    if want.arguments@.len() == 0 {
                        set![TokenKind::LParen]
                    } else {
                        Set::<TokenKind>::empty()
                    },
                );
            }
        }
        let arguments = self.parse_arguments_definition_if_present(Ghost(want.arguments@));
        let ghost g3 = *self;
        proof {
            if ok {
                g2.lemma_advance(&g3, at, after_args, av);
                g3.lemma_head();
            }
        }
        let ty = if self.at(TokenKind::Colon) {
            let ghost h = *self;
            self.bump();
            let ghost hb = *self;
            proof {
                h.lemma_next();
                g3.lemma_read_chain(&h, &hb);
                if ok {
                    assert(h.rest() == g3.rest());
                    h.lemma_read_one(&hb, punct(TokenKind::Colon), tt + dt, av);
                    lemma_directives_first(want.directives@);
                    if dt.len() > 0 {
                        assert((tt + dt)[tt.len() as int] == dt[0]);
                    }
                    hb.lemma_next_tokens_front(tt, dt, av, set![TokenKind::Bang]);
                }
            }
            let t = self.parse_type_inner(Ghost(want.ty->0), Ghost(Type::Missing(Span { start: 0, end: 0 })));
            proof {
                if !self.erred() || ok {
                    g3.lemma_read_chain(&hb, &*self);
                    assert(g3.read_until(&*self) =~= seq![punct(TokenKind::Colon)] + opt_type_tokens(t));
                }
            }
            t
        } else {
            proof {
                if ok {
                    assert(false);
                }
            }
            self.err("expected a Type");
            None
        };
        let ghost g4 = *self;
        proof {
            if ok {
                assert(g3.read_until(&g4) =~= seq![punct(TokenKind::Colon)] + tt);
                assert(after_args =~= (seq![punct(TokenKind::Colon)] + tt) + dt);
                g3.lemma_advance(&g4, seq![punct(TokenKind::Colon)] + tt, dt, av);
                g4.lemma_next_tokens_weaken(dt, av, set![TokenKind::At, TokenKind::LParen]);
            }
        }
        let directives = self.parse_directives(Constness::Const, Ghost(want.directives@));
        let r = FieldDefinition { description, name, arguments, ty, directives, span: self.span_from(start) };
        proof {
            if !self.erred() {
                old(self).lemma_read_chain(&g0, &g1);
                old(self).lemma_read_chain(&g1, &g2);
                old(self).lemma_read_chain(&g2, &g3);
                old(self).lemma_read_chain(&g3, &g4);
                old(self).lemma_read_chain(&g4, &*self);
                assert(old(self).read_until(&g0) =~= Seq::<(TokenKind, Seq<u8>)>::empty());
                let head = description_tokens(description) + seq![name_token(name)];
                assert(old(self).read_until(&g2) =~= head);
                let ct = seq![punct(TokenKind::Colon)] + opt_type_tokens(ty);
                assert(g3.read_until(&g4) == ct);
                lemma_reads_as_concat(head, head, g2.read_until(&g3), arguments_definition_tokens(arguments@));
                lemma_reads_as_concat(
                    head + g2.read_until(&g3),
                    head + arguments_definition_tokens(arguments@),
                    ct,
                    ct,
                );
                lemma_reads_as_concat(
                    head + g2.read_until(&g3) + ct,
                    head + arguments_definition_tokens(arguments@) + ct,
                    g4.read_until(&*self),
                    directives_tokens(directives@),
                );
                assert(old(self).read_until(&*self) =~= head + g2.read_until(&g3) + ct + g4.read_until(&*self));
                assert(field_definition_tokens(r) =~= head + arguments_definition_tokens(arguments@) + ct
                    + directives_tokens(directives@));
            }
            if ok {
                old(self).lemma_read_chain(&g0, &g1);
                old(self).lemma_read_chain(&g1, &g2);
                old(self).lemma_read_chain(&g2, &g3);
                old(self).lemma_read_chain(&g3, &g4);
                old(self).lemma_read_chain(&g4, &*self);
                assert(old(self).read_until(&g0) =~= Seq::<(TokenKind, Seq<u8>)>::empty());
                assert(old(self).read_until(&*self) =~= field_definition_tokens(want));
                assert(field_definition_tokens(r) =~= field_definition_tokens(want));
            }
        }
        r
    }

    #[verifier::spinoff_prover]
    #[verifier::rlimit(100)]
    fn parse_arguments_definition_if_present(&mut self, Ghost(want): Ghost<Seq<InputValueDefinition<'a>>>) -> (r:
        Vec<InputValueDefinition<'a>>)
        requires
            old(self).inv(),
        ensures
            final(self).inv(),
            old(self).evolves_to(final(self)),
            input_value_definitions_wf(r@, old(self).bytes()),
            input_value_definitions_complete(r@) || final(self).erred(),
            old(self).next_kind() != Some(TokenKind::LParen) ==> r@.len() == 0 && final(self).next_index()
                == old(self).next_index(),
            !final(self).erred() ==> reads_as(old(self).read_until(final(self)), arguments_definition_tokens(r@)),
            old(self).next_kind() == Some(TokenKind::LParen) ==> old(self).advanced(final(self)),
            lexes_cleanly(old(self).stream()) && old(self).next_kind() != Some(TokenKind::LParen)
                ==> final(self).spec_errors() == old(self).spec_errors(),
            old(self).fits_arguments_definition(want) ==> {
                &&& final(self).spec_errors() == old(self).spec_errors()
                &&& old(self).read_until(final(self)) == arguments_definition_tokens(want)
                &&& arguments_definition_tokens(r@) == arguments_definition_tokens(want)
            },
            !final(self).erred() && old(self).next_kind() == Some(TokenKind::LParen) ==> old(self).read_until(
                final(self),
            ).len() > 0 && old(self).read_until(final(self)).last() == punct(TokenKind::RParen),
    {
        let ghost ok = old(self).fits_arguments_definition(want);
        let ghost n = want.len() as int;
        let ghost close = seq![punct(TokenKind::RParen)];
        proof {
            if ok {
                old(self).lemma_head();
                if n > 0 {
                    assert(old(self).rest()[0] == arguments_definition_tokens(want)[0]);
                }
            }
        }
        let mut definitions: Vec<InputValueDefinition<'a>> = Vec::new();
        if !self.at(TokenKind::LParen) {
            proof {
                assert(old(self).read_until(&*self) =~= Seq::<(TokenKind, Seq<u8>)>::empty());
                if ok {
                    assert(arguments_definition_tokens(want) =~= Seq::<(TokenKind, Seq<u8>)>::empty());
                }
            }
            return definitions;
        }
        let ghost g = *self;
        self.bump();
        proof {
            g.lemma_next();
            old(self).lemma_read_chain(&g, &*self);
            assert(input_value_list_tokens(definitions@) =~= Seq::<(TokenKind, Seq<u8>)>::empty());
            assert(old(self).read_until(&*self) =~= seq![punct(TokenKind::LParen)] + input_value_list_tokens(definitions@));
            if ok {
                assert(n > 0);
                assert(want.skip(0) =~= want);
                assert(want.take(0) =~= Seq::<InputValueDefinition>::empty());
                assert(arguments_definition_tokens(want) =~= seq![punct(TokenKind::LParen)] + (input_value_list_tokens(want)
                    + close));
                g.lemma_read_one(&*self, punct(TokenKind::LParen), input_value_list_tokens(want) + close, Set::empty());
            }
        }
        loop
            invariant_except_break
                !self.erred() ==> reads_as(
                    old(self).read_until(self),
                    seq![punct(TokenKind::LParen)] + input_value_list_tokens(definitions@),
                ),
                ok ==> self.next_tokens(
                    input_value_list_tokens(want.skip(definitions@.len() as int)) + close,
                    Set::empty(),
                ),
                ok ==> old(self).read_until(self) == seq![punct(TokenKind::LParen)] + input_value_list_tokens(
                    definitions@,
                ),
            invariant
                self.inv(),
                old(self).evolves_to(self),
                old(self).advanced(self),
                input_value_definitions_wf(definitions@, old(self).bytes()),
                input_value_definitions_complete(definitions@) || self.erred(),
                ok ==> self.spec_errors() == old(self).spec_errors(),
                ok ==> definitions@.len() <= n,
                ok ==> input_value_list_tokens(definitions@) == input_value_list_tokens(
                    want.take(definitions@.len() as int),
                ),
                ok ==> n > 0 && forall|i: int| 0 <= i < n ==> input_value_ok(#[trigger] want[i], old(self).room()),
                n == want.len(),
                close == seq![punct(TokenKind::RParen)],
            ensures
                self.inv(),
                old(self).evolves_to(self),
                old(self).advanced(self),
                input_value_definitions_wf(definitions@, old(self).bytes()),
                input_value_definitions_complete(definitions@) || self.erred(),
                !self.erred() ==> reads_as(old(self).read_until(self), arguments_definition_tokens(definitions@)),
                !self.erred() ==> old(self).read_until(self).len() > 0 && old(self).read_until(self).last() == punct(
                    TokenKind::RParen,
                ),
                ok ==> self.spec_errors() == old(self).spec_errors(),
                ok ==> old(self).read_until(self) == seq![punct(TokenKind::LParen)] + input_value_list_tokens(
                    want,
                ) + close,
                ok ==> input_value_list_tokens(definitions@) == input_value_list_tokens(want) && definitions@.len()
                    == n,
            decreases self.rank(),
        {
            let ghost gp = *self;
            let ghost done_k = definitions@.len() as int;
            let ghost tail = input_value_list_tokens(want.skip(done_k)) + close;
            proof {
                if ok {
                    gp.lemma_head();
                    assert(gp.rest()[0] == tail[0]);
                    lemma_inputs_tail(want, done_k, old(self).room());
                    if done_k < n {
                        assert(tail[0] == name_token(want[done_k].name));
                    } else {
                        assert(tail[0] == punct(TokenKind::RParen));
                        assert(want.take(done_k) =~= want);
                    }
                }
            }
            let kind = match self.peek() {
                Some(k) => k,
                None => {
                    proof {
                        self.lemma_exhausted_has_errors();
                    }
                    break ;
                },
            };
            let ghost g0 = *self;
            if kind == TokenKind::RParen {
                self.bump();
                proof {
                    if !self.erred() {
                        g0.lemma_next();
                        old(self).lemma_read_chain(&g0, &*self);
                        let r1 = old(self).read_until(&g0);
                        let read = old(self).read_until(&*self);
                        assert(read =~= r1 + seq![punct(TokenKind::RParen)]);
                        assert(read.last() == punct(TokenKind::RParen));
                        if definitions@.len() == 0 {
                            if has_empty_parens(r1) {
                                lemma_empty_parens_prefix(r1, read);
                            } else {
                                assert(r1 =~= seq![punct(TokenKind::LParen)]);
                                assert(empty_parens_at(read, 0));
                            }
                        } else {
                            lemma_reads_as_concat(
                                r1,
                                seq![punct(TokenKind::LParen)] + input_value_list_tokens(definitions@),
                                seq![punct(TokenKind::RParen)],
                                seq![punct(TokenKind::RParen)],
                            );
                        }
                    }
                    if ok {
                        g0.lemma_read_one(&*self, punct(TokenKind::RParen), Seq::empty(), Set::empty());
                        old(self).lemma_read_chain(&g0, &*self);
                        assert(old(self).read_until(&*self) =~= seq![punct(TokenKind::LParen)]
                            + input_value_list_tokens(want) + close);
                    }
                }
                break ;
            } else if kind == TokenKind::Name || kind == TokenKind::StringValue {
                let ghost x = want[done_k];
                let ghost more = input_value_list_tokens(want.skip(done_k + 1)) + close;
                proof {
                    if ok {
                        assert(done_k < n);
                        lemma_inputs_tail(want, done_k + 1, old(self).room());
                        if done_k + 1 < n {
                            assert(more[0] == name_token(want[done_k + 1].name));
                        } else {
                            assert(more =~= close);
                        }
                        assert(g0.rest() == gp.rest());
                        g0.lemma_next_tokens_front(
                            input_value_definition_tokens(x),
                            more,
                            Set::empty(),
                            set![TokenKind::Bang, TokenKind::Eq, TokenKind::At, TokenKind::LParen],
                        );
                    }
                }
                let definition = self.parse_input_value_definition(Ghost(x));
                let ghost before = definitions@;
                definitions.push(definition);
                proof {
                    if !self.erred() {
                        old(self).lemma_read_chain(&g0, &*self);
                        lemma_reads_as_concat(
                            old(self).read_until(&g0),
                            seq![punct(TokenKind::LParen)] + input_value_list_tokens(before),
                            g0.read_until(&*self),
                            input_value_definition_tokens(definition),
                        );
                        assert(definitions@.drop_last() =~= before);
                        assert(seq![punct(TokenKind::LParen)] + input_value_list_tokens(definitions@) =~= seq![
                            punct(TokenKind::LParen),
                        ] + input_value_list_tokens(before) + input_value_definition_tokens(definition));
                    }
                    if ok {
                        g0.lemma_advance(&*self, input_value_definition_tokens(x), more, Set::empty());
                        old(self).lemma_read_chain(&g0, &*self);
                        assert(definitions@.drop_last() =~= before);
                        assert(want.take(done_k + 1).drop_last() =~= want.take(done_k));
                        assert(want.take(done_k + 1).last() == x);
                        assert(input_value_list_tokens(definitions@) =~= input_value_list_tokens(want.take(done_k + 1)));
                        assert(old(self).read_until(&*self) =~= seq![punct(TokenKind::LParen)]
                            + input_value_list_tokens(definitions@));
                    }
                }
            } else if kind == TokenKind::Eof {
                self.err("expected )");
                break ;
            } else {
                self.err_and_pop("expected an Argument Definition");
            }
        }
        proof {
            if ok {
                assert(arguments_definition_tokens(want) =~= seq![punct(TokenKind::LParen)] + input_value_list_tokens(want)
                    + close);
                assert(arguments_definition_tokens(definitions@) =~= seq![punct(TokenKind::LParen)]
                    + input_value_list_tokens(definitions@) + close);
            }
        }
        definitions
    }

    /// The type, default value and directives of an input value definition,
    /// from its `:` on.
    #[verifier::spinoff_prover]
    #[verifier::rlimit(60)]
    fn parse_input_value_tail(&mut self, Ghost(want): Ghost<InputValueDefinition<'a>>) -> (r: (
        Option<Type<'a>>,
        Option<Value<'a>>,
        Vec<Directive<'a>>,
    ))
        requires
            old(self).inv(),
        ensures
            final(self).inv(),
            old(self).evolves_to(final(self)),
            opt_type_wf(r.0, old(self).bytes()),
            opt_value_wf(r.1, old(self).bytes()),
            directives_wf(r.2@, old(self).bytes()),
            (opt_type_complete(r.0) && opt_value_complete(r.1) && directives_complete(r.2@)) || final(self).erred(),
            !final(self).erred() ==> reads_as(
                old(self).read_until(final(self)),
                seq![punct(TokenKind::Colon)] + opt_type_tokens(r.0) + default_value_tokens(r.1) + directives_tokens(r.2@),
            ),
            old(self).next_tokens(
                input_value_tail_tokens(want),
                set![TokenKind::Bang, TokenKind::Eq, TokenKind::At, TokenKind::LParen],
            ) && input_value_ok(want, old(self).room()) ==> {
                &&& final(self).spec_errors() == old(self).spec_errors()
                &&& old(self).read_until(final(self)) == input_value_tail_tokens(want)
                &&& seq![punct(TokenKind::Colon)] + (opt_type_tokens(r.0) + (default_value_tokens(r.1)
                    + directives_tokens(r.2@))) == input_value_tail_tokens(want)
            },
    {
        let ghost av = set![TokenKind::Bang, TokenKind::Eq, TokenKind::At, TokenKind::LParen];
        let ghost ok = old(self).next_tokens(input_value_tail_tokens(want), av) && input_value_ok(
            want,
            old(self).room(),
        );
        let ghost tt = type_tokens(want.ty->0);
        let ghost dv = default_value_tokens(want.default_value);
        let ghost dt = directives_tokens(want.directives@);
        let ghost g2 = *self;
        proof {
            if ok {
                old(self).lemma_head();
                assert(old(self).rest()[0] == input_value_tail_tokens(want)[0]);
            }
        }
        let ty = if self.at(TokenKind::Colon) {
            let ghost h = *self;
            self.bump();
            let ghost hb = *self;
            proof {
                h.lemma_next();
                g2.lemma_read_chain(&h, &hb);
                if ok {
                    assert(h.rest() == g2.rest());
                    h.lemma_read_one(&hb, punct(TokenKind::Colon), tt + (dv + dt), av);
                    lemma_directives_first(want.directives@);
                    if (dv + dt).len() > 0 {
                        if dv.len() > 0 {
                            assert((dv + dt)[0] == dv[0]);
                        } else {
                            assert((dv + dt)[0] == dt[0]);
                        }
                    }
                    hb.lemma_next_tokens_front(tt, dv + dt, av, set![TokenKind::Bang]);
                }
            }
            let t = self.parse_type_inner(Ghost(want.ty->0), Ghost(Type::Missing(Span { start: 0, end: 0 })));
            proof {
                if !self.erred() || ok {
                    g2.lemma_read_chain(&hb, &*self);
                    assert(g2.read_until(&*self) =~= seq![punct(TokenKind::Colon)] + opt_type_tokens(t));
                }
            }
            t
        } else {
            proof {
                if ok {
                    assert(false);
                }
            }
            self.err("expected a Type");
            None
        };
        let ghost g3 = *self;
        proof {
            if ok {
                assert(g2.read_until(&g3) == seq![punct(TokenKind::Colon)] + tt);
                assert(input_value_tail_tokens(want) =~= (seq![punct(TokenKind::Colon)] + tt) + (dv + dt));
                g2.lemma_advance(&g3, seq![punct(TokenKind::Colon)] + tt, dv + dt, av);
                lemma_directives_first(want.directives@);
                if dv.len() == 0 && dt.len() > 0 {
                    assert((dv + dt)[0] == dt[0]);
                }
                if dv.len() > 0 {
                    assert((dv + dt)[0] == dv[0]);
                }
            }
        }
        let default_value = if self.at(TokenKind::Eq) {
            let ghost h = *self;
            self.bump();
            let ghost h2 = *self;
            let ghost d = want.default_value->0;
            proof {
                h.lemma_next();
                g3.lemma_read_chain(&h, &h2);
                if ok {
                    assert(h.rest() == g3.rest());
                    assert(want.default_value is Some);
                    assert(dv + dt =~= seq![punct(TokenKind::Eq)] + (value_tokens(d) + dt));
                    h.lemma_read_one(&h2, punct(TokenKind::Eq), value_tokens(d) + dt, av);
                    h2.lemma_next_tokens_front(value_tokens(d), dt, av, Set::<TokenKind>::empty());
                }
            }
            let v = self.parse_value(Constness::Const, false, Ghost(d));
            proof {
                g3.lemma_read_chain(&h2, &*self);
                if ok {
                    h2.lemma_advance(&*self, value_tokens(d), dt, av);
                }
            }
            Some(v)
        } else {
            None
        };
        let ghost g4 = *self;
        proof {
            if ok {
                if want.default_value is None {
                    assert(dv =~= Seq::<(TokenKind, Seq<u8>)>::empty());
                    assert(dv + dt =~= dt);
                }
                assert(g3.read_until(&g4) =~= dv);
                g4.lemma_next_tokens_weaken(dt, av, set![TokenKind::At, TokenKind::LParen]);
            }
        }
        let directives = self.parse_directives(Constness::Const, Ghost(want.directives@));
        proof {
            g2.lemma_read_chain(&g3, &g4);
            g2.lemma_read_chain(&g4, &*self);
            if !self.erred() {
                assert(g3.read_until(&g4) =~= default_value_tokens(default_value));
                let head = seq![punct(TokenKind::Colon)] + opt_type_tokens(ty) + default_value_tokens(default_value);
                assert(g2.read_until(&g4) =~= head);
                lemma_reads_as_concat(head, head, g4.read_until(&*self), directives_tokens(directives@));
                assert(g2.read_until(&*self) =~= head + g4.read_until(&*self));
            }
            if ok {
                assert(old(self).read_until(&*self) =~= input_value_tail_tokens(want));
            }
        }
        (ty, default_value, directives)
    }

    #[verifier::spinoff_prover]
    #[verifier::rlimit(40)]
    fn parse_input_value_definition(&mut self, Ghost(want): Ghost<InputValueDefinition<'a>>) -> (r:
        InputValueDefinition<'a>)
        requires
            old(self).inv(),
        ensures
            final(self).inv(),
            old(self).evolves_to(final(self)),
            input_value_definition_wf(r, old(self).bytes()),
            input_value_definition_complete(r) || final(self).erred(),
            old(self).next_kind() == Some(TokenKind::Name) || old(self).next_kind() == Some(
                TokenKind::StringValue,
            ) ==> old(self).advanced(final(self)),
            !final(self).erred() ==> reads_as(old(self).read_until(final(self)), input_value_definition_tokens(r)),
            old(self).fits_input_value(want) ==> {
                &&& final(self).spec_errors() == old(self).spec_errors()
                &&& old(self).read_until(final(self)) == input_value_definition_tokens(want)
                &&& input_value_definition_tokens(r) == input_value_definition_tokens(want)
            },
    {
        let ghost ok = old(self).fits_input_value(want);
        let ghost av = set![TokenKind::Bang, TokenKind::Eq, TokenKind::At, TokenKind::LParen];
        let ghost tail = input_value_tail_tokens(want);
        proof {
            if ok {
                assert(input_value_definition_tokens(want) =~= seq![name_token(want.name)] + tail);
                old(self).lemma_head();
                assert(old(self).rest()[0] == input_value_definition_tokens(want)[0]);
            }
        }
        let start = self.current_start();
        let ghost g0 = *self;
        let description = self.parse_description_if_present();
        let ghost g1 = *self;
        proof {
            if ok {
                assert(g0.read_until(&g1) =~= Seq::<(TokenKind, Seq<u8>)>::empty());
                assert(g1.rest() == old(self).rest());
                g1.lemma_head();
            }
        }
        let name = match self.parse_name() {
            Some(n) => n,
            None => self.missing_name(),
        };
        let ghost g2 = *self;
        proof {
            if ok {
                g1.lemma_read_one(&g2, name_token(want.name), tail, av);
            }
        }
        let (ty, default_value, directives) = self.parse_input_value_tail(Ghost(want));
        let r = InputValueDefinition {
            description,
            name,
            ty,
            default_value,
            directives,
            span: self.span_from(start),
        };
        proof {
            old(self).lemma_read_chain(&g0, &g1);
            old(self).lemma_read_chain(&g1, &g2);
            old(self).lemma_read_chain(&g2, &*self);
            assert(old(self).read_until(&g0) =~= Seq::<(TokenKind, Seq<u8>)>::empty());
            if !self.erred() {
                let head = description_tokens(description) + seq![name_token(name)];
                assert(old(self).read_until(&g2) =~= head);
                lemma_reads_as_concat(
                    head,
                    head,
                    g2.read_until(&*self),
                    seq![punct(TokenKind::Colon)] + opt_type_tokens(ty) + default_value_tokens(default_value)
                        + directives_tokens(directives@),
                );
                assert(input_value_definition_tokens(r) =~= head + (seq![punct(TokenKind::Colon)] + opt_type_tokens(ty)
                    + default_value_tokens(default_value) + directives_tokens(directives@)));
                assert(old(self).read_until(&*self) =~= head + g2.read_until(&*self));
            }
            if ok {
                assert(old(self).read_until(&*self) =~= input_value_definition_tokens(want));
                assert(input_value_definition_tokens(r) =~= input_value_definition_tokens(want)) by {
                    assert(description_tokens(description) =~= Seq::<(TokenKind, Seq<u8>)>::empty());
                    assert(input_value_definition_tokens(r) =~= seq![name_token(name)] + (seq![punct(TokenKind::Colon)]
                        + (opt_type_tokens(ty) + (default_value_tokens(default_value) + directives_tokens(directives@)))));
                }
            }
        }
        r
    }

    fn parse_union_type_definition(
        &mut self,
        description: Option<StringValue<'a>>,
        Ghost(want): Ghost<UnionTypeDefinition<'a>>,
    ) -> (r: UnionTypeDefinition<'a>)
        requires
            old(self).inv(),
            opt_string_value_wf(description, old(self).bytes()),
        ensures
            final(self).inv(),
            old(self).evolves_to(final(self)),
            definition_wf(Definition::UnionType(r), old(self).bytes()),
            definition_complete(Definition::UnionType(r)) || final(self).erred(),
            old(self).fits_union(want) && description is None ==> {
                &&& final(self).spec_errors() == old(self).spec_errors()
                &&& old(self).read_until(final(self)) == union_definition_tokens(want)
                &&& union_definition_tokens(r) == union_definition_tokens(want)
                &&& r.description is None
            },
    {
        let ghost ok = old(self).fits_union(want) && description is None;
        let ghost av = union_follow(want);
        let ghost kw = (TokenKind::Name, bytes_of("union"));
        let ghost dt = directives_tokens(want.directives@);
        let ghost mt = union_members_tokens(want.members@, false);
        let ghost after_kw = seq![name_token(want.name)] + (dt + mt);
        let start = self.definition_start(&description);
        let ghost g1 = *self;
        proof {
            if ok {
                assert(union_definition_tokens(want) =~= seq![kw] + after_kw);
                assert(g1.rest() == old(self).rest());
                g1.lemma_head();
                assert(g1.rest()[0] == union_definition_tokens(want)[0]);
                assert(union_definition_tokens(want)[0] == kw);
                assert(g1.next_token().1 == g1.next_text());
            }
        }
        self.expect_name_value("union");
        let ghost g2 = *self;
        proof {
            if ok {
                g1.lemma_read_one(&g2, kw, after_kw, av);
            }
        }
        let name = match self.parse_name() {
            Some(n) => n,
            None => self.missing_name(),
        };
        let ghost g3 = *self;
        proof {
            if ok {
                g2.lemma_read_one(&g3, name_token(want.name), dt + mt, av);
                if mt.len() > 0 {
                    assert(mt[0] == punct(TokenKind::Eq));
                }
                g3.lemma_next_tokens_front(dt, mt, av, set![TokenKind::At, TokenKind::LParen]);
            }
        }
        let directives = self.parse_directives(Constness::Const, Ghost(want.directives@));
        let ghost g4 = *self;
        proof {
            if ok {
                g3.lemma_advance(&g4, dt, mt, av);
                if want.members@.len() == 0 {
                    assert(mt =~= Seq::<(TokenKind, Seq<u8>)>::empty());
                    g4.lemma_next_tokens_weaken(mt, av, set![TokenKind::Eq]);
                }
            }
        }
        let members = self.parse_union_members_if_present(Ghost(want.members@), Ghost(false));
        let r = UnionTypeDefinition { description, name, directives, members, span: self.span_from(start) };
        proof {
            if ok {
                old(self).lemma_read_chain(&g1, &g2);
                old(self).lemma_read_chain(&g2, &g3);
                old(self).lemma_read_chain(&g3, &g4);
                old(self).lemma_read_chain(&g4, &*self);
                assert(old(self).read_until(&g1) =~= Seq::<(TokenKind, Seq<u8>)>::empty());
                assert(old(self).read_until(&*self) =~= union_definition_tokens(want));
                assert(union_definition_tokens(r) =~= union_definition_tokens(want));
            }
        }
        r
    }

    #[verifier::spinoff_prover]
    #[verifier::rlimit(60)]
    fn parse_union_type_extension_from(&mut self, start: usize, Ghost(want): Ghost<UnionTypeExtension<'a>>) -> (r:
        UnionTypeExtension<'a>)
        requires
            old(self).inv(),
            start <= old(self).bytes().len(),
        ensures
            final(self).inv(),
            old(self).evolves_to(final(self)),
            definition_wf(Definition::UnionTypeExtension(r), old(self).bytes()),
            definition_complete(Definition::UnionTypeExtension(r)) || final(self).erred(),
            r.directives@.len() == 0 && r.members@.len() == 0 ==> final(self).erred(),
            old(self).next_kind() == Some(TokenKind::Name) && old(self).next_text() == bytes_of("union") && old(self).rest().len() > 1
                && old(self).rest()[1].0 == TokenKind::Name ==> bytes_of(r.name.value) == old(self).rest()[1].1,
            old(self).next_tokens(union_extension_tokens(want), union_extension_follow(want)) && union_extension_ok(
                want,
                old(self).room(),
            ) ==> {
                &&& final(self).spec_errors() == old(self).spec_errors()
                &&& old(self).read_until(final(self)) == union_extension_tokens(want)
                &&& union_extension_tokens(r) == union_extension_tokens(want)
            },
    {
        let ghost av = union_extension_follow(want);
        let ghost ok = old(self).next_tokens(union_extension_tokens(want), av) && union_extension_ok(want, old(self).room());
        let ghost kw = (TokenKind::Name, bytes_of("union"));
        let ghost dt = directives_tokens(want.directives@);
        let ghost mt = union_members_tokens(want.members@, false);
        let ghost after_kw = seq![name_token(want.name)] + (dt + mt);
        let ghost hyp = old(self).next_kind() == Some(TokenKind::Name) && old(self).next_text() == bytes_of("union") && old(self).rest().len() > 1 && old(self).rest()[1].0 == TokenKind::Name;
        let ghost g0 = *self;
        proof {
            if ok {
                assert(union_extension_tokens(want) =~= seq![kw] + after_kw);
                g0.lemma_head();
                assert(g0.rest()[0] == union_extension_tokens(want)[0]);
                assert(g0.next_token().1 == g0.next_text());
            }
        }
        self.expect_name_value("union");
        let ghost g1 = *self;
        proof {
            if ok {
                g0.lemma_read_one(&g1, kw, after_kw, av);
            }
            if hyp {
                g0.lemma_head();
                g0.lemma_rest(&g1);
                assert(g0.rest()[1] == g1.rest()[0]);
                g1.lemma_head();
            }
        }
        let name = match self.parse_name() {
            Some(n) => n,
            None => self.missing_name(),
        };
        let ghost g2 = *self;
        proof {
            if hyp {
                g1.lemma_rest(&*self);
                assert(g1.rest()[0] == g1.read_until(&*self)[0]);
            }
            if ok {
                g1.lemma_read_one(&g2, name_token(want.name), dt + mt, av);
                if mt.len() > 0 {
                    assert(mt[0] == punct(TokenKind::Eq));
                }
                g2.lemma_next_tokens_front(dt, mt, av, set![TokenKind::At, TokenKind::LParen]);
            }
        }
        let directives = self.parse_directives(Constness::Const, Ghost(want.directives@));
        let ghost g3 = *self;
        proof {
            if ok {
                g2.lemma_advance(&g3, dt, mt, av);
                if want.members@.len() == 0 {
                    assert(mt =~= Seq::<(TokenKind, Seq<u8>)>::empty());
                    g3.lemma_next_tokens_weaken(mt, av, set![TokenKind::Eq]);
                }
            }
        }
        let members = self.parse_union_members_if_present(Ghost(want.members@), Ghost(false));
        proof {
            if ok {
                lemma_directives_first(want.directives@);
                if want.directives@.len() > 0 {
                    assert(directives_tokens(directives@).len() > 0);
                    assert(directives@.len() > 0);
                }
                if want.members@.len() > 0 {
                    assert(union_members_tokens(members@, false).len() > 0);
                    assert(members@.len() > 0);
                }
            }
        }
        if directives.len() == 0 && members.len() == 0 {
            self.err("expected Directives or Union Member Types");
        }
        let r = UnionTypeExtension { name, directives, members, span: self.span_from(start) };
        proof {
            if ok {
                old(self).lemma_read_chain(&g1, &g2);
                old(self).lemma_read_chain(&g2, &g3);
                old(self).lemma_read_chain(&g3, &*self);
                assert(old(self).read_until(&*self) =~= union_extension_tokens(want));
                assert(union_extension_tokens(r) =~= union_extension_tokens(want));
            }
        }
        r
    }

    fn parse_union_members_if_present(
        &mut self,
        Ghost(want): Ghost<Seq<NamedType<'a>>>,
        Ghost(want_lead): Ghost<bool>,
    ) -> (r: Vec<NamedType<'a>>)
        requires
            old(self).inv(),
        ensures
            final(self).inv(),
            old(self).evolves_to(final(self)),
            named_types_wf(r@, old(self).bytes()),
            named_types_complete(r@) || final(self).erred(),
            old(self).next_kind() != Some(TokenKind::Eq) ==> r@.len() == 0 && final(self).next_index()
                == old(self).next_index(),
            !final(self).erred() ==> old(self).read_until(final(self)) == union_members_tokens(r@, false)
                || old(self).read_until(final(self)) == union_members_tokens(r@, true),
            old(self).next_kind() == Some(TokenKind::Eq) ==> old(self).advanced(final(self)),
            old(self).fits_union_members(want, want_lead) ==> {
                &&& final(self).spec_errors() == old(self).spec_errors()
                &&& old(self).read_until(final(self)) == union_members_tokens(want, want_lead)
                &&& union_members_tokens(r@, want_lead) == union_members_tokens(want, want_lead)
            },
    {
        let ghost ok = old(self).fits_union_members(want, want_lead);
        let ghost full = union_members_tokens(want, want_lead);
        let ghost avoid = set![TokenKind::Pipe];
        let ghost n = want.len() as int;
        proof {
            if ok {
                old(self).lemma_head();
                if n > 0 {
                    assert(full[0] == punct(TokenKind::Eq));
                }
            }
        }
        let mut members: Vec<NamedType<'a>> = Vec::new();
        if !self.at(TokenKind::Eq) {
            proof {
                assert(old(self).read_until(&*self) =~= Seq::<(TokenKind, Seq<u8>)>::empty());
                if ok {
                    assert(full =~= Seq::<(TokenKind, Seq<u8>)>::empty());
                }
            }
            return members;
        }
        let ghost g = *self;
        self.bump();
        proof {
            g.lemma_next();
            old(self).lemma_read_chain(&g, &*self);
        }
        let ghost after_lead = seq![name_token(want[0].name)] + sep_names(want.drop_first(), TokenKind::Pipe);
        proof {
            if ok {
                assert(n > 0);
                lemma_joined_names_split(want, 1, n, TokenKind::Pipe);
                assert(want.take(n) =~= want);
                assert(want.subrange(1, n) =~= want.drop_first());
                assert(want.take(1) =~= seq![want[0]]);
                assert(joined_names(want, TokenKind::Pipe) =~= after_lead);
                let rest1 = if want_lead {
                    seq![punct(TokenKind::Pipe)] + after_lead
                } else {
                    after_lead
                };
                assert(full =~= seq![punct(TokenKind::Eq)] + rest1);
                g.lemma_read_one(&*self, punct(TokenKind::Eq), rest1, avoid);
            }
        }
        let ghost mut lead = false;
        if self.at(TokenKind::Pipe) {
            let ghost h = *self;
            self.bump();
            proof {
                lead = true;
                h.lemma_next();
                old(self).lemma_read_chain(&h, &*self);
                if ok {
                    assert(want_lead);
                    h.lemma_read_one(&*self, punct(TokenKind::Pipe), after_lead, avoid);
                }
            }
        } else {
            proof {
                if ok {
                    assert(!want_lead);
                }
            }
        }
        let ghost head = seq![punct(TokenKind::Eq)] + (if lead {
            seq![punct(TokenKind::Pipe)]
        } else {
            Seq::<(TokenKind, Seq<u8>)>::empty()
        });
        proof {
            assert(joined_names(members@, TokenKind::Pipe) =~= Seq::<(TokenKind, Seq<u8>)>::empty());
            assert(old(self).read_until(&*self) =~= head + joined_names(members@, TokenKind::Pipe));
            if ok {
                assert(want.skip(0) =~= want);
                assert(want.skip(1) =~= want.drop_first());
                assert(want.take(0) =~= Seq::<NamedType>::empty());
            }
        }
        loop
            invariant_except_break
                (ok || !self.erred()) ==> old(self).read_until(self) == head + joined_names(members@, TokenKind::Pipe) + (
                if members@.len() > 0 {
                    seq![punct(TokenKind::Pipe)]
                } else {
                    Seq::<(TokenKind, Seq<u8>)>::empty()
                }),
                ok ==> members@.len() < n && self.next_tokens(
                    seq![name_token(want[members@.len() as int].name)] + sep_names(
                        want.skip(members@.len() as int + 1),
                        TokenKind::Pipe,
                    ),
                    avoid,
                ),
            invariant
                self.inv(),
                old(self).evolves_to(self),
                old(self).advanced(self),
                named_types_wf(members@, old(self).bytes()),
                named_types_complete(members@) || self.erred(),
                head == seq![punct(TokenKind::Eq)] + (if lead {
                    seq![punct(TokenKind::Pipe)]
                } else {
                    Seq::<(TokenKind, Seq<u8>)>::empty()
                }),
                ok ==> lead == want_lead && n > 0,
                ok ==> self.spec_errors() == old(self).spec_errors(),
                ok ==> joined_names(members@, TokenKind::Pipe) == joined_names(
                    want.take(members@.len() as int),
                    TokenKind::Pipe,
                ),
                full == union_members_tokens(want, want_lead),
                avoid == set![TokenKind::Pipe],
                n == want.len(),
            ensures
                self.inv(),
                old(self).evolves_to(self),
                old(self).advanced(self),
                named_types_wf(members@, old(self).bytes()),
                named_types_complete(members@) || self.erred(),
                (ok || !self.erred()) ==> members@.len() > 0 && old(self).read_until(self) == head + joined_names(
                    members@,
                    TokenKind::Pipe,
                ),
                ok ==> lead == want_lead && members@.len() == n,
                ok ==> self.spec_errors() == old(self).spec_errors(),
                ok ==> joined_names(members@, TokenKind::Pipe) == joined_names(want, TokenKind::Pipe),
            decreases self.rank(),
        {
            let ghost g0 = *self;
            let ghost k = members@.len() as int;
            proof {
                if ok {
                    let todo = seq![name_token(want[k].name)] + sep_names(want.skip(k + 1), TokenKind::Pipe);
                    assert(todo[0] == name_token(want[k].name));
                    assert(g0.rest()[0] == todo[0]);
                    g0.lemma_head();
                }
            }
            match self.parse_named_type() {
                Some(member) => {
                    let ghost before = members@;
                    members.push(member);
                    proof {
                        if ok {
                            g0.lemma_read_one(
                                &*self,
                                name_token(want[k].name),
                                sep_names(want.skip(k + 1), TokenKind::Pipe),
                                avoid,
                            );
                            assert(want.take(k + 1).drop_last() =~= want.take(k));
                            assert(want.take(k + 1).last() == want[k]);
                            if k == 0 {
                                assert(want.take(1) =~= seq![want[0]]);
                                assert(members@ =~= seq![member]);
                            } else {
                                assert(members@.drop_last() =~= before);
                                assert(members@.last() == member);
                            }
                            assert(joined_names(members@, TokenKind::Pipe) =~= joined_names(
                                want.take(k + 1),
                                TokenKind::Pipe,
                            ));
                        }
                        if ok || !self.erred() {
                            old(self).lemma_read_chain(&g0, &*self);
                            if before.len() > 0 {
                                assert(members@.drop_last() =~= before);
                            } else {
                                assert(members@ =~= seq![member]);
                            }
                            assert(old(self).read_until(&*self) =~= head + joined_names(members@, TokenKind::Pipe));
                        }
                    }
                },
                None => {
                    self.err("expected Union Member Type");
                    break ;
                },
            }
            let ghost g2 = *self;
            let ghost k1 = members@.len() as int;
            proof {
                if ok {
                    if k1 < n {
                        let t = want.skip(k1);
                        assert(t.drop_first() =~= want.skip(k1 + 1));
                        assert(t[0] == want[k1]);
                        assert(sep_names(t, TokenKind::Pipe) =~= seq![punct(TokenKind::Pipe)] + (seq![
                            name_token(want[k1].name),
                        ] + sep_names(want.skip(k1 + 1), TokenKind::Pipe)));
                    } else {
                        assert(want.skip(k1) =~= Seq::<NamedType>::empty());
                        assert(want.take(k1) =~= want);
                    }
                    g2.lemma_rest(&g2);
                    g2.lemma_next();
                }
            }
            if self.at(TokenKind::Pipe) {
                self.bump();
                proof {
                    if ok {
                        g2.lemma_read_one(
                            &*self,
                            punct(TokenKind::Pipe),
                            seq![name_token(want[k1].name)] + sep_names(want.skip(k1 + 1), TokenKind::Pipe),
                            avoid,
                        );
                    }
                    if ok || !self.erred() {
                        g2.lemma_next();
                        old(self).lemma_read_chain(&g2, &*self);
                    }
                }
            } else {
                break ;
            }
        }
        proof {
            if ok || !self.erred() {
                assert(union_members_tokens(members@, lead) =~= head + joined_names(members@, TokenKind::Pipe));
            }
            if ok {
                assert(full =~= head + joined_names(want, TokenKind::Pipe));
            }
        }
        members
    }

    fn parse_enum_type_definition(&mut self, description: Option<StringValue<'a>>) -> (r:
        EnumTypeDefinition<'a>)
        requires
            old(self).inv(),
            opt_string_value_wf(description, old(self).bytes()),
        ensures
            final(self).inv(),
            old(self).evolves_to(final(self)),
            definition_wf(Definition::EnumType(r), old(self).bytes()),
            definition_complete(Definition::EnumType(r)) || final(self).erred(),
    {
        let start = self.definition_start(&description);
        self.expect_name_value("enum");
        let name = match self.parse_name() {
            Some(n) => n,
            None => self.missing_name(),
        };
        let directives = self.parse_directives(Constness::Const, Ghost(Seq::empty()));
        let values = self.parse_enum_values_definition_if_present();
        EnumTypeDefinition { description, name, directives, values, span: self.span_from(start) }
    }

    fn parse_enum_type_extension_from(&mut self, start: usize) -> (r: EnumTypeExtension<'a>)
        requires
            old(self).inv(),
            start <= old(self).bytes().len(),
        ensures
            final(self).inv(),
            old(self).evolves_to(final(self)),
            definition_wf(Definition::EnumTypeExtension(r), old(self).bytes()),
            definition_complete(Definition::EnumTypeExtension(r)) || final(self).erred(),
            r.directives@.len() == 0 && r.values@.len() == 0 ==> final(self).erred(),
            old(self).next_kind() == Some(TokenKind::Name) && old(self).next_text() == bytes_of("enum") && old(self).rest().len() > 1
                && old(self).rest()[1].0 == TokenKind::Name ==> bytes_of(r.name.value) == old(self).rest()[1].1,
    {
        let ghost hyp = old(self).next_kind() == Some(TokenKind::Name) && old(self).next_text() == bytes_of("enum") && old(self).rest().len() > 1 && old(self).rest()[1].0 == TokenKind::Name;
        let ghost g0 = *self;
        self.expect_name_value("enum");
        let ghost g1 = *self;
        proof {
            if hyp {
                g0.lemma_head();
                g0.lemma_rest(&g1);
                assert(g0.rest()[1] == g1.rest()[0]);
                g1.lemma_head();
            }
        }
        let name = match self.parse_name() {
            Some(n) => n,
            None => self.missing_name(),
        };
        proof {
            if hyp {
                g1.lemma_rest(&*self);
                assert(g1.rest()[0] == g1.read_until(&*self)[0]);
            }
        }
        let directives = self.parse_directives(Constness::Const, Ghost(Seq::empty()));
        let values = self.parse_enum_values_definition_if_present();
        if directives.len() == 0 && values.len() == 0 {
            self.err("expected Directives or Enum Values Definition");
        }
        EnumTypeExtension { name, directives, values, span: self.span_from(start) }
    }

    fn parse_enum_values_definition_if_present(&mut self) -> (r: Vec<EnumValueDefinition<'a>>)
        requires
            old(self).inv(),
        ensures
            final(self).inv(),
            old(self).evolves_to(final(self)),
            enum_value_definitions_wf(r@, old(self).bytes()),
            enum_value_definitions_complete(r@) || final(self).erred(),
            old(self).next_kind() != Some(TokenKind::LCurly) ==> r@.len() == 0 && final(self).next_index()
                == old(self).next_index(),
            old(self).next_kind() == Some(TokenKind::LCurly) && !final(self).erred() ==> r@.len() > 0
                && reads_as(
                old(self).read_until(final(self)),
                seq![punct(TokenKind::LCurly)] + enum_value_list_tokens(r@) + seq![punct(TokenKind::RCurly)],
            ),
            old(self).next_kind() == Some(TokenKind::LCurly) ==> old(self).advanced(final(self)),
    {
        let mut values: Vec<EnumValueDefinition<'a>> = Vec::new();
        if !self.at(TokenKind::LCurly) {
            return values;
        }
        let ghost g = *self;
        self.bump();
        proof {
            g.lemma_next();
            old(self).lemma_read_chain(&g, &*self);
            assert(enum_value_list_tokens(values@) =~= Seq::<(TokenKind, Seq<u8>)>::empty());
            assert(old(self).read_until(&*self) =~= seq![punct(TokenKind::LCurly)] + enum_value_list_tokens(values@));
        }
        loop
            invariant_except_break
                !self.erred() ==> reads_as(
                    old(self).read_until(self),
                    seq![punct(TokenKind::LCurly)] + enum_value_list_tokens(values@),
                ),
            invariant
                self.inv(),
                old(self).evolves_to(self),
                old(self).advanced(self),
                enum_value_definitions_wf(values@, old(self).bytes()),
                enum_value_definitions_complete(values@) || self.erred(),
            ensures
                self.inv(),
                old(self).evolves_to(self),
                old(self).advanced(self),
                enum_value_definitions_wf(values@, old(self).bytes()),
                enum_value_definitions_complete(values@) || self.erred(),
                !self.erred() ==> values@.len() > 0 && reads_as(
                    old(self).read_until(self),
                    seq![punct(TokenKind::LCurly)] + enum_value_list_tokens(values@) + seq![punct(TokenKind::RCurly)],
                ),
            decreases self.rank(),
        {
            let kind = match self.peek() {
                Some(k) => k,
                None => {
                    proof {
                        self.lemma_exhausted_has_errors();
                    }
                    break ;
                },
            };
            let ghost g0 = *self;
            if kind == TokenKind::RCurly {
                if values.len() == 0 {
                    self.err("expected Enum Value Definition");
                }
                let ghost g1 = *self;
                self.bump();
                proof {
                    if !self.erred() {
                        g1.lemma_next();
                        old(self).lemma_read_chain(&g1, &*self);
                        lemma_reads_as_concat(
                            old(self).read_until(&g1),
                            seq![punct(TokenKind::LCurly)] + enum_value_list_tokens(values@),
                            g1.read_until(&*self),
                            seq![punct(TokenKind::RCurly)],
                        );
                    }
                }
                break ;
            } else if kind == TokenKind::Name || kind == TokenKind::StringValue {
                let value = self.parse_enum_value_definition();
                let ghost before = values@;
                values.push(value);
                proof {
                    if !self.erred() {
                        assert(values@ =~= before.push(value));
                        assert(enum_value_definitions_complete(before));
                        assert forall|i: int| 0 <= i < values@.len() implies name_complete(
                            #[trigger] values@[i].value.name,
                        ) && directives_complete(values@[i].directives@) by {
                            if i < before.len() {
                                assert(values@[i] == before[i]);
                            }
                        }
                        old(self).lemma_read_chain(&g0, &*self);
                        lemma_reads_as_concat(
                            old(self).read_until(&g0),
                            seq![punct(TokenKind::LCurly)] + enum_value_list_tokens(before),
                            g0.read_until(&*self),
                            enum_value_definition_tokens(value),
                        );
                        assert(values@.drop_last() =~= before);
                        assert(seq![punct(TokenKind::LCurly)] + enum_value_list_tokens(values@) =~= seq![
                            punct(TokenKind::LCurly),
                        ] + enum_value_list_tokens(before) + enum_value_definition_tokens(value));
                    }
                }
            } else if kind == TokenKind::Eof {
                self.err("expected }");
                break ;
            } else {
                self.err_and_pop("expected an Enum Value Definition");
            }
        }
        values
    }

    fn parse_enum_value_definition(&mut self) -> (r: EnumValueDefinition<'a>)
        requires
            old(self).inv(),
        ensures
            final(self).inv(),
            old(self).evolves_to(final(self)),
            enum_value_definition_wf(r, old(self).bytes()),
            (name_complete(r.value.name) && directives_complete(r.directives@)) || final(self).erred(),
            old(self).next_kind() == Some(TokenKind::Name) || old(self).next_kind() == Some(
                TokenKind::StringValue,
            ) ==> old(self).advanced(final(self)),
            !final(self).erred() ==> reads_as(old(self).read_until(final(self)), enum_value_definition_tokens(r)),
    {
        let start = self.current_start();
        let ghost g0 = *self;
        let description = self.parse_description_if_present();
        let ghost g1 = *self;
        let name = match self.parse_name() {
            Some(n) => n,
            None => self.missing_name(),
        };
        let ghost g2 = *self;
        let value = EnumValue { name };
        if text_eq(name.value, "true") || text_eq(name.value, "false") || text_eq(
            name.value,
            "null",
        ) {
            self.err("invalid Enum Value");
        }
        let ghost g3 = *self;
        let directives = self.parse_directives(Constness::Const, Ghost(Seq::empty()));
        let r = EnumValueDefinition { description, value, directives, span: self.span_from(start) };
        proof {
            if !self.erred() {
                old(self).lemma_read_chain(&g0, &g1);
                old(self).lemma_read_chain(&g1, &g2);
                old(self).lemma_read_chain(&g2, &g3);
                old(self).lemma_read_chain(&g3, &*self);
                assert(old(self).read_until(&g0) =~= Seq::<(TokenKind, Seq<u8>)>::empty());
                assert(g2.read_until(&g3) =~= Seq::<(TokenKind, Seq<u8>)>::empty());
                let head = description_tokens(description) + seq![name_token(name)];
                assert(old(self).read_until(&g3) =~= head);
                lemma_reads_as_concat(head, head, g3.read_until(&*self), directives_tokens(directives@));
                assert(old(self).read_until(&*self) =~= head + g3.read_until(&*self));
            }
        }
        r
    }

    fn parse_input_object_type_definition(&mut self, description: Option<StringValue<'a>>) -> (r:
        InputObjectTypeDefinition<'a>)
        requires
            old(self).inv(),
            opt_string_value_wf(description, old(self).bytes()),
        ensures
            final(self).inv(),
            old(self).evolves_to(final(self)),
            definition_wf(Definition::InputObjectType(r), old(self).bytes()),
            definition_complete(Definition::InputObjectType(r)) || final(self).erred(),
    {
        let start = self.definition_start(&description);
        self.expect_name_value("input");
        let name = match self.parse_name() {
            Some(n) => n,
            None => self.missing_name(),
        };
        let directives = self.parse_directives(Constness::Const, Ghost(Seq::empty()));
        let fields = self.parse_input_fields_definition_if_present();
        InputObjectTypeDefinition {
            description,
            name,
            directives,
            fields,
            span: self.span_from(start),
        }
    }

    fn parse_input_object_type_extension_from(&mut self, start: usize) -> (r:
        InputObjectTypeExtension<'a>)
        requires
            old(self).inv(),
            start <= old(self).bytes().len(),
        ensures
            final(self).inv(),
            old(self).evolves_to(final(self)),
            definition_wf(Definition::InputObjectTypeExtension(r), old(self).bytes()),
            definition_complete(Definition::InputObjectTypeExtension(r)) || final(self).erred(),
            r.directives@.len() == 0 && r.fields@.len() == 0 ==> final(self).erred(),
            old(self).next_kind() == Some(TokenKind::Name) && old(self).next_text() == bytes_of("input") && old(self).rest().len() > 1
                && old(self).rest()[1].0 == TokenKind::Name ==> bytes_of(r.name.value) == old(self).rest()[1].1,
    {
        let ghost hyp = old(self).next_kind() == Some(TokenKind::Name) && old(self).next_text() == bytes_of("input") && old(self).rest().len() > 1 && old(self).rest()[1].0 == TokenKind::Name;
        let ghost g0 = *self;
        self.expect_name_value("input");
        let ghost g1 = *self;
        proof {
            if hyp {
                g0.lemma_head();
                g0.lemma_rest(&g1);
                assert(g0.rest()[1] == g1.rest()[0]);
                g1.lemma_head();
            }
        }
        let name = match self.parse_name() {
            Some(n) => n,
            None => self.missing_name(),
        };
        proof {
            if hyp {
                g1.lemma_rest(&*self);
                assert(g1.rest()[0] == g1.read_until(&*self)[0]);
            }
        }
        let directives = self.parse_directives(Constness::Const, Ghost(Seq::empty()));
        let fields = self.parse_input_fields_definition_if_present();
        if directives.len() == 0 && fields.len() == 0 {
            self.err("expected Directives or Input Fields Definition");
        }
        InputObjectTypeExtension { name, directives, fields, span: self.span_from(start) }
    }

    fn parse_input_fields_definition_if_present(&mut self) -> (r: Vec<InputValueDefinition<'a>>)
        requires
            old(self).inv(),
        ensures
            final(self).inv(),
            old(self).evolves_to(final(self)),
            input_value_definitions_wf(r@, old(self).bytes()),
            input_value_definitions_complete(r@) || final(self).erred(),
            old(self).next_kind() != Some(TokenKind::LCurly) ==> r@.len() == 0 && final(self).next_index()
                == old(self).next_index(),
            old(self).next_kind() == Some(TokenKind::LCurly) && !final(self).erred() ==> r@.len() > 0
                && reads_as(
                old(self).read_until(final(self)),
                seq![punct(TokenKind::LCurly)] + input_value_list_tokens(r@) + seq![punct(TokenKind::RCurly)],
            ),
            old(self).next_kind() == Some(TokenKind::LCurly) ==> old(self).advanced(final(self)),
    {
        let mut fields: Vec<InputValueDefinition<'a>> = Vec::new();
        if !self.at(TokenKind::LCurly) {
            return fields;
        }
        let ghost g = *self;
        self.bump();
        proof {
            g.lemma_next();
            old(self).lemma_read_chain(&g, &*self);
            assert(input_value_list_tokens(fields@) =~= Seq::<(TokenKind, Seq<u8>)>::empty());
            assert(old(self).read_until(&*self) =~= seq![punct(TokenKind::LCurly)] + input_value_list_tokens(fields@));
        }
        loop
            invariant_except_break
                !self.erred() ==> reads_as(
                    old(self).read_until(self),
                    seq![punct(TokenKind::LCurly)] + input_value_list_tokens(fields@),
                ),
            invariant
                self.inv(),
                old(self).evolves_to(self),
                old(self).advanced(self),
                input_value_definitions_wf(fields@, old(self).bytes()),
                input_value_definitions_complete(fields@) || self.erred(),
            ensures
                self.inv(),
                old(self).evolves_to(self),
                old(self).advanced(self),
                input_value_definitions_wf(fields@, old(self).bytes()),
                input_value_definitions_complete(fields@) || self.erred(),
                !self.erred() ==> fields@.len() > 0 && reads_as(
                    old(self).read_until(self),
                    seq![punct(TokenKind::LCurly)] + input_value_list_tokens(fields@) + seq![punct(TokenKind::RCurly)],
                ),
            decreases self.rank(),
        {
            let kind = match self.peek() {
                Some(k) => k,
                None => {
                    proof {
                        self.lemma_exhausted_has_errors();
                    }
                    break ;
                },
            };
            let ghost g0 = *self;
            if kind == TokenKind::RCurly {
                if fields.len() == 0 {
                    self.err("expected an Input Value Definition");
                }
                let ghost g1 = *self;
                self.bump();
                proof {
                    if !self.erred() {
                        g1.lemma_next();
                        old(self).lemma_read_chain(&g1, &*self);
                        lemma_reads_as_concat(
                            old(self).read_until(&g1),
                            seq![punct(TokenKind::LCurly)] + input_value_list_tokens(fields@),
                            g1.read_until(&*self),
                            seq![punct(TokenKind::RCurly)],
                        );
                    }
                }
                break ;
            } else if kind == TokenKind::Name || kind == TokenKind::StringValue {
                let field = self.parse_input_value_definition(Ghost(arbitrary()));
                let ghost before = fields@;
                fields.push(field);
                proof {
                    if !self.erred() {
                        old(self).lemma_read_chain(&g0, &*self);
                        lemma_reads_as_concat(
                            old(self).read_until(&g0),
                            seq![punct(TokenKind::LCurly)] + input_value_list_tokens(before),
                            g0.read_until(&*self),
                            input_value_definition_tokens(field),
                        );
                        assert(fields@.drop_last() =~= before);
                        assert(seq![punct(TokenKind::LCurly)] + input_value_list_tokens(fields@) =~= seq![
                            punct(TokenKind::LCurly),
                        ] + input_value_list_tokens(before) + input_value_definition_tokens(field));
                    }
                }
            } else if kind == TokenKind::Eof {
                self.err("expected }");
                break ;
            } else {
                self.err_and_pop("expected an Input Value Definition");
            }
        }
        fields
    }
    // -----------------------------------------------------------------------
    // Documents
    #[verifier::spinoff_prover]
    #[verifier::rlimit(100)]
    fn parse_definition(&mut self, Ghost(want): Ghost<Definition<'a>>, Ghost(shorthand): Ghost<bool>) -> (r:
        Option<Definition<'a>>)
        requires
            old(self).inv(),
        ensures
            final(self).inv(),
            old(self).evolves_to(final(self)),
            r matches Some(d) ==> definition_wf(d, old(self).bytes()),
            r matches Some(d) ==> definition_complete(d) || final(self).erred(),
            r is None ==> final(self).erred(),
            old(self).next_kind() == Some(TokenKind::StringValue) && !old(self).spec_flags().0 && (r matches Some(
                d,
            ) && (d is Operation || d is Fragment)) ==> final(self).erred(),
            old(self).fits_definition(want, shorthand) ==> {
                &&& r is Some
                &&& final(self).spec_errors() == old(self).spec_errors()
                &&& old(self).read_until(final(self)) == definition_tokens(want, shorthand)
                &&& definition_tokens(r->0, shorthand) == definition_tokens(want, shorthand)
                &&& shorthand ==> short_form(r->0)
            },
            r matches Some(d) && definition_errs(d, old(self).spec_flags().0) ==> final(self).erred(),
            old(self).next_kind() == Some(TokenKind::StringValue) && old(self).rest().len() > 1
                && described_start_errs(old(self).rest()[1], old(self).spec_flags().0) ==> final(self).erred(),
    {
        let ghost ok = old(self).fits_definition(want, shorthand);
        let ghost g = *old(self);
        proof {
            if ok {
                g.lemma_definition_head(want, shorthand);
            }
        }
        let ghost hyp = old(self).next_kind() == Some(TokenKind::StringValue) && old(self).rest().len() > 1
            && described_start_errs(old(self).rest()[1], old(self).spec_flags().0);
        let description = self.parse_description_if_present();
        let ghost gd = *self;
        proof {
            if hyp {
                g.lemma_rest(&g);
                g.lemma_head();
                g.lemma_rest(&gd);
                assert(g.rest()[1] == gd.rest()[0]);
                gd.lemma_rest(&gd);
                gd.lemma_head();
                if gd.next_kind() == Some(TokenKind::Name) {
                    assert(gd.next_token().1 == gd.next_text());
                }
                lemma_keywords_differ();
            }
        }
        if self.peek().is_none() {
            proof {
                self.lemma_exhausted_has_errors();
            }
            return None;
        }
        if self.at_keyword("fragment") {
            let ghost gx = *self;
            let ghost wf = match want {
                Definition::Fragment(f) => f,
                _ => arbitrary(),
            };
            proof {
                if ok {
                    assert(gx.rest() == g.rest());
                    g.lemma_definition_parts(&gx, want, shorthand);
                }
            }
            let d = Definition::Fragment(self.parse_described_fragment(description, Ghost(wf)));
            proof {
                if ok {
                    g.lemma_read_chain(&gx, &*self);
                    assert(g.read_until(&gx) =~= Seq::<(TokenKind, Seq<u8>)>::empty());
                }
            }
            return Some(d);
        }
        if self.at_keyword("query") || self.at_keyword("mutation") || self.at_keyword("subscription")
            || self.at(TokenKind::LCurly) {
            let ghost gx = *self;
            let ghost wo = match want {
                Definition::Operation(op) => op,
                _ => arbitrary(),
            };
            proof {
                if ok {
                    assert(gx.rest() == g.rest());
                    g.lemma_definition_parts(&gx, want, shorthand);
                }
            }
            let d = Definition::Operation(self.parse_described_operation(description, Ghost(wo), Ghost(shorthand)));
            proof {
                if ok {
                    g.lemma_read_chain(&gx, &*self);
                    assert(g.read_until(&gx) =~= Seq::<(TokenKind, Seq<u8>)>::empty());
                }
            }
            return Some(d);
        }
        let ghost gx = *self;
        proof {
            if ok {
                assert(gx.rest() == g.rest());
                g.lemma_definition_parts(&gx, want, shorthand);
                assert(want is UnionType || want is ObjectType || want is ScalarTypeExtension
                    || want is UnionTypeExtension);
            }
        }
        let r = self.parse_type_system_definition(description, Ghost(want));
        proof {
            if ok {
                g.lemma_read_chain(&gx, &*self);
                assert(g.read_until(&gx) =~= Seq::<(TokenKind, Seq<u8>)>::empty());
            }
        }
        r
    }

    /// An operation after its description, if any: a description needs
    /// executable descriptions enabled, and a short-form operation takes none.
    fn parse_described_operation(
        &mut self,
        description: Option<StringValue<'a>>,
        Ghost(want): Ghost<OperationDefinition<'a>>,
        Ghost(shorthand): Ghost<bool>,
    ) -> (r: OperationDefinition<'a>)
        requires
            old(self).inv(),
            opt_string_value_wf(description, old(self).bytes()),
        ensures
            final(self).inv(),
            old(self).evolves_to(final(self)),
            definition_wf(Definition::Operation(r), old(self).bytes()),
            definition_complete(Definition::Operation(r)) || final(self).erred(),
            description is Some && !old(self).spec_flags().0 ==> final(self).erred(),
            old(self).fits_operation(want, shorthand) && description is None ==> {
                &&& final(self).spec_errors() == old(self).spec_errors()
                &&& old(self).read_until(final(self)) == operation_tokens(want, shorthand)
                &&& operation_tokens(r, shorthand) == operation_tokens(want, shorthand)
                &&& r.description is None
                &&& shorthand ==> short_form(Definition::Operation(r))
            },
            r.description == description,
    {
        let ghost g = *self;
        if description.is_some() {
            if !self.allow_executable_descriptions {
                self.err("a Description is only allowed here when executable descriptions are enabled");
            } else if self.at(TokenKind::LCurly) {
                self.err("a Description is not allowed on a shorthand operation");
            }
        }
        proof {
            if description is None {
                assert(self.rest() == g.rest());
            }
        }
        self.parse_operation_definition(description, Ghost(want), Ghost(shorthand))
    }

    /// A fragment definition after its description, if any: a description
    /// needs executable descriptions enabled.
    fn parse_described_fragment(&mut self, description: Option<StringValue<'a>>, Ghost(want): Ghost<FragmentDefinition<'a>>) -> (r:
        FragmentDefinition<'a>)
        requires
            old(self).inv(),
            opt_string_value_wf(description, old(self).bytes()),
        ensures
            final(self).inv(),
            old(self).evolves_to(final(self)),
            definition_wf(Definition::Fragment(r), old(self).bytes()),
            definition_complete(Definition::Fragment(r)) || final(self).erred(),
            bytes_of(r.name.value) == bytes_of("on") ==> final(self).erred(),
            description is Some && !old(self).spec_flags().0 ==> final(self).erred(),
            old(self).fits_fragment(want) && description is None ==> {
                &&& final(self).spec_errors() == old(self).spec_errors()
                &&& old(self).read_until(final(self)) == fragment_definition_tokens(want)
                &&& fragment_definition_tokens(r) == fragment_definition_tokens(want)
                &&& r.description is None
            },
            r.description == description,
    {
        if description.is_some() && !self.allow_executable_descriptions {
            self.err("a Description is only allowed here when executable descriptions are enabled");
        }
        self.parse_fragment_definition(description, Ghost(want))
    }

    /// A type system definition or extension, or an error where none starts.
    #[verifier::spinoff_prover]
    #[verifier::rlimit(100)]
    fn parse_type_system_definition(
        &mut self,
        description: Option<StringValue<'a>>,
        Ghost(want): Ghost<Definition<'a>>,
    ) -> (r: Option<Definition<'a>>)
        requires
            old(self).inv(),
            opt_string_value_wf(description, old(self).bytes()),
        ensures
            final(self).inv(),
            old(self).evolves_to(final(self)),
            r matches Some(d) ==> definition_wf(d, old(self).bytes()),
            r matches Some(d) ==> definition_complete(d) || final(self).erred(),
            r is None ==> final(self).erred(),
            r matches Some(d) ==> !(d is Operation) && !(d is Fragment),
            description is Some && old(self).next_kind() == Some(TokenKind::Name) && old(self).next_text()
                == bytes_of("extend") ==> final(self).erred(),
            want is UnionType && old(self).fits_union(want->UnionType_0) && description is None ==> {
                &&& r matches Some(Definition::UnionType(u)) && union_definition_tokens(u) == union_definition_tokens(
                    want->UnionType_0,
                )
                &&& final(self).spec_errors() == old(self).spec_errors()
                &&& old(self).read_until(final(self)) == union_definition_tokens(want->UnionType_0)
            },
            want is ObjectType && old(self).fits_object(want->ObjectType_0) && description is None ==> {
                &&& r matches Some(Definition::ObjectType(o)) && object_definition_tokens(o)
                    == object_definition_tokens(want->ObjectType_0)
                &&& final(self).spec_errors() == old(self).spec_errors()
                &&& old(self).read_until(final(self)) == object_definition_tokens(want->ObjectType_0)
            },
            (want is ScalarTypeExtension && old(self).fits_scalar_extension(want->ScalarTypeExtension_0)) || (want is UnionTypeExtension
                && old(self).fits_union_extension(want->UnionTypeExtension_0)) ==> description is None ==> {
                &&& r is Some
                &&& definition_tokens(r->0, false) == definition_tokens(want, false)
                &&& final(self).spec_errors() == old(self).spec_errors()
                &&& old(self).read_until(final(self)) == definition_tokens(want, false)
            },
    {
        proof {
            lemma_union_keyword_differs();
            lemma_type_keyword_differs();
            lemma_extend_keyword_differs();
            if (want is UnionType && old(self).fits_union(want->UnionType_0)) || (want is ObjectType && old(self).fits_object(
                want->ObjectType_0,
            )) || (want is ScalarTypeExtension && old(self).fits_scalar_extension(want->ScalarTypeExtension_0)) || (want
                is UnionTypeExtension && old(self).fits_union_extension(want->UnionTypeExtension_0)) {
                old(self).lemma_head();
                assert(old(self).rest()[0] == definition_tokens(want, false)[0]);
                assert(old(self).next_token().1 == old(self).next_text());
            }
        }
        if self.at_keyword("directive") {
            Some(Definition::Directive(self.parse_directive_definition(description)))
        } else if self.at_keyword("enum") {
            Some(Definition::EnumType(self.parse_enum_type_definition(description)))
        } else if self.at_keyword("extend") {
            if description.is_some() {
                self.err("a Description is not allowed on an extension");
            }
            self.parse_extension(Ghost(want))
        } else {
            self.parse_type_definition(description, Ghost(want))
        }
    }

    /// A type definition that starts with neither `directive`, `enum` nor
    /// `extend`, or an error where none starts.
    #[verifier::spinoff_prover]
    #[verifier::rlimit(60)]
    fn parse_type_definition(
        &mut self,
        description: Option<StringValue<'a>>,
        Ghost(want): Ghost<Definition<'a>>,
    ) -> (r: Option<Definition<'a>>)
        requires
            old(self).inv(),
            opt_string_value_wf(description, old(self).bytes()),
        ensures
            final(self).inv(),
            old(self).evolves_to(final(self)),
            r matches Some(d) ==> definition_wf(d, old(self).bytes()),
            r matches Some(d) ==> definition_complete(d) || final(self).erred(),
            r is None ==> final(self).erred(),
            r matches Some(d) ==> !(d is Operation) && !(d is Fragment),
            want is UnionType && old(self).fits_union(want->UnionType_0) && description is None ==> {
                &&& r matches Some(Definition::UnionType(u)) && union_definition_tokens(u) == union_definition_tokens(
                    want->UnionType_0,
                )
                &&& final(self).spec_errors() == old(self).spec_errors()
                &&& old(self).read_until(final(self)) == union_definition_tokens(want->UnionType_0)
            },
            want is ObjectType && old(self).fits_object(want->ObjectType_0) && description is None ==> {
                &&& r matches Some(Definition::ObjectType(o)) && object_definition_tokens(o)
                    == object_definition_tokens(want->ObjectType_0)
                &&& final(self).spec_errors() == old(self).spec_errors()
                &&& old(self).read_until(final(self)) == object_definition_tokens(want->ObjectType_0)
            },
    {
        let ghost wu = match want {
            Definition::UnionType(u) => u,
            _ => arbitrary(),
        };
        let ghost wo = match want {
            Definition::ObjectType(o) => o,
            _ => arbitrary(),
        };
        proof {
            lemma_union_keyword_differs();
            lemma_type_keyword_differs();
            if want is UnionType && old(self).fits_union(wu) {
                old(self).lemma_head();
                assert(old(self).rest()[0] == union_definition_tokens(wu)[0]);
                assert(old(self).next_token().1 == old(self).next_text());
            }
            if want is ObjectType && old(self).fits_object(wo) {
                old(self).lemma_head();
                assert(old(self).rest()[0] == object_definition_tokens(wo)[0]);
                assert(old(self).next_token().1 == old(self).next_text());
            }
        }
        let definition = if self.at_keyword("input") {
            Definition::InputObjectType(self.parse_input_object_type_definition(description))
        } else if self.at_keyword("interface") {
            Definition::InterfaceType(self.parse_interface_type_definition(description))
        } else if self.at_keyword("type") {
            Definition::ObjectType(self.parse_object_type_definition(description, Ghost(wo)))
        } else if self.at_keyword("scalar") {
            Definition::ScalarType(self.parse_scalar_type_definition(description))
        } else if self.at_keyword("schema") {
            Definition::Schema(self.parse_schema_definition(description))
        } else if self.at_keyword("union") {
            Definition::UnionType(self.parse_union_type_definition(description, Ghost(wu)))
        } else {
            if description.is_some() {
                self.err("expected a definition after this StringValue");
            } else {
                self.err_and_pop("expected definition");
            }
            return None;
        };
        Some(definition)
    }

    #[verifier::spinoff_prover]
    #[verifier::rlimit(80)]
    fn parse_extension(&mut self, Ghost(want): Ghost<Definition<'a>>) -> (r: Option<Definition<'a>>)
        requires
            old(self).inv(),
        ensures
            final(self).inv(),
            old(self).evolves_to(final(self)),
            r matches Some(d) ==> definition_wf(d, old(self).bytes()),
            r matches Some(d) ==> definition_complete(d) || final(self).erred(),
            r is None ==> final(self).erred(),
            r matches Some(d) ==> !(d is Operation) && !(d is Fragment),
            old(self).next_kind() == Some(TokenKind::Name) && old(self).next_text() == bytes_of("extend")
                && old(self).rest().len() > 1 ==> {
                let t = old(self).rest()[1];
                &&& t == (TokenKind::Name, bytes_of("schema")) ==> r is Some && r->0 is SchemaExtension
                &&& t == (TokenKind::Name, bytes_of("scalar")) ==> r is Some && r->0 is ScalarTypeExtension && (old(self).rest().len() > 2
                    && old(self).rest()[2].0 == TokenKind::Name ==> bytes_of(r->0->ScalarTypeExtension_0.name.value) == old(self).rest()[2].1)
                &&& t == (TokenKind::Name, bytes_of("type")) ==> r is Some && r->0 is ObjectTypeExtension && (old(self).rest().len() > 2
                    && old(self).rest()[2].0 == TokenKind::Name ==> bytes_of(r->0->ObjectTypeExtension_0.name.value) == old(self).rest()[2].1)
                &&& t == (TokenKind::Name, bytes_of("interface")) ==> r is Some && r->0 is InterfaceTypeExtension && (old(self).rest().len() > 2
                    && old(self).rest()[2].0 == TokenKind::Name ==> bytes_of(r->0->InterfaceTypeExtension_0.name.value) == old(self).rest()[2].1)
                &&& t == (TokenKind::Name, bytes_of("union")) ==> r is Some && r->0 is UnionTypeExtension && (old(self).rest().len() > 2
                    && old(self).rest()[2].0 == TokenKind::Name ==> bytes_of(r->0->UnionTypeExtension_0.name.value) == old(self).rest()[2].1)
                &&& t == (TokenKind::Name, bytes_of("enum")) ==> r is Some && r->0 is EnumTypeExtension && (old(self).rest().len() > 2
                    && old(self).rest()[2].0 == TokenKind::Name ==> bytes_of(r->0->EnumTypeExtension_0.name.value) == old(self).rest()[2].1)
                &&& t == (TokenKind::Name, bytes_of("input")) ==> r is Some && r->0 is InputObjectTypeExtension && (old(self).rest().len() > 2
                    && old(self).rest()[2].0 == TokenKind::Name ==> bytes_of(r->0->InputObjectTypeExtension_0.name.value) == old(self).rest()[2].1)
                &&& !(t.0 == TokenKind::Name && (t.1 == bytes_of("schema") || t.1 == bytes_of("scalar") || t.1 == bytes_of("type")
                    || t.1 == bytes_of("interface") || t.1 == bytes_of("union") || t.1 == bytes_of("enum") || t.1 == bytes_of(
                    "input",
                ))) ==> r is None
            },
            (want is ScalarTypeExtension && old(self).fits_scalar_extension(want->ScalarTypeExtension_0)) || (want is UnionTypeExtension
                && old(self).fits_union_extension(want->UnionTypeExtension_0)) ==> {
                &&& r is Some
                &&& definition_tokens(r->0, false) == definition_tokens(want, false)
                &&& final(self).spec_errors() == old(self).spec_errors()
                &&& old(self).read_until(final(self)) == definition_tokens(want, false)
            },
    {
        let ghost hyp = old(self).next_kind() == Some(TokenKind::Name) && old(self).next_text() == bytes_of("extend")
            && old(self).rest().len() > 1;
        let start = self.current_start();
        let ghost g0 = *self;
        self.expect_name_value("extend");
        let ghost g1 = *self;
        proof {
            if hyp {
                assert(g0.rest() == old(self).rest());
                g0.lemma_head();
                g0.lemma_rest(&g1);
                assert(g0.rest()[1] == g1.rest()[0]);
                if g0.rest().len() > 2 {
                    assert(g0.rest()[2] == g1.rest()[1]);
                }
                g1.lemma_head();
                if g1.next_kind() == Some(TokenKind::Name) {
                    assert(g1.next_token().1 == g1.next_text());
                }
                lemma_extension_keywords_differ();
            }
        }
        let ghost ok = (want is ScalarTypeExtension && old(self).fits_scalar_extension(want->ScalarTypeExtension_0)) || (
        want is UnionTypeExtension && old(self).fits_union_extension(want->UnionTypeExtension_0));
        let ghost ws = want->ScalarTypeExtension_0;
        let ghost wu = want->UnionTypeExtension_0;
        let ghost tail = if want is ScalarTypeExtension {
            scalar_extension_tokens(ws)
        } else {
            union_extension_tokens(wu)
        };
        let ghost av = if want is ScalarTypeExtension {
            set![TokenKind::At, TokenKind::LParen]
        } else {
            union_extension_follow(wu)
        };
        proof {
            if ok {
                assert(g0.rest() == old(self).rest());
                g0.lemma_head();
                assert(g0.rest()[0] == (seq![extend_token()] + tail)[0]);
                assert(g0.next_token().1 == g0.next_text());
                g0.lemma_read_one(&g1, extend_token(), tail, av);
                g1.lemma_head();
                assert(g1.rest()[0] == tail[0]);
                assert(g1.next_token().1 == g1.next_text());
                lemma_extension_keywords_differ();
            }
        }
        let definition = if self.at_keyword("schema") {
            Definition::SchemaExtension(self.parse_schema_extension_from(start))
        } else if self.at_keyword("scalar") {
            Definition::ScalarTypeExtension(self.parse_scalar_type_extension_from(start, Ghost(ws)))
        } else if self.at_keyword("type") {
            Definition::ObjectTypeExtension(self.parse_object_type_extension_from(start, Ghost(want->ObjectTypeExtension_0)))
        } else if self.at_keyword("interface") {
            Definition::InterfaceTypeExtension(self.parse_interface_type_extension_from(start, Ghost(want->InterfaceTypeExtension_0)))
        } else if self.at_keyword("union") {
            Definition::UnionTypeExtension(self.parse_union_type_extension_from(start, Ghost(wu)))
        } else if self.at_keyword("enum") {
            Definition::EnumTypeExtension(self.parse_enum_type_extension_from(start))
        } else if self.at_keyword("input") {
            Definition::InputObjectTypeExtension(self.parse_input_object_type_extension_from(start))
        } else {
            self.err("expected a valid extension");
            return None;
        };
        proof {
            if ok {
                old(self).lemma_read_chain(&g1, &*self);
                assert(old(self).read_until(&g0) =~= Seq::<(TokenKind, Seq<u8>)>::empty());
                old(self).lemma_read_chain(&g0, &g1);
                assert(old(self).read_until(&*self) =~= definition_tokens(want, false));
            }
        }
        Some(definition)
    }

    #[verifier::spinoff_prover]
    #[verifier::rlimit(60)]
    fn parse_document(&mut self, Ghost(want): Ghost<Seq<(Definition<'a>, bool)>>) -> (r: Document<'a>)
        requires
            old(self).inv(),
        ensures
            final(self).inv(),
            old(self).evolves_to(final(self)),
            document_wf(r, old(self).bytes()),
            final(self).consumed() == final(self).stream().len(),
            r.definitions@.len() > 0 || final(self).spec_errors().len() > 0,
            document_complete(r) || final(self).erred(),
            old(self).fits_document(want) ==> final(self).spec_errors() == old(self).spec_errors()
                && reads_back(r.definitions@, definitions_tokens(want)),
            forall|i: int|
                0 <= i < r.definitions@.len() && definition_errs(#[trigger] r.definitions@[i], old(self).spec_flags().0)
                    ==> final(self).erred(),
            old(self).next_kind() == Some(TokenKind::StringValue) && old(self).rest().len() > 1
                && described_start_errs(old(self).rest()[1], old(self).spec_flags().0) ==> final(self).erred(),
            old(self).has_next() ==> r.span.start == old(self).next_lexeme().start,
            ends_at(r.span, final(self).last_token_end()),
            !final(self).erred() ==> final(self).next_index() == final(self).stream().len() - 1,
    {
        let ghost ok = old(self).fits_document(want);
        let ghost first_bad = old(self).next_kind() == Some(TokenKind::StringValue) && old(self).rest().len() > 1
            && described_start_errs(old(self).rest()[1], old(self).spec_flags().0);
        let ghost mut got = Seq::<(Definition, bool)>::empty();
        let start = self.current_start();
        let mut definitions: Vec<Definition<'a>> = Vec::new();
        proof {
            if ok {
                assert(want.take(0) =~= Seq::<(Definition, bool)>::empty());
                assert(definitions_tokens(Seq::<(Definition, bool)>::empty()) =~= Seq::<(TokenKind, Seq<u8>)>::empty());
                assert(old(self).read_until(&*self) =~= Seq::<(TokenKind, Seq<u8>)>::empty());
                old(self).lemma_definitions_head(&*self, want, 0);
            }
        }
        match self.peek() {
            None => {
                proof {
                    self.lemma_exhausted_has_errors();
                }
                self.err("Unexpected <EOF>.");
            },
            Some(k) => {
                if k == TokenKind::Eof {
                    self.err("Unexpected <EOF>.");
                }
            },
        }
        proof {
            if ok {
                assert(old(self).read_until(&*self) =~= Seq::<(TokenKind, Seq<u8>)>::empty());
            }
        }
        loop
            invariant
                self.inv(),
                old(self).inv(),
                old(self).evolves_to(self),
                start <= old(self).bytes().len(),
                definitions@.len() > 0 || self.spec_errors().len() > 0 || (self.has_next()
                    && self.next_kind() != Some(TokenKind::Eof)),
                forall|i: int|
                    0 <= i < definitions@.len() ==> definition_wf(
                        #[trigger] definitions@[i],
                        old(self).bytes(),
                    ),
                (forall|i: int|
                    0 <= i < definitions@.len() ==> definition_complete(#[trigger] definitions@[i]))
                    || self.erred(),
                ok == old(self).fits_document(want),
                first_bad == (old(self).next_kind() == Some(TokenKind::StringValue) && old(self).rest().len() > 1
                    && described_start_errs(old(self).rest()[1], old(self).spec_flags().0)),
                first_bad ==> self.next_index() == old(self).next_index() || self.erred(),
                forall|i: int|
                    0 <= i < definitions@.len() && definition_errs(
                        #[trigger] definitions@[i],
                        old(self).spec_flags().0,
                    ) ==> self.erred(),
                ok ==> {
                    &&& definitions@.len() <= want.len()
                    &&& self.spec_errors() == old(self).spec_errors()
                    &&& old(self).read_until(self) == definitions_tokens(want.take(definitions@.len() as int))
                    &&& got.len() == definitions@.len()
                    &&& forall|i: int| 0 <= i < got.len() ==> (#[trigger] got[i]).0 == definitions@[i]
                    &&& forall|i: int| 0 <= i < got.len() ==> (#[trigger] got[i]).1 ==> short_form(got[i].0)
                    &&& definitions_tokens(got) == definitions_tokens(want.take(definitions@.len() as int))
                },
            ensures
                self.inv(),
                old(self).evolves_to(self),
                self.consumed() == self.stream().len(),
                definitions@.len() > 0 || self.spec_errors().len() > 0,
                forall|i: int|
                    0 <= i < definitions@.len() ==> definition_wf(
                        #[trigger] definitions@[i],
                        old(self).bytes(),
                    ),
                (forall|i: int|
                    0 <= i < definitions@.len() ==> definition_complete(#[trigger] definitions@[i]))
                    || self.erred(),
                ok ==> self.spec_errors() == old(self).spec_errors(),
                first_bad ==> self.erred(),
                !self.erred() ==> self.next_index() == self.stream().len() - 1,
                forall|i: int|
                    0 <= i < definitions@.len() && definition_errs(
                        #[trigger] definitions@[i],
                        old(self).spec_flags().0,
                    ) ==> self.erred(),
                ok ==> {
                    &&& got.len() == definitions@.len()
                    &&& forall|i: int| 0 <= i < got.len() ==> (#[trigger] got[i]).0 == definitions@[i]
                    &&& forall|i: int| 0 <= i < got.len() ==> (#[trigger] got[i]).1 ==> short_form(got[i].0)
                    &&& definitions_tokens(got) == definitions_tokens(want)
                },
            decreases self.rank(),
        {
            let ghost here = *self;
            let ghost k = definitions@.len() as int;
            proof {
                if ok {
                    old(self).lemma_definitions_head(&here, want, k);
                }
            }
            let kind = self.peek();
            proof {
                here.lemma_next();
            }
            proof {
                if first_bad && self.next_index() == old(self).next_index() {
                    assert(self.next_kind() == old(self).next_kind());
                }
            }
            match kind {
                None => {
                    proof {
                        self.lemma_exhausted();
                        self.lemma_exhausted_has_errors();
                    }
                    break ;
                },
                Some(k) => {
                    if k == TokenKind::Eof {
                        proof {
                            self.lemma_at_eof();
                            self.lemma_eof_index();
                            if ok {
                                assert(want.take(definitions@.len() as int) =~= want);
                            }
                        }
                        break ;
                    }
                },
            }
            let before = self.current_span();
            let ghost mid = *self;
            let ghost item = if ok {
                want[k]
            } else {
                arbitrary()
            };
            proof {
                if ok {
                    assert(mid.rest() == here.rest());
                    assert(mid.fits_definition(item.0, item.1));
                    mid.lemma_definition_head(item.0, item.1);
                }
            }
            proof {
                if first_bad && mid.next_index() == old(self).next_index() {
                    assert(mid.rest() == old(self).rest());
                    assert(mid.next_kind() == old(self).next_kind());
                }
            }
            match self.parse_definition(Ghost(item.0), Ghost(item.1)) {
                Some(definition) => {
                    let ghost before = definitions@;
                    definitions.push(definition);
                    proof {
                        assert forall|i: int|
                            0 <= i < definitions@.len() && definition_errs(
                                #[trigger] definitions@[i],
                                old(self).spec_flags().0,
                            ) implies self.erred() by {
                            if i < before.len() {
                                assert(definitions@[i] == before[i]);
                                assert(here.erred());
                            }
                        }
                        if ok {
                            let old_got = got;
                            got = got.push((definition, item.1));
                            assert(got.drop_last() =~= old_got);
                            assert(got.last() == (definition, item.1));
                            assert forall|i: int| 0 <= i < got.len() implies (#[trigger] got[i]).0 == definitions@[i]
                                && (got[i].1 ==> short_form(got[i].0)) by {
                                if i < old_got.len() {
                                    assert(got[i] == old_got[i]);
                                    assert(definitions@[i] == before[i]);
                                }
                            }
                        }
                    }
                },
                None => {
                    self.err_and_pop("expected a StringValue, Name or OperationDefinition");
                },
            }
            let ghost after = *self;
            proof {
                if ok {
                    mid.lemma_progress(&after, definition_tokens(item.0, item.1));
                }
            }
            let same = self.current_span() == before;
            if same && !self.at(TokenKind::Eof) {
                self.bump();
            }
            proof {
                if after.next_index() == mid.next_index() {
                    assert(same);
                }
                if ok {
                    assert(!same);
                    old(self).lemma_read_chain(&here, &mid);
                    old(self).lemma_read_chain(&mid, &after);
                    assert(here.read_until(&mid) =~= Seq::<(TokenKind, Seq<u8>)>::empty());
                    assert(want.take(k + 1).drop_last() =~= want.take(k));
                    assert(want.take(k + 1).last() == item);
                    assert(definitions_tokens(want.take(k + 1)) =~= definitions_tokens(want.take(k))
                        + definition_tokens(item.0, item.1));
                }
            }
        }
        let r = Document { definitions, span: self.span_from(start) };
        proof {
            if ok {
                assert(got.len() == r.definitions@.len() && (forall|i: int| 0 <= i < got.len() ==> (#[trigger] got[i]).0 == r.definitions@[i])
                    && (forall|i: int| 0 <= i < got.len() ==> (#[trigger] got[i]).1 ==> short_form(got[i].0))
                    && definitions_tokens(got) == definitions_tokens(want));
            }
        }
        r
    }

    /// Once everything is read and no significant token is left, an error was
    /// recorded: the lexemes end with the `Eof` token, consumed only after an
    /// error, or with the token limit, itself reported as an error.
    proof fn lemma_exhausted_has_errors(&self)
        requires
            self.inv(),
            !self.has_next(),
            self.consumed() == self.stream().len(),
        ensures
            self.spec_errors().len() > 0,
    {
        reveal(stream_ok);
        self.lemma_next();
        let s = self.stream@;
        let n = s.len() as int;
        assert(s.last() == s[n - 1]);
        if s.last().kind == LexemeKind::Limit {
            assert(s.take(n) =~= s);
            assert(s.take(self.consumed())[n - 1] == s[n - 1]);
        } else {
            assert(is_significant(s[n - 1]));
            if self.current_token is Some {
                assert(self.cursor() == n - 1);
                lemma_first_sig_from(s, n - 1);
            }
        }
    }

    /// Nothing is left to read once the next-token search found nothing.
    proof fn lemma_exhausted(&self)
        requires
            self.inv(),
            !self.has_next(),
            self.current_token is None,
        ensures
            self.consumed() == self.stream().len() || self.next_index() == self.stream().len(),
    {
        self.lemma_next();
    }

    /// A peeked `Eof` token is the next one, at the last index.
    proof fn lemma_eof_index(&self)
        requires
            self.inv(),
            self.next_kind() == Some(TokenKind::Eof),
            self.current_token is Some,
            self.consumed() == self.stream().len(),
        ensures
            self.next_index() == self.stream().len() - 1,
    {
        lemma_first_sig_from(self.stream@, self.cursor());
    }

    /// The `Eof` token is the last lexeme.
    proof fn lemma_at_eof(&self)
        requires
            self.inv(),
            self.next_kind() == Some(TokenKind::Eof),
            self.current_token is Some,
        ensures
            self.consumed() == self.stream().len(),
    {
        self.lemma_next();
        reveal(stream_ok);
    }

    // -----------------------------------------------------------------------
    // Entry points
    /// Packs the root with the parser's errors, comments and limit trackers.
    fn into_ast<T>(self, root: T) -> (r: Ast<'a, T>)
        requires
            self.inv(),
        ensures
            r.spec_source() == self.spec_input(),
            r.spec_root() == root,
            r.spec_errors() == self.spec_errors(),
            r.spec_comments() == self.spec_comments(),
            r.spec_recursion_limit() == self.spec_recursion_limit(),
            r.spec_token_limit() == self.spec_token_limit(),
    {
        let token_limit = self.lexer.limit_tracker();
        Ast::new(self.input, root, self.errors, self.comments, self.recursion_limit, token_limit)
    }

    /// What holds of every syntax tree the parser hands out: the root is well
    /// formed against the source, every error offset lies within the source,
    /// the comments are a prefix of those of the source in order, and the
    /// recursion level is back at zero.
    pub open spec fn ast_ok<T>(&self, r: Ast<'a, T>) -> bool {
        &&& r.spec_source() == self.spec_input()
        &&& errors_within(r.spec_errors(), self.bytes())
        &&& r.spec_comments().is_prefix_of(self.all_comments())
        &&& line_comments(r.spec_comments(), self.bytes())
        &&& r.spec_recursion_limit().spec_current() == 0
        &&& r.spec_recursion_limit().spec_limit() == self.spec_recursion_limit().spec_limit()
        &&& r.spec_token_limit().spec_limit() == self.spec_token_limit().spec_limit()
    }

    /// The spans of all the comments of the source, in order, as far as the
    /// token limit lets the lexer read.
    pub open spec fn all_comments(&self) -> Seq<Span> {
        comment_spans(self.all_lexemes())
    }

    /// The lexemes of the whole source, as far as the token limit lets the
    /// lexer read.
    pub open spec fn all_lexemes(&self) -> Seq<Lexeme> {
        lexemes(self.bytes(), 0, self.spec_token_limit().spec_limit() as nat)
    }

    /// The significant tokens of the whole source, the final `Eof` included,
    /// as far as the token limit lets the lexer read.
    pub open spec fn all_tokens(&self) -> Seq<(TokenKind, Seq<u8>)> {
        sig_tokens(self.all_lexemes(), self.bytes(), 0, self.all_lexemes().len() as int)
    }

    /// The source starts with the type `t`, in a form the parser reads
    /// without an error: the whole source lexes cleanly (as far as the token
    /// limit lets the lexer read), `t` holds no placeholder and no doubled
    /// `!`, its lists nest no deeper than the recursion limit, its tokens are
    /// the first of the source, and the token after them is not a `!` that
    /// `t` could take.
    pub open spec fn starts_with_type(&self, t: Type) -> bool {
        &&& lexes_cleanly(self.all_lexemes())
        &&& type_complete(t)
        &&& type_canonical(t)
        &&& type_depth(t) <= self.spec_recursion_limit().spec_limit()
        &&& type_tokens(t).is_prefix_of(self.all_tokens())
        &&& type_tokens(t).len() < self.all_tokens().len()
        &&& !(t is NonNull) ==> self.all_tokens()[type_tokens(t).len() as int].0 != TokenKind::Bang
    }

    /// The source is the definitions `ds` (operations, each with whether
    /// it is written in short form, fragments, union types whose members
    /// have no leading `|`, object types that implement no interface, whose
    /// fields and argument definitions have no description, and scalar and
    /// union type extensions, the latter without a leading `|`), in a form
    /// the parser reads without an error: the whole source lexes cleanly (as
    /// far as the token limit lets the lexer read); no definition holds a
    /// placeholder or a description; no fragment definition declares
    /// variables; variable, field and argument definitions have types
    /// without a doubled `!` and constant default values and directives;
    /// no fragment or fragment spread is
    /// named `on`; lists and selections nest no deeper than the recursion
    /// limit; and the tokens of `ds`, then the end of the input, are all the
    /// tokens of the source.
    pub open spec fn is_clean_document(&self, ds: Seq<(Definition, bool)>) -> bool {
        &&& lexes_cleanly(self.all_lexemes())
        &&& ds.len() > 0
        &&& forall|i: int|
            0 <= i < ds.len() ==> definition_ok(
                #[trigger] ds[i].0,
                ds[i].1,
                self.spec_recursion_limit().spec_limit() as int,
            )
        &&& self.all_tokens() == definitions_tokens(ds).push(punct(TokenKind::Eof))
    }

    /// The source starts with the selection set `ss`, in a form the parser
    /// reads without an error: the whole source lexes cleanly (as far as the
    /// token limit lets the lexer read), `ss` holds no placeholder, no
    /// fragment spread in it is named `on`, its selections and lists nest no
    /// deeper than the recursion limit, and its tokens are the first of the
    /// source.
    pub open spec fn starts_with_selection_set(&self, ss: SelectionSet) -> bool {
        &&& lexes_cleanly(self.all_lexemes())
        &&& selection_set_complete(ss)
        &&& spreads_ok(ss)
        &&& selection_set_depth(ss) <= self.spec_recursion_limit().spec_limit()
        &&& selection_set_tokens(ss).is_prefix_of(self.all_tokens())
        &&& selection_set_tokens(ss).len() < self.all_tokens().len()
    }

    /// A parser that has read nothing has all the tokens still ahead.
    proof fn lemma_fresh_rest(&self)
        requires
            self.fresh(),
        ensures
            self.rest() == self.all_tokens(),
            self.stream() == self.all_lexemes(),
    {
        let s = self.stream();
        self.lemma_next();
        lemma_first_sig_from(s, 0);
        lemma_sig_tokens_none(s, self.bytes(), 0, self.next_index());
        lemma_sig_tokens_split(s, self.bytes(), 0, self.next_index(), s.len() as int);
        assert(self.rest() =~= self.all_tokens());
    }

    /// What a parser read from its start is the front of all the tokens; the
    /// next token, if any, comes right after.
    proof fn lemma_read_from_start(&self, end: &Self)
        requires
            self.fresh(),
            end.inv(),
            self.evolves_to(end),
        ensures
            self.read_until(end).is_prefix_of(self.all_tokens()),
            end.has_next() ==> self.all_tokens().len() > self.read_until(end).len()
                && self.all_tokens()[self.read_until(end).len() as int] == end.next_token(),
            !end.has_next() ==> self.all_tokens().len() == self.read_until(end).len(),
    {
        let s = self.stream();
        let b = self.bytes();
        let n = s.len() as int;
        self.lemma_next();
        end.lemma_next();
        lemma_first_sig_from(s, 0);
        lemma_sig_tokens_none(s, b, 0, self.next_index());
        lemma_sig_tokens_split(s, b, 0, self.next_index(), end.next_index());
        lemma_sig_tokens_split(s, b, 0, end.next_index(), n);
        let read = self.read_until(end);
        let rest = sig_tokens(s, b, end.next_index(), n);
        assert(sig_tokens(s, b, 0, end.next_index()) =~= read);
        assert(self.all_tokens() =~= read + rest);
        assert(read =~= self.all_tokens().subrange(0, read.len() as int));
        if end.has_next() {
            lemma_sig_tokens_first(s, b, end.next_index(), n);
            assert(self.all_tokens()[read.len() as int] == rest[0]);
        } else {
            assert(rest =~= Seq::<(TokenKind, Seq<u8>)>::empty());
        }
    }

    proof fn lemma_finish(&self, end: &Self)
        requires
            self.fresh(),
            end.inv(),
            self.evolves_to(end),
        ensures
            errors_within(end.spec_errors(), self.bytes()),
            end.spec_comments().is_prefix_of(self.all_comments()),
            line_comments(end.spec_comments(), self.bytes()),
            end.consumed() == end.stream().len() ==> end.spec_comments() == self.all_comments(),
            end.consumed() == end.stream().len() ==> reports_lexing_errors(
                end.spec_errors(),
                self.all_lexemes(),
                self.bytes(),
            ),
            end.spec_recursion_limit().spec_current() == 0,
    {
        let s = end.stream@;
        let b = self.bytes();
        lemma_comment_spans_prefix(s, end.consumed());
        crate::text::lemma_str_valid(self.input);
        lemma_comments_are_line_comments(b, 0, self.spec_token_limit().spec_limit() as nat);
        let t = s.take(end.consumed());
        assert forall|i: int|
            0 <= i < t.len() && (#[trigger] t[i]).kind == LexemeKind::Token(TokenKind::Comment)
                implies is_line_comment(b, t[i].start, t[i].end) by {
            assert(t[i] == s[i]);
        }
        lemma_comment_spans_line(t, b);
        if end.consumed() == s.len() {
            assert(s.take(s.len() as int) =~= s);
        }
    }

    /// Parses a whole document (the parser reads the source to its end).
    pub fn parse(self) -> (r: Ast<'a, Document<'a>>)
        requires
            self.fresh(),
        ensures
            self.ast_ok(r),
            document_wf(r.spec_root(), self.bytes()),
            r.spec_comments() == self.all_comments(),
            reports_lexing_errors(r.spec_errors(), self.all_lexemes(), self.bytes()),
            r.spec_errors().len() == 0 ==> document_complete(r.spec_root()),
            (exists|ds: Seq<(Definition<'a>, bool)>| self.is_clean_document(ds)) ==> {
                &&& r.spec_errors().len() == 0
                &&& reads_back(r.spec_root().definitions@, self.all_tokens().drop_last())
            },
            forall|i: int|
                0 <= i < r.spec_root().definitions@.len() && definition_errs(
                    #[trigger] r.spec_root().definitions@[i],
                    self.spec_flags().0,
                ) ==> r.spec_errors().len() > 0,
            self.all_tokens().len() > 1 && self.all_tokens()[0].0 == TokenKind::StringValue && described_start_errs(
                self.all_tokens()[1],
                self.spec_flags().0,
            ) ==> r.spec_errors().len() > 0,
            self.has_next() ==> r.spec_root().span.start == self.next_lexeme().start,
            r.spec_errors().len() == 0 ==> ends_at(
                r.spec_root().span,
                prev_sig_end(self.all_lexemes(), self.all_lexemes().len() - 1),
            ),
    {
        let ghost start = self;
        let mut p = self;
        let ghost want = choose|ds: Seq<(Definition<'a>, bool)>| start.is_clean_document(ds);
        proof {
            start.lemma_fresh_rest();
            if start.all_tokens().len() > 1 {
                start.lemma_head();
            }
        }
        let document = p.parse_document(Ghost(want));
        proof {
            start.lemma_finish(&p);
            if start.is_clean_document(want) {
                assert(start.all_tokens().drop_last() =~= definitions_tokens(want));
            }
        }
        p.into_ast(document)
    }

    /// Parses a selection set, `{ ... }`, and stops after its closing brace.
    pub fn parse_selection_set(self) -> (r: Ast<'a, SelectionSet<'a>>)
        requires
            self.fresh(),
        ensures
            self.ast_ok(r),
            selection_set_wf(r.spec_root(), self.bytes()),
            r.spec_errors().len() == 0 ==> selection_set_complete(r.spec_root()),
            r.spec_errors().len() == 0 && !has_empty_parens(self.all_tokens())
                ==> selection_set_tokens(r.spec_root()).is_prefix_of(self.all_tokens()),
            (exists|ss: SelectionSet<'a>| self.starts_with_selection_set(ss)) ==> {
                &&& r.spec_errors().len() == 0
                &&& selection_set_tokens(r.spec_root()).is_prefix_of(self.all_tokens())
            },
    {
        let ghost start = self;
        let mut p = self;
        let ghost want = choose|ss: SelectionSet<'a>| start.starts_with_selection_set(ss);
        proof {
            start.lemma_fresh_rest();
        }
        let selection_set = p.parse_selection_set_inner(Ghost(want));
        proof {
            start.lemma_finish(&p);
            start.lemma_read_from_start(&p);
            if !p.erred() && has_empty_parens(start.read_until(&p)) {
                lemma_empty_parens_prefix(start.read_until(&p), start.all_tokens());
            }
        }
        p.into_ast(selection_set)
    }

    /// Parses a type reference, such as `[String!]!`, and stops after it; the
    /// root is `Type::Missing` with an error where no type starts.
    pub fn parse_type(self) -> (r: Ast<'a, Type<'a>>)
        requires
            self.fresh(),
        ensures
            self.ast_ok(r),
            type_wf(r.spec_root(), self.bytes()),
            r.spec_errors().len() == 0 ==> type_complete(r.spec_root()),
            (exists|t: Type<'a>| self.starts_with_type(t)) ==> r.spec_errors().len() == 0,
            (exists|t: Type<'a>|
                too_deep_type(t, self.all_tokens(), self.spec_recursion_limit().spec_limit() as int))
                ==> r.spec_errors().len() > 0,
            r.spec_errors().len() == 0 ==> {
                let t = type_tokens(r.spec_root());
                &&& t.is_prefix_of(self.all_tokens())
                &&& type_canonical(r.spec_root())
                &&& !(r.spec_root() is NonNull) && t.len() < self.all_tokens().len()
                    ==> self.all_tokens()[t.len() as int].0 != TokenKind::Bang
            },
    {
        let ghost start = self;
        let mut p = self;
        let ghost want = choose|t: Type<'a>| start.starts_with_type(t);
        let ghost deep = choose|t: Type<'a>|
            too_deep_type(t, start.all_tokens(), start.spec_recursion_limit().spec_limit() as int);
        proof {
            start.lemma_fresh_rest();
        }
        let ty = match p.parse_type_inner(Ghost(want), Ghost(deep)) {
            Some(t) => t,
            None => {
                let span = p.current_span();
                p.err("expected a type");
                Type::Missing(span)
            },
        };
        proof {
            start.lemma_finish(&p);
            start.lemma_read_from_start(&p);
        }
        p.into_ast(ty)
    }
}

} // verus!

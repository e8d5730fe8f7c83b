# oxc_graphql_parser

A GraphQL lexer and error-resilient recursive-descent parser, written in Verus.
The parser always returns a syntax tree together with the lexing and parsing
errors it found; every node carries a byte span into the source.

## Layout

- `src/text.rs`: UTF-8 byte facts and the few string operations needed.
- `src/error.rs`: `Error` (message, text, offset) and `LimitTracker`.
- `src/lexer.rs`: the lexer. `scan` specifies the lexeme at each position and
  `lexemes` the whole lexeme sequence; `Lexer::next_item` and `Lexer::lex`
  are proved to hand out exactly those.
- `src/strings.rs`: string and block-string values (`unescape_string`,
  `normalize_block_string`), specified character by character.
- `src/ast.rs`: the syntax tree, its well-formedness predicates (spans inside
  the source, names and literals equal to the text they cover) and its
  completeness predicates (no error-recovery placeholder).
- `src/parser.rs`: the parser. Its invariant ties it to the lexeme sequence of
  the source; every parsing function is proved to terminate, to keep the
  invariant and to return a well-formed tree.
- `src/variables.rs`: the variables a selection set uses.
- `tests/`: tests on concrete inputs.

## What is proved of `Parser::parse`

- the tree is well formed against the source;
- every lexing error of the source is among the errors, and every error
  offset lies within the source;
- the comments are those of the whole source, in order, each a `#` through
  the end of its line;
- the recursion level is back at zero;
- when no error is reported, the document has at least one definition and
  holds no placeholder;
- no error is reported when the source is a sequence of definitions
  (operations, in full or short form, fragments, union types whose members
  have no leading `|`, object types that implement no interface, and scalar
  and union type extensions) that
  lexes cleanly, holds no placeholder or description, gives variables,
  fields and arguments types without a doubled `!` and constant defaults
  and directives, names no fragment or fragment spread `on`, and nests
  within the recursion limit; and then the document's definitions, each
  read in full or short form, have exactly the tokens of the source, a
  short-form operation being a query with no name, variable or directive;
- an error is reported for every fragment named `on`, for every operation
  or fragment with a description while executable descriptions are
  disabled, and when the source starts with a string followed by `extend`
  or (with those descriptions disabled) by an operation or a fragment;
- `Parser::parse_type` reports an error when the source starts with a type
  whose lists nest more deeply than the recursion limit.
- the document's span starts at the first token and, when no error is
  reported, ends where the last token before the end of the input ends;
  operations and fragments keep the description they are given, start at
  it (or at their first token) and end where their last token ends;
- `extend` followed by `schema`, `scalar`, `type`, `interface`, `union`,
  `enum` or `input` gives the matching extension, named by the token after
  that keyword; anything else there is an error.

## Collections

The syntax tree holds its lists in `std::vec::Vec` and its recursive
children in `std::boxed::Box`, where an arena-allocated vector and box could
serve: Verus specifies both std types, while a declared outside collection
cannot stand in the recursive types of the tree. The `Allocator` a parser is
made with is still the one string values are copied into.

`Parser::parse_selection_set` and `Parser::parse_type` are further proved,
when no error is reported, to return the tree whose tokens are exactly the
first tokens of the source (an empty argument list `()` aside).

Conversely, both are proved to report no error at all when the source starts
with such a tree: the source lexes cleanly, the tree holds no placeholder,
its lists and selections nest no deeper than the recursion limit, no
fragment spread in it is named `on`, and (for a type) no `!` follows that
the type could take.

//! Syntax highlighting over TextMate grammars: highlighting categories for
//! scopes, line tokenization on top of the `syntect` parser, and the error of
//! loading a grammar.

use vstd::prelude::*;
use vstd::string::StringSliceAdditionalSpecFns;
use crate::grammar_check::{grammar_source_ok, source_loads_safely};
use crate::strutil::{bytes_eq, bytes_of, has_prefix, push_chars, starts_with_bytes};
use std::ops::Range;
use syntect::parsing::{
    ParseState, ScopeStack, ScopeStackOp, SyntaxDefinition, SyntaxReference, SyntaxSet,
    SyntaxSetBuilder,
};

verus! {

/// Classifies a token span into a stable highlighting category.
#[non_exhaustive]
#[derive(Debug, Clone, Copy, PartialEq, Eq, Hash, Structural)]
pub enum TokenKind {
    /// Matches language keywords and storage scopes.
    Keyword,
    /// Matches named types and type-like support scopes.
    Type,
    /// Matches function and method names.
    Function,
    /// Matches string literal content.
    String,
    /// Matches numeric literals.
    Number,
    /// Matches comment text.
    Comment,
    /// Matches operator scopes before generic keywords.
    Operator,
    /// Matches punctuation and delimiter scopes.
    Punctuation,
    /// Matches variable-like scopes.
    Variable,
    /// Matches non-numeric constant scopes.
    Constant,
    /// Matches tag names such as HTML elements.
    Tag,
    /// Matches attribute and property names.
    Attribute,
    /// Matches escape sequences inside literals.
    Escape,
    /// Fallback when no supported scope prefix matches.
    Plain,
}

/// Describes one byte range and its token kind within a single input line.
#[derive(Debug, PartialEq, Eq)]
pub struct TokenSpan {
    /// Byte range inside the tokenized line.
    pub range: Range<usize>,
    /// Highlighting category inferred for `range`.
    pub kind: TokenKind,
}

impl Clone for TokenSpan {
    fn clone(&self) -> (r: Self)
        ensures
            r == *self,
    {
        TokenSpan { range: Range { start: self.range.start, end: self.range.end }, kind: self.kind }
    }
}

/// The scope, given by its bytes, begins with the text `p`.
pub open spec fn scope_starts(b: Seq<u8>, p: &str) -> bool {
    has_prefix(b, p.spec_bytes())
}

/// The category of the scope with bytes `b`: the first scope prefix in the
/// list below that `b` begins with decides, operators before keywords.
#[verifier::opaque]
pub open spec fn spec_token_kind(b: Seq<u8>) -> TokenKind {
    if scope_starts(b, "keyword.operator") {
        TokenKind::Operator
    } else if scope_starts(b, "keyword") || scope_starts(b, "storage") {
        TokenKind::Keyword
    } else if scope_starts(b, "entity.name.function") || scope_starts(b, "support.function") {
        TokenKind::Function
    } else if scope_starts(b, "entity.name.type") || scope_starts(b, "entity.name.class")
        || scope_starts(b, "entity.name.struct") || scope_starts(b, "entity.name.enum")
        || scope_starts(b, "support.type") || scope_starts(b, "support.class") {
        TokenKind::Type
    } else if scope_starts(b, "entity.name.tag") {
        TokenKind::Tag
    } else if scope_starts(b, "entity.other.attribute-name") {
        TokenKind::Attribute
    } else if scope_starts(b, "string") {
        TokenKind::String
    } else if scope_starts(b, "constant.character.escape") {
        TokenKind::Escape
    } else if scope_starts(b, "constant.numeric") {
        TokenKind::Number
    } else if scope_starts(b, "constant") {
        TokenKind::Constant
    } else if scope_starts(b, "comment") {
        TokenKind::Comment
    } else if scope_starts(b, "variable") {
        TokenKind::Variable
    } else if scope_starts(b, "punctuation") {
        TokenKind::Punctuation
    } else {
        TokenKind::Plain
    }
}

fn starts(scope: &str, p: &str) -> (r: bool)
    ensures
        r == scope_starts(scope.spec_bytes(), p),
{
    starts_with_bytes(scope.as_bytes(), p.as_bytes())
}

/// Maps a TextMate scope string to the closest supported `TokenKind`.
pub fn scope_to_token_kind(scope: &str) -> (r: TokenKind)
    ensures
        r == spec_token_kind(scope.spec_bytes()),
{
    reveal(spec_token_kind);
    if starts(scope, "keyword.operator") {
        TokenKind::Operator
    } else if starts(scope, "keyword") || starts(scope, "storage") {
        TokenKind::Keyword
    } else if starts(scope, "entity.name.function") || starts(scope, "support.function") {
        TokenKind::Function
    } else if starts(scope, "entity.name.type") || starts(scope, "entity.name.class") || starts(
        scope,
        "entity.name.struct",
    ) || starts(scope, "entity.name.enum") || starts(scope, "support.type") || starts(
        scope,
        "support.class",
    ) {
        TokenKind::Type
    } else if starts(scope, "entity.name.tag") {
        TokenKind::Tag
    } else if starts(scope, "entity.other.attribute-name") {
        TokenKind::Attribute
    } else if starts(scope, "string") {
        TokenKind::String
    } else if starts(scope, "constant.character.escape") {
        TokenKind::Escape
    } else if starts(scope, "constant.numeric") {
        TokenKind::Number
    } else if starts(scope, "constant") {
        TokenKind::Constant
    } else if starts(scope, "comment") {
        TokenKind::Comment
    } else if starts(scope, "variable") {
        TokenKind::Variable
    } else if starts(scope, "punctuation") {
        TokenKind::Punctuation
    } else {
        TokenKind::Plain
    }
}

// ---------------------------------------------------------------------------
// Grammar loading errors
// ---------------------------------------------------------------------------

#[verifier::external_type_specification]
#[verifier::external_body]
pub struct ExIoError(std::io::Error);

/// The text that the `Display` impl of `std::io::Error` gives for `e`.
/// Trusted only to return that text; nothing is stated of its content.
#[verifier::external_body]
fn io_error_text(e: &std::io::Error) -> String {
    e.to_string()
}

/// Reports why loading an external grammar file failed.
#[non_exhaustive]
#[derive(Debug)]
pub enum GrammarLoadError {
    /// Reading the grammar file from disk failed.
    Io(std::io::Error),
    /// Parsing the loaded grammar text failed.
    Parse(String),
}

impl GrammarLoadError {
    /// Human-readable description of the error.
    pub fn message(&self) -> (r: String)
        ensures
            self matches GrammarLoadError::Parse(msg) ==> r@ == "parse error: "@ + msg@,
            self is Io ==> r@.len() >= "I/O error: "@.len() && r@.take("I/O error: "@.len() as int)
                == "I/O error: "@,
    {
        let mut out = String::new();
        match self {
            GrammarLoadError::Io(e) => {
                push_chars(&mut out, "I/O error: ");
                let text = io_error_text(e);
                push_chars(&mut out, text.as_str());
                assert(out@.take("I/O error: "@.len() as int) =~= "I/O error: "@);
            },
            GrammarLoadError::Parse(msg) => {
                push_chars(&mut out, "parse error: ");
                push_chars(&mut out, msg.as_str());
            },
        }
        out
    }

    /// The description of the underlying I/O error, for the `Io` variant.
    pub fn source_message(&self) -> (r: Option<String>)
        ensures
            r is Some <==> self is Io,
    {
        match self {
            GrammarLoadError::Io(e) => Some(io_error_text(e)),
            GrammarLoadError::Parse(_) => None,
        }
    }
}

impl From<std::io::Error> for GrammarLoadError {
    fn from(error: std::io::Error) -> (r: Self) {
        GrammarLoadError::Io(error)
    }
}

impl vstd::std_specs::convert::FromSpecImpl<std::io::Error> for GrammarLoadError {
    open spec fn obeys_from_spec() -> bool {
        true
    }

    open spec fn from_spec(v: std::io::Error) -> Self {
        GrammarLoadError::Io(v)
    }
}

// ---------------------------------------------------------------------------
// The syntect parser
// ---------------------------------------------------------------------------

#[verifier::external_type_specification]
#[verifier::external_body]
pub struct ExSyntaxSet(syntect::parsing::SyntaxSet);

#[verifier::external_type_specification]
#[verifier::external_body]
pub struct ExSyntaxSetBuilder(syntect::parsing::SyntaxSetBuilder);

#[verifier::external_type_specification]
#[verifier::external_body]
pub struct ExSyntaxReference(syntect::parsing::SyntaxReference);

#[verifier::external_type_specification]
#[verifier::external_body]
pub struct ExSyntaxDefinition(syntect::parsing::SyntaxDefinition);

#[verifier::external_type_specification]
#[verifier::external_body]
pub struct ExParseState(syntect::parsing::ParseState);

#[verifier::external_type_specification]
#[verifier::external_body]
pub struct ExScopeStack(syntect::parsing::ScopeStack);

#[verifier::external_type_specification]
#[verifier::external_body]
pub struct ExScopeStackOp(syntect::parsing::ScopeStackOp);

/// The grammars of a set, in the set's order: each grammar's name and file
/// extensions, by their bytes.
pub uninterp spec fn set_grammars(set: SyntaxSet) -> Seq<(Seq<u8>, Seq<Seq<u8>>)>;

/// The grammars held by a set builder, in the order they were added.
pub uninterp spec fn builder_grammars(builder: SyntaxSetBuilder) -> Seq<(Seq<u8>, Seq<Seq<u8>>)>;

/// The name and file extensions of a grammar of a set.
pub uninterp spec fn grammar_of(syntax: SyntaxReference) -> (Seq<u8>, Seq<Seq<u8>>);

/// The name and file extensions of a parsed grammar definition.
pub uninterp spec fn definition_grammar(definition: SyntaxDefinition) -> (Seq<u8>, Seq<Seq<u8>>);

/// The name and file extensions of the grammar that the text `source`
/// defines (named `fallback` when it names none), or `None` when the text is
/// no grammar.
pub uninterp spec fn parsed_grammar(source: Seq<char>, fallback: Option<Seq<char>>) -> Option<
    (Seq<u8>, Seq<Seq<u8>>),
>;

/// The scopes of a scope stack from the outermost to the innermost, each as
/// the bytes of its dotted name.
pub uninterp spec fn stack_scopes(stack: ScopeStack) -> Seq<Seq<u8>>;

/// The scopes a scope stack has cleared and may restore, oldest clearing
/// first, each as the scopes it took off from the outermost to the innermost.
pub uninterp spec fn cleared_scopes(stack: ScopeStack) -> Seq<Seq<Seq<u8>>>;

/// One scope stack operation by plain values: push a scope given by the
/// bytes of its name, pop up to `n` scopes, clear the top `n` scopes (all of
/// them for `None`) to a side stack, restore the last cleared scopes, or
/// nothing.
pub enum ScopeOpView {
    Push(Seq<u8>),
    Pop(nat),
    Clear(Option<nat>),
    Restore,
    Noop,
}

/// A scope stack operation as plain values.
pub uninterp spec fn scope_op_view(op: ScopeStackOp) -> ScopeOpView;

/// The operations that parsing `line` from parser state `state` with the
/// grammars of `set` gives, each with its byte offset, or `None` when the
/// parser fails on the line.
pub uninterp spec fn parse_result(state: ParseState, line: Seq<char>, set: SyntaxSet) -> Option<
    Seq<(int, ScopeOpView)>,
>;

/// The grammar `syntax` is one of the grammars of `set`.
pub uninterp spec fn grammar_in_set(syntax: SyntaxReference, set: SyntaxSet) -> bool;

/// The grammar at index `i` of `set`.
pub uninterp spec fn syntax_at(set: SyntaxSet, i: int) -> SyntaxReference;

/// The parser state at the start of a file of grammar `syntax`.
pub uninterp spec fn start_state(syntax: SyntaxReference) -> ParseState;

/// The parser state `state` parses with a grammar of `set`.
pub uninterp spec fn state_in_set(state: ParseState, set: SyntaxSet) -> bool;

/// Scopes in force and cleared scopes of a scope stack.
pub type ScopeState = (Seq<Seq<u8>>, Seq<Seq<Seq<u8>>>);

/// The state of a scope stack.
pub open spec fn stack_state(stack: ScopeStack) -> ScopeState {
    (stack_scopes(stack), cleared_scopes(stack))
}

/// The state after applying `op` to `st`, or `None` when `op` restores and
/// nothing was cleared.
pub open spec fn apply_op(st: ScopeState, op: ScopeOpView) -> Option<ScopeState> {
    let scopes = st.0;
    match op {
        ScopeOpView::Push(name) => Some((scopes.push(name), st.1)),
        ScopeOpView::Pop(n) => Some(
            (scopes.take(if n >= scopes.len() {
                0
            } else {
                scopes.len() - n
            }), st.1),
        ),
        ScopeOpView::Clear(amount) => {
            let keep = match amount {
                Some(n) => if n >= scopes.len() {
                    0
                } else {
                    scopes.len() - n
                },
                None => 0,
            };
            Some((scopes.take(keep), st.1.push(scopes.skip(keep))))
        },
        ScopeOpView::Restore => if st.1.len() == 0 {
            None
        } else {
            Some((scopes + st.1.last(), st.1.drop_last()))
        },
        ScopeOpView::Noop => Some(st),
    }
}

/// The state after the first `k` operations of `ops` from `st`, or `None`
/// when one of them fails.
pub open spec fn state_after(ops: Seq<(int, ScopeOpView)>, k: int, st: ScopeState) -> Option<ScopeState>
    decreases k,
{
    if k <= 0 {
        Some(st)
    } else {
        match state_after(ops, k - 1, st) {
            Some(prev) => apply_op(prev, ops[k - 1].1),
            None => None,
        }
    }
}

/// The offsets of `ops` never decrease.
pub open spec fn ops_sorted(ops: Seq<(int, ScopeOpView)>) -> bool {
    forall|i: int, j: int| 0 <= i <= j < ops.len() ==> (#[trigger] ops[i]).0 <= (#[trigger] ops[j]).0
}

/// The offset of an operation, clamped to a line of `len` bytes.
pub open spec fn clamped(o: int, len: int) -> int {
    if o < len {
        o
    } else {
        len
    }
}

/// Byte `b` of a line of `len` bytes lies after the first `k` operations of
/// `ops` and before the rest.
pub open spec fn ops_split(ops: Seq<(int, ScopeOpView)>, len: int, b: int, k: int) -> bool {
    &&& 0 <= k <= ops.len()
    &&& forall|i: int| 0 <= i < k ==> clamped(#[trigger] ops[i].0, len) <= b
    &&& forall|i: int| k <= i < ops.len() ==> clamped(#[trigger] ops[i].0, len) > b
}

/// `kind` is the category of byte `b`: that of the innermost scope in force
/// at `b` that has one, the scopes in force being those after the operations
/// that apply at or before `b`.
pub open spec fn kind_at(ops: Seq<(int, ScopeOpView)>, st: ScopeState, len: int, b: int, kind: TokenKind) -> bool {
    forall|k: int| #[trigger] ops_split(ops, len, b, k) ==> (state_after(ops, k, st) matches Some(at)
        && kind == stack_kind(at.0))
}

/// Every byte of every span has the span's category.
pub open spec fn kinds_follow_scopes(
    v: Seq<(int, int, TokenKind)>,
    ops: Seq<(int, ScopeOpView)>,
    st: ScopeState,
    len: int,
) -> bool {
    forall|j: int, b: int| 0 <= j < v.len() && v[j].0 <= b < v[j].1 ==> #[trigger] kind_at(ops, st, len, b, v[j].2)
}

/// The operations of a parsed line as plain values.
pub open spec fn ops_view(ops: Seq<(usize, ScopeStackOp)>) -> Seq<(int, ScopeOpView)> {
    ops.map_values(|o: (usize, ScopeStackOp)| (o.0 as int, scope_op_view(o.1)))
}

/// A byte with ASCII upper case letters taken to lower case.
pub open spec fn ascii_lower(b: u8) -> u8 {
    if 65 <= b <= 90 {
        (b + 32) as u8
    } else {
        b
    }
}

/// `a` and `b` are equal when ASCII letter case is ignored.
pub open spec fn eq_ignore_ascii_case(a: Seq<u8>, b: Seq<u8>) -> bool {
    a.len() == b.len() && forall|i: int| 0 <= i < a.len() ==> ascii_lower(#[trigger] a[i]) == ascii_lower(b[i])
}

/// The grammar lists `extension` among its file extensions, ignoring case.
pub open spec fn has_extension(grammar: (Seq<u8>, Seq<Seq<u8>>), extension: Seq<u8>) -> bool {
    exists|k: int| 0 <= k < grammar.1.len() && eq_ignore_ascii_case(#[trigger] grammar.1[k], extension)
}

/// The index of the last grammar that lists `extension`.
pub open spec fn last_with_extension(g: Seq<(Seq<u8>, Seq<Seq<u8>>)>, extension: Seq<u8>) -> Option<int>
    decreases g.len(),
{
    if g.len() == 0 {
        None
    } else if has_extension(g.last(), extension) {
        Some(g.len() - 1)
    } else {
        last_with_extension(g.drop_last(), extension)
    }
}

/// The index of the last grammar named `name`, ignoring case.
pub open spec fn last_named(g: Seq<(Seq<u8>, Seq<Seq<u8>>)>, name: Seq<u8>) -> Option<int>
    decreases g.len(),
{
    if g.len() == 0 {
        None
    } else if eq_ignore_ascii_case(g.last().0, name) {
        Some(g.len() - 1)
    } else {
        last_named(g.drop_last(), name)
    }
}

/// The grammar found for a token: the last one listing it as an extension,
/// else the last one named so, ignoring case.
pub open spec fn token_lookup(g: Seq<(Seq<u8>, Seq<Seq<u8>>)>, token: Seq<u8>) -> Option<int> {
    match last_with_extension(g, token) {
        Some(i) => Some(i),
        None => last_named(g, token),
    }
}

/// The grammar used for a language name: the one found for the name, else
/// the one found for its alias.
pub open spec fn resolve_index(g: Seq<(Seq<u8>, Seq<Seq<u8>>)>, language: Seq<u8>) -> Option<int> {
    match token_lookup(g, language) {
        Some(i) => Some(i),
        None => match spec_alias(language) {
            Some(alias) => token_lookup(g, alias.spec_bytes()),
            None => None,
        },
    }
}

/// The language shown for a file extension with the grammars `g` loaded.
pub open spec fn spec_detect(g: Seq<(Seq<u8>, Seq<Seq<u8>>)>, extension: Seq<u8>) -> Option<Seq<u8>> {
    spec_language_for(
        extension,
        token_lookup(g, "JavaScript".spec_bytes()) is Some,
        token_lookup(g, "KDL2".spec_bytes()) is Some,
        match last_with_extension(g, extension) {
            Some(i) => Some(g[i].0),
            None => None,
        },
    )
}

/// The grammar found at index `i` of `g`, if any.
pub open spec fn found_is(set: SyntaxSet, i: Option<int>, r: Option<&SyntaxReference>) -> bool {
    match i {
        None => r is None,
        Some(k) => r matches Some(s) && 0 <= k < set_grammars(set).len() && grammar_of(*s)
            == set_grammars(set)[k] && *s == syntax_at(set, k),
    }
}

/// `SyntaxSet::load_defaults_newlines`: the grammars bundled with `syntect`.
#[verifier::external_body]
fn default_syntaxes() -> SyntaxSet {
    SyntaxSet::load_defaults_newlines()
}

/// `SyntaxSet::clone`: the same grammars.
#[verifier::external_body]
fn clone_syntax_set(set: &SyntaxSet) -> (r: SyntaxSet)
    ensures
        set_grammars(r) == set_grammars(*set),
        forall|st: ParseState| #[trigger] state_in_set(st, r) == state_in_set(st, *set),
        forall|st: ParseState, line: Seq<char>| #[trigger] parse_result(st, line, r) == parse_result(
            st,
            line,
            *set,
        ),
{
    set.clone()
}

/// `ParseState::clone`: a parser in the same state.
#[verifier::external_body]
fn clone_parse_state(state: &ParseState) -> (r: ParseState)
    ensures
        forall|set: SyntaxSet| #[trigger] state_in_set(r, set) == state_in_set(*state, set),
        forall|line: Seq<char>, set: SyntaxSet| #[trigger] parse_result(r, line, set) == parse_result(
            *state,
            line,
            set,
        ),
{
    state.clone()
}

/// `ScopeStack::clone`: the same scopes.
#[verifier::external_body]
fn clone_scope_stack(stack: &ScopeStack) -> (r: ScopeStack)
    ensures
        stack_state(r) == stack_state(*stack),
{
    stack.clone()
}

/// `SyntaxSet::find_syntax_by_token`: the last grammar listing `token` as a
/// file extension, else the last one named `token`, both ignoring ASCII case.
#[verifier::external_body]
fn find_syntax<'a>(set: &'a SyntaxSet, token: &str) -> (r: Option<&'a SyntaxReference>)
    ensures
        found_is(*set, token_lookup(set_grammars(*set), token.spec_bytes()), r),
        r matches Some(syntax) ==> grammar_in_set(*syntax, *set) && *syntax == syntax_at(
            *set,
            token_lookup(set_grammars(*set), token.spec_bytes())->0,
        ),
{
    set.find_syntax_by_token(token)
}

/// `SyntaxSet::find_syntax_by_extension`: the last grammar listing
/// `extension` as a file extension, ignoring ASCII case.
#[verifier::external_body]
fn find_syntax_for_extension<'a>(set: &'a SyntaxSet, extension: &str) -> (r: Option<
    &'a SyntaxReference,
>)
    ensures
        found_is(*set, last_with_extension(set_grammars(*set), extension.spec_bytes()), r),
        r matches Some(syntax) ==> grammar_in_set(*syntax, *set),
{
    set.find_syntax_by_extension(extension)
}

/// An optional string by its characters.
pub open spec fn opt_str_view(s: Option<&str>) -> Option<Seq<char>> {
    match s {
        Some(t) => Some(t@),
        None => None,
    }
}

/// The `name` field of a grammar.
#[verifier::external_body]
fn syntax_name<'a>(syntax: &'a SyntaxReference) -> (r: &'a str)
    ensures
        r.spec_bytes() == grammar_of(*syntax).0,
{
    syntax.name.as_str()
}

/// The `name` field of every grammar of the set, in the set's order.
#[verifier::external_body]
fn syntax_names(set: &SyntaxSet) -> (r: Vec<&str>)
    ensures
        r@.len() == set_grammars(*set).len(),
        forall|i: int| 0 <= i < r@.len() ==> (#[trigger] r@[i]).spec_bytes() == set_grammars(*set)[i].0,
{
    set.syntaxes().iter().map(|syntax| syntax.name.as_str()).collect()
}

/// `ParseState::new`: a parser at the start of a file of grammar `syntax`,
/// which parses with every set that holds the grammar.
#[verifier::external_body]
fn new_parse_state(syntax: &SyntaxReference) -> (r: ParseState)
    ensures
        r == start_state(*syntax),
        forall|set: SyntaxSet| grammar_in_set(*syntax, set) ==> #[trigger] state_in_set(r, set),
{
    ParseState::new(syntax)
}

/// `ScopeStack::new`: an empty scope stack.
#[verifier::external_body]
fn new_scope_stack() -> (r: ScopeStack)
    ensures
        stack_scopes(r) == Seq::<Seq<u8>>::empty(),
        cleared_scopes(r) == Seq::<Seq<Seq<u8>>>::empty(),
{
    ScopeStack::new()
}

/// `ParseState::parse_line`: the scope operations of one line with the byte
/// offsets they apply at, in order of offset, or `None` when parsing fails.
/// The set must be the one whose grammar the state parses with; the state
/// stays one of that set.
#[verifier::external_body]
fn parse_line(state: &mut ParseState, line: &str, set: &SyntaxSet) -> (r: Option<
    Vec<(usize, ScopeStackOp)>,
>)
    requires
        state_in_set(*old(state), *set),
    ensures
        state_in_set(*final(state), *set),
        match parse_result(*old(state), line@, *set) {
            Some(v) => r matches Some(ops) && ops_view(ops@) == v && ops_sorted(v),
            None => r is None,
        },
{
    state.parse_line(line, set).ok()
}

/// `ScopeStack::apply`: pushes, pops, clears the top scopes to a side stack
/// or restores the last cleared ones; it fails, changing nothing, when
/// there is nothing to restore.
#[verifier::external_body]
fn apply_scope_op(stack: &mut ScopeStack, op: &ScopeStackOp) -> (r: bool)
    ensures
        match apply_op(stack_state(*old(stack)), scope_op_view(*op)) {
            Some(st) => r && stack_state(*final(stack)) == st,
            None => !r && stack_state(*final(stack)) == stack_state(*old(stack)),
        },
{
    stack.apply(op).is_ok()
}

/// The scopes of the stack from the outermost to the innermost, each by
/// `Scope::build_string`.
#[verifier::external_body]
fn scope_strings(stack: &ScopeStack) -> (r: Vec<String>)
    ensures
        strings_bytes(r@) == stack_scopes(*stack),
{
    stack.as_slice().iter().map(|scope| scope.build_string()).collect()
}

/// `SyntaxDefinition::load_from_str` for text whose lines keep their
/// newlines; on failure the parser's message, of which nothing is stated.
/// The loader panics on an `escape` that is no string and on a push list
/// that starts with an empty list, and recurses without end on variables
/// that refer back to themselves; the text must be free of all three
/// (`source_loads_safely`). Stack or memory exhaustion on huge or deeply
/// nested texts is not ruled out.
#[verifier::external_body]
fn load_syntax_definition(source: &str, fallback_name: Option<&str>) -> (r: Result<
    SyntaxDefinition,
    String,
>)
    requires
        source_loads_safely(source@),
    ensures
        match r {
            Ok(d) => parsed_grammar(source@, opt_str_view(fallback_name)) == Some(definition_grammar(d)),
            Err(_) => parsed_grammar(source@, opt_str_view(fallback_name)) is None,
        },
{
    SyntaxDefinition::load_from_str(source, true, fallback_name).map_err(|error| error.to_string())
}

/// `SyntaxSet::into_builder`: a builder holding the set's grammars.
#[verifier::external_body]
fn into_builder(set: SyntaxSet) -> (r: SyntaxSetBuilder)
    ensures
        builder_grammars(r) == set_grammars(set),
{
    set.into_builder()
}

/// `SyntaxSetBuilder::add`: appends the grammar.
#[verifier::external_body]
fn builder_add(builder: &mut SyntaxSetBuilder, syntax: SyntaxDefinition)
    ensures
        builder_grammars(*final(builder)) == builder_grammars(*old(builder)).push(
            definition_grammar(syntax),
        ),
{
    builder.add(syntax)
}

/// `SyntaxSetBuilder::build`: a set of the builder's grammars, in order.
#[verifier::external_body]
fn builder_build(builder: SyntaxSetBuilder) -> (r: SyntaxSet)
    ensures
        set_grammars(r) == builder_grammars(builder),
{
    builder.build()
}

// ---------------------------------------------------------------------------
// Language names
// ---------------------------------------------------------------------------

/// `s` is the text `t`.
pub open spec fn is_text(s: Seq<u8>, t: &str) -> bool {
    s == t.spec_bytes()
}

fn equals(s: &str, t: &str) -> (r: bool)
    ensures
        r == is_text(s.spec_bytes(), t),
{
    bytes_eq(s.as_bytes(), t.as_bytes())
}

/// The grammar token tried for a language name that has no grammar of its
/// own: TypeScript is highlighted as JavaScript, KDL by the `KDL2` grammar.
pub open spec fn spec_alias(language: Seq<u8>) -> Option<&'static str> {
    if is_text(language, "TypeScript") || is_text(language, "typescript") || is_text(language, "ts")
        || is_text(language, "tsx") {
        Some("JavaScript")
    } else if is_text(language, "KDL") || is_text(language, "kdl") {
        Some("KDL2")
    } else {
        None
    }
}

fn language_alias(language: &str) -> (r: Option<&'static str>)
    ensures
        r == spec_alias(language.spec_bytes()),
{
    if equals(language, "TypeScript") || equals(language, "typescript") || equals(language, "ts")
        || equals(language, "tsx") {
        Some("JavaScript")
    } else if equals(language, "KDL") || equals(language, "kdl") {
        Some("KDL2")
    } else {
        None
    }
}

/// The name shown for the grammar named `syntax_name` found for `extension`.
pub open spec fn spec_display_name(extension: Seq<u8>, syntax_name: Seq<u8>) -> Seq<u8> {
    if (is_text(extension, "ts") || is_text(extension, "tsx")) && is_text(syntax_name, "JavaScript") {
        "TypeScript".spec_bytes()
    } else if is_text(extension, "kdl") && is_text(syntax_name, "KDL2") {
        "KDL".spec_bytes()
    } else {
        syntax_name
    }
}

fn display_language_name<'a>(extension: &str, syntax_name: &'a str) -> (r: &'a str)
    ensures
        r.spec_bytes() == spec_display_name(extension.spec_bytes(), syntax_name.spec_bytes()),
{
    if (equals(extension, "ts") || equals(extension, "tsx")) && equals(syntax_name, "JavaScript") {
        "TypeScript"
    } else if equals(extension, "kdl") && equals(syntax_name, "KDL2") {
        "KDL"
    } else {
        syntax_name
    }
}

/// The language shown for a file extension: TypeScript for `ts` and `tsx`
/// when a JavaScript grammar is loaded, KDL for `kdl` when a `KDL2` grammar
/// is, and otherwise the display name of the grammar found for the
/// extension, if any.
pub open spec fn spec_language_for(
    extension: Seq<u8>,
    has_javascript: bool,
    has_kdl2: bool,
    found: Option<Seq<u8>>,
) -> Option<Seq<u8>> {
    if (is_text(extension, "ts") || is_text(extension, "tsx")) && has_javascript {
        Some("TypeScript".spec_bytes())
    } else if is_text(extension, "kdl") && has_kdl2 {
        Some("KDL".spec_bytes())
    } else {
        match found {
            Some(name) => Some(spec_display_name(extension, name)),
            None => None,
        }
    }
}

/// The language shown for a file extension, given whether the set holds a
/// JavaScript and a `KDL2` grammar and the name of the grammar found for the
/// extension.
pub fn language_for_extension<'a>(
    extension: &str,
    has_javascript: bool,
    has_kdl2: bool,
    found: Option<&'a str>,
) -> (r: Option<&'a str>)
    ensures
        match r {
            Some(name) => spec_language_for(
                extension.spec_bytes(),
                has_javascript,
                has_kdl2,
                match found {
                    Some(f) => Some(f.spec_bytes()),
                    None => None,
                },
            ) == Some(name.spec_bytes()),
            None => spec_language_for(
                extension.spec_bytes(),
                has_javascript,
                has_kdl2,
                match found {
                    Some(f) => Some(f.spec_bytes()),
                    None => None,
                },
            ) is None,
        },
{
    if (equals(extension, "ts") || equals(extension, "tsx")) && has_javascript {
        return Some("TypeScript");
    }
    if equals(extension, "kdl") && has_kdl2 {
        return Some("KDL");
    }
    match found {
        Some(name) => Some(display_language_name(extension, name)),
        None => None,
    }
}

// ---------------------------------------------------------------------------
// Grammar set
// ---------------------------------------------------------------------------

/// The source of the KDL grammar that the default set adds to `syntect`'s.
pub const KDL_GRAMMAR: &'static str = r#"%YAML 1.2
---
name: KDL2
file_extensions:
  - kdl
  - kdl2
scope: text.kdl.2
contexts:
  main:
    - include: comments
    - include: strings
    - include: numbers
    - match: '\#(?:true|false|null|inf|-inf|nan)\b'
      scope: constant.language.kdl
    - match: '[{}();=]'
      scope: punctuation.separator.kdl
    - match: '[A-Za-z_][A-Za-z0-9_-]*'
      scope: variable.other.kdl
  comments:
    - match: '//'
      push:
        - meta_scope: comment.line.double-slash.kdl
        - match: $
          pop: true
    - match: '/\*'
      push:
        - meta_scope: comment.block.kdl
        - match: '\*/'
          pop: true
  strings:
    - match: '"'
      push:
        - meta_scope: string.quoted.double.kdl
        - match: '\\\\.'
          scope: constant.character.escape.kdl
        - match: '"'
          pop: true
  numbers:
    - match: '[+-]?(?:0x[0-9A-Fa-f_]+|0o[0-7_]+|0b[01_]+|(?:\d[\d_]*)(?:\.\d[\d_]*)?(?:[eE][+-]?\d[\d_]*)?)'
      scope: constant.numeric.kdl
"#;

/// Owns the loaded grammar set used to resolve languages and build
/// highlighters.
#[derive(Debug)]
pub struct GrammarSet {
    syntax_set: SyntaxSet,
}

impl Clone for GrammarSet {
    fn clone(&self) -> (r: Self)
        ensures
            r.spec_grammars() == self.spec_grammars(),
    {
        GrammarSet { syntax_set: clone_syntax_set(&self.syntax_set) }
    }
}

impl GrammarSet {
    /// The loaded grammars in order, each by its name and file extensions.
    pub closed spec fn spec_grammars(self) -> Seq<(Seq<u8>, Seq<Seq<u8>>)> {
        set_grammars(self.syntax_set)
    }

    /// The grammars bundled with `syntect`, then the bundled KDL grammar
    /// (named `KDL2`, for the `kdl` and `kdl2` extensions).
    pub fn default_set() -> (r: Self)
        ensures
            source_loads_safely(KDL_GRAMMAR@) ==> (parsed_grammar(KDL_GRAMMAR@, Some("kdl"@)) matches Some(
                g,
            ) ==> r.spec_grammars().len() > 0 && r.spec_grammars().last() == g),
    {
        let mut set = GrammarSet { syntax_set: default_syntaxes() };
        let _ = set.load_grammar_source(KDL_GRAMMAR, Some("kdl"));
        set
    }

    /// Adds the grammar given by its source text, or leaves the set as it was
    /// and reports the parser's message when the text is no grammar. A text
    /// whose YAML the loader could not survive (see `source_loads_safely`)
    /// is refused with a parse error before it is loaded.
    pub fn load_grammar_source(&mut self, source: &str, fallback_name: Option<&str>) -> (r: Result<
        (),
        GrammarLoadError,
    >)
        ensures
            !source_loads_safely(source@) ==> (r matches Err(e) && e is Parse && final(self).spec_grammars()
                == old(self).spec_grammars()),
            source_loads_safely(source@) ==> match parsed_grammar(source@, opt_str_view(fallback_name)) {
                Some(g) => r is Ok && final(self).spec_grammars() == old(self).spec_grammars().push(g),
                None => r matches Err(e) && e is Parse && final(self).spec_grammars() == old(
                    self,
                ).spec_grammars(),
            },
    {
        if !grammar_source_ok(source) {
            return Err(
                GrammarLoadError::Parse(
                    "grammar refused: an escape that is no string, a push list that starts with an empty list, or variables that refer to themselves".to_string(),
                ),
            );
        }
        let definition = match load_syntax_definition(source, fallback_name) {
            Ok(d) => d,
            Err(message) => return Err(GrammarLoadError::Parse(message)),
        };
        let mut builder = into_builder(clone_syntax_set(&self.syntax_set));
        builder_add(&mut builder, definition);
        self.syntax_set = builder_build(builder);
        Ok(())
    }

    /// Returns the display language name for an extension when a matching
    /// grammar exists.
    pub fn detect_language<'a>(&'a self, extension: &str) -> (r: Option<&'a str>)
        ensures
            match r {
                Some(name) => spec_detect(self.spec_grammars(), extension.spec_bytes()) == Some(
                    name.spec_bytes(),
                ),
                None => spec_detect(self.spec_grammars(), extension.spec_bytes()) is None,
            },
    {
        let has_javascript = (equals(extension, "ts") || equals(extension, "tsx")) && find_syntax(
            &self.syntax_set,
            "JavaScript",
        ).is_some();
        let has_kdl2 = equals(extension, "kdl") && find_syntax(&self.syntax_set, "KDL2").is_some();
        let found = match find_syntax_for_extension(&self.syntax_set, extension) {
            Some(syntax) => Some(syntax_name(syntax)),
            None => None,
        };
        language_for_extension(extension, has_javascript, has_kdl2, found)
    }

    /// Lists all loaded language names in their stored display form.
    pub fn languages(&self) -> (r: Vec<&str>)
        ensures
            r@.len() == self.spec_grammars().len(),
            forall|i: int| 0 <= i < r@.len() ==> (#[trigger] r@[i]).spec_bytes() == self.spec_grammars()[i].0,
    {
        syntax_names(&self.syntax_set)
    }
}

/// The grammar for `language`, trying its alias when it has none of its own.
fn resolve_language<'a>(set: &'a SyntaxSet, language: &str) -> (r: Option<&'a SyntaxReference>)
    ensures
        found_is(*set, resolve_index(set_grammars(*set), language.spec_bytes()), r),
        r matches Some(syntax) ==> grammar_in_set(*syntax, *set),
{
    match find_syntax(set, language) {
        Some(syntax) => Some(syntax),
        None => match language_alias(language) {
            Some(alias) => find_syntax(set, alias),
            None => None,
        },
    }
}

// ---------------------------------------------------------------------------
// Line tokenization
// ---------------------------------------------------------------------------

/// The bytes of each string.
pub open spec fn strings_bytes(v: Seq<String>) -> Seq<Seq<u8>> {
    v.map_values(|s: String| bytes_of(s@))
}

/// The category of the innermost scope of a stack (its last entry) that is
/// not plain, or plain when every scope is.
pub open spec fn stack_kind(scopes: Seq<Seq<u8>>) -> TokenKind
    decreases scopes.len(),
{
    if scopes.len() == 0 {
        TokenKind::Plain
    } else if spec_token_kind(scopes.last()) != TokenKind::Plain {
        spec_token_kind(scopes.last())
    } else {
        stack_kind(scopes.drop_last())
    }
}

fn current_token_kind(scopes: &Vec<String>) -> (r: TokenKind)
    ensures
        r == stack_kind(strings_bytes(scopes@)),
{
    let ghost all = strings_bytes(scopes@);
    let mut k = scopes.len();
    assert(all.take(k as int) =~= all);
    while k > 0
        invariant
            all == strings_bytes(scopes@),
            0 <= k <= scopes@.len(),
            stack_kind(all) == stack_kind(all.take(k as int)),
        decreases k,
    {
        let kind = scope_to_token_kind(scopes[k - 1].as_str());
        assert(all.take(k as int).last() == bytes_of(scopes@[k - 1]@));
        assert(all.take(k as int).drop_last() =~= all.take(k - 1));
        if kind != TokenKind::Plain {
            return kind;
        }
        k = k - 1;
    }
    assert(all.take(0) =~= Seq::<Seq<u8>>::empty());
    TokenKind::Plain
}

/// The byte ranges and categories of spans.
pub open spec fn spans_view(v: Seq<TokenSpan>) -> Seq<(int, int, TokenKind)> {
    v.map_values(|t: TokenSpan| (t.range.start as int, t.range.end as int, t.kind))
}

/// Spans of a line of `len` bytes: each non-empty and within the line, and
/// no span of the same category right after another that it touches.
pub open spec fn spans_well_formed(v: Seq<(int, int, TokenKind)>, len: int) -> bool {
    &&& forall|k: int| 0 <= k < v.len() ==> 0 <= #[trigger] v[k].0 < v[k].1 <= len
    &&& forall|k: int|
        0 <= k < v.len() - 1 ==> #[trigger] v[k].2 == v[k + 1].2 ==> v[k].1 != v[k + 1].0
}

/// Spans that cover `[0, upto)` one after another without gaps: none when
/// `upto` is zero, else the first starts at zero, each ends where the next
/// starts, and the last ends at `upto`.
pub open spec fn spans_tile(v: Seq<(int, int, TokenKind)>, upto: int) -> bool {
    &&& (v.len() == 0 <==> upto == 0)
    &&& v.len() > 0 ==> v[0].0 == 0 && v.last().1 == upto
    &&& forall|k: int| 0 <= k < v.len() - 1 ==> #[trigger] v[k].1 == v[k + 1].0
}

/// `spans` after adding `[start, end)` of category `kind`: nothing for an
/// empty range, the last span extended when it has the same category and
/// ends where the range starts, else a new span.
pub open spec fn spec_push_span(
    spans: Seq<(int, int, TokenKind)>,
    start: int,
    end: int,
    kind: TokenKind,
) -> Seq<(int, int, TokenKind)> {
    if start >= end {
        spans
    } else if spans.len() > 0 && spans.last().2 == kind && spans.last().1 == start {
        spans.update(spans.len() - 1, (spans.last().0, end, kind))
    } else {
        spans.push((start, end, kind))
    }
}

fn push_span(spans: &mut Vec<TokenSpan>, range: Range<usize>, kind: TokenKind)
    ensures
        spans_view(final(spans)@) == spec_push_span(
            spans_view(old(spans)@),
            range.start as int,
            range.end as int,
            kind,
        ),
{
    if range.start >= range.end {
        return;
    }
    let n = spans.len();
    if n > 0 && spans[n - 1].kind == kind && spans[n - 1].range.end == range.start {
        let first = spans[n - 1].range.start;
        spans.set(n - 1, TokenSpan { range: Range { start: first, end: range.end }, kind });
        assert(spans_view(spans@) =~= spec_push_span(
            spans_view(old(spans)@),
            range.start as int,
            range.end as int,
            kind,
        ));
        return;
    }
    spans.push(TokenSpan { range, kind });
    assert(spans_view(spans@) =~= spec_push_span(
        spans_view(old(spans)@),
        range.start as int,
        range.end as int,
        kind,
    ));
}

proof fn lemma_push_span_well_formed(
    spans: Seq<(int, int, TokenKind)>,
    start: int,
    end: int,
    kind: TokenKind,
    len: int,
)
    requires
        spans_well_formed(spans, len),
        0 <= start,
        end <= len,
    ensures
        spans_well_formed(spec_push_span(spans, start, end, kind), len),
{
    let r = spec_push_span(spans, start, end, kind);
    if start < end {
        assert forall|k: int| 0 <= k < r.len() - 1 && #[trigger] r[k].2 == r[k + 1].2 implies r[k].1
            != r[k + 1].0 by {
            if k < spans.len() - 1 {
                assert(r[k] == spans[k]);
            }
        }
    }
}

proof fn lemma_push_span_tile(
    spans: Seq<(int, int, TokenKind)>,
    start: int,
    end: int,
    kind: TokenKind,
)
    requires
        spans_tile(spans, start),
        0 <= start < end,
    ensures
        spans_tile(spec_push_span(spans, start, end, kind), end),
{
    let r = spec_push_span(spans, start, end, kind);
    if spans.len() > 0 && spans.last().2 == kind && spans.last().1 == start {
        assert(r.len() == spans.len());
        assert(r.last().1 == end);
        if spans.len() > 1 {
            assert(r[0] == spans[0]);
        }
    } else {
        assert(r.len() == spans.len() + 1);
        assert(r.last() == (start, end, kind));
        if spans.len() > 0 {
            assert(r[0] == spans[0]);
        }
    }
    assert forall|k: int| 0 <= k < r.len() - 1 implies #[trigger] r[k].1 == r[k + 1].0 by {
        if k < spans.len() - 1 {
            assert(r[k] == spans[k]);
            assert(spans[k].1 == spans[k + 1].0);
            assert(r[k + 1].0 == spans[k + 1].0);
        } else {
            assert(r[k] == spans[k]);
            assert(r[k + 1] == (start, end, kind));
        }
    }
}

/// A single plain span over a whole line of `len` bytes.
fn plain_line(len: usize) -> (r: Vec<TokenSpan>)
    ensures
        spans_view(r@) == seq![(0int, len as int, TokenKind::Plain)],
{
    let mut v: Vec<TokenSpan> = Vec::new();
    v.push(TokenSpan { range: Range { start: 0, end: len }, kind: TokenKind::Plain });
    assert(spans_view(v@) =~= seq![(0int, len as int, TokenKind::Plain)]);
    v
}

/// The operation `k` of `ops` is where applying them from `st` stops: the
/// ones before it applied, and it fails.
pub open spec fn stops_at(ops: Seq<(int, ScopeOpView)>, st: ScopeState, k: int) -> bool {
    &&& 0 <= k < ops.len()
    &&& state_after(ops, k, st) is Some
    &&& apply_op(state_after(ops, k, st)->0, ops[k].1) is None
}

proof fn lemma_state_after_none(ops: Seq<(int, ScopeOpView)>, k: int, n: int, st: ScopeState)
    requires
        0 <= k <= n,
        state_after(ops, k, st) is None,
    ensures
        state_after(ops, n, st) is None,
    decreases n - k,
{
    if k < n {
        lemma_state_after_none(ops, k + 1, n, st);
    }
}

proof fn lemma_state_after_some(ops: Seq<(int, ScopeOpView)>, k: int, n: int, st: ScopeState)
    requires
        0 <= k <= n,
        state_after(ops, n, st) is Some,
    ensures
        state_after(ops, k, st) is Some,
    decreases n - k,
{
    if k < n {
        lemma_state_after_some(ops, k, n - 1, st);
    }
}

proof fn lemma_push_kinds(
    sv: Seq<(int, int, TokenKind)>,
    ops: Seq<(int, ScopeOpView)>,
    st: ScopeState,
    len: int,
    k: int,
    last: int,
    index: int,
    kind: TokenKind,
)
    requires
        kinds_follow_scopes(sv, ops, st, len),
        spans_tile(sv, last),
        0 <= last < index,
        0 <= k <= ops.len(),
        forall|i: int| 0 <= i < k ==> clamped(#[trigger] ops[i].0, len) <= last,
        k < ops.len() ==> clamped(ops[k].0, len) == index,
        state_after(ops, k, st) matches Some(at) && kind == stack_kind(at.0),
    ensures
        kinds_follow_scopes(spec_push_span(sv, last, index, kind), ops, st, len),
{
    let r = spec_push_span(sv, last, index, kind);
    let n = sv.len() as int;
    let merged = n > 0 && sv.last().2 == kind && sv.last().1 == last;
    assert forall|j: int, b: int| 0 <= j < r.len() && r[j].0 <= b < r[j].1 implies #[trigger] kind_at(
        ops,
        st,
        len,
        b,
        r[j].2,
    ) by {
        let is_new = (merged && j == n - 1) || (!merged && j == n);
        if !is_new {
            assert(r[j] == sv[j]);
        } else if b < last {
            assert(merged && j == n - 1);
            assert(sv[j].0 <= b < sv[j].1);
            assert(kind_at(ops, st, len, b, sv[j].2));
        } else {
            assert(r[j].2 == kind);
            assert forall|k2: int| #[trigger] ops_split(ops, len, b, k2) implies (state_after(
                ops,
                k2,
                st,
            ) matches Some(at) && kind == stack_kind(at.0)) by {
                if k2 < k {
                    assert(clamped(ops[k2].0, len) <= last);
                }
                if k2 > k {
                    assert(clamped(ops[k].0, len) <= b);
                }
            }
        }
    }
}

/// The spans of a line of `len` bytes whose scope operations are `ops`,
/// applied to `stack` in order: each span runs between operation offsets,
/// has the category of the scopes in force over its bytes, and touches no
/// span of its category. `None` when an operation fails.
pub fn spans_for_ops(ops: &Vec<(usize, ScopeStackOp)>, stack: &mut ScopeStack, len: usize) -> (r:
    Option<Vec<TokenSpan>>)
    requires
        forall|i: int, j: int|
            0 <= i <= j < ops@.len() ==> (#[trigger] ops@[i]).0 <= (#[trigger] ops@[j]).0,
    ensures
        match state_after(ops_view(ops@), ops@.len() as int, stack_state(*old(stack))) {
            Some(st) => r matches Some(spans) && stack_state(*final(stack)) == st
                && spans_well_formed(spans_view(spans@), len as int) && spans_tile(
                spans_view(spans@),
                len as int,
            ) && kinds_follow_scopes(
                spans_view(spans@),
                ops_view(ops@),
                stack_state(*old(stack)),
                len as int,
            ),
            None => r is None && forall|k: int|
                #[trigger] stops_at(ops_view(ops@), stack_state(*old(stack)), k) ==> stack_state(
                    *final(stack),
                ) == state_after(ops_view(ops@), k, stack_state(*old(stack)))->0,
        },
{
    let ghost v = ops_view(ops@);
    let ghost st0 = stack_state(*stack);
    let mut spans: Vec<TokenSpan> = Vec::new();
    let mut last_index: usize = 0;
    let mut k: usize = 0;
    proof {
        assert(kinds_follow_scopes(spans_view(spans@), v, st0, len as int));
    }
    while k < ops.len()
        invariant
            v == ops_view(ops@),
            v.len() == ops@.len(),
            st0 == stack_state(*old(stack)),
            0 <= k <= ops@.len(),
            last_index <= len,
            forall|i: int, j: int|
                0 <= i <= j < ops@.len() ==> (#[trigger] ops@[i]).0 <= (#[trigger] ops@[j]).0,
            state_after(v, k as int, st0) == Some(stack_state(*stack)),
            spans_well_formed(spans_view(spans@), len as int),
            spans_tile(spans_view(spans@), last_index as int),
            kinds_follow_scopes(spans_view(spans@), v, st0, len as int),
            forall|i: int| 0 <= i < k ==> clamped(#[trigger] v[i].0, len as int) <= last_index,
            k == 0 ==> last_index == 0,
            k > 0 ==> last_index as int == clamped(v[k - 1].0, len as int),
        decreases ops@.len() - k,
    {
        let index = if ops[k].0 < len {
            ops[k].0
        } else {
            len
        };
        assert(v[k as int].0 == ops@[k as int].0);
        assert(index >= last_index) by {
            if k > 0 {
                assert(ops@[k - 1].0 <= ops@[k as int].0);
                assert(v[k - 1].0 == ops@[k - 1].0);
            }
        }
        if index > last_index {
            let kind = current_token_kind(&scope_strings(stack));
            proof {
                lemma_push_span_well_formed(
                    spans_view(spans@),
                    last_index as int,
                    index as int,
                    kind,
                    len as int,
                );
                lemma_push_span_tile(spans_view(spans@), last_index as int, index as int, kind);
                lemma_push_kinds(
                    spans_view(spans@),
                    v,
                    st0,
                    len as int,
                    k as int,
                    last_index as int,
                    index as int,
                    kind,
                );
            }
            push_span(&mut spans, Range { start: last_index, end: index }, kind);
        }
        let ghost before = stack_state(*stack);
        assert(v[k as int].1 == scope_op_view(ops@[k as int].1));
        if !apply_scope_op(stack, &ops[k].1) {
            proof {
                assert(state_after(v, k + 1, st0) is None);
                lemma_state_after_none(v, k + 1, v.len() as int, st0);
                assert forall|k2: int| #[trigger] stops_at(v, st0, k2) implies stack_state(*stack)
                    == state_after(v, k2, st0)->0 by {
                    if k2 > k {
                        lemma_state_after_none(v, k + 1, k2, st0);
                    }
                    if k2 < k {
                        lemma_state_after_some(v, k2 + 1, k as int, st0);
                    }
                }
            }
            return None;
        }
        proof {
            assert forall|i: int| 0 <= i < k + 1 implies clamped(#[trigger] v[i].0, len as int) <= index by {
                if i < k {
                    assert(clamped(v[i].0, len as int) <= last_index);
                }
            }
        }
        last_index = index;
        k = k + 1;
    }
    if last_index < len {
        let kind = current_token_kind(&scope_strings(stack));
        proof {
            lemma_push_span_well_formed(
                spans_view(spans@),
                last_index as int,
                len as int,
                kind,
                len as int,
            );
            lemma_push_span_tile(spans_view(spans@), last_index as int, len as int, kind);
            lemma_push_kinds(
                spans_view(spans@),
                v,
                st0,
                len as int,
                k as int,
                last_index as int,
                len as int,
                kind,
            );
        }
        push_span(&mut spans, Range { start: last_index, end: len }, kind);
    }
    Some(spans)
}

/// Tokenizes lines for one language while preserving multi-line parse state.
#[derive(Debug)]
pub struct SyntaxHighlighter {
    syntax_set: SyntaxSet,
    parse_state: ParseState,
    scope_stack: ScopeStack,
    language_name: String,
}

/// `language` names a grammar of `g`, which a lookup by that name finds.
pub open spec fn names_grammar(g: Seq<(Seq<u8>, Seq<Seq<u8>>)>, language: Seq<u8>) -> bool {
    token_lookup(g, language) is Some
}

/// Tokenizing `line` takes the highlighter from `h0` to `h1` and gives the
/// spans `r`: the grammars and language stay; when the parser fails on the
/// line, one plain span over it and the scopes unchanged; when a scope
/// operation fails, one plain span and the scopes as that operation found
/// them; otherwise spans that cover the line one after another, none empty,
/// each with the category of the scopes in force over its bytes, adjacent
/// ones of one category merged, and the scopes after all operations.
pub open spec fn line_tokenized(
    h0: SyntaxHighlighter,
    h1: SyntaxHighlighter,
    line: Seq<char>,
    r: Seq<TokenSpan>,
) -> bool {
    let len = bytes_of(line).len() as int;
    let plain = seq![(0int, len, TokenKind::Plain)];
    &&& h1.spec_grammars() == h0.spec_grammars()
    &&& h1.spec_language() == h0.spec_language()
    &&& match h0.spec_parse(line) {
        None => spans_view(r) == plain && h1.spec_stack() == h0.spec_stack(),
        Some(ops) => match state_after(ops, ops.len() as int, h0.spec_stack()) {
            None => spans_view(r) == plain && forall|k: int| #[trigger] stops_at(ops, h0.spec_stack(), k)
                ==> h1.spec_stack() == state_after(ops, k, h0.spec_stack())->0,
            Some(st) => h1.spec_stack() == st && spans_well_formed(spans_view(r), len) && spans_tile(
                spans_view(r),
                len,
            ) && kinds_follow_scopes(spans_view(r), ops, h0.spec_stack(), len),
        },
    }
}

/// Tokenizing the lines `lines` one after another takes the highlighter
/// from `hs[i]` to `hs[i + 1]` and gives `toks[i]` for line `i`.
pub open spec fn lines_tokenized(
    hs: Seq<SyntaxHighlighter>,
    lines: Seq<Seq<char>>,
    toks: Seq<Seq<TokenSpan>>,
) -> bool {
    &&& hs.len() == lines.len() + 1
    &&& toks.len() == lines.len()
    &&& forall|i: int| 0 <= i < lines.len() ==> #[trigger] line_tokenized(hs[i], hs[i + 1], lines[i], toks[i])
}

/// Tokenizing, from line `from` of `text` on, as many lines as `toks`
/// holds, takes the highlighter through `hs` and gives `toks`.
pub open spec fn tokenized_from(
    hs: Seq<SyntaxHighlighter>,
    toks: Seq<Seq<TokenSpan>>,
    text: Seq<u8>,
    from: int,
) -> bool {
    lines_tokenized(hs, Seq::new(toks.len(), |i: int| crate::editor::line_chars(text, from + i)), toks)
}

/// `h` is `h0` reset: the same grammars and language, no scopes, and the
/// parser at the start of a file of the grammar found for the language.
pub open spec fn is_reset_of(h: SyntaxHighlighter, h0: SyntaxHighlighter) -> bool {
    &&& h.spec_grammars() == h0.spec_grammars()
    &&& h.spec_language() == h0.spec_language()
    &&& h.spec_syntax_set() == h0.spec_syntax_set()
    &&& h.spec_stack() == (Seq::<Seq<u8>>::empty(), Seq::<Seq<Seq<u8>>>::empty())
    &&& token_lookup(h.spec_grammars(), h.spec_language()) matches Some(i) && h.starts_with_grammar(i)
}

proof fn lemma_last_named_finds(g: Seq<(Seq<u8>, Seq<Seq<u8>>)>, i: int)
    requires
        0 <= i < g.len(),
    ensures
        last_named(g, g[i].0) is Some,
    decreases g.len(),
{
    if !eq_ignore_ascii_case(g.last().0, g[i].0) {
        if i == g.len() - 1 {
            assert(eq_ignore_ascii_case(g[i].0, g[i].0));
        }
        lemma_last_named_finds(g.drop_last(), i);
    }
}

impl Clone for SyntaxHighlighter {
    fn clone(&self) -> (r: Self)
        ensures
            r.spec_grammars() == self.spec_grammars(),
            r.spec_language() == self.spec_language(),
            r.spec_stack() == self.spec_stack(),
            forall|line: Seq<char>| #[trigger] r.spec_parse(line) == self.spec_parse(line),
    {
        proof {
            use_type_invariant(self);
        }
        SyntaxHighlighter {
            syntax_set: clone_syntax_set(&self.syntax_set),
            parse_state: clone_parse_state(&self.parse_state),
            scope_stack: clone_scope_stack(&self.scope_stack),
            language_name: self.language_name.clone(),
        }
    }
}

impl SyntaxHighlighter {
    #[verifier::type_invariant]
    closed spec fn inv(self) -> bool {
        &&& state_in_set(self.parse_state, self.syntax_set)
        &&& names_grammar(set_grammars(self.syntax_set), bytes_of(self.language_name@))
    }

    /// The grammars the highlighter was made with.
    pub closed spec fn spec_grammars(self) -> Seq<(Seq<u8>, Seq<Seq<u8>>)> {
        set_grammars(self.syntax_set)
    }

    /// The name of the grammar it highlights with.
    pub closed spec fn spec_language(self) -> Seq<u8> {
        bytes_of(self.language_name@)
    }

    /// The scopes in force, and those cleared, at the end of the last
    /// tokenized line.
    pub closed spec fn spec_stack(self) -> ScopeState {
        stack_state(self.scope_stack)
    }

    /// The scope operations that the parser gives for `line` as the next
    /// line, or `None` when it fails on it.
    pub closed spec fn spec_parse(self, line: Seq<char>) -> Option<Seq<(int, ScopeOpView)>> {
        parse_result(self.parse_state, line, self.syntax_set)
    }

    /// The highlighter's grammar set.
    pub closed spec fn spec_syntax_set(self) -> SyntaxSet {
        self.syntax_set
    }

    /// The highlighter's parser state.
    pub closed spec fn spec_parser(self) -> ParseState {
        self.parse_state
    }

    /// The parser is at the start of a file of the grammar at index `i` of
    /// the highlighter's set.
    pub open spec fn starts_with_grammar(self, i: int) -> bool {
        self.spec_parser() == start_state(syntax_at(self.spec_syntax_set(), i))
    }

    /// Creates a highlighter for `language`, or returns `None` when no loaded
    /// grammar matches it. The grammar is the one found for the name (by file
    /// extension, then by name), else the one found for its alias.
    pub fn new(grammar_set: &GrammarSet, language: &str) -> (r: Option<Self>)
        ensures
            match resolve_index(grammar_set.spec_grammars(), language.spec_bytes()) {
                None => r is None,
                Some(i) => r matches Some(h) && h.spec_grammars() == grammar_set.spec_grammars()
                    && h.spec_language() == grammar_set.spec_grammars()[i].0 && h.spec_stack() == (
                    Seq::<Seq<u8>>::empty(),
                    Seq::<Seq<Seq<u8>>>::empty(),
                ) && h.starts_with_grammar(i),
            },
    {
        let syntax_set = clone_syntax_set(&grammar_set.syntax_set);
        let (parse_state, language_name) = match resolve_language(&syntax_set, language) {
            Some(syntax) => (new_parse_state(syntax), syntax_name(syntax).to_owned()),
            None => return None,
        };
        proof {
            let g = set_grammars(syntax_set);
            let i = resolve_index(g, language.spec_bytes())->0;
            lemma_last_named_finds(g, i);
        }
        let scope_stack = new_scope_stack();
        Some(SyntaxHighlighter { syntax_set, parse_state, scope_stack, language_name })
    }

    /// Tokenizes one line and updates continuation state. The plain span
    /// over the whole line comes exactly when the parser fails on the line or
    /// one of its scope operations fails.
    ///
    /// Otherwise the spans cover the whole line one after another, none is
    /// empty, each has the category of the scopes in force over its bytes,
    /// and adjacent spans of one category are merged.
    pub fn tokenize_line(&mut self, line: &str) -> (r: Vec<TokenSpan>)
        ensures
            line_tokenized(*old(self), *final(self), line@, r@),
    {
        proof {
            use_type_invariant(&*self);
        }
        let len = line.as_bytes().len();
        let mut state = clone_parse_state(&self.parse_state);
        let parsed = parse_line(&mut state, line, &self.syntax_set);
        self.parse_state = state;
        let ops = match parsed {
            Some(ops) => ops,
            None => return plain_line(len),
        };
        proof {
            let v = ops_view(ops@);
            assert forall|i: int, j: int| 0 <= i <= j < ops@.len() implies (#[trigger] ops@[i]).0
                <= (#[trigger] ops@[j]).0 by {
                assert(v[i].0 <= v[j].0);
            }
        }
        let mut stack = new_scope_stack();
        std::mem::swap(&mut stack, &mut self.scope_stack);
        let spans = spans_for_ops(&ops, &mut stack, len);
        self.scope_stack = stack;
        match spans {
            Some(spans) => spans,
            None => plain_line(len),
        }
    }

    /// Clears parser state so the next tokenized line is treated as a new
    /// file start: a parser at the start of the grammar, and no scopes.
    pub fn reset(&mut self)
        ensures
            is_reset_of(*final(self), *old(self)),
    {
        proof {
            use_type_invariant(&*self);
        }
        let syntax = match find_syntax(&self.syntax_set, self.language_name.as_str()) {
            Some(syntax) => syntax,
            None => {
                proof {
                    assert(false);
                }
                return;
            },
        };
        self.parse_state = new_parse_state(syntax);
        self.scope_stack = new_scope_stack();
    }
}

} // verus!

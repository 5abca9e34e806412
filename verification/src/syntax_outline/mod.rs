//! The block structure and string literals of a file, as the parser sees them.
//!
//! An editor needs a handful of lexical facts to type in an indentation-delimited language: which
//! line opens a suite, where a compound statement ends, which clause keywords belong together,
//! what a string literal's escapes and interpolations are, and how much of a triple-quoted
//! string's indentation basedpython strips. Every one of those is decided by the parser, and an
//! editor that works them out again from the text gets them subtly different — a `match = 1`
//! read as a `match` statement, a `:` inside a string read as the end of a header, a margin drawn
//! where nothing is stripped. So they are read off the parse tree and its tokens here.

pub mod keywords;
pub mod literals;

use crate::node::{
    all_filling, child_of, children_of, height, is_nested, lemma_all_filling_in,
    lemma_first_filling_in, lemma_height_child, lemma_height_child_of, lemma_height_children_of,
    lemma_is_filling, node_in, Field, Node, NodeKind,
};
use crate::source::{bytes_of, get, is_cut, is_source, lemma_cut_within, text_of};
use crate::strings::{owned, trim_trailing, without_trailing};
use crate::text_size::{is_before, TextRange, TextSize};
use crate::tokens::{
    count_starting_before, ending_by, first_of_kind, first_token, first_token_any, last_significant,
    starting_before, token_after, token_at, token_before, token_starting, tokens_from, Token,
    TokenKind,
};
use keywords::lemma_starting_before;
use literals::{string_models, strings_in_all, OutlineString, StringCollector};
use vstd::prelude::*;
use vstd::string::StrSliceExecFns;

verus! {

broadcast use {lemma_height_child_of, lemma_height_children_of};

/// A file, parsed.
#[derive(Debug)]
pub struct ParsedFile {
    pub source: String,
    /// The module's statements.
    pub suite: Node,
    pub tokens: Vec<Token>,
    pub is_basedpython: bool,
}

/// The block structure and string literals of one file.
#[derive(Debug, PartialEq, Eq)]
pub struct SyntaxOutline {
    /// The module's statements, in source order, each carrying the suites nested under it.
    pub statements: Vec<OutlineStatement>,
    /// Every string literal part in the file, in source order.
    pub strings: Vec<OutlineString>,
}

/// One statement.
#[derive(Debug, PartialEq, Eq)]
pub struct OutlineStatement {
    /// The whole statement: from its first token (a decorator, for a decorated definition) to
    /// the end of its last clause's body.
    pub range: TextRange,
    /// The clauses of a compound statement, in source order. Empty for a simple statement.
    pub clauses: Vec<OutlineClause>,
    /// The basedpython modifiers the definition was declared with (`data`, `frozen data`,
    /// `enum class`, `class` in `class def`, ...), in source order.
    pub modifiers: Vec<OutlineModifier>,
    /// For an expression statement that is a call, the call.
    pub call: Option<OutlineCall>,
}

/// One clause of a compound statement: `if`, `elif`, `else`, `case`, the `def` of a function.
#[derive(Debug, PartialEq, Eq)]
pub struct OutlineClause {
    /// The clause keyword. `None` for a clause that has none, which is a basedpython trailing
    /// lambda (`items.each:`).
    pub keyword: Option<TextRange>,
    /// The `:` that ends the header and opens the suite. `None` when there is none to find, which
    /// is a header the parser recovered from, or the `let` clause of a `let ... := ... else:`.
    pub colon: Option<TextRange>,
    /// From the start of the header to the end of the body — or of the header, when the body is
    /// empty.
    pub range: TextRange,
    /// The statements of the suite.
    pub body: Vec<OutlineStatement>,
}

/// A basedpython modifier keyword, as the parser read it.
#[derive(Debug, Clone, PartialEq, Eq)]
pub struct OutlineModifier {
    /// The keyword or keywords, without the whitespace that follows them.
    pub range: TextRange,
    /// What the parser recorded it as, e.g. `data_class`, `frozen_data_class`, `enum_def`,
    /// `classmethod`, `protocol_class`, `final`.
    pub name: String,
}

/// An [`OutlineModifier`] as a mathematical value.
pub ghost struct OutlineModifierModel {
    pub range: TextRange,
    pub name: Seq<char>,
}

impl View for OutlineModifier {
    type V = OutlineModifierModel;

    open spec fn view(&self) -> OutlineModifierModel {
        OutlineModifierModel { range: self.range, name: self.name@ }
    }
}

pub open spec fn modifier_models(modifiers: Seq<OutlineModifier>) -> Seq<OutlineModifierModel> {
    modifiers.map_values(|modifier: OutlineModifier| modifier@)
}

/// A call made as a statement of its own.
#[derive(Debug, Clone, Copy, PartialEq, Eq)]
pub struct OutlineCall {
    /// The expression being called.
    pub callee: TextRange,
    /// From the start of the first argument to the end of the last, parentheses around either
    /// included. `None` for a call with no arguments.
    pub arguments: Option<TextRange>,
    /// Whether every argument is positional and none is unpacked with `*` or `**`.
    pub positional_only: bool,
}

/// A clause of a statement without its body's outline.
pub struct ClauseHead<'s> {
    pub keyword: Option<TextRange>,
    pub colon: Option<TextRange>,
    pub range: TextRange,
    pub suite: Option<&'s Node>,
}

/// A [`ClauseHead`] as a mathematical value.
pub ghost struct ClauseHeadModel {
    pub keyword: Option<TextRange>,
    pub colon: Option<TextRange>,
    pub range: TextRange,
    pub suite: Option<Node>,
}

impl<'s> View for ClauseHead<'s> {
    type V = ClauseHeadModel;

    open spec fn view(&self) -> ClauseHeadModel {
        ClauseHeadModel {
            keyword: self.keyword,
            colon: self.colon,
            range: self.range,
            suite: node_in(self.suite),
        }
    }
}

pub open spec fn head_models(heads: Seq<ClauseHead<'_>>) -> Seq<ClauseHeadModel> {
    heads.map_values(|head: ClauseHead<'_>| head@)
}

/// The first `:` among `tokens` outside brackets, before the logical line ends, where `depth`
/// brackets are open.
pub open spec fn colon_among(tokens: Seq<Token>, depth: int) -> Option<TextRange>
    decreases tokens.len(),
{
    if tokens.len() == 0 {
        None
    } else {
        match tokens[0].kind {
            TokenKind::Lpar | TokenKind::Lsqb | TokenKind::Lbrace => colon_among(
                tokens.skip(1),
                depth + 1,
            ),
            TokenKind::Rpar | TokenKind::Rsqb | TokenKind::Rbrace => colon_among(
                tokens.skip(1),
                depth - 1,
            ),
            TokenKind::Colon => if depth <= 0 {
                Some(tokens[0].range)
            } else {
                colon_among(tokens.skip(1), depth)
            },
            TokenKind::Newline => None,
            _ => colon_among(tokens.skip(1), depth),
        }
    }
}

/// The header's `:` — the first one after `hint` outside brackets, before the logical line
/// ends. Searching from the header's last component rather than from its keyword is what keeps
/// a lambda's `:` in the header out of it.
pub open spec fn colon_from(tokens: Seq<Token>, hint: int) -> Option<TextRange> {
    colon_among(tokens_from(tokens, hint), 0)
}

/// A clause that starts at `start`, whose header's last component ends at `hint`.
pub open spec fn head_at(
    tokens: Seq<Token>,
    keyword: Option<TextRange>,
    start: TextSize,
    hint: TextSize,
    suite: Option<Node>,
) -> ClauseHeadModel {
    let colon = colon_from(tokens, hint as int);
    let header_end = match colon {
        Some(colon) => colon.end,
        None => hint,
    };
    let end = match suite {
        Some(suite) => if suite.children@.len() > 0 && suite.children@.last().range.end
            > header_end {
            suite.children@.last().range.end
        } else {
            header_end
        },
        None => header_end,
    };
    ClauseHeadModel { keyword, colon, range: TextRange { start, end }, suite }
}

/// Whether a token may stand between an `else` and the suite it heads.
pub open spec fn may_follow_else(kind: TokenKind) -> bool {
    match kind {
        TokenKind::Colon
        | TokenKind::Newline
        | TokenKind::NonLogicalNewline
        | TokenKind::Indent
        | TokenKind::Dedent
        | TokenKind::Comment => true,
        _ => false,
    }
}

/// The last of `tokens` that may not stand between an `else` and its suite.
pub open spec fn last_heading(tokens: Seq<Token>) -> Option<Token>
    decreases tokens.len(),
{
    if tokens.len() == 0 {
        None
    } else if !may_follow_else(tokens.last().kind) {
        Some(tokens.last())
    } else {
        last_heading(tokens.drop_last())
    }
}

/// The `else` or `finally` clause heading `suite`, which has no node of its own: its keyword is
/// the last one of `kind` before the suite's first statement.
pub open spec fn else_heads(tokens: Seq<Token>, suite: Option<Node>, kind: TokenKind) -> Seq<
    ClauseHeadModel,
> {
    match suite {
        Some(body) => if body.children@.len() == 0 {
            Seq::empty()
        } else {
            let start = body.children@[0].range.start as int;
            match last_heading(tokens.take(starting_before(tokens, start))) {
                Some(keyword) => if keyword.kind == kind {
                    seq![
                        head_at(
                            tokens,
                            Some(keyword.range),
                            keyword.range.start,
                            keyword.range.end,
                            suite,
                        ),
                    ]
                } else {
                    Seq::empty()
                },
                None => Seq::empty(),
            }
        },
        None => Seq::empty(),
    }
}

/// Where `range` ends, or `otherwise` when there is none.
pub open spec fn end_or(range: Option<TextRange>, otherwise: TextSize) -> TextSize {
    match range {
        Some(range) => range.end,
        None => otherwise,
    }
}

/// Where `node` ends, or `otherwise` when there is none.
pub open spec fn node_end_or(node: Option<Node>, otherwise: TextSize) -> TextSize {
    match node {
        Some(node) => node.range.end,
        None => otherwise,
    }
}

pub open spec fn later(a: TextSize, b: TextSize) -> TextSize {
    if a >= b {
        a
    } else {
        b
    }
}

/// An `elif` or `else` clause of an `if`.
pub open spec fn elif_head(tokens: Seq<Token>, clause: Node) -> ClauseHeadModel {
    let start = clause.range.start;
    let keyword = token_starting(tokens, start as int);
    let hint = node_end_or(child_of(clause, Field::Test), end_or(keyword, start));
    head_at(tokens, keyword, start, hint, child_of(clause, Field::Body))
}

/// An `except` clause of a `try`.
pub open spec fn handler_head(tokens: Seq<Token>, handler: Node) -> ClauseHeadModel {
    let start = handler.range.start;
    let keyword = token_starting(tokens, start as int);
    let name_end = match handler.kind {
        NodeKind::ExceptHandler { name_end } => name_end,
        _ => None,
    };
    let hint = match name_end {
        Some(end) => end,
        None => node_end_or(child_of(handler, Field::Type), end_or(keyword, start)),
    };
    head_at(tokens, keyword, start, hint, child_of(handler, Field::Body))
}

/// A `case` clause of a `match`.
pub open spec fn case_head(tokens: Seq<Token>, case: Node) -> ClauseHeadModel {
    let start = case.range.start;
    let pattern_end = node_end_or(child_of(case, Field::Pattern), start);
    let hint = node_end_or(child_of(case, Field::Guard), pattern_end);
    head_at(tokens, token_after(tokens, start as int), start, hint, child_of(case, Field::Body))
}

#[derive(Debug, Clone, Copy, PartialEq, Eq, Structural)]
pub enum ClauseKind {
    Elif,
    Handler,
    Case,
}

pub open spec fn nested_head(tokens: Seq<Token>, clause: Node, kind: ClauseKind) -> ClauseHeadModel {
    match kind {
        ClauseKind::Elif => elif_head(tokens, clause),
        ClauseKind::Handler => handler_head(tokens, clause),
        ClauseKind::Case => case_head(tokens, clause),
    }
}

pub open spec fn nested_heads(tokens: Seq<Token>, clauses: Seq<Node>, kind: ClauseKind) -> Seq<
    ClauseHeadModel,
> {
    clauses.map_values(|clause: Node| nested_head(tokens, clause, kind))
}

pub open spec fn definition_name(definition: Node) -> TextRange {
    match definition.kind {
        NodeKind::StmtFunctionDef { name_range, .. } => name_range,
        NodeKind::StmtClassDef { name_range, .. } => name_range,
        _ => definition.range,
    }
}

/// The `def` of a function, or the call of a trailing lambda.
pub open spec fn function_head(tokens: Seq<Token>, function: Node, is_block: bool) ->
    ClauseHeadModel {
    let body = child_of(function, Field::Body);
    let start = function.range.start;
    if is_block {
        // a statement-level `<call>:` whose suite is the lambda's body. there is no
        // keyword; the header is the call
        let hint = match child_of(function, Field::Decorator) {
            Some(decorator) => node_end_or(child_of(decorator, Field::Expression), start),
            None => start,
        };
        head_at(tokens, None, start, hint, body)
    } else {
        let name = definition_name(function);
        let keyword = last_significant(tokens.take(ending_by(tokens, name.start as int)));
        let parameters = node_end_or(child_of(function, Field::Parameters), name.end);
        let result = node_end_or(child_of(function, Field::Returns), parameters);
        let raises = node_end_or(child_of(function, Field::Raises), parameters);
        let header = match keyword {
            Some(keyword) => keyword.start,
            None => start,
        };
        head_at(tokens, keyword, header, later(later(parameters, result), raises), body)
    }
}

/// The `class` of a class.
pub open spec fn class_head(tokens: Seq<Token>, class: Node) -> ClauseHeadModel {
    let name = definition_name(class);
    let keyword = last_significant(tokens.take(ending_by(tokens, name.start as int)));
    let type_params = node_end_or(child_of(class, Field::TypeParams), name.end);
    let arguments = node_end_or(child_of(class, Field::Arguments), name.end);
    let header = match keyword {
        Some(keyword) => keyword.start,
        None => class.range.start,
    };
    head_at(
        tokens,
        keyword,
        header,
        later(later(name.end, type_params), arguments),
        child_of(class, Field::Body),
    )
}

/// The clauses of `stmt` without their bodies' outlines, which is all a family needs.
pub open spec fn heads_of(tokens: Seq<Token>, stmt: Node) -> Seq<ClauseHeadModel> {
    let start = stmt.range.start;
    let body = child_of(stmt, Field::Body);
    let orelse = child_of(stmt, Field::Orelse);
    let first = token_starting(tokens, start as int);
    match stmt.kind {
        NodeKind::StmtIf { .. } => seq![
            head_at(tokens, first, start, node_end_or(child_of(stmt, Field::Test), start), body),
        ] + nested_heads(tokens, children_of(stmt, Field::ElifElse), ClauseKind::Elif),
        NodeKind::StmtFor { .. } => seq![
            head_at(
                tokens,
                first_of_kind(tokens_from(tokens, start as int), TokenKind::For),
                start,
                node_end_or(child_of(stmt, Field::Iter), start),
                body,
            ),
        ] + else_heads(tokens, orelse, TokenKind::Else),
        NodeKind::StmtWhile => seq![
            head_at(tokens, first, start, node_end_or(child_of(stmt, Field::Test), start), body),
        ] + else_heads(tokens, orelse, TokenKind::Else),
        NodeKind::StmtTry => seq![head_at(tokens, first, start, end_or(first, start), body)]
            + nested_heads(tokens, children_of(stmt, Field::Handler), ClauseKind::Handler)
            + else_heads(tokens, orelse, TokenKind::Else) + else_heads(
            tokens,
            child_of(stmt, Field::Finalbody),
            TokenKind::Finally,
        ),
        NodeKind::StmtWith { .. } => {
            let keyword = first_of_kind(tokens_from(tokens, start as int), TokenKind::With);
            let items = children_of(stmt, Field::Item);
            let hint = if items.len() > 0 {
                items.last().range.end
            } else {
                end_or(keyword, start)
            };
            seq![head_at(tokens, keyword, start, hint, body)]
        },
        // `match` is a soft keyword, and the clause keyword is simply the statement's
        // first token: the parser only makes a match statement out of one that is
        NodeKind::StmtMatch => seq![
            head_at(
                tokens,
                token_after(tokens, start as int),
                start,
                node_end_or(child_of(stmt, Field::Subject), start),
                None,
            ),
        ] + nested_heads(tokens, children_of(stmt, Field::Case), ClauseKind::Case),
        NodeKind::StmtFunctionDef { is_trailing_lambda, .. } => seq![
            function_head(tokens, stmt, is_trailing_lambda),
        ],
        NodeKind::StmtClassDef { .. } => seq![class_head(tokens, stmt)],
        // `let <pattern> := <subject> else:` — the `let` half opens no suite, and the
        // `else` is a clause of the statement like a loop's
        NodeKind::StmtLet => if orelse matches Some(suite) && suite.children@.len() > 0 {
            seq![
                ClauseHeadModel {
                    keyword: first,
                    colon: None,
                    range: TextRange {
                        start,
                        end: node_end_or(child_of(stmt, Field::Value), start),
                    },
                    suite: None,
                },
            ] + else_heads(tokens, orelse, TokenKind::Else)
        } else {
            Seq::empty()
        },
        _ => Seq::empty(),
    }
}

/// Whether the suites `heads` head are less deep than `below`.
#[verifier::opaque]
spec fn heads_below(heads: Seq<ClauseHeadModel>, below: nat) -> bool {
    forall|i: int|
        0 <= i < heads.len() ==> ((#[trigger] heads[i]).suite matches Some(suite) ==> height(suite)
            < below)
}

broadcast proof fn lemma_no_heads_below(below: nat)
    ensures
        #[trigger] heads_below(Seq::empty(), below),
{
    reveal(heads_below);
}

broadcast proof fn lemma_head_below(heads: Seq<ClauseHeadModel>, head: ClauseHeadModel, below: nat)
    requires
        heads_below(heads, below),
        head.suite matches Some(suite) ==> height(suite) < below,
    ensures
        #[trigger] heads_below(heads.push(head), below),
{
    reveal(heads_below);
}

broadcast proof fn lemma_joined_heads_below(
    a: Seq<ClauseHeadModel>,
    b: Seq<ClauseHeadModel>,
    below: nat,
)
    requires
        heads_below(a, below),
        heads_below(b, below),
    ensures
        #[trigger] heads_below(a + b, below),
{
    reveal(heads_below);
    assert forall|i: int| 0 <= i < (a + b).len() implies ((#[trigger] (a
        + b)[i]).suite matches Some(suite) ==> height(suite) < below) by {
        if i < a.len() {
            assert((a + b)[i] == a[i]);
        } else {
            assert((a + b)[i] == b[i - a.len()]);
        }
    }
}

broadcast proof fn lemma_nested_heads_below(
    tokens: Seq<Token>,
    stmt: Node,
    field: Field,
    kind: ClauseKind,
)
    ensures
        heads_below(
            #[trigger] nested_heads(tokens, children_of(stmt, field), kind),
            height(stmt),
        ),
{
    reveal(heads_below);
    let clauses = children_of(stmt, field);
    let heads = nested_heads(tokens, clauses, kind);
    assert forall|i: int| 0 <= i < heads.len() implies ((
    #[trigger] heads[i]).suite matches Some(suite) ==> height(suite) < height(stmt)) by {
        assert(heads[i] == nested_head(tokens, clauses[i], kind));
        lemma_height_children_of(stmt, field, i);
        lemma_height_child_of(clauses[i], Field::Body);
    }
}

/// The suite of a clause is less deep than the statement.
pub proof fn lemma_head_suites(tokens: Seq<Token>, stmt: Node, i: int)
    requires
        0 <= i < heads_of(tokens, stmt).len(),
    ensures
        heads_of(tokens, stmt)[i].suite matches Some(suite) ==> height(suite) < height(stmt),
{
    broadcast use {
        lemma_no_heads_below,
        lemma_head_below,
        lemma_joined_heads_below,
        lemma_nested_heads_below,
    };

    let below = height(stmt);
    assert(heads_below(heads_of(tokens, stmt), below)) by {
        assert(heads_below(
            else_heads(tokens, child_of(stmt, Field::Orelse), TokenKind::Else),
            below,
        )) by {
            reveal(heads_below);
        }
        assert(heads_below(
            else_heads(tokens, child_of(stmt, Field::Finalbody), TokenKind::Finally),
            below,
        )) by {
            reveal(heads_below);
        }
    }
    reveal(heads_below);
}

/// The modifier `decorator` stands for, when the parser made it of one: unlike a written
/// decorator it does not start with `@`.
pub open spec fn modifier_at(text: Seq<char>, decorator: Node) -> Option<OutlineModifierModel> {
    let written = text_of(text, decorator.range);
    let kept = without_trailing(written);
    match child_of(decorator, Field::Expression) {
        Some(expression) => match expression.kind {
            NodeKind::ExprName { id, .. } => if is_cut(text, decorator.range) && !(written.len()
                > 0 && written[0] == '@') && kept.len() > 0 {
                Some(
                    OutlineModifierModel {
                        range: TextRange {
                            start: decorator.range.start,
                            end: (decorator.range.start + bytes_of(kept).len()) as u32,
                        },
                        name: id@,
                    },
                )
            } else {
                None
            },
            _ => None,
        },
        None => None,
    }
}

/// The modifiers among `decorators`, in order.
pub open spec fn modifiers_among(text: Seq<char>, decorators: Seq<Node>) -> Seq<
    OutlineModifierModel,
>
    decreases decorators.len(),
{
    if decorators.len() == 0 {
        Seq::empty()
    } else {
        let before = modifiers_among(text, decorators.drop_last());
        match modifier_at(text, decorators.last()) {
            Some(modifier) => before.push(modifier),
            None => before,
        }
    }
}

/// The modifiers a definition was declared with.
pub open spec fn modifiers_of(text: Seq<char>, stmt: Node) -> Seq<OutlineModifierModel> {
    let declares = match stmt.kind {
        NodeKind::StmtFunctionDef { is_trailing_lambda, .. } => !is_trailing_lambda,
        NodeKind::StmtClassDef { .. } => true,
        _ => false,
    };
    if declares {
        modifiers_among(text, children_of(stmt, Field::Decorator))
    } else {
        Seq::empty()
    }
}

/// The text an argument covers, the parentheses around it included.
pub open spec fn argument_range(argument: Node) -> TextRange {
    if argument.kind is Keyword {
        argument.range
    } else {
        argument.outer
    }
}

/// From the start of the first of `arguments` to the end of the last.
pub open spec fn arguments_cover(arguments: Seq<Node>) -> Option<TextRange>
    decreases arguments.len(),
{
    if arguments.len() == 0 {
        None
    } else {
        let last = argument_range(arguments.last());
        match arguments_cover(arguments.drop_last()) {
            Some(before) => Some(
                TextRange {
                    start: if before.start <= last.start {
                        before.start
                    } else {
                        last.start
                    },
                    end: if before.end >= last.end {
                        before.end
                    } else {
                        last.end
                    },
                },
            ),
            None => Some(last),
        }
    }
}

/// Whether every one of `arguments` is positional and none is unpacked.
pub open spec fn all_positional(arguments: Seq<Node>) -> bool {
    forall|i: int|
        0 <= i < arguments.len() ==> !((#[trigger] arguments[i]).kind is Keyword)
            && !(arguments[i].kind is ExprStarred)
}

/// The arguments of `call`.
pub open spec fn arguments_of(call: Node) -> Seq<Node> {
    match child_of(call, Field::Arguments) {
        Some(arguments) => arguments.children@,
        None => Seq::empty(),
    }
}

/// The call `stmt` is, when it is one on its own.
pub open spec fn call_of(stmt: Node) -> Option<OutlineCall> {
    match child_of(stmt, Field::Value) {
        Some(value) => match child_of(value, Field::Func) {
            Some(func) => if stmt.kind is StmtExpr && value.kind is ExprCall {
                Some(
                    OutlineCall {
                        callee: func.range,
                        arguments: arguments_cover(arguments_of(value)),
                        positional_only: all_positional(arguments_of(value)),
                    },
                )
            } else {
                None
            },
            None => None,
        },
        None => None,
    }
}

/// What an outline is made from.
pub ghost struct Parsed {
    pub text: Seq<char>,
    pub tokens: Seq<Token>,
}

/// Whether `outline` is the outline of `stmt`.
pub open spec fn outlines(parsed: Parsed, stmt: Node, outline: OutlineStatement) -> bool
    decreases height(stmt), 1int, 0int,
{
    let heads = heads_of(parsed.tokens, stmt);
    &&& outline.range == stmt.range
    &&& modifier_models(outline.modifiers@) == modifiers_of(parsed.text, stmt)
    &&& outline.call == call_of(stmt)
    &&& outline.clauses.len() == heads.len()
    &&& outlines_clauses(parsed, stmt, heads.len() as int, outline.clauses@)
}

/// Whether the first `upto` of `clauses` are the outlines of the first clauses of `stmt`.
pub open spec fn outlines_clauses(
    parsed: Parsed,
    stmt: Node,
    upto: int,
    clauses: Seq<OutlineClause>,
) -> bool
    decreases height(stmt), 0int, upto,
{
    if upto <= 0 {
        true
    } else {
        let head = heads_of(parsed.tokens, stmt)[upto - 1];
        let clause = clauses[upto - 1];
        &&& clause.keyword == head.keyword
        &&& clause.colon == head.colon
        &&& clause.range == head.range
        &&& match head.suite {
            Some(suite) => {
                &&& height(suite) < height(stmt)
                &&& clause.body.len() == suite.children@.len()
                &&& outlines_suite(
                    parsed,
                    suite,
                    suite.children@.len() as int,
                    clause.body@,
                )
            },
            None => clause.body.len() == 0,
        }
        &&& outlines_clauses(parsed, stmt, upto - 1, clauses)
    }
}

/// Whether the first `upto` of `statements` are the outlines of the first statements of `suite`.
pub open spec fn outlines_suite(
    parsed: Parsed,
    suite: Node,
    upto: int,
    statements: Seq<OutlineStatement>,
) -> bool
    decreases height(suite), 0int, upto,
{
    if !(0 < upto <= suite.children@.len()) {
        true
    } else {
        proof {
            lemma_height_child(suite, upto - 1);
        }
        &&& outlines(parsed, suite.children@[upto - 1], statements[upto - 1])
        &&& outlines_suite(parsed, suite, upto - 1, statements)
    }
}

/// What is known of the first outlines stays so when more follow.
proof fn lemma_outlines_more(
    parsed: Parsed,
    suite: Node,
    upto: int,
    a: Seq<OutlineStatement>,
    b: Seq<OutlineStatement>,
)
    requires
        outlines_suite(parsed, suite, upto, a),
        0 <= upto <= a.len() <= b.len(),
        forall|i: int| 0 <= i < upto ==> #[trigger] a[i] == b[i],
    ensures
        outlines_suite(parsed, suite, upto, b),
    decreases upto,
{
    if 0 < upto <= suite.children@.len() {
        assert(a[upto - 1] == b[upto - 1]);
        lemma_outlines_more(parsed, suite, upto - 1, a, b);
    }
}

proof fn lemma_clauses_more(
    parsed: Parsed,
    stmt: Node,
    upto: int,
    a: Seq<OutlineClause>,
    b: Seq<OutlineClause>,
)
    requires
        outlines_clauses(parsed, stmt, upto, a),
        0 <= upto <= a.len() <= b.len(),
        forall|i: int| 0 <= i < upto ==> #[trigger] a[i] == b[i],
    ensures
        outlines_clauses(parsed, stmt, upto, b),
    decreases upto,
{
    if upto > 0 {
        assert(a[upto - 1] == b[upto - 1]);
        lemma_clauses_more(parsed, stmt, upto - 1, a, b);
    }
}

/// The outline of a file.
pub open spec fn is_outline(file: ParsedFile, outline: SyntaxOutline) -> bool {
    let parsed = Parsed { text: file.source@, tokens: file.tokens@ };
    &&& outline.statements.len() == file.suite.children@.len()
    &&& outlines_suite(
        parsed,
        file.suite,
        file.suite.children@.len() as int,
        outline.statements@,
    )
    &&& string_models(outline.strings@) == strings_in_all(
        file.source@,
        file.is_basedpython,
        None,
        file.suite.children@,
    )
}

fn end_of_range(range: Option<TextRange>, otherwise: TextSize) -> (end: TextSize)
    ensures
        end == end_or(range, otherwise),
{
    match range {
        Some(range) => range.end,
        None => otherwise,
    }
}

fn end_of_node(node: Option<&Node>, otherwise: TextSize) -> (end: TextSize)
    ensures
        end == node_end_or(node_in(node), otherwise),
{
    match node {
        Some(node) => node.range.end,
        None => otherwise,
    }
}

fn latest(a: TextSize, b: TextSize) -> (end: TextSize)
    ensures
        end == later(a, b),
{
    if a >= b {
        a
    } else {
        b
    }
}

fn name_range_of(definition: &Node) -> (range: TextRange)
    ensures
        range == definition_name(*definition),
{
    match &definition.kind {
        NodeKind::StmtFunctionDef { name_range, .. } => *name_range,
        NodeKind::StmtClassDef { name_range, .. } => *name_range,
        _ => definition.range,
    }
}

/// Builds the outline of statements.
pub struct OutlineBuilder<'a> {
    pub source: &'a str,
    pub tokens: &'a Vec<Token>,
}

impl<'a> OutlineBuilder<'a> {
    pub open spec fn model(&self) -> Parsed {
        Parsed { text: self.source@, tokens: self.tokens@ }
    }

    /// The header's `:`.
    fn colon_after(&self, hint: TextSize) -> (colon: Option<TextRange>)
        ensures
            colon == colon_from(self.tokens@, hint as int),
    {
        let tokens = self.tokens;
        let mut i: usize = count_starting_before(tokens, hint);
        let mut depth: i128 = 0;
        let ghost first = i as int;
        while i < tokens.len()
            invariant
                first <= i <= tokens.len(),
                0 <= first,
                tokens == self.tokens,
                -(i - first) <= depth <= i - first,
                colon_from(self.tokens@, hint as int) == colon_among(
                    tokens@.skip(i as int),
                    depth as int,
                ),
            decreases tokens.len() - i,
        {
            assert(tokens@.skip(i as int)[0] == tokens@[i as int]);
            assert(tokens@.skip(i as int).skip(1) =~= tokens@.skip(i + 1));
            match tokens[i].kind {
                TokenKind::Lpar | TokenKind::Lsqb | TokenKind::Lbrace => {
                    depth += 1;
                },
                TokenKind::Rpar | TokenKind::Rsqb | TokenKind::Rbrace => {
                    depth -= 1;
                },
                TokenKind::Colon => {
                    if depth <= 0 {
                        return Some(tokens[i].range);
                    }
                },
                TokenKind::Newline => {
                    return None;
                },
                _ => {},
            }
            i += 1;
        }
        None
    }

    /// A clause that starts at `start`, whose header's last component ends at `hint`.
    fn head<'s>(
        &self,
        keyword: Option<TextRange>,
        start: TextSize,
        hint: TextSize,
        suite: Option<&'s Node>,
    ) -> (head: ClauseHead<'s>)
        ensures
            head@ == head_at(self.tokens@, keyword, start, hint, node_in(suite)),
    {
        let colon = self.colon_after(hint);
        let header_end = end_of_range(colon, hint);
        let end = match suite {
            Some(suite) => if suite.children.len() > 0 {
                latest(suite.children[suite.children.len() - 1].range.end, header_end)
            } else {
                header_end
            },
            None => header_end,
        };
        ClauseHead { keyword, colon, range: TextRange { start, end }, suite }
    }

    /// The `else` or `finally` clause heading `suite`.
    fn else_head<'s>(
        &self,
        heads: &mut Vec<ClauseHead<'s>>,
        suite: Option<&'s Node>,
        kind: TokenKind,
    )
        ensures
            head_models(final(heads)@) == head_models(old(heads)@) + else_heads(
                self.tokens@,
                node_in(suite),
                kind,
            ),
    {
        let ghost start = head_models(heads@);
        if let Some(body) = suite {
            if body.children.len() > 0 {
                let before = count_starting_before(self.tokens, body.children[0].range.start);
                if let Some(keyword) = self.heading(before) {
                    if keyword.kind == kind {
                        let head = self.head(
                            Some(keyword.range),
                            keyword.range.start,
                            keyword.range.end,
                            suite,
                        );
                        heads.push(head);
                        assert(head_models(heads@) =~= start + seq![head@]);
                        return;
                    }
                }
            }
        }
        assert(head_models(heads@) =~= start + Seq::<ClauseHeadModel>::empty());
    }

    /// The last of the first `upto` tokens that may not stand between an `else` and its suite.
    fn heading(&self, upto: usize) -> (found: Option<Token>)
        requires
            upto <= self.tokens.len(),
        ensures
            found == last_heading(self.tokens@.take(upto as int)),
    {
        let tokens = self.tokens;
        let mut left: usize = upto;
        while left > 0
            invariant
                left <= upto <= tokens.len(),
                tokens == self.tokens,
                last_heading(tokens@.take(upto as int)) == last_heading(
                    tokens@.take(left as int),
                ),
            decreases left,
        {
            assert(tokens@.take(left as int).drop_last() =~= tokens@.take(left - 1));
            assert(tokens@.take(left as int).last() == tokens@[left - 1]);
            let token = tokens[left - 1];
            match token.kind {
                TokenKind::Colon
                | TokenKind::Newline
                | TokenKind::NonLogicalNewline
                | TokenKind::Indent
                | TokenKind::Dedent
                | TokenKind::Comment => {},
                _ => {
                    return Some(token);
                },
            }
            left -= 1;
        }
        None
    }

    fn clause<'s>(&self, clause: &'s Node, kind: ClauseKind) -> (head: ClauseHead<'s>)
        ensures
            head@ == nested_head(self.tokens@, *clause, kind),
    {
        let start = clause.range.start;
        let body = clause.child(Field::Body);
        match kind {
            ClauseKind::Elif => {
                let keyword = token_at(self.tokens, start);
                let hint = end_of_node(clause.child(Field::Test), end_of_range(keyword, start));
                self.head(keyword, start, hint, body)
            },
            ClauseKind::Handler => {
                let keyword = token_at(self.tokens, start);
                let name_end = match &clause.kind {
                    NodeKind::ExceptHandler { name_end } => *name_end,
                    _ => None,
                };
                let hint = match name_end {
                    Some(end) => end,
                    None => end_of_node(
                        clause.child(Field::Type),
                        end_of_range(keyword, start),
                    ),
                };
                self.head(keyword, start, hint, body)
            },
            ClauseKind::Case => {
                let pattern_end = end_of_node(clause.child(Field::Pattern), start);
                let hint = end_of_node(clause.child(Field::Guard), pattern_end);
                self.head(first_token_any(self.tokens, start), start, hint, body)
            },
        }
    }

    fn push_clauses<'s>(
        &self,
        heads: &mut Vec<ClauseHead<'s>>,
        clauses: &Vec<&'s Node>,
        kind: ClauseKind,
    )
        ensures
            head_models(final(heads)@) == head_models(old(heads)@) + nested_heads(
                self.tokens@,
                clauses@.unref(),
                kind,
            ),
    {
        let ghost start = head_models(heads@);
        let ghost all = clauses@.unref();
        let mut i: usize = 0;
        assert(head_models(heads@) =~= start + nested_heads(self.tokens@, all.take(0), kind));
        while i < clauses.len()
            invariant
                i <= clauses.len(),
                all == clauses@.unref(),
                head_models(heads@) == start + nested_heads(
                    self.tokens@,
                    all.take(i as int),
                    kind,
                ),
            decreases clauses.len() - i,
        {
            let ghost before = heads@;
            let head = self.clause(clauses[i], kind);
            heads.push(head);
            assert(all[i as int] == *clauses@[i as int]);
            assert(head_models(heads@) =~= head_models(before).push(head@));
            assert(head_models(heads@) =~= start + nested_heads(
                self.tokens@,
                all.take(i + 1),
                kind,
            ));
            i += 1;
        }
        assert(all.take(i as int) =~= all);
    }

    fn function<'s>(&self, function: &'s Node, is_block: bool) -> (head: ClauseHead<'s>)
        ensures
            head@ == function_head(self.tokens@, *function, is_block),
    {
        let body = function.child(Field::Body);
        let start = function.range.start;
        if is_block {
            let hint = match function.child(Field::Decorator) {
                Some(decorator) => end_of_node(decorator.child(Field::Expression), start),
                None => start,
            };
            return self.head(None, start, hint, body);
        }
        let name = name_range_of(function);
        let keyword = token_before(self.tokens, name.start);
        let parameters = end_of_node(function.child(Field::Parameters), name.end);
        let result = end_of_node(function.child(Field::Returns), parameters);
        let raises = end_of_node(function.child(Field::Raises), parameters);
        let header = match keyword {
            Some(keyword) => keyword.start,
            None => start,
        };
        self.head(keyword, header, latest(latest(parameters, result), raises), body)
    }

    fn class<'s>(&self, class: &'s Node) -> (head: ClauseHead<'s>)
        ensures
            head@ == class_head(self.tokens@, *class),
    {
        let name = name_range_of(class);
        let keyword = token_before(self.tokens, name.start);
        let type_params = end_of_node(class.child(Field::TypeParams), name.end);
        let arguments = end_of_node(class.child(Field::Arguments), name.end);
        let header = match keyword {
            Some(keyword) => keyword.start,
            None => class.range.start,
        };
        self.head(
            keyword,
            header,
            latest(latest(name.end, type_params), arguments),
            class.child(Field::Body),
        )
    }

    /// The clauses of `stmt` without their bodies' outlines, which is all a family needs.
    fn clause_heads<'s>(&self, stmt: &'s Node) -> (heads: Vec<ClauseHead<'s>>)
        ensures
            head_models(heads@) == heads_of(self.tokens@, *stmt),
    {
        let tokens = self.tokens;
        let start = stmt.range.start;
        let body = stmt.child(Field::Body);
        let orelse = stmt.child(Field::Orelse);
        let first = token_at(tokens, start);
        let mut heads: Vec<ClauseHead<'s>> = Vec::new();
        match &stmt.kind {
            NodeKind::StmtIf { .. } => {
                let hint = end_of_node(stmt.child(Field::Test), start);
                let head = self.head(first, start, hint, body);
                heads.push(head);
                assert(head_models(heads@) =~= seq![head@]);
                self.push_clauses(
                    &mut heads,
                    &stmt.children_filling(Field::ElifElse),
                    ClauseKind::Elif,
                );
            },
            NodeKind::StmtFor { .. } => {
                let keyword = first_token(tokens, start, TokenKind::For);
                let hint = end_of_node(stmt.child(Field::Iter), start);
                let head = self.head(keyword, start, hint, body);
                heads.push(head);
                assert(head_models(heads@) =~= seq![head@]);
                self.else_head(&mut heads, orelse, TokenKind::Else);
            },
            NodeKind::StmtWhile => {
                let hint = end_of_node(stmt.child(Field::Test), start);
                let head = self.head(first, start, hint, body);
                heads.push(head);
                assert(head_models(heads@) =~= seq![head@]);
                self.else_head(&mut heads, orelse, TokenKind::Else);
            },
            NodeKind::StmtTry => {
                let head = self.head(first, start, end_of_range(first, start), body);
                heads.push(head);
                assert(head_models(heads@) =~= seq![head@]);
                self.push_clauses(
                    &mut heads,
                    &stmt.children_filling(Field::Handler),
                    ClauseKind::Handler,
                );
                self.else_head(&mut heads, orelse, TokenKind::Else);
                self.else_head(&mut heads, stmt.child(Field::Finalbody), TokenKind::Finally);
            },
            NodeKind::StmtWith { .. } => {
                let keyword = first_token(tokens, start, TokenKind::With);
                let items = stmt.children_filling(Field::Item);
                let hint = if items.len() > 0 {
                    assert(children_of(*stmt, Field::Item).last() == *items@[items.len() - 1]);
                    items[items.len() - 1].range.end
                } else {
                    end_of_range(keyword, start)
                };
                let head = self.head(keyword, start, hint, body);
                heads.push(head);
                assert(head_models(heads@) =~= seq![head@]);
            },
            NodeKind::StmtMatch => {
                let keyword = first_token_any(tokens, start);
                let hint = end_of_node(stmt.child(Field::Subject), start);
                let head = self.head(keyword, start, hint, None);
                heads.push(head);
                assert(head_models(heads@) =~= seq![head@]);
                self.push_clauses(
                    &mut heads,
                    &stmt.children_filling(Field::Case),
                    ClauseKind::Case,
                );
            },
            NodeKind::StmtFunctionDef { is_trailing_lambda, .. } => {
                let head = self.function(stmt, *is_trailing_lambda);
                heads.push(head);
                assert(head_models(heads@) =~= seq![head@]);
            },
            NodeKind::StmtClassDef { .. } => {
                let head = self.class(stmt);
                heads.push(head);
                assert(head_models(heads@) =~= seq![head@]);
            },
            NodeKind::StmtLet => {
                let has_else = match orelse {
                    Some(suite) => suite.children.len() > 0,
                    None => false,
                };
                if has_else {
                    let end = end_of_node(stmt.child(Field::Value), start);
                    let head = ClauseHead {
                        keyword: first,
                        colon: None,
                        range: TextRange { start, end },
                        suite: None,
                    };
                    heads.push(head);
                    assert(head_models(heads@) =~= seq![head@]);
                    self.else_head(&mut heads, orelse, TokenKind::Else);
                }
            },
            _ => {},
        }
        assert(head_models(heads@) =~= heads_of(self.tokens@, *stmt));
        heads
    }

    fn modifier(&self, decorator: &Node) -> (modifier: Option<OutlineModifier>)
        requires
            is_source(self.source@),
        ensures
            match modifier {
                Some(modifier) => modifier_at(self.source@, *decorator) == Some(modifier@),
                None => modifier_at(self.source@, *decorator) is None,
            },
    {
        let text = match get(self.source, decorator.range) {
            Some(text) => text,
            None => {
                return None;
            },
        };
        if !text.is_empty() && text.get_char(0) == '@' {
            return None;
        }
        let expression = match decorator.child(Field::Expression) {
            Some(expression) => expression,
            None => {
                return None;
            },
        };
        if let NodeKind::ExprName { id, .. } = &expression.kind {
            let kept = trim_trailing(text);
            if kept.is_empty() {
                return None;
            }
            proof {
                let rest = text@.skip(kept@.len() as int);
                assert(text@ =~= kept@ + rest);
                lemma_cut_within(self.source@, decorator.range, kept@, rest);
            }
            let range = TextRange {
                start: decorator.range.start,
                end: decorator.range.start + kept.len() as u32,
            };
            return Some(OutlineModifier { range, name: owned(id.as_str()) });
        }
        None
    }

    /// The modifiers a definition was declared with.
    fn modifiers(&self, stmt: &Node) -> (modifiers: Vec<OutlineModifier>)
        requires
            is_source(self.source@),
        ensures
            modifier_models(modifiers@) == modifiers_of(self.source@, *stmt),
    {
        let mut modifiers: Vec<OutlineModifier> = Vec::new();
        assert(modifier_models(modifiers@) =~= Seq::empty());
        let declares = match &stmt.kind {
            NodeKind::StmtFunctionDef { is_trailing_lambda, .. } => !*is_trailing_lambda,
            NodeKind::StmtClassDef { .. } => true,
            _ => false,
        };
        if !declares {
            return modifiers;
        }
        let decorators = stmt.children_filling(Field::Decorator);
        let ghost all = children_of(*stmt, Field::Decorator);
        let mut i: usize = 0;
        while i < decorators.len()
            invariant
                i <= decorators.len(),
                is_source(self.source@),
                decorators@.unref() == all,
                modifier_models(modifiers@) == modifiers_among(
                    self.source@,
                    all.take(i as int),
                ),
            decreases decorators.len() - i,
        {
            assert(all.take(i + 1).drop_last() =~= all.take(i as int));
            assert(all.take(i + 1).last() == *decorators@[i as int]);
            if let Some(modifier) = self.modifier(decorators[i]) {
                let ghost before = modifiers@;
                modifiers.push(modifier);
                assert(modifier_models(modifiers@) =~= modifier_models(before).push(modifier@));
            }
            i += 1;
        }
        assert(all.take(i as int) =~= all);
        modifiers
    }

    /// The call `stmt` is, when it is one on its own.
    fn call(&self, stmt: &Node) -> (call: Option<OutlineCall>)
        ensures
            call == call_of(*stmt),
    {
        if !matches!(stmt.kind, NodeKind::StmtExpr) {
            return None;
        }
        let value = match stmt.child(Field::Value) {
            Some(value) => value,
            None => {
                return None;
            },
        };
        if !matches!(value.kind, NodeKind::ExprCall { .. }) {
            return None;
        }
        let func = match value.child(Field::Func) {
            Some(func) => func,
            None => {
                return None;
            },
        };
        let mut arguments: Option<TextRange> = None;
        let mut positional_only = true;
        if let Some(node) = value.child(Field::Arguments) {
            let children = &node.children;
            let mut i: usize = 0;
            while i < children.len()
                invariant
                    i <= children.len(),
                    arguments == arguments_cover(children@.take(i as int)),
                    positional_only == all_positional(children@.take(i as int)),
                decreases children.len() - i,
            {
                let ghost before = children@.take(i as int);
                let ghost upto = children@.take(i + 1);
                assert(upto.drop_last() =~= before);
                assert(upto.last() == children@[i as int]);
                let argument = &children[i];
                let is_keyword = matches!(argument.kind, NodeKind::Keyword);
                let range = if is_keyword {
                    argument.range
                } else {
                    argument.outer
                };
                arguments = match arguments {
                    Some(covered) => Some(covered.cover(range)),
                    None => Some(range),
                };
                let unpacked = matches!(argument.kind, NodeKind::ExprStarred);
                proof {
                    if all_positional(upto) {
                        assert(upto[i as int] == *argument);
                        assert forall|k: int| 0 <= k < before.len() implies !((
                        #[trigger] before[k]).kind is Keyword) && !(
                        before[k].kind is ExprStarred) by {
                            assert(upto[k] == before[k]);
                        }
                    }
                    if all_positional(before) && !is_keyword && !unpacked {
                        assert forall|k: int| 0 <= k < upto.len() implies !((
                        #[trigger] upto[k]).kind is Keyword) && !(upto[k].kind is ExprStarred) by {
                            if k < i {
                                assert(upto[k] == before[k]);
                            }
                        }
                    }
                }
                if is_keyword || unpacked {
                    positional_only = false;
                }
                i += 1;
            }
            assert(children@.take(i as int) =~= children@);
        }
        Some(OutlineCall { callee: func.range, arguments, positional_only })
    }

    fn statement(&self, stmt: &Node) -> (outline: OutlineStatement)
        requires
            is_source(self.source@),
        ensures
            outlines(self.model(), *stmt, outline),
        decreases height(*stmt), 1int,
    {
        OutlineStatement {
            range: stmt.range,
            clauses: self.clauses(stmt),
            modifiers: self.modifiers(stmt),
            call: self.call(stmt),
        }
    }

    /// The clauses of `stmt`, each with its body.
    fn clauses(&self, stmt: &Node) -> (clauses: Vec<OutlineClause>)
        requires
            is_source(self.source@),
        ensures
            clauses.len() == heads_of(self.tokens@, *stmt).len(),
            outlines_clauses(
                self.model(),
                *stmt,
                heads_of(self.tokens@, *stmt).len() as int,
                clauses@,
            ),
        decreases height(*stmt), 0int,
    {
        let heads = self.clause_heads(stmt);
        let ghost all = heads_of(self.tokens@, *stmt);
        let mut clauses: Vec<OutlineClause> = Vec::new();
        let mut i: usize = 0;
        while i < heads.len()
            invariant
                i <= heads.len(),
                is_source(self.source@),
                all == heads_of(self.tokens@, *stmt),
                head_models(heads@) == all,
                clauses.len() == i,
                outlines_clauses(self.model(), *stmt, i as int, clauses@),
            decreases heads.len() - i,
        {
            let ghost before = clauses@;
            let head = &heads[i];
            assert(all[i as int] == head@);
            proof {
                lemma_head_suites(self.tokens@, *stmt, i as int);
            }
            let body = match head.suite {
                Some(suite) => self.statements(suite),
                None => Vec::new(),
            };
            let clause = OutlineClause {
                keyword: head.keyword,
                colon: head.colon,
                range: head.range,
                body,
            };
            clauses.push(clause);
            proof {
                lemma_clauses_more(self.model(), *stmt, i as int, before, clauses@);
            }
            i += 1;
        }
        clauses
    }

    /// The statements of `suite`.
    fn statements(&self, suite: &Node) -> (statements: Vec<OutlineStatement>)
        requires
            is_source(self.source@),
        ensures
            statements.len() == suite.children@.len(),
            outlines_suite(
                self.model(),
                *suite,
                suite.children@.len() as int,
                statements@,
            ),
        decreases height(*suite), 0int,
    {
        let mut statements: Vec<OutlineStatement> = Vec::new();
        let mut i: usize = 0;
        while i < suite.children.len()
            invariant
                i <= suite.children.len(),
                is_source(self.source@),
                statements.len() == i,
                outlines_suite(self.model(), *suite, i as int, statements@),
            decreases suite.children.len() - i,
        {
            let ghost before = statements@;
            proof {
                lemma_height_child(*suite, i as int);
            }
            let statement = self.statement(&suite.children[i]);
            statements.push(statement);
            proof {
                lemma_outlines_more(self.model(), *suite, i as int, before, statements@);
            }
            i += 1;
        }
        statements
    }
}

/// Whether `b` says the same as `a`.
pub open spec fn is_same_statement(a: OutlineStatement, b: OutlineStatement) -> bool
    decreases a,
{
    &&& a.range == b.range
    &&& modifier_models(a.modifiers@) == modifier_models(b.modifiers@)
    &&& a.call == b.call
    &&& a.clauses@.len() == b.clauses@.len()
    &&& forall|i: int|
        0 <= i < a.clauses@.len() ==> is_same_clause(#[trigger] a.clauses@[i], b.clauses@[i])
}

/// Whether `b` says the same as `a`.
pub open spec fn is_same_clause(a: OutlineClause, b: OutlineClause) -> bool
    decreases a,
{
    &&& a.keyword == b.keyword
    &&& a.colon == b.colon
    &&& a.range == b.range
    &&& a.body@.len() == b.body@.len()
    &&& forall|i: int|
        0 <= i < a.body@.len() ==> is_same_statement(#[trigger] a.body@[i], b.body@[i])
}

impl OutlineModifier {
    /// The same modifier again.
    pub fn copy(&self) -> (modifier: OutlineModifier)
        ensures
            modifier@ == self@,
    {
        OutlineModifier { range: self.range, name: owned(self.name.as_str()) }
    }
}

impl OutlineStatement {
    /// The same statement again.
    pub fn copy(&self) -> (statement: OutlineStatement)
        ensures
            is_same_statement(*self, statement),
        decreases *self,
    {
        let mut clauses: Vec<OutlineClause> = Vec::new();
        let mut i: usize = 0;
        while i < self.clauses.len()
            invariant
                i <= self.clauses.len(),
                clauses.len() == i,
                forall|k: int|
                    0 <= k < i ==> is_same_clause(#[trigger] self.clauses@[k], clauses@[k]),
            decreases self.clauses.len() - i,
        {
            clauses.push(self.clauses[i].copy());
            i += 1;
        }
        let mut modifiers: Vec<OutlineModifier> = Vec::new();
        let mut j: usize = 0;
        while j < self.modifiers.len()
            invariant
                j <= self.modifiers.len(),
                modifiers.len() == j,
                forall|k: int| 0 <= k < j ==> (#[trigger] modifiers@[k])@ == self.modifiers@[k]@,
            decreases self.modifiers.len() - j,
        {
            modifiers.push(self.modifiers[j].copy());
            j += 1;
        }
        assert(modifier_models(modifiers@) =~= modifier_models(self.modifiers@));
        OutlineStatement { range: self.range, clauses, modifiers, call: self.call }
    }
}

impl OutlineClause {
    /// The same clause again.
    pub fn copy(&self) -> (clause: OutlineClause)
        ensures
            is_same_clause(*self, clause),
        decreases *self,
    {
        OutlineClause {
            keyword: self.keyword,
            colon: self.colon,
            range: self.range,
            body: copies(&self.body),
        }
    }
}

/// The same statements again.
fn copies(statements: &Vec<OutlineStatement>) -> (copies: Vec<OutlineStatement>)
    ensures
        copies@.len() == statements@.len(),
        forall|i: int|
            0 <= i < statements@.len() ==> is_same_statement(
                #[trigger] statements@[i],
                copies@[i],
            ),
    decreases *statements,
{
    let mut copies: Vec<OutlineStatement> = Vec::new();
    let mut i: usize = 0;
    while i < statements.len()
        invariant
            i <= statements.len(),
            copies.len() == i,
            forall|k: int|
                0 <= k < i ==> is_same_statement(#[trigger] statements@[k], copies@[k]),
        decreases statements.len() - i,
    {
        copies.push(statements[i].copy());
        i += 1;
    }
    copies
}

impl Clone for OutlineStatement {
    fn clone(&self) -> (statement: OutlineStatement)
        ensures
            is_same_statement(*self, statement),
    {
        self.copy()
    }
}

impl Clone for OutlineClause {
    fn clone(&self) -> (clause: OutlineClause)
        ensures
            is_same_clause(*self, clause),
    {
        self.copy()
    }
}

/// Whether `b` says the same as `a`.
pub open spec fn is_same_outline(a: SyntaxOutline, b: SyntaxOutline) -> bool {
    &&& string_models(a.strings@) == string_models(b.strings@)
    &&& a.statements@.len() == b.statements@.len()
    &&& forall|i: int|
        0 <= i < a.statements@.len() ==> is_same_statement(
            #[trigger] a.statements@[i],
            b.statements@[i],
        )
}

impl Clone for SyntaxOutline {
    fn clone(&self) -> (outline: SyntaxOutline)
        ensures
            is_same_outline(*self, outline),
    {
        let mut strings: Vec<OutlineString> = Vec::new();
        let mut i: usize = 0;
        while i < self.strings.len()
            invariant
                i <= self.strings.len(),
                strings.len() == i,
                forall|k: int| 0 <= k < i ==> (#[trigger] strings@[k])@ == self.strings@[k]@,
            decreases self.strings.len() - i,
        {
            strings.push(self.strings[i].copy());
            i += 1;
        }
        assert(string_models(strings@) =~= string_models(self.strings@));
        SyntaxOutline { statements: copies(&self.statements), strings }
    }
}

/// Where a statement writes a part that fills `field`: before its suites, as its first suite, as
/// a clause of its own, or as the suite of an `else` or a `finally`.
pub open spec fn place_of(field: Field) -> int {
    match field {
        Field::Body => 1,
        Field::ElifElse | Field::Handler | Field::Case => 2,
        Field::Orelse => 3,
        Field::Finalbody => 4,
        _ => 0,
    }
}

/// Whether the header of `head` is written from its keyword, if it has one, to a `:`.
pub open spec fn is_headed(head: ClauseHeadModel) -> bool {
    &&& head.colon matches Some(colon) && head.range.start <= colon.start && colon.start
        <= colon.end
    &&& head.keyword matches Some(keyword) ==> head.range.start <= keyword.start && keyword.start
        <= keyword.end && keyword.end <= (head.colon->0).start
}

/// Whether `head` is of a clause that opens a suite with a `:`, after which its statements come.
pub open spec fn is_opened(head: ClauseHeadModel) -> bool {
    &&& is_headed(head)
    &&& head.suite matches Some(suite) && suite.children@.len() > 0 && (head.colon->0).end
        <= suite.children@[0].range.start
}

/// Whether the clauses of `stmt` are written in it as python writes them: its parts in the order
/// of its clauses, its keywords inside it, each clause but the head of a `match` or a `let`
/// opening a suite, and the keyword of an `else` or a `finally` after the parts before its suite.
pub open spec fn is_written_out(tokens: Seq<Token>, stmt: Node) -> bool {
    let heads = heads_of(tokens, stmt);
    let parts = stmt.children@;
    &&& is_nested(stmt)
    &&& forall|i: int, j: int|
        0 <= i < j < parts.len() ==> place_of((#[trigger] parts[i]).field) <= place_of(
            (#[trigger] parts[j]).field,
        )
    &&& forall|h: int|
        0 <= h < heads.len() ==> ((#[trigger] heads[h]).keyword matches Some(keyword)
            ==> stmt.range.spec_contains_range(keyword))
    &&& forall|h: int|
        0 <= h < heads.len() && (h > 0 || !(stmt.kind is StmtMatch || stmt.kind is StmtLet))
            ==> is_opened(#[trigger] heads[h])
    &&& stmt.kind is StmtMatch ==> {
        &&& is_headed(heads[0])
        &&& (heads[0].colon->0).end <= stmt.range.end
        &&& forall|k: int|
            0 <= k < children_of(stmt, Field::Case).len() ==> (heads[0].colon->0).end <= (
            #[trigger] children_of(stmt, Field::Case)[k]).range.start
    }
    &&& stmt.kind is StmtLet && heads.len() > 0 ==> (heads[0].keyword matches Some(keyword)
        ==> keyword.end <= heads[0].range.end)
    &&& follows_parts(
        stmt,
        else_heads(tokens, child_of(stmt, Field::Orelse), TokenKind::Else),
        Field::Orelse,
    )
    &&& follows_parts(
        stmt,
        else_heads(tokens, child_of(stmt, Field::Finalbody), TokenKind::Finally),
        Field::Finalbody,
    )
}

/// Whether `heads`, of the suite that fills `field`, start after the parts before it.
pub open spec fn follows_parts(stmt: Node, heads: Seq<ClauseHeadModel>, field: Field) -> bool {
    forall|h: int, i: int|
        0 <= h < heads.len() && 0 <= i < stmt.children@.len() && place_of(
            (#[trigger] stmt.children@[i]).field,
        ) < place_of(field) ==> stmt.children@[i].range.end <= (#[trigger] heads[h]).range.start
}

/// Whether `head` ends with its suite, or with its `:` if that comes later.
spec fn ends_with_suite(head: ClauseHeadModel) -> bool {
    is_opened(head) ==> {
        let last = (head.suite->0).children@.last().range.end;
        let colon = (head.colon->0).end;
        head.range.end == if last > colon {
            last
        } else {
            colon
        }
    }
}

/// A clause ends with the last statement of its suite.
proof fn lemma_opened_end(head: ClauseHeadModel)
    requires
        is_opened(head),
        ends_with_suite(head),
        is_nested(head.suite->0),
    ensures
        head.range.start <= head.range.end <= (head.suite->0).range.end,
{
    let body = head.suite->0;
    let first = body.children@[0];
    let last = body.children@[body.children@.len() - 1];
    assert(is_nested(first) && is_nested(last));
    assert(body.range.spec_contains_range(last.range));
    if body.children@.len() > 1 {
        assert(is_before(first.range, last.range));
    }
}

/// A clause with a node of its own stands in it, and starts with it.
proof fn lemma_nested_head_stands(tokens: Seq<Token>, clause: Node, kind: ClauseKind)
    requires
        is_nested(clause),
        is_opened(nested_head(tokens, clause, kind)),
    ensures
        ({
            let head = nested_head(tokens, clause, kind);
            &&& head.range.start == clause.range.start
            &&& head.range.start <= head.range.end <= clause.range.end
        }),
{
    let at = lemma_first_filling_in(clause.children@, Field::Body);
    let body = clause.children@[at];
    assert(is_nested(body));
    assert(clause.range.spec_contains_range(body.range));
    lemma_opened_end(nested_head(tokens, clause, kind));
}

/// The parts that fill one field are one after the other.
proof fn lemma_filling_in_order(stmt: Node, field: Field, k: int, l: int)
    requires
        is_nested(stmt),
        0 <= k < l < children_of(stmt, field).len(),
    ensures
        is_before(children_of(stmt, field)[k].range, children_of(stmt, field)[l].range),
{
    let (i, j) = lemma_all_filling_order(stmt.children@, field, k, l);
    assert(is_before(stmt.children@[i].range, stmt.children@[j].range));
}

proof fn lemma_all_filling_order(nodes: Seq<Node>, field: Field, k: int, l: int) -> (at: (
    int,
    int,
))
    requires
        0 <= k < l < all_filling(nodes, field).len(),
    ensures
        0 <= at.0 < at.1 < nodes.len(),
        nodes[at.0] == all_filling(nodes, field)[k],
        nodes[at.1] == all_filling(nodes, field)[l],
    decreases nodes.len(),
{
    let rest = nodes.drop_last();
    let before = all_filling(rest, field);
    if l < before.len() {
        let at = lemma_all_filling_order(rest, field, k, l);
        assert(rest[at.0] == nodes[at.0] && rest[at.1] == nodes[at.1]);
        at
    } else {
        let i = lemma_all_filling_in(rest, field, k);
        assert(rest[i] == nodes[i]);
        (i, nodes.len() - 1)
    }
}

/// What a part at an earlier place writes comes before what one at a later place does.
proof fn lemma_part_before(tokens: Seq<Token>, stmt: Node, i: int, j: int)
    requires
        is_written_out(tokens, stmt),
        0 <= i < stmt.children@.len(),
        0 <= j < stmt.children@.len(),
        place_of(stmt.children@[i].field) < place_of(stmt.children@[j].field),
    ensures
        is_before(stmt.children@[i].range, stmt.children@[j].range),
{
    if j < i {
        assert(place_of(stmt.children@[j].field) <= place_of(stmt.children@[i].field));
    }
}

/// The clauses of `stmt` that have nodes of their own.
spec fn clause_nodes(stmt: Node) -> Seq<Node> {
    match stmt.kind {
        NodeKind::StmtIf { .. } => children_of(stmt, Field::ElifElse),
        NodeKind::StmtTry => children_of(stmt, Field::Handler),
        NodeKind::StmtMatch => children_of(stmt, Field::Case),
        _ => Seq::empty(),
    }
}

spec fn clause_field(stmt: Node) -> Field {
    match stmt.kind {
        NodeKind::StmtTry => Field::Handler,
        NodeKind::StmtMatch => Field::Case,
        _ => Field::ElifElse,
    }
}

spec fn clause_kind(stmt: Node) -> ClauseKind {
    match stmt.kind {
        NodeKind::StmtTry => ClauseKind::Handler,
        NodeKind::StmtMatch => ClauseKind::Case,
        _ => ClauseKind::Elif,
    }
}

/// The `else` of `stmt`.
spec fn orelse_of(tokens: Seq<Token>, stmt: Node) -> Seq<ClauseHeadModel> {
    match stmt.kind {
        NodeKind::StmtFor { .. } | NodeKind::StmtWhile | NodeKind::StmtTry | NodeKind::StmtLet =>
            else_heads(tokens, child_of(stmt, Field::Orelse), TokenKind::Else),
        _ => Seq::empty(),
    }
}

/// The `finally` of `stmt`.
spec fn finally_of(tokens: Seq<Token>, stmt: Node) -> Seq<ClauseHeadModel> {
    match stmt.kind {
        NodeKind::StmtTry => else_heads(
            tokens,
            child_of(stmt, Field::Finalbody),
            TokenKind::Finally,
        ),
        _ => Seq::empty(),
    }
}

/// The clauses of a statement are the one it starts with, those with nodes of their own, an
/// `else` and a `finally`.
proof fn lemma_heads_in_parts(tokens: Seq<Token>, stmt: Node)
    requires
        heads_of(tokens, stmt).len() > 0,
    ensures
        heads_of(tokens, stmt) == seq![heads_of(tokens, stmt)[0]] + nested_heads(
            tokens,
            clause_nodes(stmt),
            clause_kind(stmt),
        ) + orelse_of(tokens, stmt) + finally_of(tokens, stmt),
        orelse_of(tokens, stmt).len() <= 1,
        finally_of(tokens, stmt).len() <= 1,
{
    assert(heads_of(tokens, stmt) =~= seq![heads_of(tokens, stmt)[0]] + nested_heads(
        tokens,
        clause_nodes(stmt),
        clause_kind(stmt),
    ) + orelse_of(tokens, stmt) + finally_of(tokens, stmt));
}

/// The clause a statement starts with stands in it, and ends before what its later places write.
proof fn lemma_first_head_stands(tokens: Seq<Token>, stmt: Node)
    requires
        is_written_out(tokens, stmt),
        heads_of(tokens, stmt).len() > 0,
    ensures
        ({
            let head = heads_of(tokens, stmt)[0];
            &&& stmt.range.start <= head.range.start <= head.range.end <= stmt.range.end
            &&& forall|k: int|
                0 <= k < clause_nodes(stmt).len() ==> head.range.end <= (
                #[trigger] clause_nodes(stmt)[k]).range.start
            &&& forall|k: int|
                0 <= k < orelse_of(tokens, stmt).len() ==> head.range.end <= (
                #[trigger] orelse_of(tokens, stmt)[k]).range.start
            &&& forall|k: int|
                0 <= k < finally_of(tokens, stmt).len() ==> head.range.end <= (
                #[trigger] finally_of(tokens, stmt)[k]).range.start
        }),
{
    let head = heads_of(tokens, stmt)[0];
    lemma_heads_in_parts(tokens, stmt);
    if stmt.kind is StmtMatch {
        assert(orelse_of(tokens, stmt).len() == 0 && finally_of(tokens, stmt).len() == 0);
    } else if stmt.kind is StmtLet {
        if child_of(stmt, Field::Value) is Some {
            let at = lemma_first_filling_in(stmt.children@, Field::Value);
            assert(stmt.range.spec_contains_range(stmt.children@[at].range));
            assert(is_nested(stmt.children@[at]));
            let orelse = orelse_of(tokens, stmt);
            assert forall|k: int| 0 <= k < orelse.len() implies head.range.end <= (
            #[trigger] orelse[k]).range.start by {
                assert(stmt.children@[at].range.end <= orelse[k].range.start);
            }
        } else {
            let orelse = orelse_of(tokens, stmt);
            assert forall|k: int| 0 <= k < orelse.len() implies head.range.end <= (
            #[trigger] orelse[k]).range.start by {
                assert(heads_of(tokens, stmt)[1 + k] == orelse[k]);
            }
        }
    } else {
        assert(is_opened(head));
        assert(ends_with_suite(head));
        let at = lemma_first_filling_in(stmt.children@, Field::Body);
        let body = stmt.children@[at];
        assert(is_nested(body));
        assert(stmt.range.spec_contains_range(body.range));
        lemma_opened_end(head);
        assert forall|k: int| 0 <= k < clause_nodes(stmt).len() implies head.range.end <= (
        #[trigger] clause_nodes(stmt)[k]).range.start by {
            let j = lemma_all_filling_in(stmt.children@, clause_field(stmt), k);
            lemma_part_before(tokens, stmt, at, j);
        }
        assert forall|k: int| 0 <= k < orelse_of(tokens, stmt).len() implies head.range.end <= (
        #[trigger] orelse_of(tokens, stmt)[k]).range.start by {
            assert(body.range.end <= orelse_of(tokens, stmt)[k].range.start);
        }
        assert forall|k: int| 0 <= k < finally_of(tokens, stmt).len() implies head.range.end
            <= (#[trigger] finally_of(tokens, stmt)[k]).range.start by {
            assert(body.range.end <= finally_of(tokens, stmt)[k].range.start);
        }
    }
}

/// An `else` or a `finally` stands in the suite it heads, from its keyword.
proof fn lemma_else_stands(tokens: Seq<Token>, stmt: Node, field: Field, kind: TokenKind)
    requires
        is_nested(stmt),
        else_heads(tokens, child_of(stmt, field), kind).len() > 0,
        is_opened(else_heads(tokens, child_of(stmt, field), kind)[0]),
        ({
            let keyword = else_heads(tokens, child_of(stmt, field), kind)[0].keyword->0;
            stmt.range.spec_contains_range(keyword)
        }),
    ensures
        ({
            let head = else_heads(tokens, child_of(stmt, field), kind)[0];
            &&& child_of(stmt, field) is Some
            &&& stmt.range.start <= head.range.start <= head.range.end
            &&& head.range.end <= (child_of(stmt, field)->0).range.end <= stmt.range.end
        }),
{
    let head = else_heads(tokens, child_of(stmt, field), kind)[0];
    let at = lemma_first_filling_in(stmt.children@, field);
    assert(is_nested(stmt.children@[at]));
    assert(stmt.range.spec_contains_range(stmt.children@[at].range));
    assert(ends_with_suite(head));
    lemma_opened_end(head);
}

proof fn lemma_head_stands(tokens: Seq<Token>, stmt: Node, h: int)
    requires
        is_written_out(tokens, stmt),
        0 <= h < heads_of(tokens, stmt).len(),
    ensures
        stmt.range.start <= heads_of(tokens, stmt)[h].range.start,
        heads_of(tokens, stmt)[h].range.start <= heads_of(tokens, stmt)[h].range.end,
        heads_of(tokens, stmt)[h].range.end <= stmt.range.end,
{
    lemma_heads_in_parts(tokens, stmt);
    lemma_first_head_stands(tokens, stmt);
    let heads = heads_of(tokens, stmt);
    let nodes = clause_nodes(stmt);
    let nested = nested_heads(tokens, nodes, clause_kind(stmt));
    let orelse = orelse_of(tokens, stmt);
    if h == 0 {
    } else if h <= nested.len() {
        assert(heads[h] == nested[h - 1]);
        lemma_clause_node(tokens, stmt, h - 1);
    } else if h == nested.len() + 1 && orelse.len() > 0 {
        assert(heads[h] == orelse[0]);
        assert(is_opened(heads[h]));
        lemma_else_stands(tokens, stmt, Field::Orelse, TokenKind::Else);
    } else {
        assert(heads[h] == finally_of(tokens, stmt)[0]);
        assert(is_opened(heads[h]));
        lemma_else_stands(tokens, stmt, Field::Finalbody, TokenKind::Finally);
    }
}

/// A clause with a node of its own stands in the statement, before its `else` and `finally`.
proof fn lemma_clause_node(tokens: Seq<Token>, stmt: Node, k: int)
    requires
        is_written_out(tokens, stmt),
        heads_of(tokens, stmt).len() > 0,
        0 <= k < clause_nodes(stmt).len(),
    ensures
        ({
            let clause = clause_nodes(stmt)[k];
            let head = nested_head(tokens, clause, clause_kind(stmt));
            &&& head.range.start == clause.range.start
            &&& head.range.start <= head.range.end <= clause.range.end
            &&& stmt.range.spec_contains_range(clause.range)
            &&& forall|h: int|
                0 <= h < orelse_of(tokens, stmt).len() ==> head.range.end <= (
                #[trigger] orelse_of(tokens, stmt)[h]).range.start
            &&& forall|h: int|
                0 <= h < finally_of(tokens, stmt).len() ==> head.range.end <= (
                #[trigger] finally_of(tokens, stmt)[h]).range.start
        }),
{
    lemma_heads_in_parts(tokens, stmt);
    let clause = clause_nodes(stmt)[k];
    let nested = nested_heads(tokens, clause_nodes(stmt), clause_kind(stmt));
    assert(heads_of(tokens, stmt)[1 + k] == nested[k]);
    assert(is_opened(heads_of(tokens, stmt)[1 + k]));
    let at = lemma_all_filling_in(stmt.children@, clause_field(stmt), k);
    assert(stmt.children@[at] == clause);
    assert(is_nested(stmt.children@[at]));
    assert(stmt.range.spec_contains_range(stmt.children@[at].range));
    lemma_nested_head_stands(tokens, clause, clause_kind(stmt));
    assert forall|h: int| 0 <= h < orelse_of(tokens, stmt).len() implies clause.range.end <= (
    #[trigger] orelse_of(tokens, stmt)[h]).range.start by {
        assert(stmt.children@[at].range.end <= orelse_of(tokens, stmt)[h].range.start);
    }
    assert forall|h: int| 0 <= h < finally_of(tokens, stmt).len() implies clause.range.end <= (
    #[trigger] finally_of(tokens, stmt)[h]).range.start by {
        assert(stmt.children@[at].range.end <= finally_of(tokens, stmt)[h].range.start);
    }
}

proof fn lemma_heads_in_order(tokens: Seq<Token>, stmt: Node, h: int, l: int)
    requires
        is_written_out(tokens, stmt),
        0 <= h < l < heads_of(tokens, stmt).len(),
    ensures
        is_before(heads_of(tokens, stmt)[h].range, heads_of(tokens, stmt)[l].range),
{
    lemma_heads_in_parts(tokens, stmt);
    lemma_first_head_stands(tokens, stmt);
    let heads = heads_of(tokens, stmt);
    let nodes = clause_nodes(stmt);
    let nested = nested_heads(tokens, nodes, clause_kind(stmt));
    let orelse = orelse_of(tokens, stmt);
    let finalbody = finally_of(tokens, stmt);
    if 0 < h <= nested.len() {
        assert(heads[h] == nested[h - 1]);
        lemma_clause_node(tokens, stmt, h - 1);
    }
    if l <= nested.len() {
        assert(heads[l] == nested[l - 1]);
        lemma_clause_node(tokens, stmt, l - 1);
        if h > 0 {
            lemma_filling_in_order(stmt, clause_field(stmt), h - 1, l - 1);
        } else {
            assert(heads[0].range.end <= nodes[l - 1].range.start);
        }
    } else if l == nested.len() + 1 && orelse.len() > 0 {
        assert(heads[l] == orelse[0]);
    } else {
        assert(heads[l] == finalbody[0]);
        if h > nested.len() {
            assert(heads[h] == orelse[0]);
            assert(is_opened(heads[h]));
            lemma_else_stands(tokens, stmt, Field::Orelse, TokenKind::Else);
            let at = lemma_first_filling_in(stmt.children@, Field::Orelse);
            assert(stmt.children@[at].range.end <= finalbody[0].range.start);
        }
    }
}

proof fn lemma_clause_is_head(
    parsed: Parsed,
    stmt: Node,
    upto: int,
    clauses: Seq<OutlineClause>,
    h: int,
)
    requires
        outlines_clauses(parsed, stmt, upto, clauses),
        0 <= h < upto,
    ensures
        ({
            let head = heads_of(parsed.tokens, stmt)[h];
            &&& clauses[h].range == head.range
            &&& clauses[h].keyword == head.keyword
            &&& clauses[h].colon == head.colon
            &&& match head.suite {
                Some(suite) => clauses[h].body.len() == suite.children@.len() && outlines_suite(
                    parsed,
                    suite,
                    suite.children@.len() as int,
                    clauses[h].body@,
                ),
                None => clauses[h].body.len() == 0,
            }
        }),
    decreases upto,
{
    if h < upto - 1 {
        lemma_clause_is_head(parsed, stmt, upto - 1, clauses, h);
    }
}

/// The clauses of an outlined statement stand in it, one after the other.
pub proof fn law_clauses_in_order(parsed: Parsed, stmt: Node, outline: OutlineStatement)
    requires
        outlines(parsed, stmt, outline),
        is_written_out(parsed.tokens, stmt),
    ensures
        forall|h: int|
            0 <= h < outline.clauses@.len() ==> outline.range.spec_contains_range(
                (#[trigger] outline.clauses@[h]).range,
            ),
        forall|h: int, l: int|
            0 <= h < l < outline.clauses@.len() ==> is_before(
                (#[trigger] outline.clauses@[h]).range,
                (#[trigger] outline.clauses@[l]).range,
            ),
{
    let heads = heads_of(parsed.tokens, stmt);
    let clauses = outline.clauses@;
    assert forall|h: int| 0 <= h < clauses.len() implies outline.range.spec_contains_range(
        (#[trigger] clauses[h]).range,
    ) by {
        lemma_clause_is_head(parsed, stmt, heads.len() as int, clauses, h);
        lemma_head_stands(parsed.tokens, stmt, h);
    }
    assert forall|h: int, l: int| 0 <= h < l < clauses.len() implies is_before(
        (#[trigger] clauses[h]).range,
        (#[trigger] clauses[l]).range,
    ) by {
        lemma_clause_is_head(parsed, stmt, heads.len() as int, clauses, h);
        lemma_clause_is_head(parsed, stmt, heads.len() as int, clauses, l);
        lemma_heads_in_order(parsed.tokens, stmt, h, l);
    }
}

proof fn lemma_statement_is_outlined(
    parsed: Parsed,
    suite: Node,
    upto: int,
    statements: Seq<OutlineStatement>,
    i: int,
)
    requires
        outlines_suite(parsed, suite, upto, statements),
        0 <= i < upto <= suite.children@.len(),
    ensures
        statements[i].range == suite.children@[i].range,
    decreases upto,
{
    assert(outlines(parsed, suite.children@[upto - 1], statements[upto - 1]));
    if i < upto - 1 {
        lemma_statement_is_outlined(parsed, suite, upto - 1, statements, i);
    }
}

/// The statements of an outlined suite are in source order, none over another.
pub proof fn law_statements_in_order(
    parsed: Parsed,
    suite: Node,
    statements: Seq<OutlineStatement>,
    i: int,
    j: int,
)
    requires
        is_nested(suite),
        outlines_suite(parsed, suite, suite.children@.len() as int, statements),
        0 <= i < j < suite.children@.len(),
    ensures
        is_before(statements[i].range, statements[j].range),
{
    let count = suite.children@.len() as int;
    lemma_statement_is_outlined(parsed, suite, count, statements, i);
    lemma_statement_is_outlined(parsed, suite, count, statements, j);
    assert(is_before(suite.children@[i].range, suite.children@[j].range));
}

/// Whether statements of `kind` have clauses.
pub open spec fn is_compound(kind: NodeKind) -> bool {
    match kind {
        NodeKind::StmtIf { .. }
        | NodeKind::StmtFor { .. }
        | NodeKind::StmtWhile
        | NodeKind::StmtTry
        | NodeKind::StmtWith { .. }
        | NodeKind::StmtMatch
        | NodeKind::StmtFunctionDef { .. }
        | NodeKind::StmtClassDef { .. }
        | NodeKind::StmtLet => true,
        _ => false,
    }
}

/// A simple statement has no clauses.
pub proof fn law_simple_statement_has_no_clauses(
    parsed: Parsed,
    stmt: Node,
    outline: OutlineStatement,
)
    requires
        outlines(parsed, stmt, outline),
        !is_compound(stmt.kind),
    ensures
        outline.clauses@.len() == 0,
{
}

/// The suites of a nested statement's clauses are nested, and end the clauses.
proof fn lemma_head_suite(tokens: Seq<Token>, stmt: Node, h: int)
    requires
        is_nested(stmt),
        0 <= h < heads_of(tokens, stmt).len(),
    ensures
        heads_of(tokens, stmt)[h].suite matches Some(suite) ==> is_nested(suite),
        ends_with_suite(heads_of(tokens, stmt)[h]),
{
    lemma_heads_in_parts(tokens, stmt);
    let heads = heads_of(tokens, stmt);
    let nodes = clause_nodes(stmt);
    let nested = nested_heads(tokens, nodes, clause_kind(stmt));
    let orelse = orelse_of(tokens, stmt);
    if h == 0 {
        if heads[0].suite is Some {
            let at = lemma_first_filling_in(stmt.children@, Field::Body);
            assert(is_nested(stmt.children@[at]));
        }
    } else if h <= nested.len() {
        assert(heads[h] == nested[h - 1]);
        let clause = nodes[h - 1];
        let at = lemma_all_filling_in(stmt.children@, clause_field(stmt), h - 1);
        assert(is_nested(stmt.children@[at]));
        assert(heads[h] == nested_head(tokens, clause, clause_kind(stmt)));
        if child_of(clause, Field::Body) is Some {
            let k = lemma_first_filling_in(clause.children@, Field::Body);
            assert(is_nested(clause.children@[k]));
        }
    } else if h == nested.len() + 1 && orelse.len() > 0 {
        assert(heads[h] == orelse[0]);
        let at = lemma_first_filling_in(stmt.children@, Field::Orelse);
        assert(is_nested(stmt.children@[at]));
    } else {
        assert(heads[h] == finally_of(tokens, stmt)[0]);
        let at = lemma_first_filling_in(stmt.children@, Field::Finalbody);
        assert(is_nested(stmt.children@[at]));
    }
}

/// The range of a clause holds its keyword, its `:` and its body, in that order. It ends with the
/// last statement of the body or, where that is empty, with the `:`.
pub proof fn law_clause_holds_its_parts(
    parsed: Parsed,
    stmt: Node,
    outline: OutlineStatement,
    h: int,
)
    requires
        outlines(parsed, stmt, outline),
        is_written_out(parsed.tokens, stmt),
        0 <= h < outline.clauses@.len(),
    ensures
        ({
            let clause = outline.clauses@[h];
            let body = clause.body@;
            &&& clause.keyword matches Some(keyword) ==> clause.range.spec_contains_range(keyword)
            &&& clause.colon matches Some(colon) ==> {
                &&& clause.range.spec_contains_range(colon)
                &&& clause.keyword matches Some(keyword) ==> keyword.end <= colon.start
                &&& forall|i: int|
                    0 <= i < body.len() ==> colon.end <= (#[trigger] body[i]).range.start
                &&& body.len() == 0 ==> clause.range.end == colon.end
            }
            &&& forall|i: int|
                0 <= i < body.len() ==> clause.range.spec_contains_range(
                    (#[trigger] body[i]).range,
                )
            &&& body.len() > 0 ==> clause.range.end == body.last().range.end
        }),
{
    let heads = heads_of(parsed.tokens, stmt);
    let head = heads[h];
    let clause = outline.clauses@[h];
    lemma_clause_is_head(parsed, stmt, heads.len() as int, outline.clauses@, h);
    lemma_head_suite(parsed.tokens, stmt, h);
    lemma_head_stands(parsed.tokens, stmt, h);
    if h > 0 || !(stmt.kind is StmtMatch || stmt.kind is StmtLet) {
        assert(is_opened(head));
        let suite = head.suite->0;
        let statements = suite.children@;
        let count = statements.len() as int;
        let first = statements[0];
        let last = statements[count - 1];
        assert(is_nested(first) && is_nested(last));
        assert forall|i: int| 0 <= i < count implies {
            &&& (head.colon->0).end <= (#[trigger] clause.body@[i]).range.start
            &&& clause.body@[i].range.start <= clause.body@[i].range.end
            &&& clause.body@[i].range.end <= last.range.end
            &&& clause.body@[i].range == statements[i].range
        } by {
            lemma_statement_is_outlined(parsed, suite, count, clause.body@, i);
            assert(is_nested(statements[i]));
            if i > 0 {
                assert(is_before(first.range, statements[i].range));
            }
            if i < count - 1 {
                assert(is_before(statements[i].range, last.range));
            }
        }
        assert(clause.body@[count - 1].range == last.range);
        assert(head.range.end == last.range.end);
    }
}

/// The outline of `file`.
pub fn syntax_outline(file: &ParsedFile) -> (outline: SyntaxOutline)
    requires
        is_source(file.source@),
    ensures
        is_outline(*file, outline),
{
    let builder = OutlineBuilder { source: file.source.as_str(), tokens: &file.tokens };
    let statements = builder.statements(&file.suite);
    let collector = StringCollector {
        source: file.source.as_str(),
        dedents: file.is_basedpython,
    };
    let strings = collector.visit_all(None, &file.suite.children);
    SyntaxOutline { statements, strings }
}

/// Whether `suite` comes after a keyword of `kind`, with nothing but a `:`, line breaks and
/// comments in between.
pub open spec fn is_after_keyword(tokens: Seq<Token>, suite: Node, kind: TokenKind, at: int) -> bool {
    &&& suite.children@.len() > 0
    &&& 0 <= at < starting_before(tokens, suite.children@[0].range.start as int) <= tokens.len()
    &&& tokens[at].kind == kind
    &&& kind == TokenKind::Else || kind == TokenKind::Finally
    &&& forall|k: int|
        at < k < starting_before(tokens, suite.children@[0].range.start as int) ==> match (
        #[trigger] tokens[k]).kind {
            TokenKind::Colon
            | TokenKind::Newline
            | TokenKind::NonLogicalNewline
            | TokenKind::Indent
            | TokenKind::Dedent
            | TokenKind::Comment => true,
            _ => false,
        }
}

/// Whether `suite` is the body of `stmt` or of one of its `elif`, `else`, `except` or `case`
/// clauses, or follows an `else` or a `finally` of its own.
pub open spec fn is_suite_of(tokens: Seq<Token>, stmt: Node, suite: Node) -> bool {
    let is_body = child_of(stmt, Field::Body) == Some(suite);
    let is_else = child_of(stmt, Field::Orelse) == Some(suite) && exists|at: int|
        is_after_keyword(tokens, suite, TokenKind::Else, at);
    let is_finally = child_of(stmt, Field::Finalbody) == Some(suite) && exists|at: int|
        is_after_keyword(tokens, suite, TokenKind::Finally, at);
    match stmt.kind {
        NodeKind::StmtWith { .. }
        | NodeKind::StmtFunctionDef { .. }
        | NodeKind::StmtClassDef { .. } => is_body,
        NodeKind::StmtFor { .. } | NodeKind::StmtWhile => is_body || is_else,
        NodeKind::StmtIf { .. } => is_body || has_clause(stmt, Field::ElifElse, suite),
        NodeKind::StmtMatch => has_clause(stmt, Field::Case, suite),
        NodeKind::StmtTry => is_body || has_clause(stmt, Field::Handler, suite) || is_else
            || is_finally,
        NodeKind::StmtLet => is_else,
        _ => false,
    }
}

/// Whether one of the clauses of `stmt` that fill `field` has the body `suite`.
pub open spec fn has_clause(stmt: Node, field: Field, suite: Node) -> bool {
    exists|c: int|
        0 <= c < stmt.children@.len() && (#[trigger] stmt.children@[c]).field == field && child_of(
            stmt.children@[c],
            Field::Body,
        ) == Some(suite)
}

proof fn lemma_last_heading(tokens: Seq<Token>, at: int)
    requires
        0 <= at < tokens.len(),
        !may_follow_else(tokens[at].kind),
        forall|k: int| at < k < tokens.len() ==> may_follow_else((#[trigger] tokens[k]).kind),
    ensures
        last_heading(tokens) == Some(tokens[at]),
    decreases tokens.len(),
{
    assert(tokens[tokens.len() - 1] == tokens.last());
    if at < tokens.len() - 1 {
        assert(may_follow_else(tokens[tokens.len() - 1].kind));
        assert(tokens.drop_last()[at] == tokens[at]);
        assert forall|k: int| at < k < tokens.drop_last().len() implies may_follow_else(
            (#[trigger] tokens.drop_last()[k]).kind,
        ) by {
            assert(tokens.drop_last()[k] == tokens[k]);
        }
        lemma_last_heading(tokens.drop_last(), at);
    }
}

proof fn lemma_else_head(tokens: Seq<Token>, suite: Node, kind: TokenKind, at: int)
    requires
        is_after_keyword(tokens, suite, kind, at),
    ensures
        else_heads(tokens, Some(suite), kind).len() == 1,
        else_heads(tokens, Some(suite), kind)[0].suite == Some(suite),
        else_heads(tokens, Some(suite), kind)[0].keyword == Some(tokens[at].range),
{
    let before = tokens.take(starting_before(tokens, suite.children@[0].range.start as int));
    assert(before[at] == tokens[at]);
    assert forall|k: int| at < k < before.len() implies may_follow_else(
        (#[trigger] before[k]).kind,
    ) by {
        assert(before[k] == tokens[k]);
    }
    lemma_last_heading(before, at);
}

proof fn lemma_clause_heads(tokens: Seq<Token>, stmt: Node, field: Field, kind: ClauseKind, suite: Node) -> (
    i: int)
    requires
        has_clause(stmt, field, suite),
    ensures
        0 <= i < nested_heads(tokens, children_of(stmt, field), kind).len(),
        nested_heads(tokens, children_of(stmt, field), kind)[i].suite == Some(suite),
{
    let c = choose|c: int|
        0 <= c < stmt.children@.len() && (#[trigger] stmt.children@[c]).field == field && child_of(
            stmt.children@[c],
            Field::Body,
        ) == Some(suite);
    lemma_is_filling(stmt.children@, field, c)
}

/// Every suite of a statement is headed by one of its clauses.
pub proof fn law_every_suite_is_a_clause(tokens: Seq<Token>, stmt: Node, suite: Node) -> (h: int)
    requires
        is_suite_of(tokens, stmt, suite),
    ensures
        0 <= h < heads_of(tokens, stmt).len(),
        heads_of(tokens, stmt)[h].suite == Some(suite),
{
    let heads = heads_of(tokens, stmt);
    let is_body = child_of(stmt, Field::Body) == Some(suite);
    let orelse = else_heads(tokens, child_of(stmt, Field::Orelse), TokenKind::Else);
    let is_else = child_of(stmt, Field::Orelse) == Some(suite) && exists|at: int|
        is_after_keyword(tokens, suite, TokenKind::Else, at);
    if is_else {
        let at = choose|at: int| is_after_keyword(tokens, suite, TokenKind::Else, at);
        lemma_else_head(tokens, suite, TokenKind::Else, at);
    }
    match stmt.kind {
        NodeKind::StmtIf { .. } => if is_body {
            0
        } else {
            let i = lemma_clause_heads(tokens, stmt, Field::ElifElse, ClauseKind::Elif, suite);
            assert(heads[1 + i] == nested_heads(
                tokens,
                children_of(stmt, Field::ElifElse),
                ClauseKind::Elif,
            )[i]);
            1 + i
        },
        NodeKind::StmtMatch => {
            let i = lemma_clause_heads(tokens, stmt, Field::Case, ClauseKind::Case, suite);
            assert(heads[1 + i] == nested_heads(
                tokens,
                children_of(stmt, Field::Case),
                ClauseKind::Case,
            )[i]);
            1 + i
        },
        NodeKind::StmtTry => {
            let handlers = nested_heads(
                tokens,
                children_of(stmt, Field::Handler),
                ClauseKind::Handler,
            );
            if is_body {
                0
            } else if has_clause(stmt, Field::Handler, suite) {
                let i = lemma_clause_heads(tokens, stmt, Field::Handler, ClauseKind::Handler, suite);
                assert(heads[1 + i] == handlers[i]);
                1 + i
            } else if is_else {
                let h: int = handlers.len() as int + 1;
                assert(heads[h] == orelse[0]);
                h
            } else {
                let at = choose|at: int| is_after_keyword(tokens, suite, TokenKind::Finally, at);
                lemma_else_head(tokens, suite, TokenKind::Finally, at);
                let last = else_heads(
                    tokens,
                    child_of(stmt, Field::Finalbody),
                    TokenKind::Finally,
                );
                let h: int = handlers.len() as int + orelse.len() + 1;
                assert(heads[h] == last[0]);
                h
            }
        },
        NodeKind::StmtFor { .. } | NodeKind::StmtWhile => if is_body {
            0
        } else {
            assert(heads[1] == orelse[0]);
            1
        },
        NodeKind::StmtLet => {
            assert(heads[1] == orelse[0]);
            1
        },
        _ => 0,
    }
}

proof fn lemma_heading_at(tokens: Seq<Token>) -> (at: int)
    requires
        last_heading(tokens) is Some,
    ensures
        0 <= at < tokens.len(),
        last_heading(tokens) == Some(tokens[at]),
        forall|k: int| at < k < tokens.len() ==> may_follow_else((#[trigger] tokens[k]).kind),
    decreases tokens.len(),
{
    if !may_follow_else(tokens.last().kind) {
        tokens.len() - 1
    } else {
        let at = lemma_heading_at(tokens.drop_last());
        assert forall|k: int| at < k < tokens.len() implies may_follow_else(
            (#[trigger] tokens[k]).kind,
        ) by {
            if k < tokens.len() - 1 {
                assert(tokens.drop_last()[k] == tokens[k]);
            }
        }
        at
    }
}

proof fn lemma_is_after_keyword(tokens: Seq<Token>, suite: Node, kind: TokenKind)
    requires
        kind == TokenKind::Else || kind == TokenKind::Finally,
        else_heads(tokens, Some(suite), kind).len() > 0,
    ensures
        else_heads(tokens, Some(suite), kind).len() == 1,
        else_heads(tokens, Some(suite), kind)[0].suite == Some(suite),
        exists|at: int| is_after_keyword(tokens, suite, kind, at),
{
    lemma_starting_before(tokens, suite.children@[0].range.start as int);
    let count = starting_before(tokens, suite.children@[0].range.start as int);
    let before = tokens.take(count);
    let at = lemma_heading_at(before);
    assert(before[at] == tokens[at]);
    assert forall|k: int| at < k < count implies may_follow_else((#[trigger] tokens[k]).kind) by {
        assert(before[k] == tokens[k]);
    }
    assert(is_after_keyword(tokens, suite, kind, at));
}

proof fn lemma_has_clause(stmt: Node, field: Field, i: int, suite: Node)
    requires
        0 <= i < children_of(stmt, field).len(),
        child_of(children_of(stmt, field)[i], Field::Body) == Some(suite),
    ensures
        has_clause(stmt, field, suite),
{
    let c = lemma_all_filling_in(stmt.children@, field, i);
    assert(stmt.children@[c] == children_of(stmt, field)[i]);
}

/// What a clause of a statement heads is one of its suites.
pub proof fn law_every_clause_heads_a_suite(tokens: Seq<Token>, stmt: Node, h: int)
    requires
        0 <= h < heads_of(tokens, stmt).len(),
    ensures
        heads_of(tokens, stmt)[h].suite matches Some(suite) ==> is_suite_of(tokens, stmt, suite),
{
    let head = heads_of(tokens, stmt)[h];
    let orelse = child_of(stmt, Field::Orelse);
    let elses = else_heads(tokens, orelse, TokenKind::Else);
    if elses.len() > 0 {
        lemma_is_after_keyword(tokens, orelse->0, TokenKind::Else);
    }
    if let Some(suite) = head.suite {
        match stmt.kind {
            NodeKind::StmtIf { .. } => if h > 0 {
                lemma_has_clause(stmt, Field::ElifElse, h - 1, suite);
            },
            NodeKind::StmtMatch => if h > 0 {
                lemma_has_clause(stmt, Field::Case, h - 1, suite);
            },
            NodeKind::StmtTry => {
                let handlers = children_of(stmt, Field::Handler);
                let last = child_of(stmt, Field::Finalbody);
                if 0 < h <= handlers.len() {
                    lemma_has_clause(stmt, Field::Handler, h - 1, suite);
                } else if h > handlers.len() + elses.len() {
                    lemma_is_after_keyword(tokens, last->0, TokenKind::Finally);
                }
            },
            _ => {},
        }
    }
}

/// Nothing is left out of an outline: every statement in any suite of an outlined statement is
/// outlined, in the clause that heads its suite and at its own place there.
pub proof fn law_every_statement_is_outlined(
    parsed: Parsed,
    stmt: Node,
    outline: OutlineStatement,
    suite: Node,
    i: int,
) -> (h: int)
    requires
        outlines(parsed, stmt, outline),
        is_suite_of(parsed.tokens, stmt, suite),
        0 <= i < suite.children@.len(),
    ensures
        0 <= h < outline.clauses@.len(),
        outline.clauses@[h].body@.len() == suite.children@.len(),
        outline.clauses@[h].body@[i].range == suite.children@[i].range,
        outlines(parsed, suite.children@[i], outline.clauses@[h].body@[i]),
{
    let h = law_every_suite_is_a_clause(parsed.tokens, stmt, suite);
    let heads = heads_of(parsed.tokens, stmt);
    let clauses = outline.clauses@;
    lemma_clause_is_head(parsed, stmt, heads.len() as int, clauses, h);
    lemma_statement_is_outlined(
        parsed,
        suite,
        suite.children@.len() as int,
        clauses[h].body@,
        i,
    );
    lemma_statement_outlines(parsed, suite, suite.children@.len() as int, clauses[h].body@, i);
    h
}

proof fn lemma_statement_outlines(
    parsed: Parsed,
    suite: Node,
    upto: int,
    statements: Seq<OutlineStatement>,
    i: int,
)
    requires
        outlines_suite(parsed, suite, upto, statements),
        0 <= i < upto <= suite.children@.len(),
    ensures
        outlines(parsed, suite.children@[i], statements[i]),
    decreases upto,
{
    if i < upto - 1 {
        lemma_statement_outlines(parsed, suite, upto - 1, statements, i);
    }
}

} // verus!

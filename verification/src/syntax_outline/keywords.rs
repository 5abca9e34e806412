//! Which keywords light up together.
//!
//! That is a compound statement's clause keywords (`if`/`elif`/`else`, `try`/`except`/`finally`,
//! `match`/`case`, a loop and its `else`), plus the statements that leave a block from inside
//! its body: a `def`'s `return`s and `raise`s, a loop's `break`s and `continue`s. Each of those
//! binds to the nearest enclosing block of its kind, so a nested `def` keeps its own `return`s and
//! a nested loop its own `break`s; a `break` in a loop's `else` belongs to the loop outside it,
//! since that clause is not the loop's body.

use super::{
    head_models, heads_of, is_suite_of, law_every_clause_heads_a_suite,
    law_every_suite_is_a_clause, lemma_head_suites,
    ClauseHeadModel, OutlineBuilder, ParsedFile,
};
use crate::node::{
    child_of, first_around, height, lemma_around_height, lemma_first_around, lemma_height_child,
    lemma_height_child_of, node_in, Field, Node, NodeKind,
};
use crate::text_size::{is_before, TextRange, TextSize};
use crate::tokens::{
    count_ending_before, ending_before, first_wide, starting_before, token_at, token_starting,
    tokens_from, Token, TokenKind,
};
use vstd::prelude::*;

verus! {

/// Whether a family can start from a keyword of `kind`.
pub open spec fn is_family_keyword(kind: TokenKind) -> bool {
    match kind {
        TokenKind::If
        | TokenKind::Elif
        | TokenKind::Else
        | TokenKind::For
        | TokenKind::While
        | TokenKind::Try
        | TokenKind::Except
        | TokenKind::Finally
        | TokenKind::Match
        | TokenKind::Case
        | TokenKind::Def
        | TokenKind::Return
        | TokenKind::Raise
        | TokenKind::Break
        | TokenKind::Continue => true,
        _ => false,
    }
}

/// The first family keyword of `tokens`, among those that start by `offset`.
pub open spec fn keyword_among(tokens: Seq<Token>, offset: int) -> Option<TextRange>
    decreases tokens.len(),
{
    if tokens.len() == 0 || tokens[0].range.start > offset {
        None
    } else if is_family_keyword(tokens[0].kind) {
        Some(tokens[0].range)
    } else {
        keyword_among(tokens.skip(1), offset)
    }
}

/// The keyword token touching `offset`, if there is one a family can start from.
pub open spec fn keyword_touching(tokens: Seq<Token>, offset: int) -> Option<TextRange> {
    keyword_among(tokens.skip(ending_before(tokens, offset)), offset)
}

#[derive(Debug, Clone, Copy, PartialEq, Eq, Structural)]
pub enum JumpKind {
    /// `return` and `raise`, which leave a function.
    Exit,
    /// `break` and `continue`, which leave or restart a loop.
    Jump,
}

/// Whether `kind` is a statement that leaves a block of the kind `jump` leaves.
pub open spec fn leaves(kind: NodeKind, jump: JumpKind) -> bool {
    match jump {
        JumpKind::Exit => kind is StmtReturn || kind is StmtRaise,
        JumpKind::Jump => kind is StmtBreak || kind is StmtContinue,
    }
}

pub open spec fn is_definition(kind: NodeKind) -> bool {
    kind is StmtFunctionDef || kind is StmtClassDef
}

pub open spec fn is_loop(kind: NodeKind) -> bool {
    kind is StmtFor || kind is StmtWhile
}

/// The keyword `found`, where there is one.
pub open spec fn as_keywords(found: Option<TextRange>) -> Seq<TextRange> {
    match found {
        Some(keyword) => seq![keyword],
        None => Seq::empty(),
    }
}

/// The exits of `jump` in `stmt`, not counting those inside a nested block that owns them: a
/// nested function owns its exits, and a nested loop, function or class its jumps. A nested
/// loop's `else` is not its body, so a jump there still belongs out here.
pub open spec fn exits_of(tokens: Seq<Token>, stmt: Node, jump: JumpKind) -> Seq<TextRange>
    decreases height(stmt), 1int, 0int,
{
    if leaves(stmt.kind, jump) {
        as_keywords(token_starting(tokens, stmt.range.start as int))
    } else if is_definition(stmt.kind) {
        Seq::empty()
    } else if is_loop(stmt.kind) && jump == JumpKind::Jump {
        match child_of(stmt, Field::Orelse) {
            Some(orelse) => {
                proof {
                    lemma_height_child_of(stmt, Field::Orelse);
                }
                exits_in_suite(tokens, orelse, orelse.children@.len() as int, jump)
            },
            None => Seq::empty(),
        }
    } else {
        exits_in_heads(tokens, stmt, heads_of(tokens, stmt).len() as int, jump)
    }
}

/// The exits in the first `upto` statements of `suite`.
pub open spec fn exits_in_suite(tokens: Seq<Token>, suite: Node, upto: int, jump: JumpKind) -> Seq<
    TextRange,
>
    decreases height(suite), 0int, upto,
{
    if !(0 < upto <= suite.children@.len()) {
        Seq::empty()
    } else {
        proof {
            lemma_height_child(suite, upto - 1);
        }
        exits_in_suite(tokens, suite, upto - 1, jump) + exits_of(
            tokens,
            suite.children@[upto - 1],
            jump,
        )
    }
}

/// The exits in the suites of the first `upto` clauses of `stmt`.
pub open spec fn exits_in_heads(tokens: Seq<Token>, stmt: Node, upto: int, jump: JumpKind) -> Seq<
    TextRange,
>
    decreases height(stmt), 0int, upto,
{
    if !(0 < upto <= heads_of(tokens, stmt).len()) {
        Seq::empty()
    } else {
        proof {
            lemma_head_suites(tokens, stmt, upto - 1);
        }
        exits_in_heads(tokens, stmt, upto - 1, jump) + match heads_of(tokens, stmt)[upto
            - 1].suite {
            Some(suite) => exits_in_suite(tokens, suite, suite.children@.len() as int, jump),
            None => Seq::empty(),
        }
    }
}

/// The clause keywords of the first clauses.
pub open spec fn keywords_of(heads: Seq<ClauseHeadModel>) -> Seq<TextRange>
    decreases heads.len(),
{
    if heads.len() == 0 {
        Seq::empty()
    } else {
        keywords_of(heads.drop_last()) + as_keywords(heads.last().keyword)
    }
}

/// The exits in the body of `stmt`.
pub open spec fn body_exits(tokens: Seq<Token>, stmt: Node, jump: JumpKind) -> Seq<TextRange> {
    match child_of(stmt, Field::Body) {
        Some(body) => exits_in_suite(tokens, body, body.children@.len() as int, jump),
        None => Seq::empty(),
    }
}

/// What lights up with one of `stmt`'s own clause keywords.
pub open spec fn family_of_block(tokens: Seq<Token>, stmt: Node) -> Seq<TextRange> {
    let keywords = keywords_of(heads_of(tokens, stmt));
    if stmt.kind is StmtFunctionDef {
        keywords + body_exits(tokens, stmt, JumpKind::Exit)
    } else if is_loop(stmt.kind) {
        keywords + body_exits(tokens, stmt, JumpKind::Jump)
    } else {
        keywords
    }
}

/// A block enclosing the statement being looked at, as a `return` or a `break` sees it.
#[derive(Clone, Copy)]
pub struct Enclosing<'s> {
    pub stmt: &'s Node,
    /// Whether the path runs through the block's first suite — a loop's body rather than its
    /// `else`, which a `break` does not belong to.
    pub in_body: bool,
}

/// An [`Enclosing`] as a mathematical value.
pub ghost struct EnclosingModel {
    pub stmt: Node,
    pub in_body: bool,
}

impl<'s> View for Enclosing<'s> {
    type V = EnclosingModel;

    open spec fn view(&self) -> EnclosingModel {
        EnclosingModel { stmt: *self.stmt, in_body: self.in_body }
    }
}

pub open spec fn enclosing_models(path: Seq<Enclosing<'_>>) -> Seq<EnclosingModel> {
    path.map_values(|block: Enclosing<'_>| block@)
}

/// The innermost block of `path` that a statement of `jump` leaves.
pub open spec fn left_block(path: Seq<EnclosingModel>, jump: JumpKind) -> Option<Node>
    decreases path.len(),
{
    if path.len() == 0 {
        None
    } else {
        let block = path.last();
        match jump {
            JumpKind::Exit => if block.stmt.kind is StmtFunctionDef {
                Some(block.stmt)
            } else if block.stmt.kind is StmtClassDef {
                None
            } else {
                left_block(path.drop_last(), jump)
            },
            JumpKind::Jump => if is_loop(block.stmt.kind) && block.in_body {
                Some(block.stmt)
            } else if is_definition(block.stmt.kind) {
                None
            } else {
                left_block(path.drop_last(), jump)
            },
        }
    }
}

/// The family of the block a statement of `jump` leaves.
pub open spec fn family_left(tokens: Seq<Token>, path: Seq<EnclosingModel>, jump: JumpKind) ->
    Option<Seq<TextRange>> {
    match left_block(path, jump) {
        Some(block) => Some(family_of_block(tokens, block)),
        None => None,
    }
}

/// Whether `keyword` is the keyword of one of `heads`.
pub open spec fn heads_a_clause(heads: Seq<ClauseHeadModel>, keyword: TextRange) -> bool {
    exists|i: int| 0 <= i < heads.len() && (#[trigger] heads[i]).keyword == Some(keyword)
}

/// The family of `keyword` among `suite` and everything nested in it. `path` holds the blocks
/// enclosing `suite`, innermost last.
pub open spec fn family_in(
    tokens: Seq<Token>,
    suite: Node,
    keyword: TextRange,
    path: Seq<EnclosingModel>,
) -> Option<Seq<TextRange>>
    decreases height(suite), 1int, 0int,
{
    match first_around(suite.children@, keyword) {
        Some(stmt) => {
            proof {
                lemma_around_height(suite, keyword);
            }
            if leaves(stmt.kind, JumpKind::Exit) && stmt.range.start == keyword.start {
                family_left(tokens, path, JumpKind::Exit)
            } else if leaves(stmt.kind, JumpKind::Jump) && stmt.range.start == keyword.start {
                family_left(tokens, path, JumpKind::Jump)
            } else if heads_a_clause(heads_of(tokens, stmt), keyword) {
                Some(family_of_block(tokens, stmt))
            } else {
                family_in_heads(tokens, stmt, 0, keyword, path)
            }
        },
        None => None,
    }
}

/// The family of `keyword` in the first suite that has one, from clause `from` of `stmt` on.
pub open spec fn family_in_heads(
    tokens: Seq<Token>,
    stmt: Node,
    from: int,
    keyword: TextRange,
    path: Seq<EnclosingModel>,
) -> Option<Seq<TextRange>>
    decreases height(stmt), 0int, heads_of(tokens, stmt).len() - from,
{
    if !(0 <= from < heads_of(tokens, stmt).len()) {
        None
    } else {
        proof {
            lemma_head_suites(tokens, stmt, from);
        }
        let found = match heads_of(tokens, stmt)[from].suite {
            Some(suite) => family_in(
                tokens,
                suite,
                keyword,
                path.push(EnclosingModel { stmt, in_body: from == 0 }),
            ),
            None => None,
        };
        match found {
            Some(family) => Some(family),
            None => family_in_heads(tokens, stmt, from + 1, keyword, path),
        }
    }
}

/// The family of the keyword at `offset`, when it has one of at least two.
pub open spec fn family_at(tokens: Seq<Token>, suite: Node, offset: int) -> Option<
    Seq<TextRange>,
> {
    match keyword_touching(tokens, offset) {
        Some(keyword) => match family_in(tokens, suite, keyword, Seq::empty()) {
            Some(family) => if family.len() < 2 {
                None
            } else {
                Some(family)
            },
            None => None,
        },
        None => None,
    }
}

/// Where `range` goes among `sorted`: after everything that starts no later.
pub open spec fn slot(sorted: Seq<TextRange>, range: TextRange) -> int
    decreases sorted.len(),
{
    if sorted.len() > 0 && sorted.last().start > range.start {
        slot(sorted.drop_last(), range)
    } else {
        sorted.len() as int
    }
}

/// `ranges` by where they start; those that start together keep their order.
pub open spec fn by_start(ranges: Seq<TextRange>) -> Seq<TextRange>
    decreases ranges.len(),
{
    if ranges.len() == 0 {
        Seq::empty()
    } else {
        let before = by_start(ranges.drop_last());
        before.insert(slot(before, ranges.last()), ranges.last())
    }
}

pub open spec fn is_by_start(ranges: Seq<TextRange>) -> bool {
    forall|i: int, j: int|
        0 <= i < j < ranges.len() ==> (#[trigger] ranges[i]).start <= (#[trigger] ranges[j]).start
}

proof fn lemma_slot(sorted: Seq<TextRange>, range: TextRange)
    requires
        is_by_start(sorted),
    ensures
        0 <= slot(sorted, range) <= sorted.len(),
        forall|i: int|
            0 <= i < slot(sorted, range) ==> (#[trigger] sorted[i]).start <= range.start,
        forall|i: int|
            slot(sorted, range) <= i < sorted.len() ==> (#[trigger] sorted[i]).start
                > range.start,
    decreases sorted.len(),
{
    if sorted.len() > 0 && sorted.last().start > range.start {
        let rest = sorted.drop_last();
        assert forall|i: int, j: int| 0 <= i < j < rest.len() implies (
        #[trigger] rest[i]).start <= (#[trigger] rest[j]).start by {
            assert(rest[i] == sorted[i] && rest[j] == sorted[j]);
        }
        lemma_slot(rest, range);
        assert forall|i: int| 0 <= i < slot(sorted, range) implies (
        #[trigger] sorted[i]).start <= range.start by {
            assert(rest[i] == sorted[i]);
        }
        assert forall|i: int| slot(sorted, range) <= i < sorted.len() implies (
        #[trigger] sorted[i]).start > range.start by {
            if i < rest.len() {
                assert(rest[i] == sorted[i]);
            }
        }
    } else {
        assert forall|i: int| 0 <= i < sorted.len() implies (#[trigger] sorted[i]).start
            <= range.start by {
            let last = sorted.len() - 1;
            if i < last {
                assert(sorted[i].start <= sorted[last].start);
            }
        }
    }
}

/// Ordering `ranges` keeps them all, each as often as it stood there, and puts them in the
/// order the source has them.
pub proof fn law_by_start(ranges: Seq<TextRange>)
    ensures
        is_by_start(by_start(ranges)),
        by_start(ranges).to_multiset() =~= ranges.to_multiset(),
        by_start(ranges).len() == ranges.len(),
    decreases ranges.len(),
{
    broadcast use vstd::seq_lib::group_to_multiset_ensures;

    if ranges.len() > 0 {
        let rest = ranges.drop_last();
        let before = by_start(rest);
        let last = ranges.last();
        law_by_start(rest);
        lemma_slot(before, last);
        let at = slot(before, last);
        let placed = before.insert(at, last);
        assert forall|i: int, j: int| 0 <= i < j < placed.len() implies (
        #[trigger] placed[i]).start <= (#[trigger] placed[j]).start by {
            let a = if i < at {
                before[i]
            } else if i == at {
                last
            } else {
                before[i - 1]
            };
            let b = if j < at {
                before[j]
            } else if j == at {
                last
            } else {
                before[j - 1]
            };
            assert(placed[i] == a && placed[j] == b);
        }
        assert(ranges =~= rest.push(last));
        assert(placed.to_multiset() =~= before.to_multiset().insert(last));
        assert(ranges.to_multiset() =~= rest.to_multiset().insert(last));
    }
}

/// A clause keyword lights up itself: it is in the family of the statement it heads a clause of.
pub proof fn law_clause_keyword_in_its_family(tokens: Seq<Token>, stmt: Node, keyword: TextRange)
    requires
        heads_a_clause(heads_of(tokens, stmt), keyword),
    ensures
        family_of_block(tokens, stmt).contains(keyword),
{
    let heads = heads_of(tokens, stmt);
    let i = choose|i: int| 0 <= i < heads.len() && (#[trigger] heads[i]).keyword == Some(keyword);
    lemma_keyword_kept(heads, i);
    let keywords = keywords_of(heads);
    let at = keywords.index_of(keyword);
    assert(family_of_block(tokens, stmt)[at] == keyword);
}

proof fn lemma_keyword_kept(heads: Seq<ClauseHeadModel>, i: int)
    requires
        0 <= i < heads.len(),
        heads[i].keyword is Some,
    ensures
        keywords_of(heads).contains(heads[i].keyword->0),
    decreases heads.len(),
{
    let keyword = heads[i].keyword->0;
    let before = keywords_of(heads.drop_last());
    if i < heads.len() - 1 {
        assert(heads.drop_last()[i] == heads[i]);
        lemma_keyword_kept(heads.drop_last(), i);
        let at = before.index_of(keyword);
        assert(keywords_of(heads)[at] == keyword);
    } else {
        assert(keywords_of(heads)[before.len() as int] == keyword);
    }
}

/// Every clause keyword of a statement lights up the same family, wherever the statement is
/// found: the family does not depend on which of its keywords it was asked for.
pub proof fn law_clause_keywords_share_a_family(
    tokens: Seq<Token>,
    suite: Node,
    path: Seq<EnclosingModel>,
    first: TextRange,
    second: TextRange,
)
    requires
        first_around(suite.children@, first) matches Some(stmt) && first_around(
            suite.children@,
            second,
        ) == Some(stmt) && !leaves(stmt.kind, JumpKind::Exit) && !leaves(
            stmt.kind,
            JumpKind::Jump,
        ) && heads_a_clause(heads_of(tokens, stmt), first) && heads_a_clause(
            heads_of(tokens, stmt),
            second,
        ),
    ensures
        family_in(tokens, suite, first, path) is Some,
        family_in(tokens, suite, first, path) == family_in(tokens, suite, second, path),
{
}

proof fn lemma_exit_of_statement(
    tokens: Seq<Token>,
    suite: Node,
    upto: int,
    k: int,
    jump: JumpKind,
    keyword: TextRange,
)
    requires
        0 <= k < upto <= suite.children@.len(),
        exits_of(tokens, suite.children@[k], jump).contains(keyword),
    ensures
        exits_in_suite(tokens, suite, upto, jump).contains(keyword),
    decreases upto,
{
    let before = exits_in_suite(tokens, suite, upto - 1, jump);
    let last = exits_of(tokens, suite.children@[upto - 1], jump);
    if k < upto - 1 {
        lemma_exit_of_statement(tokens, suite, upto - 1, k, jump, keyword);
        let at = before.index_of(keyword);
        assert((before + last)[at] == keyword);
    } else {
        let at = last.index_of(keyword);
        assert((before + last)[before.len() + at] == keyword);
    }
}

proof fn lemma_exit_of_clause(
    tokens: Seq<Token>,
    stmt: Node,
    upto: int,
    k: int,
    jump: JumpKind,
    keyword: TextRange,
)
    requires
        0 <= k < upto <= heads_of(tokens, stmt).len(),
        heads_of(tokens, stmt)[k].suite matches Some(suite) && exits_in_suite(
            tokens,
            suite,
            suite.children@.len() as int,
            jump,
        ).contains(keyword),
    ensures
        exits_in_heads(tokens, stmt, upto, jump).contains(keyword),
    decreases upto,
{
    let before = exits_in_heads(tokens, stmt, upto - 1, jump);
    let last = match heads_of(tokens, stmt)[upto - 1].suite {
        Some(suite) => exits_in_suite(tokens, suite, suite.children@.len() as int, jump),
        None => Seq::empty(),
    };
    if k < upto - 1 {
        lemma_exit_of_clause(tokens, stmt, upto - 1, k, jump, keyword);
        let at = before.index_of(keyword);
        assert((before + last)[at] == keyword);
    } else {
        let at = last.index_of(keyword);
        assert((before + last)[before.len() + at] == keyword);
    }
}

/// Whether the exits of `suite` light up with the blocks of `path` that they leave.
spec fn exits_are_owned(tokens: Seq<Token>, path: Seq<EnclosingModel>, suite: Node) -> bool {
    forall|jump: JumpKind, keyword: TextRange| #[trigger]
        exits_in_suite(tokens, suite, suite.children@.len() as int, jump).contains(keyword)
            && left_block(path, jump) is Some ==> family_of_block(
            tokens,
            left_block(path, jump)->0,
        ).contains(keyword)
}

/// The body a function or a loop opens first is its own, and a loop's `else` is the only other.
proof fn lemma_block_suites(tokens: Seq<Token>, stmt: Node, i: int)
    requires
        stmt.kind is StmtFunctionDef || is_loop(stmt.kind),
        0 <= i < heads_of(tokens, stmt).len(),
    ensures
        i == 0 ==> heads_of(tokens, stmt)[i].suite == child_of(stmt, Field::Body),
        i > 0 ==> is_loop(stmt.kind) && heads_of(tokens, stmt)[i].suite == child_of(
            stmt,
            Field::Orelse,
        ),
{
}

proof fn lemma_exits_owned_below(
    tokens: Seq<Token>,
    path: Seq<EnclosingModel>,
    suite: Node,
    k: int,
    i: int,
)
    requires
        exits_are_owned(tokens, path, suite),
        0 <= k < suite.children@.len(),
        0 <= i < heads_of(tokens, suite.children@[k]).len(),
        heads_of(tokens, suite.children@[k])[i].suite is Some,
    ensures
        exits_are_owned(
            tokens,
            path.push(EnclosingModel { stmt: suite.children@[k], in_body: i == 0 }),
            heads_of(tokens, suite.children@[k])[i].suite->0,
        ),
{
    let stmt = suite.children@[k];
    let inner = heads_of(tokens, stmt)[i].suite->0;
    let block = EnclosingModel { stmt, in_body: i == 0 };
    let deeper = path.push(block);
    assert(deeper.drop_last() =~= path);
    assert forall|jump: JumpKind, keyword: TextRange| #[trigger]
        exits_in_suite(tokens, inner, inner.children@.len() as int, jump).contains(keyword)
            && left_block(deeper, jump) is Some implies family_of_block(
        tokens,
        left_block(deeper, jump)->0,
    ).contains(keyword) by {
        let exits = exits_in_suite(tokens, inner, inner.children@.len() as int, jump);
        if stmt.kind is StmtFunctionDef || is_loop(stmt.kind) {
            lemma_block_suites(tokens, stmt, i);
        }
        let owns = match jump {
            JumpKind::Exit => stmt.kind is StmtFunctionDef,
            JumpKind::Jump => is_loop(stmt.kind) && i == 0,
        };
        if owns {
            let keywords = keywords_of(heads_of(tokens, stmt));
            let at = exits.index_of(keyword);
            assert((keywords + exits)[keywords.len() + at] == keyword);
        } else {
            let count = heads_of(tokens, stmt).len() as int;
            lemma_exit_of_clause(tokens, stmt, count, i, jump, keyword);
            assert(exits_of(tokens, stmt, jump).contains(keyword));
            lemma_exit_of_statement(
                tokens,
                suite,
                suite.children@.len() as int,
                k,
                jump,
                keyword,
            );
        }
    }
}

proof fn lemma_family_has_keyword(
    tokens: Seq<Token>,
    suite: Node,
    keyword: TextRange,
    path: Seq<EnclosingModel>,
)
    requires
        exits_are_owned(tokens, path, suite),
        token_starting(tokens, keyword.start as int) == Some(keyword),
    ensures
        family_in(tokens, suite, keyword, path) matches Some(family) ==> family.contains(keyword),
    decreases height(suite), 1int, 0int,
{
    if first_around(suite.children@, keyword) is Some {
        let k = lemma_first_around(suite.children@, keyword);
        let stmt = suite.children@[k];
        lemma_around_height(suite, keyword);
        let starts = stmt.range.start == keyword.start;
        if starts && (leaves(stmt.kind, JumpKind::Exit) || leaves(stmt.kind, JumpKind::Jump)) {
            let jump = if leaves(stmt.kind, JumpKind::Exit) {
                JumpKind::Exit
            } else {
                JumpKind::Jump
            };
            assert(exits_of(tokens, stmt, jump)[0] == keyword);
            lemma_exit_of_statement(
                tokens,
                suite,
                suite.children@.len() as int,
                k,
                jump,
                keyword,
            );
        } else if heads_a_clause(heads_of(tokens, stmt), keyword) {
            law_clause_keyword_in_its_family(tokens, stmt, keyword);
        } else {
            lemma_family_in_clauses_has_keyword(tokens, suite, k, 0, keyword, path);
        }
    }
}

proof fn lemma_family_in_clauses_has_keyword(
    tokens: Seq<Token>,
    suite: Node,
    k: int,
    from: int,
    keyword: TextRange,
    path: Seq<EnclosingModel>,
)
    requires
        exits_are_owned(tokens, path, suite),
        0 <= k < suite.children@.len(),
        token_starting(tokens, keyword.start as int) == Some(keyword),
    ensures
        family_in_heads(tokens, suite.children@[k], from, keyword, path) matches Some(family)
            ==> family.contains(keyword),
    decreases height(suite.children@[k]), 0int, heads_of(tokens, suite.children@[k]).len() - from,
{
    let stmt = suite.children@[k];
    if 0 <= from < heads_of(tokens, stmt).len() {
        lemma_head_suites(tokens, stmt, from);
        if let Some(inner) = heads_of(tokens, stmt)[from].suite {
            let deeper = path.push(EnclosingModel { stmt, in_body: from == 0 });
            lemma_exits_owned_below(tokens, path, suite, k, from);
            lemma_family_has_keyword(tokens, inner, keyword, deeper);
        }
        lemma_family_in_clauses_has_keyword(tokens, suite, k, from + 1, keyword, path);
    }
}

/// A keyword lights up with its own family: whatever keyword is asked for, a clause's or one that
/// leaves a block, is among those that are found for it.
pub proof fn law_keyword_in_its_family(tokens: Seq<Token>, suite: Node, offset: int)
    requires
        are_in_order(tokens),
    ensures
        family_at(tokens, suite, offset) matches Some(family) ==> {
            &&& keyword_touching(tokens, offset) matches Some(keyword)
            &&& family.contains(keyword)
        },
{
    if let Some(keyword) = keyword_touching(tokens, offset) {
        let from = ending_before(tokens, offset);
        lemma_ending_before(tokens, offset);
        let i = lemma_keyword_among(tokens.skip(from), offset);
        assert(tokens.skip(from)[i] == tokens[from + i]);
        lemma_token_starting(tokens, from + i);
        assert(exits_are_owned(tokens, Seq::empty(), suite));
        lemma_family_has_keyword(tokens, suite, keyword, Seq::empty());
    }
}

proof fn lemma_keyword_among(tokens: Seq<Token>, offset: int) -> (i: int)
    requires
        keyword_among(tokens, offset) is Some,
    ensures
        0 <= i < tokens.len(),
        keyword_among(tokens, offset) == Some(tokens[i].range),
        is_family_keyword(tokens[i].kind),
    decreases tokens.len(),
{
    if is_family_keyword(tokens[0].kind) {
        0
    } else {
        let i = lemma_keyword_among(tokens.skip(1), offset);
        assert(tokens.skip(1)[i] == tokens[i + 1]);
        i + 1
    }
}

/// Whether `tokens` are in source order, none over another, and every keyword is written.
pub open spec fn are_in_order(tokens: Seq<Token>) -> bool {
    &&& forall|i: int, j: int|
        0 <= i < j < tokens.len() ==> (#[trigger] tokens[i]).range.end <= (
        #[trigger] tokens[j]).range.start
    &&& forall|i: int|
        0 <= i < tokens.len() ==> (#[trigger] tokens[i]).range.start <= tokens[i].range.end
    &&& forall|i: int|
        0 <= i < tokens.len() && is_family_keyword((#[trigger] tokens[i]).kind)
            ==> tokens[i].range.start < tokens[i].range.end
}

proof fn lemma_ending_before(tokens: Seq<Token>, offset: int)
    ensures
        0 <= ending_before(tokens, offset) <= tokens.len(),
    decreases tokens.len(),
{
    if tokens.len() > 0 {
        lemma_ending_before(tokens.skip(1), offset);
    }
}

/// A keyword is the token that starts where it does: anything else there is empty.
proof fn lemma_token_starting(tokens: Seq<Token>, k: int)
    requires
        are_in_order(tokens),
        0 <= k < tokens.len(),
        is_family_keyword(tokens[k].kind),
    ensures
        token_starting(tokens, tokens[k].range.start as int) == Some(tokens[k].range),
{
    lemma_first_wide_from(tokens, 0, k);
    assert(tokens.skip(0) =~= tokens);
}

proof fn lemma_first_wide_from(tokens: Seq<Token>, from: int, k: int)
    requires
        are_in_order(tokens),
        0 <= from <= k < tokens.len(),
        is_family_keyword(tokens[k].kind),
    ensures
        first_wide(tokens_from(tokens.skip(from), tokens[k].range.start as int)) == Some(
            tokens[k].range,
        ),
    decreases k - from,
{
    let rest = tokens.skip(from);
    let start = tokens[k].range.start as int;
    assert(rest[0] == tokens[from]);
    if rest[0].range.start < start {
        lemma_first_wide_from(tokens, from + 1, k);
        assert(rest.skip(1) =~= tokens.skip(from + 1));
        lemma_starting_before(rest.skip(1), start);
        assert(tokens_from(rest, start) =~= tokens_from(rest.skip(1), start));
    } else {
        assert(tokens_from(rest, start) =~= rest);
        if from < k {
            assert(tokens[from].range.end <= start);
            lemma_first_wide_from(tokens, from + 1, k);
            assert(rest.skip(1) =~= tokens.skip(from + 1));
            assert(rest.skip(1)[0] == tokens[from + 1]);
            assert(tokens[from].range.end <= tokens[from + 1].range.start);
            assert(tokens_from(rest.skip(1), start) =~= rest.skip(1));
        }
    }
}

pub proof fn lemma_starting_before(tokens: Seq<Token>, offset: int)
    ensures
        0 <= starting_before(tokens, offset) <= tokens.len(),
    decreases tokens.len(),
{
    if tokens.len() > 0 {
        lemma_starting_before(tokens.skip(1), offset);
    }
}

/// Whether `keyword` is one of `tokens` that a family can start from.
pub open spec fn is_keyword_token(tokens: Seq<Token>, keyword: TextRange) -> bool {
    exists|i: int|
        0 <= i < tokens.len() && (#[trigger] tokens[i]).range == keyword && is_family_keyword(
            tokens[i].kind,
        )
}

/// Whether the statements of `first` all come before those of `second`.
pub open spec fn suites_in_order(first: Option<Node>, second: Option<Node>) -> bool {
    match (first, second) {
        (Some(first), Some(second)) => forall|i: int, j: int|
            0 <= i < first.children@.len() && 0 <= j < second.children@.len() ==> is_before(
                (#[trigger] first.children@[i]).range,
                (#[trigger] second.children@[j]).range,
            ),
        _ => true,
    }
}

/// Whether `keyword` stands in none of the statements of `suite`.
pub open spec fn is_outside(keyword: TextRange, suite: Option<Node>) -> bool {
    match suite {
        Some(suite) => forall|i: int|
            0 <= i < suite.children@.len() ==> is_before(
                keyword,
                (#[trigger] suite.children@[i]).range,
            ) || is_before(suite.children@[i].range, keyword),
        None => true,
    }
}

/// Whether the statements of `suite` stand in `range`.
pub open spec fn is_inside(suite: Option<Node>, range: TextRange) -> bool {
    match suite {
        Some(suite) => forall|i: int|
            0 <= i < suite.children@.len() ==> range.spec_contains_range(
                (#[trigger] suite.children@[i]).range,
            ),
        None => true,
    }
}

/// Whether the clauses of `stmt` are written as python writes them: each under a keyword of its
/// own, the keywords in order and outside the suites, the suites in order and in the statement.
pub open spec fn clauses_laid_out(tokens: Seq<Token>, stmt: Node) -> bool {
    let heads = heads_of(tokens, stmt);
    &&& forall|h: int|
        0 <= h < heads.len() ==> is_inside((#[trigger] heads[h]).suite, stmt.range)
    &&& forall|h: int, l: int|
        0 <= h < l < heads.len() ==> suites_in_order(
            (#[trigger] heads[h]).suite,
            (#[trigger] heads[l]).suite,
        )
    &&& forall|h: int|
        0 <= h < heads.len() && (#[trigger] heads[h]).keyword is Some ==> {
            let keyword = heads[h].keyword->0;
            &&& keyword.start < keyword.end
            &&& stmt.range.spec_contains_range(keyword)
            &&& stmt.kind is StmtClassDef || stmt.kind is StmtWith || is_keyword_token(
                tokens,
                keyword,
            )
        }
    &&& forall|h: int, l: int|
        0 <= h < heads.len() && 0 <= l < heads.len() && (#[trigger] heads[h]).keyword is Some
            ==> is_outside(heads[h].keyword->0, (#[trigger] heads[l]).suite)
    &&& forall|h: int, l: int|
        0 <= h < l < heads.len() && (#[trigger] heads[h]).keyword is Some && (
        #[trigger] heads[l]).keyword is Some ==> is_before(
            heads[h].keyword->0,
            heads[l].keyword->0,
        )
    &&& is_loop(stmt.kind) && child_of(stmt, Field::Orelse) is Some && (child_of(
        stmt,
        Field::Orelse,
    )->0).children@.len() > 0 ==> heads.len() == 2
}

/// Whether a statement that leaves a block is written with a keyword.
pub open spec fn exit_laid_out(tokens: Seq<Token>, stmt: Node) -> bool {
    leaves(stmt.kind, JumpKind::Exit) || leaves(stmt.kind, JumpKind::Jump) ==> {
        &&& token_starting(tokens, stmt.range.start as int) matches Some(keyword)
        &&& keyword.start < keyword.end
        &&& stmt.range.spec_contains_range(keyword)
        &&& is_keyword_token(tokens, keyword)
    }
}

/// Whether the statements of `suite`, and of every suite under it, are one after the other, each
/// written as python writes it.
pub open spec fn is_laid_out(tokens: Seq<Token>, suite: Node) -> bool
    decreases height(suite),
{
    &&& forall|i: int, j: int|
        0 <= i < j < suite.children@.len() ==> is_before(
            (#[trigger] suite.children@[i]).range,
            (#[trigger] suite.children@[j]).range,
        )
    &&& forall|i: int|
        0 <= i < suite.children@.len() ==> exit_laid_out(tokens, #[trigger] suite.children@[i])
            && clauses_laid_out(tokens, suite.children@[i])
    &&& forall|inner: Node| #[trigger]
        is_suite_under(tokens, suite, inner) && height(inner) < height(suite) ==> is_laid_out(
            tokens,
            inner,
        )
}

/// Whether `inner` is the suite of a clause of one of the statements of `suite`.
pub open spec fn is_suite_under(tokens: Seq<Token>, suite: Node, inner: Node) -> bool {
    exists|i: int, h: int|
        #![trigger heads_of(tokens, suite.children@[i])[h]]
        0 <= i < suite.children@.len() && 0 <= h < heads_of(tokens, suite.children@[i]).len()
            && heads_of(tokens, suite.children@[i])[h].suite == Some(inner)
}

/// Whether `keyword` stands in one of the statements of `suite`.
spec fn stands_in(suite: Node, keyword: TextRange) -> bool {
    keyword.start < keyword.end && exists|i: int|
        0 <= i < suite.children@.len() && (
        #[trigger] suite.children@[i]).range.spec_contains_range(keyword)
}

proof fn lemma_only_around(tokens: Seq<Token>, suite: Node, keyword: TextRange, i: int)
    requires
        is_laid_out(tokens, suite),
        0 <= i < suite.children@.len(),
        suite.children@[i].range.spec_contains_range(keyword),
        keyword.start < keyword.end,
    ensures
        first_around(suite.children@, keyword) == Some(suite.children@[i]),
{
    lemma_around_exists(suite.children@, keyword, i);
    let k = lemma_first_around(suite.children@, keyword);
    if k < i {
        assert(is_before(suite.children@[k].range, suite.children@[i].range));
    } else if i < k {
        assert(is_before(suite.children@[i].range, suite.children@[k].range));
    }
}

proof fn lemma_around_exists(nodes: Seq<Node>, range: TextRange, i: int)
    requires
        0 <= i < nodes.len(),
        nodes[i].range.spec_contains_range(range),
    ensures
        first_around(nodes, range) is Some,
    decreases nodes.len(),
{
    if !nodes[0].range.spec_contains_range(range) {
        assert(nodes.skip(1)[i - 1] == nodes[i]);
        lemma_around_exists(nodes.skip(1), range, i - 1);
    }
}

proof fn lemma_none_around(nodes: Seq<Node>, range: TextRange)
    requires
        forall|i: int|
            0 <= i < nodes.len() ==> !(#[trigger] nodes[i]).range.spec_contains_range(range),
    ensures
        first_around(nodes, range) is None,
{
    if first_around(nodes, range) is Some {
        let i = lemma_first_around(nodes, range);
    }
}

/// What stands in a suite is looked for there.
proof fn lemma_looked_for_below(
    tokens: Seq<Token>,
    suite: Node,
    i: int,
    h: int,
    keyword: TextRange,
    path: Seq<EnclosingModel>,
)
    requires
        is_laid_out(tokens, suite),
        0 <= i < suite.children@.len(),
        0 <= h < heads_of(tokens, suite.children@[i]).len(),
        heads_of(tokens, suite.children@[i])[h].suite matches Some(inner) && stands_in(
            inner,
            keyword,
        ) && family_in(
            tokens,
            inner,
            keyword,
            path.push(EnclosingModel { stmt: suite.children@[i], in_body: h == 0 }),
        ) is Some,
    ensures
        stands_in(suite, keyword),
        family_in(tokens, suite, keyword, path) == family_in(
            tokens,
            heads_of(tokens, suite.children@[i])[h].suite->0,
            keyword,
            path.push(EnclosingModel { stmt: suite.children@[i], in_body: h == 0 }),
        ),
{
    let stmt = suite.children@[i];
    let heads = heads_of(tokens, stmt);
    let inner = heads[h].suite->0;
    let c = choose|c: int|
        0 <= c < inner.children@.len() && (
        #[trigger] inner.children@[c]).range.spec_contains_range(keyword);
    assert(clauses_laid_out(tokens, stmt));
    assert(is_inside(heads[h].suite, stmt.range));
    lemma_only_around(tokens, suite, keyword, i);
    if heads_a_clause(heads, keyword) {
        let l = choose|l: int|
            0 <= l < heads.len() && (#[trigger] heads[l]).keyword == Some(keyword);
        assert(is_outside(heads[l].keyword->0, heads[h].suite));
        assert(false);
    }
    lemma_skips_to(tokens, suite, i, 0, h, keyword, path);
}

proof fn lemma_skips_to(
    tokens: Seq<Token>,
    suite: Node,
    i: int,
    from: int,
    h: int,
    keyword: TextRange,
    path: Seq<EnclosingModel>,
)
    requires
        is_laid_out(tokens, suite),
        0 <= i < suite.children@.len(),
        0 <= from <= h < heads_of(tokens, suite.children@[i]).len(),
        heads_of(tokens, suite.children@[i])[h].suite matches Some(inner) && stands_in(
            inner,
            keyword,
        ) && family_in(
            tokens,
            inner,
            keyword,
            path.push(EnclosingModel { stmt: suite.children@[i], in_body: h == 0 }),
        ) is Some,
    ensures
        family_in_heads(tokens, suite.children@[i], from, keyword, path) == family_in(
            tokens,
            heads_of(tokens, suite.children@[i])[h].suite->0,
            keyword,
            path.push(EnclosingModel { stmt: suite.children@[i], in_body: h == 0 }),
        ),
    decreases h - from,
{
    let stmt = suite.children@[i];
    let heads = heads_of(tokens, stmt);
    lemma_head_suites(tokens, stmt, from);
    if from < h {
        lemma_skips_to(tokens, suite, i, from + 1, h, keyword, path);
        if let Some(earlier) = heads[from].suite {
            let inner = heads[h].suite->0;
            let c = choose|c: int|
                0 <= c < inner.children@.len() && (
                #[trigger] inner.children@[c]).range.spec_contains_range(keyword);
            assert(suites_in_order(heads[from].suite, heads[h].suite));
            assert forall|e: int| 0 <= e < earlier.children@.len() implies !(
            #[trigger] earlier.children@[e]).range.spec_contains_range(keyword) by {
                assert(is_before(earlier.children@[e].range, inner.children@[c].range));
            }
            lemma_none_around(earlier.children@, keyword);
            let deeper = path.push(EnclosingModel { stmt, in_body: from == 0 });
            assert(family_in(tokens, earlier, keyword, deeper) is None);
        }
    }
}

/// Whether `block` is a statement of `suite`, or of a suite under it.
spec fn reaches(tokens: Seq<Token>, suite: Node, block: Node) -> bool
    decreases height(suite),
{
    ||| suite.children@.contains(block)
    ||| exists|inner: Node| #[trigger]
        is_suite_under(tokens, suite, inner) && height(inner) < height(suite) && reaches(
            tokens,
            inner,
            block,
        )
}

/// A clause keyword lights up the family of its statement, wherever that is.
proof fn lemma_clause_keyword_found(
    tokens: Seq<Token>,
    suite: Node,
    block: Node,
    keyword: TextRange,
    path: Seq<EnclosingModel>,
)
    requires
        is_laid_out(tokens, suite),
        reaches(tokens, suite, block),
        heads_a_clause(heads_of(tokens, block), keyword),
    ensures
        stands_in(suite, keyword),
        family_in(tokens, suite, keyword, path) == Some(family_of_block(tokens, block)),
    decreases height(suite),
{
    if suite.children@.contains(block) {
        let i = suite.children@.index_of(block);
        let heads = heads_of(tokens, block);
        let h = choose|h: int|
            0 <= h < heads.len() && (#[trigger] heads[h]).keyword == Some(keyword);
        assert(clauses_laid_out(tokens, suite.children@[i]));
        lemma_only_around(tokens, suite, keyword, i);
    } else {
        let inner = choose|inner: Node| #[trigger]
            is_suite_under(tokens, suite, inner) && height(inner) < height(suite) && reaches(
                tokens,
                inner,
                block,
            );
        let (i, h) = choose|i: int, h: int|
            #![trigger heads_of(tokens, suite.children@[i])[h]]
            0 <= i < suite.children@.len() && 0 <= h < heads_of(tokens, suite.children@[i]).len()
                && heads_of(tokens, suite.children@[i])[h].suite == Some(inner);
        let deeper = path.push(EnclosingModel { stmt: suite.children@[i], in_body: h == 0 });
        assert(is_laid_out(tokens, inner));
        lemma_clause_keyword_found(tokens, inner, block, keyword, deeper);
        lemma_looked_for_below(tokens, suite, i, h, keyword, path);
    }
}

proof fn lemma_exit_in_suite(
    tokens: Seq<Token>,
    suite: Node,
    upto: int,
    jump: JumpKind,
    keyword: TextRange,
) -> (i: int)
    requires
        exits_in_suite(tokens, suite, upto, jump).contains(keyword),
    ensures
        0 <= i < upto <= suite.children@.len(),
        exits_of(tokens, suite.children@[i], jump).contains(keyword),
    decreases upto,
{
    let before = exits_in_suite(tokens, suite, upto - 1, jump);
    let k = exits_in_suite(tokens, suite, upto, jump).index_of(keyword);
    if k < before.len() {
        assert(before[k] == keyword);
        lemma_exit_in_suite(tokens, suite, upto - 1, jump, keyword)
    } else {
        assert(exits_of(tokens, suite.children@[upto - 1], jump)[k - before.len()] == keyword);
        upto - 1
    }
}

proof fn lemma_exit_in_heads(
    tokens: Seq<Token>,
    stmt: Node,
    upto: int,
    jump: JumpKind,
    keyword: TextRange,
) -> (h: int)
    requires
        exits_in_heads(tokens, stmt, upto, jump).contains(keyword),
    ensures
        0 <= h < upto <= heads_of(tokens, stmt).len(),
        heads_of(tokens, stmt)[h].suite matches Some(suite) && exits_in_suite(
            tokens,
            suite,
            suite.children@.len() as int,
            jump,
        ).contains(keyword),
    decreases upto,
{
    let before = exits_in_heads(tokens, stmt, upto - 1, jump);
    let k = exits_in_heads(tokens, stmt, upto, jump).index_of(keyword);
    if k < before.len() {
        assert(before[k] == keyword);
        lemma_exit_in_heads(tokens, stmt, upto - 1, jump, keyword)
    } else {
        let suite = heads_of(tokens, stmt)[upto - 1].suite->0;
        assert(exits_in_suite(tokens, suite, suite.children@.len() as int, jump)[k
            - before.len()] == keyword);
        upto - 1
    }
}

/// An exit that is not a statement itself is one of a suite of the statement.
proof fn lemma_exit_of_suite(
    tokens: Seq<Token>,
    stmt: Node,
    jump: JumpKind,
    keyword: TextRange,
) -> (h: int)
    requires
        clauses_laid_out(tokens, stmt),
        !leaves(stmt.kind, jump),
        exits_of(tokens, stmt, jump).contains(keyword),
    ensures
        !is_definition(stmt.kind),
        0 <= h < heads_of(tokens, stmt).len(),
        is_loop(stmt.kind) && jump == JumpKind::Jump ==> h > 0,
        heads_of(tokens, stmt)[h].suite matches Some(suite) && exits_in_suite(
            tokens,
            suite,
            suite.children@.len() as int,
            jump,
        ).contains(keyword),
{
    let heads = heads_of(tokens, stmt);
    if is_loop(stmt.kind) && jump == JumpKind::Jump {
        let orelse = child_of(stmt, Field::Orelse)->0;
        let e = lemma_exit_in_suite(
            tokens,
            orelse,
            orelse.children@.len() as int,
            jump,
            keyword,
        );
        lemma_block_suites(tokens, stmt, 1);
        1
    } else {
        lemma_exit_in_heads(tokens, stmt, heads.len() as int, jump, keyword)
    }
}

/// An exit lights up the family of the block it leaves.
proof fn lemma_exit_found(
    tokens: Seq<Token>,
    suite: Node,
    jump: JumpKind,
    keyword: TextRange,
    path: Seq<EnclosingModel>,
)
    requires
        is_laid_out(tokens, suite),
        exits_in_suite(tokens, suite, suite.children@.len() as int, jump).contains(keyword),
        left_block(path, jump) is Some,
    ensures
        stands_in(suite, keyword),
        is_keyword_token(tokens, keyword),
        family_in(tokens, suite, keyword, path) == Some(
            family_of_block(tokens, left_block(path, jump)->0),
        ),
    decreases height(suite),
{
    let i = lemma_exit_in_suite(tokens, suite, suite.children@.len() as int, jump, keyword);
    let stmt = suite.children@[i];
    assert(clauses_laid_out(tokens, stmt) && exit_laid_out(tokens, stmt));
    lemma_height_child(suite, i);
    if leaves(stmt.kind, jump) {
        assert(keyword == token_starting(tokens, stmt.range.start as int)->0);
        lemma_only_around(tokens, suite, keyword, i);
    } else {
        let h = lemma_exit_of_suite(tokens, stmt, jump, keyword);
        let inner = heads_of(tokens, stmt)[h].suite->0;
        let deeper = path.push(EnclosingModel { stmt, in_body: h == 0 });
        assert(deeper.drop_last() =~= path);
        lemma_head_suites(tokens, stmt, h);
        assert(is_suite_under(tokens, suite, inner));
        assert(is_laid_out(tokens, inner));
        lemma_exit_found(tokens, inner, jump, keyword, deeper);
        lemma_looked_for_below(tokens, suite, i, h, keyword, path);
    }
}

/// An exit in the body of a block that owns it lights up the family of the block.
proof fn lemma_owned_exit_found(
    tokens: Seq<Token>,
    suite: Node,
    block: Node,
    jump: JumpKind,
    keyword: TextRange,
    path: Seq<EnclosingModel>,
)
    requires
        is_laid_out(tokens, suite),
        reaches(tokens, suite, block),
        match jump {
            JumpKind::Exit => block.kind is StmtFunctionDef,
            JumpKind::Jump => is_loop(block.kind),
        },
        body_exits(tokens, block, jump).contains(keyword),
    ensures
        stands_in(suite, keyword),
        is_keyword_token(tokens, keyword),
        family_in(tokens, suite, keyword, path) == Some(family_of_block(tokens, block)),
    decreases height(suite),
{
    if suite.children@.contains(block) {
        let i = suite.children@.index_of(block);
        lemma_height_child(suite, i);
        assert(heads_of(tokens, block).len() > 0);
        lemma_block_suites(tokens, block, 0);
        lemma_head_suites(tokens, block, 0);
        let inner = heads_of(tokens, suite.children@[i])[0].suite->0;
        assert(is_suite_under(tokens, suite, inner));
        assert(is_laid_out(tokens, inner));
        let deeper = path.push(EnclosingModel { stmt: block, in_body: true });
        lemma_exit_found(tokens, inner, jump, keyword, deeper);
        lemma_looked_for_below(tokens, suite, i, 0, keyword, path);
    } else {
        let inner = choose|inner: Node| #[trigger]
            is_suite_under(tokens, suite, inner) && height(inner) < height(suite) && reaches(
                tokens,
                inner,
                block,
            );
        let (i, h) = choose|i: int, h: int|
            #![trigger heads_of(tokens, suite.children@[i])[h]]
            0 <= i < suite.children@.len() && 0 <= h < heads_of(tokens, suite.children@[i]).len()
                && heads_of(tokens, suite.children@[i])[h].suite == Some(inner);
        let deeper = path.push(EnclosingModel { stmt: suite.children@[i], in_body: h == 0 });
        assert(is_laid_out(tokens, inner));
        lemma_owned_exit_found(tokens, inner, block, jump, keyword, deeper);
        lemma_looked_for_below(tokens, suite, i, h, keyword, path);
    }
}

/// Whether `family` is that of a block of `suite`, or of one of `path` that something leaves.
spec fn is_of_a_block(
    tokens: Seq<Token>,
    suite: Node,
    path: Seq<EnclosingModel>,
    family: Seq<TextRange>,
) -> bool {
    ||| exists|block: Node|
        #[trigger] reaches(tokens, suite, block) && family == family_of_block(tokens, block)
    ||| exists|jump: JumpKind|
        (#[trigger] left_block(path, jump)) is Some && family == family_of_block(
            tokens,
            left_block(path, jump)->0,
        )
}

proof fn lemma_found_family_is_of_a_block(
    tokens: Seq<Token>,
    suite: Node,
    keyword: TextRange,
    path: Seq<EnclosingModel>,
)
    ensures
        family_in(tokens, suite, keyword, path) matches Some(family) ==> is_of_a_block(
            tokens,
            suite,
            path,
            family,
        ),
    decreases height(suite), 1int, 0int,
{
    if first_around(suite.children@, keyword) is Some {
        let i = lemma_first_around(suite.children@, keyword);
        let stmt = suite.children@[i];
        lemma_around_height(suite, keyword);
        if stmt.range.start == keyword.start && leaves(stmt.kind, JumpKind::Exit) {
            assert(left_block(path, JumpKind::Exit) is Some ==> true);
        } else if stmt.range.start == keyword.start && leaves(stmt.kind, JumpKind::Jump) {
            assert(left_block(path, JumpKind::Jump) is Some ==> true);
        } else if heads_a_clause(heads_of(tokens, stmt), keyword) {
            assert(suite.children@.contains(stmt));
            assert(reaches(tokens, suite, stmt));
        } else {
            lemma_found_in_heads_is_of_a_block(tokens, suite, i, 0, keyword, path);
        }
    }
}

proof fn lemma_found_in_heads_is_of_a_block(
    tokens: Seq<Token>,
    suite: Node,
    i: int,
    from: int,
    keyword: TextRange,
    path: Seq<EnclosingModel>,
)
    requires
        0 <= i < suite.children@.len(),
    ensures
        family_in_heads(tokens, suite.children@[i], from, keyword, path) matches Some(family)
            ==> is_of_a_block(tokens, suite, path, family),
    decreases
        height(suite.children@[i]), 0int, heads_of(tokens, suite.children@[i]).len() - from,
{
    let stmt = suite.children@[i];
    if 0 <= from < heads_of(tokens, stmt).len() {
        lemma_head_suites(tokens, stmt, from);
        lemma_height_child(suite, i);
        lemma_found_in_heads_is_of_a_block(tokens, suite, i, from + 1, keyword, path);
        if let Some(inner) = heads_of(tokens, suite.children@[i])[from].suite {
            let deeper = path.push(EnclosingModel { stmt, in_body: from == 0 });
            assert(deeper.drop_last() =~= path);
            lemma_found_family_is_of_a_block(tokens, inner, keyword, deeper);
            assert(is_suite_under(tokens, suite, inner));
            if let Some(family) = family_in(tokens, inner, keyword, deeper) {
                if exists|block: Node|
                    #[trigger] reaches(tokens, inner, block) && family == family_of_block(
                        tokens,
                        block,
                    ) {
                    let block = choose|block: Node|
                        #[trigger] reaches(tokens, inner, block) && family == family_of_block(
                            tokens,
                            block,
                        );
                    assert(reaches(tokens, suite, block));
                } else {
                    let jump = choose|jump: JumpKind|
                        (#[trigger] left_block(deeper, jump)) is Some && family
                            == family_of_block(tokens, left_block(deeper, jump)->0);
                    if left_block(deeper, jump) == Some(stmt) {
                        assert(suite.children@.contains(stmt));
                        assert(reaches(tokens, suite, stmt));
                    } else {
                        assert(left_block(path, jump) == left_block(deeper, jump));
                    }
                }
            }
        }
    }
}

/// Whether no two keywords of `tokens` touch.
pub open spec fn are_keywords_apart(tokens: Seq<Token>) -> bool {
    forall|i: int, j: int|
        0 <= i < j < tokens.len() && is_family_keyword((#[trigger] tokens[i]).kind)
            && is_family_keyword((#[trigger] tokens[j]).kind) ==> tokens[i].range.end
            < tokens[j].range.start
}

proof fn lemma_touching_at_start(tokens: Seq<Token>, k: int)
    requires
        are_in_order(tokens),
        are_keywords_apart(tokens),
        0 <= k < tokens.len(),
        is_family_keyword(tokens[k].kind),
    ensures
        keyword_touching(tokens, tokens[k].range.start as int) == Some(tokens[k].range),
{
    let offset = tokens[k].range.start as int;
    lemma_ending_before(tokens, offset);
    lemma_ending_before_is(tokens, offset);
    lemma_not_ending_before(tokens, offset);
    let from = ending_before(tokens, offset);
    if k < from {
        assert(tokens[k].range.end < offset);
    }
    lemma_keyword_among_from(tokens, from, k);
}

proof fn lemma_ending_before_is(tokens: Seq<Token>, offset: int)
    ensures
        forall|i: int|
            0 <= i < ending_before(tokens, offset) ==> (#[trigger] tokens[i]).range.end < offset,
    decreases tokens.len(),
{
    if tokens.len() > 0 && tokens[0].range.end < offset {
        lemma_ending_before_is(tokens.skip(1), offset);
        lemma_ending_before(tokens, offset);
        assert forall|i: int| 0 <= i < ending_before(tokens, offset) implies (
        #[trigger] tokens[i]).range.end < offset by {
            if i > 0 {
                assert(tokens.skip(1)[i - 1] == tokens[i]);
            }
        }
    }
}

proof fn lemma_keyword_among_from(tokens: Seq<Token>, from: int, k: int)
    requires
        are_in_order(tokens),
        are_keywords_apart(tokens),
        0 <= from <= k < tokens.len(),
        is_family_keyword(tokens[k].kind),
        forall|i: int|
            from <= i < k ==> !is_family_keyword((#[trigger] tokens[i]).kind) || tokens[i].range.end
                < tokens[k].range.start,
        from < tokens.len() ==> tokens[from].range.end >= tokens[k].range.start,
    ensures
        keyword_among(tokens.skip(from), tokens[k].range.start as int) == Some(tokens[k].range),
    decreases k - from,
{
    let rest = tokens.skip(from);
    assert(rest[0] == tokens[from]);
    if from < k {
        assert(tokens[from].range.end <= tokens[k].range.start);
        assert(!is_family_keyword(tokens[from].kind));
        assert(rest.skip(1) =~= tokens.skip(from + 1));
        assert(tokens[from].range.end <= tokens[from + 1].range.start);
        lemma_keyword_among_from(tokens, from + 1, k);
    }
}

proof fn lemma_not_ending_before(tokens: Seq<Token>, offset: int)
    ensures
        ending_before(tokens, offset) < tokens.len() ==> tokens[ending_before(
            tokens,
            offset,
        )].range.end >= offset,
    decreases tokens.len(),
{
    if tokens.len() > 0 && tokens[0].range.end < offset {
        lemma_not_ending_before(tokens.skip(1), offset);
        lemma_ending_before(tokens.skip(1), offset);
        let n = ending_before(tokens.skip(1), offset);
        if n < tokens.skip(1).len() {
            assert(tokens.skip(1)[n] == tokens[n + 1]);
        }
    }
}

/// Every keyword of a family lights up the same family: it does not matter which of them was asked
/// for, a clause's keyword or one that leaves the block.
pub proof fn law_family_is_shared(tokens: Seq<Token>, suite: Node, offset: int, k: int)
    requires
        are_in_order(tokens),
        are_keywords_apart(tokens),
        is_laid_out(tokens, suite),
        family_at(tokens, suite, offset) matches Some(family) && 0 <= k < family.len(),
    ensures
        ({
            let family = family_at(tokens, suite, offset)->0;
            &&& keyword_touching(tokens, family[k].start as int) == Some(family[k])
            &&& family_at(tokens, suite, family[k].start as int) == Some(family)
        }),
{
    let family = family_at(tokens, suite, offset)->0;
    let asked = keyword_touching(tokens, offset)->0;
    let keyword = family[k];
    lemma_found_family_is_of_a_block(tokens, suite, asked, Seq::empty());
    let block = choose|block: Node|
        #[trigger] reaches(tokens, suite, block) && family == family_of_block(tokens, block);
    let keywords = keywords_of(heads_of(tokens, block));
    lemma_block_laid_out(tokens, suite, block);
    if k < keywords.len() {
        assert(keywords[k] == keyword);
        lemma_keyword_of_head(heads_of(tokens, block), k);
        lemma_clause_keyword_found(tokens, suite, block, keyword, Seq::empty());
        if stmt_has_one_clause(tokens, block) {
            assert(family =~= keywords);
        }
    } else {
        let jump = if block.kind is StmtFunctionDef {
            JumpKind::Exit
        } else {
            JumpKind::Jump
        };
        assert(body_exits(tokens, block, jump)[k - keywords.len()] == keyword);
        lemma_owned_exit_found(tokens, suite, block, jump, keyword, Seq::empty());
    }
    assert(is_keyword_token(tokens, keyword));
    let t = choose|t: int|
        0 <= t < tokens.len() && (#[trigger] tokens[t]).range == keyword && is_family_keyword(
            tokens[t].kind,
        );
    lemma_touching_at_start(tokens, t);
}

/// Whether `stmt` is a class or a `with`, which have a single clause and no family.
spec fn stmt_has_one_clause(tokens: Seq<Token>, stmt: Node) -> bool {
    (stmt.kind is StmtClassDef || stmt.kind is StmtWith) && keywords_of(
        heads_of(tokens, stmt),
    ).len() <= 1
}

proof fn lemma_block_laid_out(tokens: Seq<Token>, suite: Node, block: Node)
    requires
        is_laid_out(tokens, suite),
        reaches(tokens, suite, block),
    ensures
        clauses_laid_out(tokens, block),
        (block.kind is StmtClassDef || block.kind is StmtWith) ==> stmt_has_one_clause(
            tokens,
            block,
        ),
    decreases height(suite),
{
    if suite.children@.contains(block) {
        let i = suite.children@.index_of(block);
        assert(clauses_laid_out(tokens, suite.children@[i]));
        let heads = heads_of(tokens, block);
        if block.kind is StmtClassDef || block.kind is StmtWith {
            assert(heads.drop_last() =~= Seq::empty());
            assert(keywords_of(Seq::<ClauseHeadModel>::empty()) =~= Seq::empty());
        }
    } else {
        let inner = choose|inner: Node| #[trigger]
            is_suite_under(tokens, suite, inner) && height(inner) < height(suite) && reaches(
                tokens,
                inner,
                block,
            );
        assert(is_laid_out(tokens, inner));
        lemma_block_laid_out(tokens, inner, block);
    }
}

proof fn lemma_keyword_of_head(heads: Seq<ClauseHeadModel>, k: int)
    requires
        0 <= k < keywords_of(heads).len(),
    ensures
        heads_a_clause(heads, keywords_of(heads)[k]),
    decreases heads.len(),
{
    let keyword = keywords_of(heads)[k];
    let before = keywords_of(heads.drop_last());
    if k < before.len() {
        lemma_keyword_of_head(heads.drop_last(), k);
        let h = choose|h: int|
            0 <= h < heads.drop_last().len() && (#[trigger] heads.drop_last()[h]).keyword == Some(
                before[k],
            );
        assert(heads[h].keyword == Some(keyword));
    } else {
        assert(heads[heads.len() - 1].keyword == Some(keyword));
    }
}

/// Whether no two of `ranges` start at one place.
pub open spec fn starts_differ(ranges: Seq<TextRange>) -> bool {
    forall|i: int, j: int|
        0 <= i < j < ranges.len() ==> (#[trigger] ranges[i]).start != (#[trigger] ranges[j]).start
}

spec fn all_in(ranges: Seq<TextRange>, range: TextRange) -> bool {
    forall|i: int|
        0 <= i < ranges.len() ==> (#[trigger] ranges[i]).start < ranges[i].end
            && range.spec_contains_range(ranges[i])
}

proof fn lemma_exits_differ(tokens: Seq<Token>, suite: Node, upto: int, jump: JumpKind)
    requires
        is_laid_out(tokens, suite),
        0 <= upto <= suite.children@.len(),
    ensures
        starts_differ(exits_in_suite(tokens, suite, upto, jump)),
        forall|k: int|
            0 <= k < exits_in_suite(tokens, suite, upto, jump).len() ==> is_in_first(
                suite,
                upto,
                #[trigger] exits_in_suite(tokens, suite, upto, jump)[k],
            ),
    decreases height(suite), 0int, upto,
{
    if upto > 0 {
        let stmt = suite.children@[upto - 1];
        let before = exits_in_suite(tokens, suite, upto - 1, jump);
        let last = exits_of(tokens, stmt, jump);
        let all = exits_in_suite(tokens, suite, upto, jump);
        lemma_height_child(suite, upto - 1);
        lemma_exits_differ(tokens, suite, upto - 1, jump);
        lemma_exits_of_differ(tokens, suite, upto - 1, jump);
        assert forall|k: int| 0 <= k < all.len() implies is_in_first(
            suite,
            upto,
            #[trigger] all[k],
        ) by {
            if k < before.len() {
                assert(all[k] == before[k]);
            } else {
                assert(all[k] == last[k - before.len()]);
                assert(suite.children@[upto - 1].range.spec_contains_range(all[k]));
            }
        }
        assert forall|i: int, j: int| 0 <= i < j < all.len() implies (#[trigger] all[i]).start != (
        #[trigger] all[j]).start by {
            if j < before.len() {
                assert(all[i] == before[i] && all[j] == before[j]);
            } else if i < before.len() {
                assert(all[i] == before[i] && all[j] == last[j - before.len()]);
                assert(is_in_first(suite, upto - 1, before[i]));
                let c = choose|c: int|
                    0 <= c < upto - 1 && (
                    #[trigger] suite.children@[c]).range.spec_contains_range(before[i]);
                assert(is_before(suite.children@[c].range, suite.children@[upto - 1].range));
            } else {
                assert(all[i] == last[i - before.len()] && all[j] == last[j - before.len()]);
            }
        }
    }
}

/// Whether `keyword` stands in one of the first `upto` statements of `suite`.
spec fn is_in_first(suite: Node, upto: int, keyword: TextRange) -> bool {
    keyword.start < keyword.end && exists|c: int|
        0 <= c < upto && (#[trigger] suite.children@[c]).range.spec_contains_range(keyword)
}

proof fn lemma_exits_of_differ(tokens: Seq<Token>, suite: Node, i: int, jump: JumpKind)
    requires
        is_laid_out(tokens, suite),
        0 <= i < suite.children@.len(),
    ensures
        starts_differ(exits_of(tokens, suite.children@[i], jump)),
        all_in(exits_of(tokens, suite.children@[i], jump), suite.children@[i].range),
    decreases height(suite.children@[i]), 1int, 0int,
{
    let stmt = suite.children@[i];
    let heads = heads_of(tokens, stmt);
    assert(clauses_laid_out(tokens, stmt) && exit_laid_out(tokens, stmt));
    if leaves(stmt.kind, jump) || is_definition(stmt.kind) {
    } else if is_loop(stmt.kind) && jump == JumpKind::Jump {
        if let Some(orelse) = child_of(stmt, Field::Orelse) {
            if orelse.children@.len() > 0 {
                lemma_height_child_of(stmt, Field::Orelse);
                lemma_height_child(suite, i);
                lemma_block_suites(tokens, stmt, 1);
                assert(heads_of(tokens, suite.children@[i])[1].suite == Some(orelse));
                assert(is_suite_under(tokens, suite, orelse));
                let count = orelse.children@.len() as int;
                lemma_exits_differ(tokens, orelse, count, jump);
                let exits = exits_in_suite(tokens, orelse, count, jump);
                assert(is_inside(heads[1].suite, stmt.range));
                assert forall|k: int| 0 <= k < exits.len() implies (#[trigger] exits[k]).start
                    < exits[k].end && stmt.range.spec_contains_range(exits[k]) by {
                    assert(is_in_first(orelse, count, exits[k]));
                }
            }
        }
    } else {
        lemma_exits_in_heads_differ(tokens, suite, i, heads.len() as int, jump);
        let exits = exits_in_heads(tokens, stmt, heads.len() as int, jump);
        assert forall|k: int| 0 <= k < exits.len() implies (#[trigger] exits[k]).start
            < exits[k].end && stmt.range.spec_contains_range(exits[k]) by {
            let h = choose|h: int|
                0 <= h < heads.len() && is_in_suite((#[trigger] heads[h]).suite, exits[k]);
            assert(is_inside(heads[h].suite, stmt.range));
        }
    }
}

/// Whether `keyword` stands in `suite`.
spec fn is_in_suite(suite: Option<Node>, keyword: TextRange) -> bool {
    match suite {
        Some(suite) => is_in_first(suite, suite.children@.len() as int, keyword),
        None => false,
    }
}

proof fn lemma_exits_in_heads_differ(
    tokens: Seq<Token>,
    suite: Node,
    i: int,
    upto: int,
    jump: JumpKind,
)
    requires
        is_laid_out(tokens, suite),
        0 <= i < suite.children@.len(),
        0 <= upto <= heads_of(tokens, suite.children@[i]).len(),
    ensures
        starts_differ(exits_in_heads(tokens, suite.children@[i], upto, jump)),
        forall|k: int|
            0 <= k < exits_in_heads(tokens, suite.children@[i], upto, jump).len() ==> is_in_heads(
                heads_of(tokens, suite.children@[i]),
                upto,
                #[trigger] exits_in_heads(tokens, suite.children@[i], upto, jump)[k],
            ),
    decreases height(suite.children@[i]), 0int, upto,
{
    if upto > 0 {
        let stmt = suite.children@[i];
        let heads = heads_of(tokens, stmt);
        let before = exits_in_heads(tokens, stmt, upto - 1, jump);
        let all = exits_in_heads(tokens, stmt, upto, jump);
        lemma_exits_in_heads_differ(tokens, suite, i, upto - 1, jump);
        assert(clauses_laid_out(tokens, stmt));
        lemma_head_suites(tokens, stmt, upto - 1);
        lemma_height_child(suite, i);
        match heads[upto - 1].suite {
            Some(inner) => {
                let count = inner.children@.len() as int;
                let last = exits_in_suite(tokens, inner, count, jump);
                assert(heads_of(tokens, suite.children@[i])[upto - 1].suite == Some(inner));
                assert(is_suite_under(tokens, suite, inner));
                lemma_exits_differ(tokens, inner, count, jump);
                assert forall|k: int| 0 <= k < all.len() implies is_in_heads(
                    heads,
                    upto,
                    #[trigger] all[k],
                ) by {
                    if k < before.len() {
                        assert(all[k] == before[k]);
                        assert(is_in_heads(heads, upto - 1, before[k]));
                    } else {
                        assert(all[k] == last[k - before.len()]);
                        assert(is_in_suite(heads[upto - 1].suite, all[k]));
                    }
                }
                assert forall|a: int, b: int| 0 <= a < b < all.len() implies (
                #[trigger] all[a]).start != (#[trigger] all[b]).start by {
                    if b < before.len() {
                        assert(all[a] == before[a] && all[b] == before[b]);
                    } else if a < before.len() {
                        assert(all[a] == before[a] && all[b] == last[b - before.len()]);
                        assert(is_in_heads(heads, upto - 1, before[a]));
                        let h = choose|h: int|
                            0 <= h < upto - 1 && is_in_suite(
                                (#[trigger] heads[h]).suite,
                                before[a],
                            );
                        assert(suites_in_order(heads[h].suite, heads[upto - 1].suite));
                        assert(is_in_first(inner, count, last[b - before.len()]));
                    } else {
                        assert(all[a] == last[a - before.len()] && all[b] == last[b
                            - before.len()]);
                    }
                }
            },
            None => {
                assert(all =~= before);
                assert forall|k: int| 0 <= k < all.len() implies is_in_heads(
                    heads,
                    upto,
                    #[trigger] all[k],
                ) by {
                    assert(is_in_heads(heads, upto - 1, before[k]));
                }
            },
        }
    }
}

/// Whether `keyword` stands in the suite of one of the first `upto` of `heads`.
spec fn is_in_heads(heads: Seq<ClauseHeadModel>, upto: int, keyword: TextRange) -> bool {
    exists|h: int| 0 <= h < upto && is_in_suite((#[trigger] heads[h]).suite, keyword)
}

proof fn lemma_keywords_differ(tokens: Seq<Token>, stmt: Node, upto: int)
    requires
        clauses_laid_out(tokens, stmt),
        0 <= upto <= heads_of(tokens, stmt).len(),
    ensures
        starts_differ(keywords_of(heads_of(tokens, stmt).take(upto))),
        forall|k: int|
            0 <= k < keywords_of(heads_of(tokens, stmt).take(upto)).len() ==> heads_one_of(
                heads_of(tokens, stmt),
                upto,
                #[trigger] keywords_of(heads_of(tokens, stmt).take(upto))[k],
            ),
    decreases upto,
{
    let heads = heads_of(tokens, stmt);
    if upto > 0 {
        let before = keywords_of(heads.take(upto - 1));
        let all = keywords_of(heads.take(upto));
        lemma_keywords_differ(tokens, stmt, upto - 1);
        assert(heads.take(upto).drop_last() =~= heads.take(upto - 1));
        assert(heads.take(upto).last() == heads[upto - 1]);
        assert forall|k: int| 0 <= k < all.len() implies heads_one_of(
            heads,
            upto,
            #[trigger] all[k],
        ) by {
            if k < before.len() {
                assert(all[k] == before[k]);
                assert(heads_one_of(heads, upto - 1, before[k]));
            } else {
                assert(heads[upto - 1].keyword == Some(all[k]));
            }
        }
        assert forall|a: int, b: int| 0 <= a < b < all.len() implies (#[trigger] all[a]).start != (
        #[trigger] all[b]).start by {
            assert(all[a] == before[a]);
            if b < before.len() {
                assert(all[b] == before[b]);
            } else {
                assert(heads_one_of(heads, upto - 1, before[a]));
                let h = choose|h: int|
                    0 <= h < upto - 1 && (#[trigger] heads[h]).keyword == Some(before[a]);
                assert(heads[upto - 1].keyword == Some(all[b]));
                assert(is_before(heads[h].keyword->0, heads[upto - 1].keyword->0));
            }
        }
    }
}

spec fn heads_one_of(heads: Seq<ClauseHeadModel>, upto: int, keyword: TextRange) -> bool {
    exists|h: int| 0 <= h < upto && (#[trigger] heads[h]).keyword == Some(keyword)
}

proof fn lemma_family_differs(tokens: Seq<Token>, suite: Node, block: Node)
    requires
        is_laid_out(tokens, suite),
        reaches(tokens, suite, block),
    ensures
        starts_differ(family_of_block(tokens, block)),
    decreases height(suite),
{
    if suite.children@.contains(block) {
        let i = suite.children@.index_of(block);
        let heads = heads_of(tokens, block);
        let keywords = keywords_of(heads);
        assert(clauses_laid_out(tokens, suite.children@[i]));
        lemma_keywords_differ(tokens, block, heads.len() as int);
        assert(heads.take(heads.len() as int) =~= heads);
        if block.kind is StmtFunctionDef || is_loop(block.kind) {
            let jump = if block.kind is StmtFunctionDef {
                JumpKind::Exit
            } else {
                JumpKind::Jump
            };
            assert(heads.len() > 0);
            lemma_block_suites(tokens, block, 0);
            if let Some(body) = child_of(block, Field::Body) {
                let count = body.children@.len() as int;
                let exits = exits_in_suite(tokens, body, count, jump);
                lemma_height_child(suite, i);
                lemma_height_child_of(block, Field::Body);
                assert(heads_of(tokens, suite.children@[i])[0].suite == Some(body));
                assert(is_suite_under(tokens, suite, body));
                lemma_exits_differ(tokens, body, count, jump);
                let all = keywords + exits;
                assert forall|a: int, b: int| 0 <= a < b < all.len() implies (
                #[trigger] all[a]).start != (#[trigger] all[b]).start by {
                    if b < keywords.len() {
                        assert(all[a] == keywords[a] && all[b] == keywords[b]);
                    } else if a < keywords.len() {
                        assert(all[a] == keywords[a] && all[b] == exits[b - keywords.len()]);
                        assert(heads_one_of(heads, heads.len() as int, keywords[a]));
                        let h = choose|h: int|
                            0 <= h < heads.len() && (#[trigger] heads[h]).keyword == Some(
                                keywords[a],
                            );
                        assert(is_outside(heads[h].keyword->0, heads[0].suite));
                        assert(is_in_first(body, count, exits[b - keywords.len()]));
                    } else {
                        assert(all[a] == exits[a - keywords.len()] && all[b] == exits[b
                            - keywords.len()]);
                    }
                }
            } else {
                assert(family_of_block(tokens, block) =~= keywords);
            }
        }
    } else {
        let inner = choose|inner: Node| #[trigger]
            is_suite_under(tokens, suite, inner) && height(inner) < height(suite) && reaches(
                tokens,
                inner,
                block,
            );
        assert(is_laid_out(tokens, inner));
        lemma_family_differs(tokens, inner, block);
    }
}

proof fn lemma_sorted_starts_differ(ranges: Seq<TextRange>)
    requires
        starts_differ(ranges),
    ensures
        starts_differ(by_start(ranges)),
    decreases ranges.len(),
{
    broadcast use vstd::seq_lib::group_to_multiset_ensures;

    if ranges.len() > 0 {
        let rest = ranges.drop_last();
        let before = by_start(rest);
        let last = ranges.last();
        law_by_start(rest);
        assert forall|i: int, j: int| 0 <= i < j < rest.len() implies (#[trigger] rest[i]).start
            != (#[trigger] rest[j]).start by {
            assert(ranges[i].start != ranges[j].start);
        }
        lemma_sorted_starts_differ(rest);
        lemma_slot(before, last);
        let at = slot(before, last);
        let placed = before.insert(at, last);
        assert forall|k: int| 0 <= k < before.len() implies (#[trigger] before[k]).start
            != last.start by {
            assert(before.contains(before[k]));
            assert(before.to_multiset().count(before[k]) > 0);
            assert(rest.contains(before[k]));
            let r = rest.index_of(before[k]);
            assert(ranges[r].start != ranges[ranges.len() - 1].start);
        }
        assert forall|i: int, j: int| 0 <= i < j < placed.len() implies (
        #[trigger] placed[i]).start != (#[trigger] placed[j]).start by {
            let a = if i < at {
                before[i]
            } else if i == at {
                last
            } else {
                before[i - 1]
            };
            let b = if j < at {
                before[j]
            } else if j == at {
                last
            } else {
                before[j - 1]
            };
            assert(placed[i] == a && placed[j] == b);
        }
    }
}

/// The keywords of a family come in source order, no two at one place.
pub proof fn law_family_ascends(tokens: Seq<Token>, suite: Node, offset: int)
    requires
        is_laid_out(tokens, suite),
        family_at(tokens, suite, offset) is Some,
    ensures
        ({
            let family = by_start(family_at(tokens, suite, offset)->0);
            &&& family.len() >= 2
            &&& forall|i: int, j: int|
                0 <= i < j < family.len() ==> (#[trigger] family[i]).start < (
                #[trigger] family[j]).start
        }),
{
    broadcast use vstd::seq_lib::group_to_multiset_ensures;

    let found = family_at(tokens, suite, offset)->0;
    lemma_found_family_is_of_a_block(
        tokens,
        suite,
        keyword_touching(tokens, offset)->0,
        Seq::empty(),
    );
    let block = choose|block: Node|
        #[trigger] reaches(tokens, suite, block) && found == family_of_block(tokens, block);
    lemma_family_differs(tokens, suite, block);
    lemma_sorted_starts_differ(found);
    law_by_start(found);
    assert(by_start(found).to_multiset().len() == found.to_multiset().len());
}

/// The keyword token touching `offset`, if there is one a family can start from.
pub fn keyword_at(tokens: &Vec<Token>, offset: TextSize) -> (found: Option<TextRange>)
    ensures
        found == keyword_touching(tokens@, offset as int),
{
    let mut i: usize = count_ending_before(tokens, offset);
    let ghost from = tokens@.skip(i as int);
    while i < tokens.len()
        invariant
            i <= tokens.len(),
            from == tokens@.skip(ending_before(tokens@, offset as int)),
            keyword_among(from, offset as int) == keyword_among(
                tokens@.skip(i as int),
                offset as int,
            ),
        decreases tokens.len() - i,
    {
        assert(tokens@.skip(i as int)[0] == tokens@[i as int]);
        assert(tokens@.skip(i as int).skip(1) =~= tokens@.skip(i + 1));
        if tokens[i].range.start > offset {
            return None;
        }
        match tokens[i].kind {
            TokenKind::If
            | TokenKind::Elif
            | TokenKind::Else
            | TokenKind::For
            | TokenKind::While
            | TokenKind::Try
            | TokenKind::Except
            | TokenKind::Finally
            | TokenKind::Match
            | TokenKind::Case
            | TokenKind::Def
            | TokenKind::Return
            | TokenKind::Raise
            | TokenKind::Break
            | TokenKind::Continue => {
                return Some(tokens[i].range);
            },
            _ => {},
        }
        i += 1;
    }
    None
}

fn is_leaving(kind: &NodeKind, jump: JumpKind) -> (is_leaving: bool)
    ensures
        is_leaving == leaves(*kind, jump),
{
    match jump {
        JumpKind::Exit => matches!(kind, NodeKind::StmtReturn | NodeKind::StmtRaise),
        JumpKind::Jump => matches!(kind, NodeKind::StmtBreak { .. } | NodeKind::StmtContinue),
    }
}

fn loops(kind: &NodeKind) -> (loops: bool)
    ensures
        loops == is_loop(*kind),
{
    matches!(kind, NodeKind::StmtFor { .. } | NodeKind::StmtWhile)
}

/// The innermost block of `path` that a statement of `jump` leaves.
fn block_left<'s>(path: &Vec<Enclosing<'s>>, jump: JumpKind) -> (block: Option<&'s Node>)
    ensures
        node_in(block) == left_block(enclosing_models(path@), jump),
{
    let ghost all = enclosing_models(path@);
    let mut left: usize = path.len();
    assert(all.take(left as int) =~= all);
    while left > 0
        invariant
            left <= path.len(),
            all == enclosing_models(path@),
            left_block(all, jump) == left_block(all.take(left as int), jump),
        decreases left,
    {
        assert(all.take(left as int).drop_last() =~= all.take(left - 1));
        let block = &path[left - 1];
        assert(all.take(left as int).last() == block@);
        let is_function = matches!(block.stmt.kind, NodeKind::StmtFunctionDef { .. });
        let is_class = matches!(block.stmt.kind, NodeKind::StmtClassDef { .. });
        match jump {
            JumpKind::Exit => {
                if is_function {
                    return Some(block.stmt);
                }
                if is_class {
                    return None;
                }
            },
            JumpKind::Jump => {
                if block.in_body && loops(&block.stmt.kind) {
                    return Some(block.stmt);
                }
                if is_function || is_class {
                    return None;
                }
            },
        }
        left -= 1;
    }
    None
}

fn push_keyword(found: &mut Vec<TextRange>, keyword: Option<TextRange>)
    ensures
        final(found)@ == old(found)@ + as_keywords(keyword),
{
    if let Some(keyword) = keyword {
        found.push(keyword);
    }
    assert(found@ =~= old(found)@ + as_keywords(keyword));
}

impl<'a> OutlineBuilder<'a> {
    /// The exits of `jump` in `suite`, not counting those inside a nested block that owns them.
    fn exits_in(&self, suite: &Node, jump: JumpKind, found: &mut Vec<TextRange>)
        ensures
            final(found)@ == old(found)@ + exits_in_suite(
                self.tokens@,
                *suite,
                suite.children@.len() as int,
                jump,
            ),
        decreases height(*suite), 0int,
    {
        let ghost start = found@;
        let mut i: usize = 0;
        assert(found@ =~= start + exits_in_suite(self.tokens@, *suite, 0, jump));
        while i < suite.children.len()
            invariant
                i <= suite.children.len(),
                found@ == start + exits_in_suite(self.tokens@, *suite, i as int, jump),
            decreases suite.children.len() - i,
        {
            proof {
                lemma_height_child(*suite, i as int);
            }
            let ghost before = found@;
            let stmt = &suite.children[i];
            self.exits_at(stmt, jump, found);
            assert(found@ =~= start + (exits_in_suite(self.tokens@, *suite, i as int, jump)
                + exits_of(self.tokens@, *stmt, jump)));
            i += 1;
        }
    }

    /// The exits of `jump` in `stmt`.
    fn exits_at(&self, stmt: &Node, jump: JumpKind, found: &mut Vec<TextRange>)
        ensures
            final(found)@ == old(found)@ + exits_of(self.tokens@, *stmt, jump),
        decreases height(*stmt), 1int,
    {
        let ghost start = found@;
        if is_leaving(&stmt.kind, jump) {
            push_keyword(found, token_at(self.tokens, stmt.range.start));
            return;
        }
        if matches!(
            stmt.kind,
            NodeKind::StmtFunctionDef { .. } | NodeKind::StmtClassDef { .. }
        ) {
            assert(found@ =~= start + Seq::<TextRange>::empty());
            return;
        }
        if matches!(jump, JumpKind::Jump) && loops(&stmt.kind) {
            proof {
                lemma_height_child_of(*stmt, Field::Orelse);
            }
            if let Some(orelse) = stmt.child(Field::Orelse) {
                self.exits_in(orelse, jump, found);
            }
            assert(found@ =~= start + exits_of(self.tokens@, *stmt, jump));
            return;
        }
        let heads = self.clause_heads(stmt);
        let ghost all = heads_of(self.tokens@, *stmt);
        let mut i: usize = 0;
        assert(found@ =~= start + exits_in_heads(self.tokens@, *stmt, 0, jump));
        while i < heads.len()
            invariant
                i <= heads.len(),
                head_models(heads@) == all,
                all == heads_of(self.tokens@, *stmt),
                found@ == start + exits_in_heads(self.tokens@, *stmt, i as int, jump),
            decreases heads.len() - i,
        {
            proof {
                lemma_head_suites(self.tokens@, *stmt, i as int);
            }
            let ghost before = found@;
            assert(all[i as int] == heads@[i as int]@);
            if let Some(suite) = heads[i].suite {
                self.exits_in(suite, jump, found);
            }
            assert(found@ =~= start + exits_in_heads(self.tokens@, *stmt, i + 1, jump));
            i += 1;
        }
    }

    /// What lights up with one of `stmt`'s own clause keywords.
    fn own_family(&self, stmt: &Node) -> (family: Vec<TextRange>)
        ensures
            family@ == family_of_block(self.tokens@, *stmt),
    {
        let heads = self.clause_heads(stmt);
        let ghost all = heads_of(self.tokens@, *stmt);
        let mut family: Vec<TextRange> = Vec::new();
        let mut i: usize = 0;
        assert(family@ =~= keywords_of(all.take(0)));
        while i < heads.len()
            invariant
                i <= heads.len(),
                head_models(heads@) == all,
                family@ == keywords_of(all.take(i as int)),
            decreases heads.len() - i,
        {
            assert(all.take(i + 1).drop_last() =~= all.take(i as int));
            assert(all.take(i + 1).last() == heads@[i as int]@);
            push_keyword(&mut family, heads[i].keyword);
            i += 1;
        }
        assert(all.take(i as int) =~= all);
        let ghost keywords = family@;
        let jump = match &stmt.kind {
            NodeKind::StmtFunctionDef { .. } => JumpKind::Exit,
            NodeKind::StmtFor { .. } | NodeKind::StmtWhile => JumpKind::Jump,
            _ => {
                return family;
            },
        };
        if let Some(body) = stmt.child(Field::Body) {
            self.exits_in(body, jump, &mut family);
        }
        assert(family@ =~= keywords + body_exits(self.tokens@, *stmt, jump));
        family
    }

    fn family_of_left(&self, path: &Vec<Enclosing<'_>>, jump: JumpKind) -> (family: Option<
        Vec<TextRange>,
    >)
        ensures
            ranges_in(family) == family_left(self.tokens@, enclosing_models(path@), jump),
    {
        match block_left(path, jump) {
            Some(block) => Some(self.own_family(block)),
            None => None,
        }
    }

    /// The family of `keyword` among `suite` and everything nested in it. `path` holds the
    /// blocks enclosing `suite`, innermost last.
    fn family<'s>(
        &self,
        suite: &'s Node,
        keyword: TextRange,
        path: &mut Vec<Enclosing<'s>>,
    ) -> (family: Option<Vec<TextRange>>)
        ensures
            ranges_in(family) == family_in(
                self.tokens@,
                *suite,
                keyword,
                enclosing_models(old(path)@),
            ),
            final(path)@ == old(path)@,
        decreases height(*suite),
    {
        let ghost outer = path@;
        let ghost statements = suite.children@;
        let mut i: usize = 0;
        assert(statements.skip(0) =~= statements);
        while i < suite.children.len() && !suite.children[i].range.contains_range(keyword)
            invariant
                i <= suite.children.len(),
                statements == suite.children@,
                first_around(statements, keyword) == first_around(
                    statements.skip(i as int),
                    keyword,
                ),
            decreases suite.children.len() - i,
        {
            assert(statements.skip(i as int)[0] == statements[i as int]);
            assert(statements.skip(i as int).skip(1) =~= statements.skip(i + 1));
            i += 1;
        }
        if i == suite.children.len() {
            return None;
        }
        assert(statements.skip(i as int)[0] == statements[i as int]);
        let stmt = &suite.children[i];
        proof {
            lemma_around_height(*suite, keyword);
        }
        if stmt.range.start == keyword.start {
            if is_leaving(&stmt.kind, JumpKind::Exit) {
                return self.family_of_left(path, JumpKind::Exit);
            }
            if is_leaving(&stmt.kind, JumpKind::Jump) {
                return self.family_of_left(path, JumpKind::Jump);
            }
        }
        let heads = self.clause_heads(stmt);
        let ghost all = heads_of(self.tokens@, *stmt);
        let mut j: usize = 0;
        while j < heads.len()
            invariant
                j <= heads.len(),
                head_models(heads@) == all,
                all == heads_of(self.tokens@, *stmt),
                path@ == outer,
                outer == old(path)@,
                forall|k: int| 0 <= k < j ==> (#[trigger] all[k]).keyword != Some(keyword),
                heads_a_clause(all, keyword) ==> family_in(
                    self.tokens@,
                    *suite,
                    keyword,
                    enclosing_models(outer),
                ) == Some(family_of_block(self.tokens@, *stmt)),
            decreases heads.len() - j,
        {
            assert(all[j as int] == heads@[j as int]@);
            if let Some(own) = heads[j].keyword {
                if own.start == keyword.start && own.end == keyword.end {
                    return Some(self.own_family(stmt));
                }
            }
            j += 1;
        }
        assert(!heads_a_clause(all, keyword));
        let mut k: usize = 0;
        while k < heads.len()
            invariant
                k <= heads.len(),
                head_models(heads@) == all,
                all == heads_of(self.tokens@, *stmt),
                path@ == outer,
                outer == old(path)@,
                height(*stmt) < height(*suite),
                family_in(self.tokens@, *suite, keyword, enclosing_models(outer))
                    == family_in_heads(
                    self.tokens@,
                    *stmt,
                    k as int,
                    keyword,
                    enclosing_models(outer),
                ),
            decreases heads.len() - k,
        {
            proof {
                lemma_head_suites(self.tokens@, *stmt, k as int);
            }
            assert(all[k as int] == heads@[k as int]@);
            if let Some(inner) = heads[k].suite {
                let block = Enclosing { stmt, in_body: k == 0 };
                path.push(block);
                assert(enclosing_models(path@) =~= enclosing_models(outer).push(block@));
                let found = self.family(inner, keyword, path);
                path.pop();
                assert(path@ =~= outer);
                if found.is_some() {
                    return found;
                }
            }
            k += 1;
        }
        None
    }
}

/// The ranges in `found`, as a mathematical value.
pub open spec fn ranges_in(found: Option<Vec<TextRange>>) -> Option<Seq<TextRange>> {
    match found {
        Some(ranges) => Some(ranges@),
        None => None,
    }
}

/// `ranges` by where they start.
fn sort_by_start(ranges: &Vec<TextRange>) -> (sorted: Vec<TextRange>)
    ensures
        sorted@ == by_start(ranges@),
{
    let mut sorted: Vec<TextRange> = Vec::new();
    let mut i: usize = 0;
    while i < ranges.len()
        invariant
            i <= ranges.len(),
            sorted@ == by_start(ranges@.take(i as int)),
        decreases ranges.len() - i,
    {
        assert(ranges@.take(i + 1).drop_last() =~= ranges@.take(i as int));
        assert(ranges@.take(i + 1).last() == ranges@[i as int]);
        let range = ranges[i];
        let mut at: usize = sorted.len();
        assert(sorted@.take(at as int) =~= sorted@);
        while at > 0 && sorted[at - 1].start > range.start
            invariant
                at <= sorted.len(),
                slot(sorted@, range) == slot(sorted@.take(at as int), range),
            decreases at,
        {
            assert(sorted@.take(at as int).drop_last() =~= sorted@.take(at - 1));
            assert(sorted@.take(at as int).last() == sorted@[at - 1]);
            at -= 1;
        }
        assert(at > 0 ==> sorted@.take(at as int).last() == sorted@[at - 1]);
        sorted.insert(at, range);
        i += 1;
    }
    assert(ranges@.take(i as int) =~= ranges@);
    sorted
}

/// The keywords that light up together with the keyword at `offset`, in source order.
///
/// `None` when `offset` is not on such a keyword, or the keyword has nothing to pair with.
pub fn keyword_family(file: &ParsedFile, offset: TextSize) -> (family: Option<Vec<TextRange>>)
    ensures
        match family {
            Some(family) => {
                &&& family_at(file.tokens@, file.suite, offset as int) matches Some(found)
                &&& family@ == by_start(found)
                &&& is_by_start(family@)
                &&& family@.to_multiset() =~= found.to_multiset()
                &&& family.len() >= 2
            },
            None => family_at(file.tokens@, file.suite, offset as int) is None,
        },
{
    let keyword = match keyword_at(&file.tokens, offset) {
        Some(keyword) => keyword,
        None => {
            return None;
        },
    };
    let builder = OutlineBuilder { source: file.source.as_str(), tokens: &file.tokens };
    let mut path: Vec<Enclosing<'_>> = Vec::new();
    assert(enclosing_models(path@) =~= Seq::empty());
    match builder.family(&file.suite, keyword, &mut path) {
        Some(family) => {
            if family.len() < 2 {
                return None;
            }
            proof {
                law_by_start(family@);
            }
            Some(sort_by_start(&family))
        },
        None => None,
    }
}

/// Whether what leaves a block of the kind `jump` leaves may be in `suite` of `stmt` and leave one
/// around `stmt`: `stmt` is no function or class and, if it is a loop that is left, `suite` is the
/// `else` of `stmt` when that is a loop.
pub open spec fn is_left_through(tokens: Seq<Token>, stmt: Node, suite: Node, jump: JumpKind) -> bool {
    if jump == JumpKind::Jump && (stmt.kind is StmtFor || stmt.kind is StmtWhile) {
        child_of(stmt, Field::Orelse) == Some(suite)
    } else {
        is_suite_of(tokens, stmt, suite) && !(stmt.kind is StmtFunctionDef) && !(stmt.kind
            is StmtClassDef)
    }
}

/// Whether `path` goes on from a statement to one of a suite that it may be left through.
pub open spec fn is_left_link(tokens: Seq<Token>, path: Seq<Node>, k: int, jump: JumpKind) -> bool {
    exists|suite: Node|
        #[trigger] is_left_through(tokens, path[k], suite, jump) && suite.children@.contains(
            path[k + 1],
        )
}

proof fn lemma_exits_of_suite(tokens: Seq<Token>, suite: Node, upto: int, jump: JumpKind, i: int)
    requires
        0 <= i < upto <= suite.children@.len(),
    ensures
        forall|keyword: TextRange|
            exits_of(tokens, suite.children@[i], jump).contains(keyword)
                ==> #[trigger] exits_in_suite(tokens, suite, upto, jump).contains(keyword),
    decreases upto,
{
    let before = exits_in_suite(tokens, suite, upto - 1, jump);
    let last = exits_of(tokens, suite.children@[upto - 1], jump);
    let all = exits_in_suite(tokens, suite, upto, jump);
    assert(all == before + last);
    if i < upto - 1 {
        lemma_exits_of_suite(tokens, suite, upto - 1, jump, i);
    }
    assert forall|keyword: TextRange|
        exits_of(tokens, suite.children@[i], jump).contains(keyword) implies #[trigger] all.contains(
        keyword,
    ) by {
        if i < upto - 1 {
            assert(before.contains(keyword));
            let k = before.index_of(keyword);
            assert(all[k] == keyword);
        } else {
            let k = last.index_of(keyword);
            assert(all[before.len() + k] == keyword);
        }
    }
}

proof fn lemma_exits_of_head(tokens: Seq<Token>, stmt: Node, upto: int, jump: JumpKind, h: int, suite: Node)
    requires
        0 <= h < upto <= heads_of(tokens, stmt).len(),
        heads_of(tokens, stmt)[h].suite == Some(suite),
    ensures
        forall|keyword: TextRange|
            exits_in_suite(tokens, suite, suite.children@.len() as int, jump).contains(keyword)
                ==> #[trigger] exits_in_heads(tokens, stmt, upto, jump).contains(keyword),
    decreases upto,
{
    let part = exits_in_suite(tokens, suite, suite.children@.len() as int, jump);
    let before = exits_in_heads(tokens, stmt, upto - 1, jump);
    let all = exits_in_heads(tokens, stmt, upto, jump);
    if h < upto - 1 {
        lemma_exits_of_head(tokens, stmt, upto - 1, jump, h, suite);
    }
    assert forall|keyword: TextRange| part.contains(keyword) implies #[trigger] all.contains(
        keyword,
    ) by {
        if h < upto - 1 {
            assert(before.contains(keyword));
            let k = before.index_of(keyword);
            assert(all[k] == keyword);
        } else {
            let k = part.index_of(keyword);
            assert(all[before.len() + k] == keyword);
        }
    }
}

proof fn lemma_exit_along(tokens: Seq<Token>, path: Seq<Node>, jump: JumpKind, keyword: TextRange)
    requires
        path.len() > 0,
        forall|k: int| 0 <= k < path.len() - 1 ==> #[trigger] is_left_link(tokens, path, k, jump),
        leaves(path.last().kind, jump),
        token_starting(tokens, path.last().range.start as int) == Some(keyword),
    ensures
        exits_of(tokens, path[0], jump).contains(keyword),
    decreases path.len(),
{
    let stmt = path[0];
    if path.len() > 1 {
        let rest = path.skip(1);
        assert(is_left_link(tokens, path, 0, jump));
        let suite = choose|suite: Node|
            #[trigger] is_left_through(tokens, path[0], suite, jump) && suite.children@.contains(
                path[1],
            );
        assert forall|k: int| 0 <= k < rest.len() - 1 implies #[trigger] is_left_link(
            tokens,
            rest,
            k,
            jump,
        ) by {
            assert(is_left_link(tokens, path, k + 1, jump));
            assert(rest[k] == path[k + 1]);
            assert(rest[k + 1] == path[k + 2]);
        }
        assert(rest.last() == path.last());
        assert(rest[0] == path[1]);
        lemma_exit_along(tokens, rest, jump, keyword);
        let i = suite.children@.index_of(path[1]);
        lemma_exits_of_suite(tokens, suite, suite.children@.len() as int, jump, i);
        assert(exits_in_suite(tokens, suite, suite.children@.len() as int, jump).contains(keyword));
        if !(is_loop(stmt.kind) && jump == JumpKind::Jump) {
            let h = law_every_suite_is_a_clause(tokens, stmt, suite);
            lemma_exits_of_head(
                tokens,
                stmt,
                heads_of(tokens, stmt).len() as int,
                jump,
                h,
                suite,
            );
            assert(exits_in_heads(
                tokens,
                stmt,
                heads_of(tokens, stmt).len() as int,
                jump,
            ).contains(keyword));
        }
    } else {
        assert(exits_of(tokens, stmt, jump)[0] == keyword);
    }
}

/// Every `return` and `raise` lights up with the function it leaves, and every `break` and
/// `continue` with its loop, however many other statements it is in: `block` is the function or
/// the loop, and the statements of `path` lead from its body to the keyword's.
pub proof fn law_exits_light_up_with_their_block(
    tokens: Seq<Token>,
    block: Node,
    body: Node,
    path: Seq<Node>,
    jump: JumpKind,
    keyword: TextRange,
)
    requires
        match jump {
            JumpKind::Exit => block.kind is StmtFunctionDef,
            JumpKind::Jump => block.kind is StmtFor || block.kind is StmtWhile,
        },
        child_of(block, Field::Body) == Some(body),
        path.len() > 0,
        body.children@.contains(path[0]),
        forall|k: int| 0 <= k < path.len() - 1 ==> #[trigger] is_left_link(tokens, path, k, jump),
        match jump {
            JumpKind::Exit => path.last().kind is StmtReturn || path.last().kind is StmtRaise,
            JumpKind::Jump => path.last().kind is StmtBreak || path.last().kind is StmtContinue,
        },
        token_starting(tokens, path.last().range.start as int) == Some(keyword),
    ensures
        family_of_block(tokens, block).contains(keyword),
{
    lemma_exit_along(tokens, path, jump, keyword);
    let i = body.children@.index_of(path[0]);
    lemma_exits_of_suite(tokens, body, body.children@.len() as int, jump, i);
    let exits = body_exits(tokens, block, jump);
    assert(exits.contains(keyword));
    let k = exits.index_of(keyword);
    let keywords = keywords_of(heads_of(tokens, block));
    assert(family_of_block(tokens, block)[keywords.len() + k] == keyword);
}

/// The keyword of every clause of a statement lights up with the others of it.
pub proof fn law_clauses_light_up_together(tokens: Seq<Token>, stmt: Node, h: int, keyword: TextRange)
    requires
        0 <= h < heads_of(tokens, stmt).len(),
        heads_of(tokens, stmt)[h].keyword == Some(keyword),
    ensures
        family_of_block(tokens, stmt).contains(keyword),
{
    let keywords = keywords_of(heads_of(tokens, stmt));
    lemma_keyword_of(heads_of(tokens, stmt), h, keyword);
    let k = keywords.index_of(keyword);
    assert(family_of_block(tokens, stmt)[k] == keyword);
}

proof fn lemma_keyword_of(heads: Seq<ClauseHeadModel>, h: int, keyword: TextRange)
    requires
        0 <= h < heads.len(),
        heads[h].keyword == Some(keyword),
    ensures
        keywords_of(heads).contains(keyword),
    decreases heads.len(),
{
    let all = keywords_of(heads);
    let before = keywords_of(heads.drop_last());
    if h < heads.len() - 1 {
        assert(heads.drop_last()[h] == heads[h]);
        lemma_keyword_of(heads.drop_last(), h, keyword);
        let k = before.index_of(keyword);
        assert(all[k] == keyword);
    } else {
        assert(all[before.len() as int] == keyword);
    }
}

/// Whether `path` leads from a statement to the one that `keyword` starts, which leaves a block
/// around them all.
pub open spec fn is_exit_path(
    tokens: Seq<Token>,
    path: Seq<Node>,
    jump: JumpKind,
    keyword: TextRange,
) -> bool {
    &&& path.len() > 0
    &&& forall|k: int| 0 <= k < path.len() - 1 ==> #[trigger] is_left_link(tokens, path, k, jump)
    &&& leaves(path.last().kind, jump)
    &&& token_starting(tokens, path.last().range.start as int) == Some(keyword)
}

proof fn lemma_exit_path_onto(
    tokens: Seq<Token>,
    stmt: Node,
    suite: Node,
    rest: Seq<Node>,
    jump: JumpKind,
    keyword: TextRange,
)
    requires
        is_exit_path(tokens, rest, jump, keyword),
        is_left_through(tokens, stmt, suite, jump),
        suite.children@.contains(rest[0]),
    ensures
        is_exit_path(tokens, seq![stmt] + rest, jump, keyword),
{
    let path = seq![stmt] + rest;
    assert forall|k: int| 0 <= k < path.len() - 1 implies #[trigger] is_left_link(
        tokens,
        path,
        k,
        jump,
    ) by {
        assert(path[k + 1] == rest[k]);
        if k > 0 {
            assert(path[k] == rest[k - 1]);
            assert(is_left_link(tokens, rest, k - 1, jump));
            let inner = choose|inner: Node|
                #[trigger] is_left_through(tokens, rest[k - 1], inner, jump)
                    && inner.children@.contains(rest[k]);
            assert(is_left_through(tokens, path[k], inner, jump));
        } else {
            assert(is_left_through(tokens, path[0], suite, jump));
        }
    }
    assert(path.last() == rest.last());
}

proof fn lemma_exit_led_to(tokens: Seq<Token>, stmt: Node, jump: JumpKind, keyword: TextRange) -> (path: Seq<
    Node,
>)
    requires
        exits_of(tokens, stmt, jump).contains(keyword),
    ensures
        is_exit_path(tokens, path, jump, keyword),
        path[0] == stmt,
    decreases height(stmt), 1int, 0int,
{
    if leaves(stmt.kind, jump) {
        assert(seq![stmt].last() == stmt);
        seq![stmt]
    } else if is_loop(stmt.kind) && jump == JumpKind::Jump {
        let orelse = child_of(stmt, Field::Orelse)->0;
        lemma_height_child_of(stmt, Field::Orelse);
        let rest = lemma_exit_led_to_in_suite(
            tokens,
            orelse,
            orelse.children@.len() as int,
            jump,
            keyword,
        );
        lemma_exit_path_onto(tokens, stmt, orelse, rest, jump, keyword);
        seq![stmt] + rest
    } else {
        lemma_exit_led_to_in_heads(
            tokens,
            stmt,
            heads_of(tokens, stmt).len() as int,
            jump,
            keyword,
        )
    }
}

proof fn lemma_exit_led_to_in_suite(
    tokens: Seq<Token>,
    suite: Node,
    upto: int,
    jump: JumpKind,
    keyword: TextRange,
) -> (path: Seq<Node>)
    requires
        upto <= suite.children@.len(),
        exits_in_suite(tokens, suite, upto, jump).contains(keyword),
    ensures
        is_exit_path(tokens, path, jump, keyword),
        suite.children@.contains(path[0]),
    decreases height(suite), 0int, upto,
{
    assert(0 < upto);
    let before = exits_in_suite(tokens, suite, upto - 1, jump);
    let last = exits_of(tokens, suite.children@[upto - 1], jump);
    let all = exits_in_suite(tokens, suite, upto, jump);
    assert(all == before + last);
    let k = all.index_of(keyword);
    if k < before.len() {
        assert(before[k] == keyword);
        lemma_exit_led_to_in_suite(tokens, suite, upto - 1, jump, keyword)
    } else {
        assert(last[k - before.len()] == keyword);
        lemma_height_child(suite, upto - 1);
        lemma_exit_led_to(tokens, suite.children@[upto - 1], jump, keyword)
    }
}

proof fn lemma_exit_led_to_in_heads(
    tokens: Seq<Token>,
    stmt: Node,
    upto: int,
    jump: JumpKind,
    keyword: TextRange,
) -> (path: Seq<Node>)
    requires
        upto <= heads_of(tokens, stmt).len(),
        !is_definition(stmt.kind),
        !(is_loop(stmt.kind) && jump == JumpKind::Jump),
        exits_in_heads(tokens, stmt, upto, jump).contains(keyword),
    ensures
        is_exit_path(tokens, path, jump, keyword),
        path[0] == stmt,
    decreases height(stmt), 0int, upto,
{
    assert(0 < upto);
    let before = exits_in_heads(tokens, stmt, upto - 1, jump);
    let all = exits_in_heads(tokens, stmt, upto, jump);
    let k = all.index_of(keyword);
    if k < before.len() {
        assert(before[k] == keyword);
        lemma_exit_led_to_in_heads(tokens, stmt, upto - 1, jump, keyword)
    } else {
        let suite = heads_of(tokens, stmt)[upto - 1].suite->0;
        let last = exits_in_suite(tokens, suite, suite.children@.len() as int, jump);
        assert(last[k - before.len()] == keyword);
        lemma_head_suites(tokens, stmt, upto - 1);
        law_every_clause_heads_a_suite(tokens, stmt, upto - 1);
        let rest = lemma_exit_led_to_in_suite(
            tokens,
            suite,
            suite.children@.len() as int,
            jump,
            keyword,
        );
        lemma_exit_path_onto(tokens, stmt, suite, rest, jump, keyword);
        seq![stmt] + rest
    }
}

proof fn lemma_keyword_heads(heads: Seq<ClauseHeadModel>, keyword: TextRange) -> (h: int)
    requires
        keywords_of(heads).contains(keyword),
    ensures
        0 <= h < heads.len(),
        heads[h].keyword == Some(keyword),
    decreases heads.len(),
{
    let all = keywords_of(heads);
    let before = keywords_of(heads.drop_last());
    let k = all.index_of(keyword);
    if k < before.len() {
        assert(before[k] == keyword);
        let h = lemma_keyword_heads(heads.drop_last(), keyword);
        assert(heads.drop_last()[h] == heads[h]);
        h
    } else {
        assert(as_keywords(heads.last().keyword)[k - before.len()] == keyword);
        heads.len() - 1
    }
}

/// Whether `keyword` starts a statement in `body` that leaves the block of that body.
pub open spec fn is_exit_in(
    tokens: Seq<Token>,
    body: Node,
    jump: JumpKind,
    keyword: TextRange,
) -> bool {
    exists|path: Seq<Node>|
        #[trigger] is_exit_path(tokens, path, jump, keyword) && body.children@.contains(path[0])
}

/// Nothing else lights up with a block: what does is the keyword of one of its clauses or, of a
/// function, a `return` or a `raise` that leaves it and, of a loop, a `break` or a `continue` of
/// its body that leaves no loop inside.
pub proof fn law_only_exits_light_up_with_a_block(tokens: Seq<Token>, block: Node, keyword: TextRange)
    requires
        family_of_block(tokens, block).contains(keyword),
        !heads_a_clause(heads_of(tokens, block), keyword),
    ensures
        block.kind is StmtFunctionDef || block.kind is StmtFor || block.kind is StmtWhile,
        child_of(block, Field::Body) is Some,
        is_exit_in(
            tokens,
            child_of(block, Field::Body)->0,
            if block.kind is StmtFunctionDef {
                JumpKind::Exit
            } else {
                JumpKind::Jump
            },
            keyword,
        ),
{
    let jump = if block.kind is StmtFunctionDef {
        JumpKind::Exit
    } else {
        JumpKind::Jump
    };
    let keywords = keywords_of(heads_of(tokens, block));
    let all = family_of_block(tokens, block);
    let k = all.index_of(keyword);
    if k < keywords.len() {
        assert(keywords[k] == keyword);
        let h = lemma_keyword_heads(heads_of(tokens, block), keyword);
        assert(heads_of(tokens, block)[h].keyword == Some(keyword));
    } else {
        let exits = body_exits(tokens, block, jump);
        assert(exits[k - keywords.len()] == keyword);
        let body = child_of(block, Field::Body)->0;
        assert(exits.contains(keyword));
        let path = lemma_exit_led_to_in_suite(
            tokens,
            body,
            body.children@.len() as int,
            jump,
            keyword,
        );
        assert(is_exit_path(tokens, path, jump, keyword) && body.children@.contains(path[0]));
    }
}

} // verus!

//! Locating statements in their suites and spelling the edits that move them.

use crate::edit::{deleting, replacing, Edit, EditModel};
use crate::node::{
    child_of, children_of, first_around, height, lemma_first_around, lemma_height_child,
    lemma_height_child_of, lemma_height_children_of, lemma_is_filling, node_in, Field, Node,
    NodeKind,
};
use crate::refactor::context::{
    lemma_placed_child, lemma_placed_child_of, lemma_placed_children_of, placed, RefactorContext,
};
use crate::source::{
    all_space, breaks_line, bytes_of, code_start, contains_line_break, full_line_end,
    full_line_end_of, indentation_at_offset, is_line_break, is_offset, is_source, is_span,
    lemma_line_break_offsets, lemma_line_end, lemma_line_start, line_end, line_end_of, line_start,
    line_start_of, slice, text_of, trim_whitespace, trim_whitespace_start, trimmed, trimmed_start,
};
use crate::strings::owned;
use crate::text_size::{TextRange, TextSize};
use vstd::prelude::*;
use vstd::string::StrSliceExecFns;

verus! {

broadcast use {
    lemma_height_child_of,
    lemma_height_children_of,
    lemma_placed_child_of,
    lemma_placed_children_of,
};

/// A statement together with the suite it is written in.
#[derive(Debug, Clone, Copy)]
pub struct InSuite<'a> {
    pub suite: &'a Node,
    pub index: usize,
}

/// An [`InSuite`] as a mathematical value.
pub ghost struct InSuiteModel {
    pub suite: Node,
    pub index: int,
}

impl<'a> View for InSuite<'a> {
    type V = InSuiteModel;

    open spec fn view(&self) -> InSuiteModel {
        InSuiteModel { suite: *self.suite, index: self.index as int }
    }
}

impl InSuiteModel {
    pub open spec fn wf(self) -> bool {
        0 <= self.index < self.suite.children@.len()
    }

    pub open spec fn statement(self) -> Node {
        self.suite.children@[self.index]
    }

    pub open spec fn next(self) -> Option<Node> {
        if self.index + 1 < self.suite.children@.len() {
            Some(self.suite.children@[self.index + 1])
        } else {
            None
        }
    }
}

impl<'a> InSuite<'a> {
    pub fn statement(&self) -> (statement: &'a Node)
        requires
            self@.wf(),
        ensures
            *statement == self@.statement(),
    {
        &self.suite.children[self.index]
    }

    pub fn next(&self) -> (next: Option<&'a Node>)
        requires
            self@.wf(),
        ensures
            node_in(next) == self@.next(),
    {
        if self.suite.children.len() - self.index > 1 {
            Some(&self.suite.children[self.index + 1])
        } else {
            None
        }
    }
}

pub open spec fn if_any(node: Option<Node>) -> Seq<Node> {
    match node {
        Some(node) => seq![node],
        None => Seq::empty(),
    }
}

/// The suites of clauses, in order.
pub open spec fn suites_of_each(clauses: Seq<Node>) -> Seq<Node>
    decreases clauses.len(),
{
    if clauses.len() == 0 {
        Seq::empty()
    } else {
        suites_of_each(clauses.drop_last()) + if_any(child_of(clauses.last(), Field::Body))
    }
}

/// The suites written directly inside `statement`.
pub open spec fn suites_in(statement: Node) -> Seq<Node> {
    match statement.kind {
        NodeKind::StmtFunctionDef { .. }
        | NodeKind::StmtClassDef { .. }
        | NodeKind::StmtWith { .. } => if_any(child_of(statement, Field::Body)),
        NodeKind::StmtFor { .. } | NodeKind::StmtWhile => if_any(child_of(statement, Field::Body))
            + if_any(child_of(statement, Field::Orelse)),
        NodeKind::StmtIf { .. } => if_any(child_of(statement, Field::Body)) + suites_of_each(
            children_of(statement, Field::ElifElse),
        ),
        NodeKind::StmtMatch => suites_of_each(children_of(statement, Field::Case)),
        NodeKind::StmtTry => if_any(child_of(statement, Field::Body)) + suites_of_each(
            children_of(statement, Field::Handler),
        ) + if_any(child_of(statement, Field::Orelse)) + if_any(
            child_of(statement, Field::Finalbody),
        ),
        NodeKind::StmtLet => if_any(child_of(statement, Field::Orelse)),
        _ => Seq::empty(),
    }
}

proof fn lemma_suites_of_each(clauses: Seq<Node>, i: int) -> (k: int)
    requires
        0 <= i < suites_of_each(clauses).len(),
    ensures
        0 <= k < clauses.len(),
        child_of(clauses[k], Field::Body) == Some(suites_of_each(clauses)[i]),
    decreases clauses.len(),
{
    let before = suites_of_each(clauses.drop_last());
    if i < before.len() {
        let k = lemma_suites_of_each(clauses.drop_last(), i);
        assert(clauses.drop_last()[k] == clauses[k]);
        assert(suites_of_each(clauses)[i] == before[i]);
        k
    } else {
        assert(suites_of_each(clauses)[i] == if_any(child_of(clauses.last(), Field::Body))[i
            - before.len()]);
        clauses.len() - 1
    }
}

/// A nested suite fills a field of the statement, or the body of one of its clauses.
pub(crate) proof fn lemma_suite_in(statement: Node, i: int)
    requires
        0 <= i < suites_in(statement).len(),
    ensures
        ({
            let suite = suites_in(statement)[i];
            ||| exists|field: Field| #[trigger] child_of(statement, field) == Some(suite)
            ||| exists|field: Field, k: int|
                0 <= k < children_of(statement, field).len() && child_of(
                    #[trigger] children_of(statement, field)[k],
                    Field::Body,
                ) == Some(suite)
        }),
{
    let suite = suites_in(statement)[i];
    match statement.kind {
        NodeKind::StmtIf { .. } => {
            let first = if_any(child_of(statement, Field::Body));
            let clauses = children_of(statement, Field::ElifElse);
            if i >= first.len() {
                assert(suite == suites_of_each(clauses)[i - first.len()]);
                let k = lemma_suites_of_each(clauses, i - first.len());
                assert(children_of(statement, Field::ElifElse)[k] == clauses[k]);
            } else {
                assert(child_of(statement, Field::Body) == Some(suite));
            }
        },
        NodeKind::StmtMatch => {
            let clauses = children_of(statement, Field::Case);
            let k = lemma_suites_of_each(clauses, i);
            assert(children_of(statement, Field::Case)[k] == clauses[k]);
        },
        NodeKind::StmtTry => {
            let first = if_any(child_of(statement, Field::Body));
            let clauses = children_of(statement, Field::Handler);
            let handled = suites_of_each(clauses);
            let orelse = if_any(child_of(statement, Field::Orelse));
            if i < first.len() {
                assert(child_of(statement, Field::Body) == Some(suite));
            } else if i < first.len() + handled.len() {
                assert(suite == handled[i - first.len()]);
                let k = lemma_suites_of_each(clauses, i - first.len());
                assert(children_of(statement, Field::Handler)[k] == clauses[k]);
            } else if i < first.len() + handled.len() + orelse.len() {
                assert(child_of(statement, Field::Orelse) == Some(suite));
            } else {
                assert(child_of(statement, Field::Finalbody) == Some(suite));
            }
        },
        NodeKind::StmtFor { .. } | NodeKind::StmtWhile => {
            let first = if_any(child_of(statement, Field::Body));
            if i < first.len() {
                assert(child_of(statement, Field::Body) == Some(suite));
            } else {
                assert(child_of(statement, Field::Orelse) == Some(suite));
            }
        },
        NodeKind::StmtLet => {
            assert(child_of(statement, Field::Orelse) == Some(suite));
        },
        _ => {
            assert(child_of(statement, Field::Body) == Some(suite));
        },
    }
}

/// A nested suite is less deep than the statement it is in.
pub broadcast proof fn lemma_height_suite(statement: Node, i: int)
    requires
        0 <= i < suites_in(statement).len(),
    ensures
        height(#[trigger] suites_in(statement)[i]) < height(statement),
{
    lemma_suite_in(statement, i);
}

pub broadcast proof fn lemma_placed_suite(text: Seq<char>, statement: Node, i: int)
    requires
        #[trigger] placed(text, statement),
        0 <= i < suites_in(statement).len(),
    ensures
        placed(text, #[trigger] suites_in(statement)[i]),
{
    lemma_suite_in(statement, i);
}

fn push_if_any<'a>(suites: &mut Vec<&'a Node>, suite: Option<&'a Node>)
    ensures
        final(suites)@.unref() == old(suites)@.unref() + if_any(node_in(suite)),
{
    if let Some(suite) = suite {
        suites.push(suite);
    }
    assert(suites@.unref() =~= old(suites)@.unref() + if_any(node_in(suite)));
}

fn push_each<'a>(suites: &mut Vec<&'a Node>, clauses: &Vec<&'a Node>)
    ensures
        final(suites)@.unref() == old(suites)@.unref() + suites_of_each(clauses@.unref()),
{
    let ghost start = suites@.unref();
    let ghost all = clauses@.unref();
    let mut i: usize = 0;
    assert(suites@.unref() =~= start + suites_of_each(all.take(0)));
    while i < clauses.len()
        invariant
            i <= clauses.len(),
            all == clauses@.unref(),
            suites@.unref() =~= start + suites_of_each(all.take(i as int)),
        decreases clauses.len() - i,
    {
        assert(all.take(i + 1).drop_last() =~= all.take(i as int));
        assert(all.take(i + 1).last() == *clauses@[i as int]);
        push_if_any(suites, clauses[i].child(Field::Body));
        i += 1;
    }
    assert(all.take(i as int) =~= all);
}

/// The suites written directly inside `statement`.
pub fn nested_suites<'a>(statement: &'a Node) -> (suites: Vec<&'a Node>)
    ensures
        suites@.unref() == suites_in(*statement),
{
    let mut suites: Vec<&'a Node> = Vec::new();
    assert(suites@.unref() =~= Seq::empty());
    match &statement.kind {
        NodeKind::StmtFunctionDef { .. }
        | NodeKind::StmtClassDef { .. }
        | NodeKind::StmtWith { .. } => {
            push_if_any(&mut suites, statement.child(Field::Body));
        },
        NodeKind::StmtFor { .. } | NodeKind::StmtWhile => {
            push_if_any(&mut suites, statement.child(Field::Body));
            push_if_any(&mut suites, statement.child(Field::Orelse));
        },
        NodeKind::StmtIf { .. } => {
            push_if_any(&mut suites, statement.child(Field::Body));
            push_each(&mut suites, &statement.children_filling(Field::ElifElse));
        },
        NodeKind::StmtMatch => {
            push_each(&mut suites, &statement.children_filling(Field::Case));
        },
        NodeKind::StmtTry => {
            push_if_any(&mut suites, statement.child(Field::Body));
            push_each(&mut suites, &statement.children_filling(Field::Handler));
            push_if_any(&mut suites, statement.child(Field::Orelse));
            push_if_any(&mut suites, statement.child(Field::Finalbody));
        },
        NodeKind::StmtLet => {
            push_if_any(&mut suites, statement.child(Field::Orelse));
        },
        _ => {},
    }
    assert(suites@.unref() =~= suites_in(*statement));
    suites
}

/// Looks for `statement` among the statements of `suite` from the one at `from` on, and in the
/// suites nested in them.
pub open spec fn located_from(suite: Node, from: int, statement: Node) -> Option<InSuiteModel>
    decreases height(suite), 0int, suite.children@.len() - from,
{
    if !(0 <= from < suite.children@.len()) {
        None
    } else {
        let candidate = suite.children@[from];
        if candidate.id == statement.id {
            Some(InSuiteModel { suite, index: from })
        } else {
            proof {
                lemma_height_child(suite, from);
            }
            let nested = if candidate.range.spec_contains_range(statement.range) {
                located_in(suites_in(candidate), height(candidate), statement)
            } else {
                None
            };
            match nested {
                Some(found) => Some(found),
                None => located_from(suite, from + 1, statement),
            }
        }
    }
}

/// Looks for `statement` in each of `suites` in turn. A suite no less deep than `below` is passed
/// over; a suite of a statement that deep never is.
pub open spec fn located_in(suites: Seq<Node>, below: nat, statement: Node) -> Option<InSuiteModel>
    decreases below, 1int, suites.len(),
{
    if suites.len() == 0 {
        None
    } else {
        let found = if height(suites[0]) < below {
            located_from(suites[0], 0, statement)
        } else {
            None
        };
        match found {
            Some(found) => Some(found),
            None => located_in(suites.skip(1), below, statement),
        }
    }
}

/// The suite `statement` is written in, found by identity among `suite` and the suites nested in
/// it.
pub open spec fn located(suite: Node, statement: Node) -> Option<InSuiteModel> {
    located_from(suite, 0, statement)
}

/// The suite `statement` is written in, found by identity.
pub fn suite_of<'a>(suite: &'a Node, statement: &Node) -> (found: Option<InSuite<'a>>)
    ensures
        match found {
            Some(found) => located(*suite, *statement) == Some(found@),
            None => located(*suite, *statement) is None,
        },
    decreases height(*suite), 1int,
{
    let mut from: usize = 0;
    while from < suite.children.len()
        invariant
            from <= suite.children.len(),
            located(*suite, *statement) == located_from(*suite, from as int, *statement),
        decreases suite.children.len() - from,
    {
        let candidate = &suite.children[from];
        if candidate.id == statement.id {
            return Some(InSuite { suite, index: from });
        }
        proof {
            lemma_height_child(*suite, from as int);
        }
        if candidate.range.contains_range(statement.range) {
            let nested = suite_among(candidate, statement);
            if nested.is_some() {
                return nested;
            }
        }
        from += 1;
    }
    None
}

fn suite_among<'a>(candidate: &'a Node, statement: &Node) -> (found: Option<InSuite<'a>>)
    ensures
        match found {
            Some(found) => located_in(suites_in(*candidate), height(*candidate), *statement)
                == Some(found@),
            None => located_in(suites_in(*candidate), height(*candidate), *statement) is None,
        },
    decreases height(*candidate), 0int,
{
    let suites = nested_suites(candidate);
    let ghost all = suites_in(*candidate);
    let mut i: usize = 0;
    assert(all.skip(0) =~= all);
    while i < suites.len()
        invariant
            i <= suites.len(),
            suites@.unref() == all,
            all == suites_in(*candidate),
            located_in(all, height(*candidate), *statement) == located_in(
                all.skip(i as int),
                height(*candidate),
                *statement,
            ),
        decreases suites.len() - i,
    {
        assert(*suites@[i as int] == all[i as int]);
        assert(all.skip(i as int)[0] == all[i as int]);
        assert(all.skip(i as int).skip(1) =~= all.skip(i + 1));
        proof {
            lemma_height_suite(*candidate, i as int);
        }
        let found = suite_of(suites[i], statement);
        if found.is_some() {
            return found;
        }
        i += 1;
    }
    None
}

/// A statement is found in a suite that holds it, where the tree covers the text.
pub proof fn lemma_located(text: Seq<char>, suite: Node, from: int, statement: Node)
    requires
        placed(text, suite),
    ensures
        located_from(suite, from, statement) matches Some(found) ==> found.wf()
            && found.statement().id == statement.id && placed(text, found.suite),
    decreases height(suite), 0int, suite.children@.len() - from,
{
    if 0 <= from < suite.children@.len() {
        let candidate = suite.children@[from];
        lemma_height_child(suite, from);
        lemma_placed_child(text, suite, from);
        assert forall|i: int| 0 <= i < suites_in(candidate).len() implies placed(
            text,
            #[trigger] suites_in(candidate)[i],
        ) by {
            lemma_placed_suite(text, candidate, i);
        }
        lemma_located_in(text, suites_in(candidate), height(candidate), statement);
        lemma_located(text, suite, from + 1, statement);
    }
}

proof fn lemma_located_in(text: Seq<char>, suites: Seq<Node>, below: nat, statement: Node)
    requires
        forall|i: int| 0 <= i < suites.len() ==> placed(text, #[trigger] suites[i]),
    ensures
        located_in(suites, below, statement) matches Some(found) ==> found.wf()
            && found.statement().id == statement.id && placed(text, found.suite),
    decreases below, 1int, suites.len(),
{
    if suites.len() > 0 {
        if height(suites[0]) < below {
            lemma_located(text, suites[0], 0, statement);
        }
        assert forall|i: int| 0 <= i < suites.skip(1).len() implies placed(
            text,
            #[trigger] suites.skip(1)[i],
        ) by {
            assert(suites.skip(1)[i] == suites[i + 1]);
        }
        lemma_located_in(text, suites.skip(1), below, statement);
    }
}

/// The first of `suites` with a statement that contains `range`.
pub open spec fn first_suite_containing(suites: Seq<Node>, range: TextRange) -> Option<Node>
    decreases suites.len(),
{
    if suites.len() == 0 {
        None
    } else if first_around(suites[0].children@, range) is Some {
        Some(suites[0])
    } else {
        first_suite_containing(suites.skip(1), range)
    }
}

pub proof fn lemma_first_suite_containing(suites: Seq<Node>, range: TextRange)
    ensures
        first_suite_containing(suites, range) matches Some(suite) ==> suites.contains(suite),
    decreases suites.len(),
{
    if suites.len() > 0 {
        if first_around(suites[0].children@, range) is Some {
            assert(suites.contains(suites[0]));
        } else {
            lemma_first_suite_containing(suites.skip(1), range);
            if let Some(suite) = first_suite_containing(suites, range) {
                let k = choose|k: int| 0 <= k < suites.skip(1).len() && suites.skip(1)[k] == suite;
                assert(suites[k + 1] == suite);
            }
        }
    }
}

/// The innermost statement of `suite` containing `range`, with its ancestors, outermost first.
pub open spec fn ancestors_in(suite: Node, range: TextRange) -> Seq<Node>
    decreases height(suite),
{
    match first_around(suite.children@, range) {
        Some(statement) => {
            proof {
                lemma_innermost_height(suite, range);
            }
            match first_suite_containing(suites_in(statement), range) {
                Some(nested) => seq![statement] + ancestors_in(nested, range),
                None => seq![statement],
            }
        },
        None => Seq::empty(),
    }
}

pub proof fn lemma_innermost_height(suite: Node, range: TextRange)
    ensures
        first_around(suite.children@, range) matches Some(statement) ==> {
            &&& height(statement) < height(suite)
            &&& first_suite_containing(suites_in(statement), range) matches Some(nested)
                ==> height(nested) < height(suite)
        },
{
    if let Some(statement) = first_around(suite.children@, range) {
        let k = lemma_first_around(suite.children@, range);
        lemma_height_child(suite, k);
        lemma_first_suite_containing(suites_in(statement), range);
        if let Some(nested) = first_suite_containing(suites_in(statement), range) {
            let j = choose|j: int|
                0 <= j < suites_in(statement).len() && suites_in(statement)[j] == nested;
            lemma_height_suite(statement, j);
        }
    }
}

/// The ancestors cover the text when the suite does, and each contains the range.
pub proof fn lemma_ancestors(text: Seq<char>, suite: Node, range: TextRange)
    requires
        placed(text, suite),
    ensures
        forall|i: int|
            0 <= i < ancestors_in(suite, range).len() ==> placed(
                text,
                #[trigger] ancestors_in(suite, range)[i],
            ) && ancestors_in(suite, range)[i].range.spec_contains_range(range),
    decreases height(suite),
{
    if let Some(statement) = first_around(suite.children@, range) {
        lemma_innermost_height(suite, range);
        let k = lemma_first_around(suite.children@, range);
        lemma_placed_child(text, suite, k);
        lemma_first_suite_containing(suites_in(statement), range);
        if let Some(nested) = first_suite_containing(suites_in(statement), range) {
            let j = choose|j: int|
                0 <= j < suites_in(statement).len() && suites_in(statement)[j] == nested;
            lemma_placed_suite(text, statement, j);
            lemma_ancestors(text, nested, range);
            let rest = ancestors_in(nested, range);
            assert forall|i: int| 0 <= i < ancestors_in(suite, range).len() implies placed(
                text,
                #[trigger] ancestors_in(suite, range)[i],
            ) && ancestors_in(suite, range)[i].range.spec_contains_range(range) by {
                if i > 0 {
                    assert(ancestors_in(suite, range)[i] == rest[i - 1]);
                }
            }
        }
    }
}

/// The first of `nodes` that contains `range`.
fn find_containing(nodes: &Vec<Node>, range: TextRange) -> (found: Option<&Node>)
    ensures
        node_in(found) == first_around(nodes@, range),
{
    let mut i: usize = 0;
    assert(nodes@.skip(0) =~= nodes@);
    while i < nodes.len()
        invariant
            i <= nodes.len(),
            first_around(nodes@, range) == first_around(nodes@.skip(i as int), range),
        decreases nodes.len() - i,
    {
        assert(nodes@.skip(i as int)[0] == nodes@[i as int]);
        assert(nodes@.skip(i as int).skip(1) =~= nodes@.skip(i + 1));
        if nodes[i].range.contains_range(range) {
            return Some(&nodes[i]);
        }
        i += 1;
    }
    None
}

/// The innermost statement containing `range`, with its ancestors, outermost first.
pub fn statement_ancestors<'a>(suite: &'a Node, range: TextRange) -> (found: Vec<&'a Node>)
    ensures
        found@.unref() == ancestors_in(*suite, range),
    decreases height(*suite),
{
    let mut found: Vec<&'a Node> = Vec::new();
    proof {
        lemma_innermost_height(*suite, range);
    }
    if let Some(statement) = find_containing(&suite.children, range) {
        found.push(statement);
        assert(found@.unref() =~= seq![*statement]);
        let suites = nested_suites(statement);
        let ghost all = suites_in(*statement);
        let mut i: usize = 0;
        assert(all.skip(0) =~= all);
        while i < suites.len()
            invariant
                i <= suites.len(),
                suites@.unref() == all,
                all == suites_in(*statement),
                found@.unref() == seq![*statement],
                first_around(suite.children@, range) == Some(*statement),
                first_suite_containing(all, range) == first_suite_containing(
                    all.skip(i as int),
                    range,
                ),
                first_suite_containing(suites_in(*statement), range) matches Some(nested)
                    ==> height(nested) < height(*suite),
            decreases suites.len() - i,
        {
            assert(*suites@[i as int] == all[i as int]);
            assert(all.skip(i as int)[0] == all[i as int]);
            assert(all.skip(i as int).skip(1) =~= all.skip(i + 1));
            if find_containing(&suites[i].children, range).is_some() {
                let ghost before = found@;
                let mut rest = statement_ancestors(suites[i], range);
                found.append(&mut rest);
                assert(found@.unref() =~= seq![*statement] + ancestors_in(all[i as int], range));
                return found;
            }
            i += 1;
        }
        assert(found@.unref() =~= ancestors_in(*suite, range));
    } else {
        assert(found@.unref() =~= ancestors_in(*suite, range));
    }
    found
}

pub open spec fn is_definition(node: Node) -> bool {
    node.kind is StmtFunctionDef || node.kind is StmtClassDef
}

/// The last of `nodes` that is a function or a class.
pub open spec fn last_definition(nodes: Seq<Node>) -> Option<Node>
    decreases nodes.len(),
{
    if nodes.len() == 0 {
        None
    } else if is_definition(nodes.last()) {
        Some(nodes.last())
    } else {
        last_definition(nodes.drop_last())
    }
}

/// Finds the last of the first `upto` of `nodes` that is a function or a class.
pub fn find_last_definition<'a>(nodes: &Vec<&'a Node>, upto: usize) -> (found: Option<&'a Node>)
    requires
        upto <= nodes.len(),
    ensures
        node_in(found) == last_definition(nodes@.unref().take(upto as int)),
        found matches Some(found) ==> nodes@.contains(found),
{
    let ghost all = nodes@.unref();
    let mut left: usize = upto;
    while left > 0
        invariant
            left <= upto <= nodes.len(),
            all == nodes@.unref(),
            last_definition(all.take(upto as int)) == last_definition(all.take(left as int)),
        decreases left,
    {
        assert(all.take(left as int).drop_last() =~= all.take(left - 1));
        assert(all.take(left as int).last() == *nodes@[left - 1]);
        let node = nodes[left - 1];
        if matches!(node.kind, NodeKind::StmtFunctionDef { .. }) || matches!(
            node.kind,
            NodeKind::StmtClassDef { .. }
        ) {
            assert(nodes@.contains(nodes@[left - 1]));
            return Some(node);
        }
        left -= 1;
    }
    None
}

/// The text of the line before what starts at `at`.
pub open spec fn before_on_line(text: Seq<char>, at: int) -> Seq<char> {
    text_of(text, TextRange { start: line_start_of(text, at) as u32, end: at as u32 })
}

/// The text of the line after what ends at `at`.
pub open spec fn after_on_line(text: Seq<char>, at: int) -> Seq<char> {
    text_of(text, TextRange { start: at as u32, end: line_end_of(text, at) as u32 })
}

/// Whether what is at `range` is alone on its lines: nothing but indentation before it and
/// nothing but a comment after it.
pub open spec fn owns_lines(text: Seq<char>, range: TextRange) -> bool {
    let after = trimmed_start(after_on_line(text, range.end as int));
    &&& all_space(before_on_line(text, range.start as int))
    &&& after.len() == 0 || after[0] == '#'
}

/// Whether the line from `start` to `end` holds a comment and nothing else.
pub open spec fn is_comment_line(text: Seq<char>, start: int, end: int) -> bool {
    let line = trimmed(text_of(text, TextRange { start: start as u32, end: end as u32 }));
    line.len() > 0 && line[0] == '#'
}

/// Where the line break before the line starting at `start` begins: a carriage return and the
/// line feed after it are one.
pub open spec fn break_before(text: Seq<char>, start: int) -> int {
    let bytes = bytes_of(text);
    if code_start(text) + 2 <= start <= bytes.len() && bytes[start - 2] == 0x0d && bytes[start - 1]
        == 0x0a {
        start - 2
    } else {
        start - 1
    }
}

/// Where the comment lines directly above the line starting at `start` begin.
pub open spec fn comments_above(text: Seq<char>, start: int) -> int
    decreases start,
{
    if start <= code_start(text) {
        start
    } else {
        let previous = line_start_of(text, break_before(text, start));
        if 0 <= previous < start && is_comment_line(text, previous, start) {
            comments_above(text, previous)
        } else {
            start
        }
    }
}

/// Where the comment lines directly above `offset`'s line begin.
pub open spec fn leading_comments(text: Seq<char>, offset: int) -> int {
    comments_above(text, line_start_of(text, offset))
}

/// Removing a statement, lines and trailing comment included, or replacing it with `pass` when it
/// is all the suite holds.
pub open spec fn removing(text: Seq<char>, in_suite: InSuiteModel) -> EditModel {
    let range = in_suite.statement().range;
    if in_suite.suite.children@.len() == 1 {
        replacing(
            "pass"@,
            TextRange { start: range.start, end: line_end_of(text, range.end as int) as u32 },
        )
    } else {
        deleting(
            TextRange {
                start: line_start_of(text, range.start as int) as u32,
                end: full_line_end_of(text, range.end as int) as u32,
            },
        )
    }
}

/// A line that does not start where the code does starts after a line break.
proof fn lemma_line_start_after_break(text: Seq<char>, offset: int)
    requires
        code_start(text) <= offset <= bytes_of(text).len(),
    ensures
        line_start_of(text, offset) > code_start(text) ==> is_line_break(
            bytes_of(text)[line_start_of(text, offset) - 1],
        ),
    decreases offset,
{
    if offset > code_start(text) && !is_line_break(bytes_of(text)[offset - 1]) {
        lemma_line_start_after_break(text, offset - 1);
    } else if offset <= code_start(text) {
        lemma_line_start(text, offset);
    }
}

/// Whether a line that holds a comment and nothing else is directly above `at`.
pub open spec fn is_below_comment(text: Seq<char>, at: int) -> bool {
    code_start(text) < at && is_comment_line(
        text,
        line_start_of(text, break_before(text, at)),
        at,
    )
}

/// Whether the lines from the one starting at `from` to the one starting at `to` hold comments
/// and nothing else.
pub open spec fn are_comment_lines(text: Seq<char>, from: int, to: int) -> bool
    decreases to,
{
    let previous = line_start_of(text, break_before(text, to));
    from == to || (is_below_comment(text, to) && from <= previous < to && 0 <= previous
        && are_comment_lines(text, from, previous))
}

/// What is written where the comment lines above `offset`'s line begin separates none of them
/// from it: no comment line is directly above, and the lines from there on are comment lines.
pub proof fn law_comments_are_not_separated(text: Seq<char>, offset: int)
    requires
        code_start(text) <= offset <= bytes_of(text).len(),
    ensures
        code_start(text) <= leading_comments(text, offset) <= line_start_of(text, offset),
        !is_below_comment(text, leading_comments(text, offset)),
        are_comment_lines(text, leading_comments(text, offset), line_start_of(text, offset)),
{
    lemma_line_start(text, offset);
    lemma_comments_above(text, line_start_of(text, offset));
}

proof fn lemma_comments_above(text: Seq<char>, start: int)
    requires
        code_start(text) <= start <= bytes_of(text).len(),
    ensures
        code_start(text) <= comments_above(text, start) <= start,
        !is_below_comment(text, comments_above(text, start)),
        are_comment_lines(text, comments_above(text, start), start),
    decreases start,
{
    if start > code_start(text) {
        lemma_line_start(text, break_before(text, start));
        let previous = line_start_of(text, break_before(text, start));
        if is_comment_line(text, previous, start) {
            lemma_comments_above(text, previous);
        }
    }
}

/// Where the comment lines directly above `offset`'s line begin, so a new
/// statement does not separate a definition from its comment.
pub fn leading_comments_start(source: &str, offset: TextSize) -> (start: TextSize)
    requires
        is_source(source@),
        is_offset(source@, offset as int),
        code_start(source@) <= offset,
    ensures
        start == leading_comments(source@, offset as int),
{
    let code: u32 = if !source.is_empty() && source.get_char(0) == '\u{feff}' {
        3
    } else {
        0
    };
    let mut start: u32 = line_start(source, offset);
    proof {
        lemma_line_start(source@, offset as int);
        lemma_line_start_after_break(source@, offset as int);
    }
    let ghost first = start as int;
    while start > code
        invariant
            is_source(source@),
            code == code_start(source@),
            code <= start <= bytes_of(source@).len(),
            is_offset(source@, start as int),
            start > code ==> is_line_break(bytes_of(source@)[start - 1]),
            comments_above(source@, start as int) == comments_above(source@, first),
        ensures
            start == comments_above(source@, first),
        decreases start,
    {
        let bytes = source.as_bytes();
        let at: u32 = if start - code >= 2 && bytes[start as usize - 2] == 0x0d
            && bytes[start as usize - 1] == 0x0a {
            start - 2
        } else {
            start - 1
        };
        proof {
            assert(at == break_before(source@, start as int));
            lemma_line_break_offsets(source@, at as int);
            lemma_line_start(source@, at as int);
            lemma_line_start_after_break(source@, at as int);
        }
        let previous = line_start(source, at);
        let line = slice(source, TextRange { start: previous, end: start });
        let rest = trim_whitespace(line);
        if !rest.is_empty() && rest.get_char(0) == '#' {
            start = previous;
        } else {
            break;
        }
    }
    start
}

impl RefactorContext {
    /// Whether what is at `range` is alone on its lines: nothing but indentation before
    /// it and nothing but a comment after it.
    pub fn owns_its_lines(&self, range: TextRange) -> (owns: bool)
        requires
            self.wf(),
            is_span(self.source@, range),
        ensures
            owns == owns_lines(self.source@, range),
    {
        let source = self.source.as_str();
        if indentation_at_offset(source, range.start).is_none() {
            return false;
        }
        proof {
            lemma_line_end(source@, range.end as int);
        }
        let end = line_end(source, range.end);
        let after = trim_whitespace_start(slice(source, TextRange { start: range.end, end }));
        after.is_empty() || after.get_char(0) == '#'
    }

    /// The indentation what is at `range` is written at.
    pub fn indentation(&self, range: TextRange) -> (indentation: &str)
        requires
            self.wf(),
            is_span(self.source@, range),
        ensures
            indentation@ == before_on_line(self.source@, range.start as int),
    {
        let source = self.source.as_str();
        proof {
            lemma_line_start(source@, range.start as int);
        }
        let start = line_start(source, range.start);
        slice(source, TextRange { start, end: range.start })
    }

    /// An edit that removes the statement `in_suite`, lines and trailing comment
    /// included, or replaces it with `pass` when it is all the suite holds.
    pub fn delete_statement(&self, in_suite: InSuite<'_>) -> (edit: Edit)
        requires
            self.wf(),
            in_suite@.wf(),
            is_span(self.source@, in_suite@.statement().range),
        ensures
            edit@ == removing(self.source@, in_suite@),
    {
        let source = self.source.as_str();
        let range = in_suite.statement().range;
        proof {
            lemma_line_start(source@, range.start as int);
            lemma_line_end(source@, range.end as int);
        }
        if in_suite.suite.children.len() == 1 {
            let end = line_end(source, range.end);
            return Edit::range_replacement(owned("pass"), TextRange { start: range.start, end });
        }
        Edit::range_deletion(
            TextRange {
                start: line_start(source, range.start),
                end: full_line_end(source, range.end),
            },
        )
    }

    /// The source of `expr`, without any parentheses around it.
    pub fn expression_text(&self, expr: &Node) -> (text: &str)
        requires
            self.wf(),
            is_span(self.source@, expr.range),
        ensures
            text@ == text_of(self.source@, expr.range),
    {
        slice(self.source.as_str(), expr.range)
    }

    /// Whether the text at `range` spans more than one line.
    pub fn is_multiline(&self, range: TextRange) -> (multiline: bool)
        requires
            self.wf(),
            is_span(self.source@, range),
        ensures
            multiline == breaks_line(self.source@, range),
    {
        contains_line_break(self.source.as_str(), range)
    }
}

/// Whether one of the clauses of `statement` that fill `field` has the body `suite`.
pub open spec fn has_clause(statement: Node, field: Field, suite: Node) -> bool {
    exists|c: int|
        0 <= c < statement.children@.len() && (#[trigger] statement.children@[c]).field == field
            && child_of(statement.children@[c], Field::Body) == Some(suite)
}

/// Whether `suite` is written in `statement`: as its body, as what follows its `else` or its
/// `finally`, or as the body of one of its clauses.
pub open spec fn is_suite_of(statement: Node, suite: Node) -> bool {
    let is_body = child_of(statement, Field::Body) == Some(suite);
    let is_else = child_of(statement, Field::Orelse) == Some(suite);
    match statement.kind {
        NodeKind::StmtFunctionDef { .. }
        | NodeKind::StmtClassDef { .. }
        | NodeKind::StmtWith { .. } => is_body,
        NodeKind::StmtFor { .. } | NodeKind::StmtWhile => is_body || is_else,
        NodeKind::StmtIf { .. } => is_body || has_clause(statement, Field::ElifElse, suite),
        NodeKind::StmtMatch => has_clause(statement, Field::Case, suite),
        NodeKind::StmtTry => is_body || is_else || child_of(statement, Field::Finalbody) == Some(
            suite,
        ) || has_clause(statement, Field::Handler, suite),
        NodeKind::StmtLet => is_else,
        _ => false,
    }
}

proof fn lemma_in_each(clauses: Seq<Node>, i: int, suite: Node)
    requires
        0 <= i < clauses.len(),
        child_of(clauses[i], Field::Body) == Some(suite),
    ensures
        suites_of_each(clauses).contains(suite),
    decreases clauses.len(),
{
    let all = suites_of_each(clauses);
    let before = suites_of_each(clauses.drop_last());
    if i < clauses.len() - 1 {
        assert(clauses.drop_last()[i] == clauses[i]);
        lemma_in_each(clauses.drop_last(), i, suite);
        let k = before.index_of(suite);
        assert(all[k] == suite);
    } else {
        assert(all[before.len() as int] == suite);
    }
}

proof fn lemma_clause_in_each(statement: Node, field: Field, suite: Node)
    requires
        has_clause(statement, field, suite),
    ensures
        suites_of_each(children_of(statement, field)).contains(suite),
{
    let c = choose|c: int|
        0 <= c < statement.children@.len() && (#[trigger] statement.children@[c]).field == field
            && child_of(statement.children@[c], Field::Body) == Some(suite);
    let i = lemma_is_filling(statement.children@, field, c);
    lemma_in_each(children_of(statement, field), i, suite);
}

proof fn lemma_joined_contains(a: Seq<Node>, b: Seq<Node>, suite: Node)
    requires
        a.contains(suite) || b.contains(suite),
    ensures
        (a + b).contains(suite),
{
    if a.contains(suite) {
        assert((a + b)[a.index_of(suite)] == suite);
    } else {
        assert((a + b)[a.len() + b.index_of(suite)] == suite);
    }
}

/// Every suite that is written in a statement is looked through.
pub proof fn law_every_suite_is_looked_through(statement: Node, suite: Node)
    requires
        is_suite_of(statement, suite),
    ensures
        suites_in(statement).contains(suite),
{
    let body = if_any(child_of(statement, Field::Body));
    let orelse = if_any(child_of(statement, Field::Orelse));
    let last = if_any(child_of(statement, Field::Finalbody));
    assert(seq![suite][0] == suite);
    assert(seq![suite].contains(suite));
    match statement.kind {
        NodeKind::StmtFor { .. } | NodeKind::StmtWhile => {
            lemma_joined_contains(body, orelse, suite);
        },
        NodeKind::StmtIf { .. } => {
            let clauses = suites_of_each(children_of(statement, Field::ElifElse));
            if has_clause(statement, Field::ElifElse, suite) {
                lemma_clause_in_each(statement, Field::ElifElse, suite);
            }
            lemma_joined_contains(body, clauses, suite);
        },
        NodeKind::StmtMatch => {
            lemma_clause_in_each(statement, Field::Case, suite);
        },
        NodeKind::StmtTry => {
            let clauses = suites_of_each(children_of(statement, Field::Handler));
            if has_clause(statement, Field::Handler, suite) {
                lemma_clause_in_each(statement, Field::Handler, suite);
            }
            if body.contains(suite) || clauses.contains(suite) {
                lemma_joined_contains(body, clauses, suite);
            }
            if (body + clauses).contains(suite) || orelse.contains(suite) {
                lemma_joined_contains(body + clauses, orelse, suite);
            }
            lemma_joined_contains(body + clauses + orelse, last, suite);
        },
        _ => {},
    }
}

proof fn lemma_starts_line(text: Seq<char>, offset: int)
    requires
        0 <= offset <= bytes_of(text).len(),
    ensures
        forall|k: int|
            line_start_of(text, offset) <= k < offset ==> !is_line_break(
                #[trigger] bytes_of(text)[k],
            ),
        line_start_of(text, offset) == code_start(text) || 0 < line_start_of(text, offset) <= offset
            && is_line_break(bytes_of(text)[line_start_of(text, offset) - 1]),
    decreases offset,
{
    if offset > 0 && !is_line_break(bytes_of(text)[offset - 1]) {
        lemma_starts_line(text, offset - 1);
    }
}

proof fn lemma_ends_line(text: Seq<char>, offset: int)
    requires
        0 <= offset <= bytes_of(text).len(),
    ensures
        forall|k: int|
            offset <= k < line_end_of(text, offset) ==> !is_line_break(
                #[trigger] bytes_of(text)[k],
            ),
        line_end_of(text, offset) < bytes_of(text).len() ==> is_line_break(
            bytes_of(text)[line_end_of(text, offset)],
        ),
    decreases bytes_of(text).len() - offset,
{
    if offset < bytes_of(text).len() && !is_line_break(bytes_of(text)[offset]) {
        lemma_ends_line(text, offset + 1);
    }
}

/// Removing a statement takes the lines it is on and no others, from where the first starts to
/// past the break that ends the last. One that is alone in its suite leaves `pass` instead, and
/// its line its break.
pub proof fn law_removing_takes_whole_lines(text: Seq<char>, in_suite: InSuiteModel)
    requires
        code_start(text) <= in_suite.statement().range.start,
        in_suite.statement().range.start <= in_suite.statement().range.end,
        in_suite.statement().range.end <= bytes_of(text).len() <= u32::MAX,
    ensures
        ({
            let bytes = bytes_of(text);
            let range = in_suite.statement().range;
            let edit = removing(text, in_suite);
            let start = edit.range.start as int;
            let end = edit.range.end as int;
            if in_suite.suite.children@.len() == 1 {
                &&& edit.content == Some("pass"@)
                &&& start == range.start
                &&& range.end <= end
                &&& forall|k: int| range.end <= k < end ==> !is_line_break(#[trigger] bytes[k])
                &&& end == bytes.len() || is_line_break(bytes[end])
            } else {
                &&& edit.content is None
                &&& start <= range.start
                &&& start == code_start(text) || is_line_break(bytes[start - 1])
                &&& forall|k: int| start <= k < range.start ==> !is_line_break(#[trigger] bytes[k])
                &&& range.end <= end
                &&& end == bytes.len() || is_line_break(bytes[end - 1])
                &&& forall|k: int|
                    range.end <= k < end && is_line_break(#[trigger] bytes[k]) ==> k == end - 1 || (k
                        == end - 2 && bytes[k] == 0x0d && bytes[k + 1] == 0x0a)
            }
        }),
{
    let range = in_suite.statement().range;
    lemma_line_start(text, range.start as int);
    lemma_line_end(text, range.end as int);
    lemma_starts_line(text, range.start as int);
    lemma_ends_line(text, range.end as int);
}

} // verus!

//! What the checker knows of a file, as plain values.
//!
//! The semantic index holds the scopes of the file, the symbols and definitions
//! of each, and which definitions each load of a name may read. Nodes of the
//! syntax tree are named by their `id`, scopes and definitions by their position
//! in the index, and symbols by their position in their scope.

use crate::edit::{Edit, File};
use crate::lookup::{find, found, lemma_found_in};
use crate::text_size::TextRange;
use vstd::prelude::*;

verus! {

/// The position of a scope in the index. The module's own scope is the first.
pub type ScopeId = u32;

/// The position of a definition in the index.
pub type DefinitionId = u32;

/// The module's scope.
pub const GLOBAL: ScopeId = 0;

#[derive(Debug, Clone, Copy, PartialEq, Eq, Structural)]
pub enum ScopeKind {
    Module,
    Class,
    Function,
    Other,
}

/// The node a scope belongs to.
#[derive(Debug, Clone, Copy, PartialEq, Eq, Structural)]
pub enum ScopeNode {
    Module,
    /// A `def`, by its node.
    Function(u32),
    Other,
}

/// A name as a scope knows it.
#[derive(Debug)]
pub struct Symbol {
    pub name: String,
    /// The scope declares it `global`.
    pub is_global: bool,
    /// The scope declares it `nonlocal`.
    pub is_nonlocal: bool,
    /// It is the scope's own.
    pub is_local: bool,
    /// The scope binds it.
    pub is_bound: bool,
    /// The scope declares its type.
    pub is_declared: bool,
}

/// What a load of a name may find.
#[derive(Debug, Clone, Copy, PartialEq, Eq, Structural)]
pub enum DefinitionState {
    Undefined,
    Deleted,
    Defined(DefinitionId),
}

#[derive(Debug, Clone, Copy, PartialEq, Eq, Structural)]
pub enum DefinitionKind {
    /// Stands for the bindings that flow back around a loop into its start.
    LoopHeader,
    /// Stands for the bindings a nested scope makes with `global` or `nonlocal`.
    NestedBindings,
    /// `target = value`.
    Assignment {
        /// The statement has no other target.
        is_sole_target: bool,
        /// The target is part of an unpacking.
        is_unpacked: bool,
    },
    AnnotatedAssignment,
    Other,
}

#[derive(Debug)]
pub struct Definition {
    /// The symbol it defines, or `None` for a member or an item.
    pub symbol: Option<u32>,
    pub kind: DefinitionKind,
    /// Whether it binds a value.
    pub is_binding: bool,
    pub target_range: TextRange,
    pub full_range: TextRange,
    /// For a loop header, what flows back around the loop.
    pub loop_bindings: Vec<DefinitionState>,
}

#[derive(Debug)]
pub struct Scope {
    pub kind: ScopeKind,
    pub node: ScopeNode,
    pub parent: Option<ScopeId>,
    /// The scope is that of a method.
    pub is_method: bool,
    /// The scopes a name used here is looked up in, this one first.
    pub visible_ancestors: Vec<ScopeId>,
    /// The scopes written directly in this one, each after it in the index.
    pub children: Vec<ScopeId>,
    pub symbols: Vec<Symbol>,
    /// The definitions made here, in the order the scope makes them.
    pub definitions: Vec<DefinitionId>,
    /// For each load of a name here, by its node, what it may find.
    pub uses: Vec<(u32, Vec<DefinitionState>)>,
}

#[derive(Debug)]
pub struct SemanticIndex {
    pub scopes: Vec<Scope>,
    pub definitions: Vec<Definition>,
    /// For each expression, by its node, the scope it is evaluated in.
    pub expression_scopes: Vec<(u32, ScopeId)>,
}

/// The annotation the checker would write for what a function returns.
#[derive(Debug)]
pub struct ReturnAnnotation {
    pub text: String,
    /// What the file has to import to write it.
    pub imports: Vec<Edit>,
}

/// Answers of the checker about nodes of the file.
#[derive(Debug)]
pub struct CheckerFacts {
    /// The names that resolve through the receiver of an enclosing block.
    pub implicit_receiver_names: Vec<u32>,
    /// The names resolved from the type expected where they are written.
    pub context_sensitive_names: Vec<u32>,
    /// The attributes that resolve through an implicit receiver in scope.
    pub implicit_receiver_attributes: Vec<u32>,
    /// The calls that fill `context` parameters from the declarations in scope.
    pub context_filling_calls: Vec<u32>,
    /// The operations the checker carries out to a literal.
    pub literal_folds: Vec<u32>,
    /// The calls of `dataclasses.field`.
    pub field_calls: Vec<u32>,
    /// For a class, the names of its members, inherited ones included.
    pub class_members: Vec<(u32, Vec<String>)>,
    /// For a class, why it cannot be a data class.
    pub data_class_obstacles: Vec<(u32, String)>,
    /// For a function whose return type can be inferred, how the file writes it, when it can.
    pub return_annotations: Vec<(u32, Option<ReturnAnnotation>)>,
    /// For a name bound by the module, the files that refer to it.
    pub references: Vec<(u32, Vec<File>)>,
}

/// The position in `symbols` of the one named `name`.
pub open spec fn symbol_named(symbols: Seq<Symbol>, name: Seq<char>) -> Option<int>
    decreases symbols.len(),
{
    if symbols.len() == 0 {
        None
    } else if symbols.last().name@ == name {
        match symbol_named(symbols.drop_last(), name) {
            Some(i) => Some(i),
            None => Some(symbols.len() - 1),
        }
    } else {
        symbol_named(symbols.drop_last(), name)
    }
}

pub proof fn lemma_symbol_named(symbols: Seq<Symbol>, name: Seq<char>)
    ensures
        match symbol_named(symbols, name) {
            Some(i) => {
                &&& 0 <= i < symbols.len()
                &&& symbols[i].name@ == name
                &&& forall|j: int| 0 <= j < i ==> (#[trigger] symbols[j]).name@ != name
            },
            None => forall|j: int|
                0 <= j < symbols.len() ==> (#[trigger] symbols[j]).name@ != name,
        },
    decreases symbols.len(),
{
    if symbols.len() > 0 {
        lemma_symbol_named(symbols.drop_last(), name);
        let before = symbols.drop_last();
        assert forall|j: int| 0 <= j < before.len() implies before[j] == symbols[j] by {}
        match symbol_named(before, name) {
            Some(i) => {
                assert(before[i] == symbols[i]);
            },
            None => {
                assert forall|j: int| 0 <= j < before.len() implies (
                #[trigger] symbols[j]).name@ != name by {
                    assert(before[j] == symbols[j]);
                }
            },
        }
    }
}

/// The position in `scopes` of the scope of the function `function`.
pub open spec fn scope_among(scopes: Seq<Scope>, function: u32) -> Option<int>
    decreases scopes.len(),
{
    if scopes.len() == 0 {
        None
    } else {
        match scope_among(scopes.drop_last(), function) {
            Some(i) => Some(i),
            None => if scopes.last().node == ScopeNode::Function(function) {
                Some(scopes.len() - 1)
            } else {
                None
            },
        }
    }
}

proof fn lemma_scope_stays(scopes: Seq<Scope>, upto: int, function: u32)
    requires
        0 <= upto <= scopes.len(),
        scope_among(scopes.take(upto), function) is Some,
    ensures
        scope_among(scopes, function) == scope_among(scopes.take(upto), function),
    decreases scopes.len() - upto,
{
    if upto < scopes.len() {
        assert(scopes.take(upto + 1).drop_last() =~= scopes.take(upto));
        lemma_scope_stays(scopes, upto + 1, function);
    } else {
        assert(scopes.take(upto) =~= scopes);
    }
}

impl SemanticIndex {
    /// The scope of the function `function`, when the index has one.
    pub open spec fn spec_function_scope(&self, function: u32) -> Option<ScopeId> {
        match scope_among(self.scopes@, function) {
            Some(i) => Some(i as u32),
            None => None,
        }
    }

    pub fn function_scope(&self, function: u32) -> (scope: Option<ScopeId>)
        requires
            self.wf(),
        ensures
            scope == self.spec_function_scope(function),
            scope matches Some(scope) ==> scope < self.scopes.len(),
    {
        let scopes = &self.scopes;
        let mut i: usize = 0;
        while i < scopes.len()
            invariant
                i <= scopes.len() <= u32::MAX,
                scopes == self.scopes,
                scope_among(scopes@.take(i as int), function) is None,
            decreases scopes.len() - i,
        {
            assert(scopes@.take(i + 1).drop_last() =~= scopes@.take(i as int));
            assert(scopes@.take(i + 1).last() == scopes@[i as int]);
            if scopes[i].node == ScopeNode::Function(function) {
                proof {
                    lemma_scope_stays(scopes@, i + 1, function);
                }
                return Some(i as u32);
            }
            i += 1;
        }
        assert(scopes@.take(i as int) =~= scopes@);
        None
    }

    /// The positions the index speaks of are in it, and a scope lies after the scopes around it.
    pub open spec fn wf(&self) -> bool {
        &&& 0 < self.scopes.len() <= u32::MAX
        &&& self.definitions.len() <= u32::MAX
        &&& forall|i: int|
            0 <= i < self.scopes.len() ==> self.scope_wf(i, #[trigger] self.scopes@[i])
        &&& forall|i: int|
            0 <= i < self.definitions.len() ==> self.states_wf(
                (#[trigger] self.definitions@[i]).loop_bindings@,
            )
        &&& forall|i: int|
            0 <= i < self.expression_scopes.len() ==> (
            #[trigger] self.expression_scopes@[i]).1 < self.scopes.len()
    }

    pub open spec fn state_wf(&self, state: DefinitionState) -> bool {
        state matches DefinitionState::Defined(definition) ==> definition < self.definitions.len()
    }

    pub open spec fn states_wf(&self, states: Seq<DefinitionState>) -> bool {
        forall|i: int| 0 <= i < states.len() ==> self.state_wf(#[trigger] states[i])
    }

    pub open spec fn scope_wf(&self, at: int, scope: Scope) -> bool {
        &&& forall|i: int|
            0 <= i < scope.visible_ancestors.len() ==> (#[trigger] scope.visible_ancestors@[i])
                < self.scopes.len()
        &&& forall|i: int|
            0 <= i < scope.children.len() ==> at < (#[trigger] scope.children@[i])
                < self.scopes.len()
        &&& forall|i: int|
            0 <= i < scope.definitions.len() ==> (#[trigger] scope.definitions@[i])
                < self.definitions.len()
        &&& forall|i: int|
            0 <= i < scope.definitions.len() ==> (self.definitions@[
                (#[trigger] scope.definitions@[i]) as int
            ].symbol matches Some(symbol) ==> symbol < scope.symbols.len())
        &&& forall|i: int|
            0 <= i < scope.uses.len() ==> self.states_wf((#[trigger] scope.uses@[i]).1@)
    }

    /// The scope the expression `node` is evaluated in, when the index knows it.
    pub open spec fn spec_expression_scope(&self, node: u32) -> Option<ScopeId> {
        found(self.expression_scopes@, node)
    }

    pub fn expression_scope(&self, node: u32) -> (scope: Option<ScopeId>)
        requires
            self.wf(),
        ensures
            scope == self.spec_expression_scope(node),
            scope matches Some(scope) ==> scope < self.scopes.len(),
    {
        proof {
            if found(self.expression_scopes@, node) is Some {
                let at = lemma_found_in(self.expression_scopes@, node);
                assert(self.expression_scopes@[at].1 < self.scopes.len());
            }
        }
        match find(&self.expression_scopes, node) {
            Some(scope) => Some(*scope),
            None => None,
        }
    }

    /// The symbol of `scope` named `name`.
    pub open spec fn spec_symbol(&self, scope: ScopeId, name: Seq<char>) -> Option<int> {
        symbol_named(self.scopes@[scope as int].symbols@, name)
    }

    pub fn symbol_id(&self, scope: ScopeId, name: &str) -> (symbol: Option<usize>)
        requires
            scope < self.scopes.len(),
        ensures
            match symbol {
                Some(i) => self.spec_symbol(scope, name@) == Some(i as int) && i
                    < self.scopes@[scope as int].symbols.len(),
                None => self.spec_symbol(scope, name@) is None,
            },
    {
        let symbols = &self.scopes[scope as usize].symbols;
        proof {
            lemma_symbol_named(symbols@, name@);
        }
        let mut i: usize = 0;
        while i < symbols.len()
            invariant
                i <= symbols.len(),
                symbols == self.scopes@[scope as int].symbols,
                match symbol_named(symbols@, name@) {
                    Some(k) => {
                        &&& 0 <= k < symbols.len()
                        &&& symbols@[k].name@ == name@
                        &&& forall|j: int|
                            0 <= j < k ==> (#[trigger] symbols@[j]).name@ != name@
                    },
                    None => forall|j: int|
                        0 <= j < symbols.len() ==> (#[trigger] symbols@[j]).name@ != name@,
                },
                forall|j: int| 0 <= j < i ==> (#[trigger] symbols@[j]).name@ != name@,
            decreases symbols.len() - i,
        {
            if crate::strings::same_text(symbols[i].name.as_str(), name) {
                return Some(i);
            }
            i += 1;
        }
        None
    }

    /// What the load `node` in `scope` may find, when the index knows it for a load.
    pub open spec fn spec_use(&self, scope: ScopeId, node: u32) -> Option<Seq<DefinitionState>> {
        match found(self.scopes@[scope as int].uses@, node) {
            Some(states) => Some(states@),
            None => None,
        }
    }
}

fn all_below(ids: &Vec<u32>, bound: usize) -> (below: bool)
    ensures
        below == (forall|i: int| 0 <= i < ids.len() ==> (#[trigger] ids@[i]) < bound),
{
    let mut i: usize = 0;
    while i < ids.len()
        invariant
            i <= ids.len(),
            forall|j: int| 0 <= j < i ==> (#[trigger] ids@[j]) < bound,
        decreases ids.len() - i,
    {
        if ids[i] as usize >= bound {
            assert(!(ids@[i as int] < bound));
            return false;
        }
        i += 1;
    }
    true
}

impl SemanticIndex {
    fn are_states_wf(&self, states: &Vec<DefinitionState>) -> (wf: bool)
        ensures
            wf == self.states_wf(states@),
    {
        let mut i: usize = 0;
        while i < states.len()
            invariant
                i <= states.len(),
                forall|j: int| 0 <= j < i ==> self.state_wf(#[trigger] states@[j]),
            decreases states.len() - i,
        {
            if let DefinitionState::Defined(definition) = states[i] {
                if definition as usize >= self.definitions.len() {
                    assert(!self.state_wf(states@[i as int]));
                    return false;
                }
            }
            assert(self.state_wf(states@[i as int]));
            i += 1;
        }
        true
    }

    fn is_scope_wf(&self, at: usize) -> (wf: bool)
        requires
            at < self.scopes.len(),
        ensures
            wf == self.scope_wf(at as int, self.scopes@[at as int]),
    {
        let scope = &self.scopes[at];
        if !all_below(&scope.visible_ancestors, self.scopes.len()) || !all_below(
            &scope.children,
            self.scopes.len(),
        ) || !all_below(&scope.definitions, self.definitions.len()) {
            return false;
        }
        let mut i: usize = 0;
        while i < scope.children.len()
            invariant
                i <= scope.children.len(),
                scope == self.scopes@[at as int],
                forall|j: int| 0 <= j < i ==> at < (#[trigger] scope.children@[j]),
            decreases scope.children.len() - i,
        {
            if scope.children[i] as usize <= at {
                assert(!(at < scope.children@[i as int]));
                return false;
            }
            i += 1;
        }
        let mut j: usize = 0;
        while j < scope.definitions.len()
            invariant
                j <= scope.definitions.len(),
                scope == self.scopes@[at as int],
                forall|k: int|
                    0 <= k < scope.definitions.len() ==> (#[trigger] scope.definitions@[k])
                        < self.definitions.len(),
                forall|k: int|
                    0 <= k < j ==> (self.definitions@[
                        (#[trigger] scope.definitions@[k]) as int
                    ].symbol matches Some(symbol) ==> symbol < scope.symbols.len()),
            decreases scope.definitions.len() - j,
        {
            assert(scope.definitions@[j as int] < self.definitions.len());
            if let Some(symbol) = self.definitions[scope.definitions[j] as usize].symbol {
                if symbol as usize >= scope.symbols.len() {
                    return false;
                }
            }
            j += 1;
        }
        let mut k: usize = 0;
        while k < scope.uses.len()
            invariant
                k <= scope.uses.len(),
                scope == self.scopes@[at as int],
                forall|l: int|
                    0 <= l < k ==> self.states_wf((#[trigger] scope.uses@[l]).1@),
            decreases scope.uses.len() - k,
        {
            if !self.are_states_wf(&scope.uses[k].1) {
                assert(!self.states_wf(scope.uses@[k as int].1@));
                return false;
            }
            k += 1;
        }
        true
    }

    /// Whether the positions the index speaks of are in it, and a scope lies after the scopes
    /// around it.
    pub fn is_wf(&self) -> (wf: bool)
        ensures
            wf == self.wf(),
    {
        if self.scopes.len() == 0 || self.scopes.len() > u32::MAX as usize
            || self.definitions.len() > u32::MAX as usize {
            return false;
        }
        let mut i: usize = 0;
        while i < self.scopes.len()
            invariant
                i <= self.scopes.len(),
                forall|k: int| 0 <= k < i ==> self.scope_wf(k, #[trigger] self.scopes@[k]),
            decreases self.scopes.len() - i,
        {
            if !self.is_scope_wf(i) {
                assert(!self.scope_wf(i as int, self.scopes@[i as int]));
                return false;
            }
            i += 1;
        }
        let mut j: usize = 0;
        while j < self.definitions.len()
            invariant
                j <= self.definitions.len(),
                forall|k: int|
                    0 <= k < j ==> self.states_wf(
                        (#[trigger] self.definitions@[k]).loop_bindings@,
                    ),
            decreases self.definitions.len() - j,
        {
            if !self.are_states_wf(&self.definitions[j].loop_bindings) {
                assert(!self.states_wf(self.definitions@[j as int].loop_bindings@));
                return false;
            }
            j += 1;
        }
        let mut l: usize = 0;
        while l < self.expression_scopes.len()
            invariant
                l <= self.expression_scopes.len(),
                forall|k: int|
                    0 <= k < l ==> (#[trigger] self.expression_scopes@[k]).1 < self.scopes.len(),
            decreases self.expression_scopes.len() - l,
        {
            if self.expression_scopes[l].1 as usize >= self.scopes.len() {
                assert(!(self.expression_scopes@[l as int].1 < self.scopes.len()));
                return false;
            }
            l += 1;
        }
        true
    }
}

} // verus!

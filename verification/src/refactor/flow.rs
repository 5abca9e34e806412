//! Which bindings a name reads, from the semantic index.

use crate::lookup::{find, found, lemma_found_in};
use crate::name_set::{ids_of, insert_id, no_ids};
use crate::semantics::{
    DefinitionId, DefinitionKind, DefinitionState, ScopeId, SemanticIndex, GLOBAL,
};
use vstd::prelude::*;

verus! {

/// The bindings a load of a name may read.
///
/// Reachability is ignored, so this over-approximates: a binding that can never
/// reach the load at runtime is still listed. Every caller asks "is this load
/// guaranteed to read only these bindings?", where listing too much only makes
/// the answer more cautious.
#[derive(Debug)]
pub struct Reaching {
    pub definitions: Vec<DefinitionId>,
    /// Whether the load may find the name unbound or deleted.
    pub maybe_unbound: bool,
}

impl Reaching {
    /// Whether the load reads `definition` and nothing else.
    pub open spec fn spec_is_exactly(&self, definition: DefinitionId) -> bool {
        &&& !self.maybe_unbound
        &&& self.definitions.len() > 0
        &&& forall|i: int|
            0 <= i < self.definitions.len() ==> #[trigger] self.definitions@[i] == definition
    }

    pub fn is_exactly(&self, definition: DefinitionId) -> (exactly: bool)
        ensures
            exactly == self.spec_is_exactly(definition),
    {
        if self.maybe_unbound || self.definitions.len() == 0 {
            return false;
        }
        let mut i: usize = 0;
        while i < self.definitions.len()
            invariant
                i <= self.definitions.len(),
                forall|j: int|
                    0 <= j < i ==> #[trigger] self.definitions@[j] == definition,
            decreases self.definitions.len() - i,
        {
            if self.definitions[i] != definition {
                return false;
            }
            i += 1;
        }
        true
    }
}

/// Whether `definition` stands for the bindings that flow back around a loop.
pub open spec fn is_loop_header(index: SemanticIndex, definition: DefinitionId) -> bool {
    index.definitions@[definition as int].kind == DefinitionKind::LoopHeader
}

/// Whether following at most `steps` loop headers from `states` comes to `state`.
pub open spec fn flows(
    index: SemanticIndex,
    states: Seq<DefinitionState>,
    state: DefinitionState,
    steps: nat,
) -> bool
    decreases steps,
{
    ||| states.contains(state)
    ||| steps > 0 && exists|header: DefinitionId|
        {
            &&& is_loop_header(index, header)
            &&& #[trigger] index.definitions@[header as int].loop_bindings@.contains(state)
            &&& flows(index, states, DefinitionState::Defined(header), (steps - 1) as nat)
        }
}

/// Whether a load that finds one of `states` may read `state`: it is one of them, or flows into
/// one around a loop.
pub open spec fn flows_in(
    index: SemanticIndex,
    states: Seq<DefinitionState>,
    state: DefinitionState,
) -> bool {
    exists|steps: nat| flows(index, states, state, steps)
}

/// Whether the load `node` in `scope` may read `definition`.
pub open spec fn may_read(
    index: SemanticIndex,
    scope: ScopeId,
    node: u32,
    definition: DefinitionId,
) -> bool {
    &&& index.spec_use(scope, node) matches Some(states)
    &&& flows_in(index, states, DefinitionState::Defined(definition))
    &&& !is_loop_header(index, definition)
}

/// Whether the load `node` in `scope` may find its name unbound or deleted there. A name that is
/// not local to `scope` reads nothing from it.
pub open spec fn may_be_unbound(index: SemanticIndex, scope: ScopeId, node: u32) -> bool {
    match index.spec_use(scope, node) {
        Some(states) => flows_in(index, states, DefinitionState::Undefined) || flows_in(
            index,
            states,
            DefinitionState::Deleted,
        ),
        None => true,
    }
}

/// Whether the load `node` in `scope` reads `definition` and nothing else.
pub open spec fn reads_exactly(
    index: SemanticIndex,
    scope: ScopeId,
    node: u32,
    definition: DefinitionId,
) -> bool {
    &&& !may_be_unbound(index, scope, node)
    &&& may_read(index, scope, node, definition)
    &&& forall|other: DefinitionId|
        #[trigger] may_read(index, scope, node, other) ==> other == definition
}

/// Whether `state` is accounted for by the definitions seen and the unbound states met.
spec fn accounted(state: DefinitionState, seen: Set<u32>, maybe_unbound: bool) -> bool {
    match state {
        DefinitionState::Defined(definition) => seen.contains(definition),
        _ => maybe_unbound,
    }
}

proof fn lemma_flows_more(
    index: SemanticIndex,
    states: Seq<DefinitionState>,
    header: DefinitionId,
    state: DefinitionState,
)
    requires
        flows_in(index, states, DefinitionState::Defined(header)),
        is_loop_header(index, header),
        index.definitions@[header as int].loop_bindings@.contains(state),
    ensures
        flows_in(index, states, state),
{
    let steps = choose|steps: nat|
        flows(index, states, DefinitionState::Defined(header), steps);
    assert(flows(index, states, state, steps + 1));
}

/// States closed under loop headers hold everything that flows in.
proof fn lemma_flows_accounted(
    index: SemanticIndex,
    states: Seq<DefinitionState>,
    seen: Set<u32>,
    maybe_unbound: bool,
    state: DefinitionState,
    steps: nat,
)
    requires
        flows(index, states, state, steps),
        forall|s: DefinitionState|
            #[trigger] states.contains(s) ==> accounted(s, seen, maybe_unbound),
        forall|header: DefinitionId, s: DefinitionState|
            seen.contains(header) && is_loop_header(index, header)
                && #[trigger] index.definitions@[header as int].loop_bindings@.contains(s)
                ==> accounted(s, seen, maybe_unbound),
    ensures
        accounted(state, seen, maybe_unbound),
    decreases steps,
{
    if !states.contains(state) {
        let header = choose|header: DefinitionId|
            {
                &&& is_loop_header(index, header)
                &&& #[trigger] index.definitions@[header as int].loop_bindings@.contains(state)
                &&& flows(index, states, DefinitionState::Defined(header), (steps - 1) as nat)
            };
        lemma_flows_accounted(
            index,
            states,
            seen,
            maybe_unbound,
            DefinitionState::Defined(header),
            (steps - 1) as nat,
        );
    }
}

/// A set of numbers below `bound` has at most `bound` of them.
proof fn lemma_bounded(set: Set<u32>, bound: nat)
    requires
        forall|id: u32| #[trigger] set.contains(id) ==> id < bound,
    ensures
        set.finite(),
        set.len() <= bound,
    decreases bound,
{
    if bound == 0 {
        assert(set =~= Set::empty());
    } else if bound - 1 <= u32::MAX && set.contains((bound - 1) as u32) {
        let last = (bound - 1) as u32;
        lemma_bounded(set.remove(last), (bound - 1) as nat);
        assert(set =~= set.remove(last).insert(last));
    } else {
        lemma_bounded(set, (bound - 1) as nat);
    }
}

/// The bindings the load `node`, in `scope`, may read from that scope.
///
/// A name that is not local to `scope` reads nothing from it, which is reported
/// as possibly unbound: the caller has to look in the scope the name resolves to.
#[verifier::rlimit(30)]
pub fn reaching_definitions(index: &SemanticIndex, scope: ScopeId, node: u32) -> (reaching:
    Reaching)
    requires
        index.wf(),
        scope < index.scopes.len(),
    ensures
        reaching.definitions@.no_duplicates(),
        forall|definition: DefinitionId|
            #[trigger] reaching.definitions@.contains(definition) <==> may_read(
                *index,
                scope,
                node,
                definition,
            ),
        forall|i: int|
            0 <= i < reaching.definitions.len() ==> #[trigger] reaching.definitions@[i]
                < index.definitions.len(),
        reaching.maybe_unbound == may_be_unbound(*index, scope, node),
{
    let uses = &index.scopes[scope as usize].uses;
    assert(index.scope_wf(scope as int, index.scopes@[scope as int]));
    proof {
        if found(uses@, node) is Some {
            let at = lemma_found_in(uses@, node);
            assert(index.states_wf(uses@[at].1@));
        }
    }
    let states = match find(uses, node) {
        Some(states) => states,
        None => {
            return Reaching { definitions: Vec::new(), maybe_unbound: true };
        },
    };
    let ghost all = states@;
    assert(index.states_wf(all));

    let mut definitions: Vec<DefinitionId> = Vec::new();
    let mut maybe_unbound = false;
    let mut seen = no_ids();
    let mut pending: Vec<DefinitionState> = Vec::new();
    push_states(&mut pending, states);
    assert(pending@ =~= all);
    proof {
        lemma_bounded(ids_of(seen), index.definitions.len() as nat);
        assert forall|k: int| 0 <= k < pending.len() implies flows_in(
            *index,
            all,
            #[trigger] pending@[k],
        ) by {
            assert(all.contains(pending@[k]));
            assert(flows(*index, all, pending@[k], 0));
        }
    }
    while pending.len() > 0
        invariant
            index.wf(),
            index.states_wf(pending@),
            forall|k: int|
                0 <= k < pending.len() ==> flows_in(*index, all, #[trigger] pending@[k]),
            forall|d: u32| #[trigger]
                ids_of(seen).contains(d) ==> d < index.definitions.len() && flows_in(
                    *index,
                    all,
                    DefinitionState::Defined(d),
                ),
            forall|s: DefinitionState| #[trigger]
                all.contains(s) ==> pending@.contains(s) || accounted(
                    s,
                    ids_of(seen),
                    maybe_unbound,
                ),
            forall|header: DefinitionId, s: DefinitionState|
                ids_of(seen).contains(header) && is_loop_header(*index, header)
                    && #[trigger] index.definitions@[header as int].loop_bindings@.contains(s)
                    ==> pending@.contains(s) || accounted(s, ids_of(seen), maybe_unbound),
            definitions@.no_duplicates(),
            forall|d: u32| #[trigger]
                definitions@.contains(d) <==> ids_of(seen).contains(d) && !is_loop_header(
                    *index,
                    d,
                ),
            maybe_unbound ==> flows_in(*index, all, DefinitionState::Undefined) || flows_in(
                *index,
                all,
                DefinitionState::Deleted,
            ),
            ids_of(seen).finite(),
            ids_of(seen).len() <= index.definitions.len(),
        decreases index.definitions.len() - ids_of(seen).len(), pending.len(),
    {
        let ghost before = pending@;
        let ghost seen_before = ids_of(seen);
        let state = pending.pop().unwrap();
        assert(before.last() == state);
        assert(flows_in(*index, all, before[before.len() - 1]));
        assert forall|s: DefinitionState| #[trigger] before.contains(s) implies s == state
            || pending@.contains(s) by {
            let k = choose|k: int| 0 <= k < before.len() && before[k] == s;
            if k < before.len() - 1 {
                assert(pending@[k] == s);
            }
        }
        match state {
            DefinitionState::Undefined | DefinitionState::Deleted => {
                maybe_unbound = true;
            },
            DefinitionState::Defined(definition) => {
                assert(index.state_wf(before[before.len() - 1]));
                let added = insert_id(&mut seen, definition);
                if !added {
                    assert(ids_of(seen) =~= seen_before);
                    continue;
                }
                proof {
                    lemma_bounded(ids_of(seen), index.definitions.len() as nat);
                }
                // a loop header stands for the bindings that flow back around the
                // loop into its start
                if index.definitions[definition as usize].kind == DefinitionKind::LoopHeader {
                    let ghost kept = pending@;
                    let flowing = &index.definitions[definition as usize].loop_bindings;
                    assert(index.states_wf(index.definitions@[definition as int].loop_bindings@));
                    push_states(&mut pending, flowing);
                    assert forall|k: int| 0 <= k < pending.len() implies flows_in(
                        *index,
                        all,
                        #[trigger] pending@[k],
                    ) && index.state_wf(pending@[k]) by {
                        if k < kept.len() {
                            assert(pending@[k] == kept[k]);
                            assert(kept[k] == before[k]);
                        } else {
                            let s = flowing@[k - kept.len()];
                            assert(pending@[k] == s);
                            assert(flowing@.contains(s));
                            lemma_flows_more(*index, all, definition, s);
                        }
                    }
                    assert forall|s: DefinitionState| #[trigger] kept.contains(s) implies
                        pending@.contains(s) by {
                        let k = choose|k: int| 0 <= k < kept.len() && kept[k] == s;
                        assert(pending@[k] == s);
                    }
                    assert forall|s: DefinitionState| #[trigger] flowing@.contains(s) implies
                        pending@.contains(s) by {
                        let k = choose|k: int| 0 <= k < flowing@.len() && flowing@[k] == s;
                        assert(pending@[kept.len() + k] == s);
                    }
                } else {
                    let ghost listed = definitions@;
                    assert(!listed.contains(definition));
                    definitions.push(definition);
                    assert(definitions@.contains(definition)) by {
                        assert(definitions@[listed.len() as int] == definition);
                    }
                    assert forall|d: u32| #[trigger] definitions@.contains(d) implies listed.contains(
                        d,
                    ) || d == definition by {
                        let k = choose|k: int| 0 <= k < definitions@.len() && definitions@[k] == d;
                        if k < listed.len() {
                            assert(listed[k] == d);
                        }
                    }
                    assert forall|d: u32| #[trigger] listed.contains(d) implies definitions@.contains(
                        d,
                    ) by {
                        let k = choose|k: int| 0 <= k < listed.len() && listed[k] == d;
                        assert(definitions@[k] == d);
                    }
                    assert forall|d: u32| #[trigger]
                        definitions@.contains(d) <==> ids_of(seen).contains(d) && !is_loop_header(
                            *index,
                            d,
                        ) by {
                        assert(listed.contains(d) <==> seen_before.contains(d) && !is_loop_header(
                            *index,
                            d,
                        ));
                    }
                }
            },
        }
    }
    proof {
        assert forall|s: DefinitionState| flows_in(*index, all, s) implies accounted(
            s,
            ids_of(seen),
            maybe_unbound,
        ) by {
            let steps = choose|steps: nat| flows(*index, all, s, steps);
            lemma_flows_accounted(*index, all, ids_of(seen), maybe_unbound, s, steps);
        }
        assert forall|i: int| 0 <= i < definitions.len() implies #[trigger] definitions@[i]
            < index.definitions.len() by {
            assert(definitions@.contains(definitions@[i]));
        }
    }
    Reaching { definitions, maybe_unbound }
}

fn push_states(pending: &mut Vec<DefinitionState>, states: &Vec<DefinitionState>)
    ensures
        final(pending)@ == old(pending)@ + states@,
{
    let mut i: usize = 0;
    while i < states.len()
        invariant
            i <= states.len(),
            pending@ =~= old(pending)@ + states@.take(i as int),
        decreases states.len() - i,
    {
        pending.push(states[i]);
        i += 1;
    }
    assert(states@.take(i as int) =~= states@);
}

/// A load reads a definition exactly when the definitions reaching it say so.
pub proof fn lemma_reads_exactly(
    index: SemanticIndex,
    scope: ScopeId,
    node: u32,
    definition: DefinitionId,
    reaching: Reaching,
)
    requires
        forall|d: DefinitionId| #[trigger]
            reaching.definitions@.contains(d) <==> may_read(index, scope, node, d),
        reaching.maybe_unbound == may_be_unbound(index, scope, node),
    ensures
        reaching.spec_is_exactly(definition) == reads_exactly(index, scope, node, definition),
{
    if reaching.spec_is_exactly(definition) {
        assert(reaching.definitions@.contains(reaching.definitions@[0]));
        assert forall|other: DefinitionId| #[trigger] may_read(
            index,
            scope,
            node,
            other,
        ) implies other == definition by {
            assert(reaching.definitions@.contains(other));
        }
    }
    if reads_exactly(index, scope, node, definition) {
        assert(reaching.definitions@.contains(definition));
        assert forall|i: int| 0 <= i < reaching.definitions.len() implies
            #[trigger] reaching.definitions@[i] == definition by {
            assert(reaching.definitions@.contains(reaching.definitions@[i]));
        }
    }
}

/// Whether `definition` binds the symbol `symbol` to a value.
pub open spec fn binds(index: SemanticIndex, definition: DefinitionId, symbol: int) -> bool {
    let definition = index.definitions@[definition as int];
    &&& definition.symbol matches Some(defined)
    &&& defined == symbol
    &&& definition.kind != DefinitionKind::LoopHeader
    &&& definition.is_binding
}

pub open spec fn bindings_among(
    index: SemanticIndex,
    definitions: Seq<DefinitionId>,
    symbol: int,
) -> Seq<DefinitionId>
    decreases definitions.len(),
{
    if definitions.len() == 0 {
        Seq::empty()
    } else {
        let before = bindings_among(index, definitions.drop_last(), symbol);
        if binds(index, definitions.last(), symbol) {
            before.push(definitions.last())
        } else {
            before
        }
    }
}

/// The definitions of `symbol` in `scope` that bind a value, in the order the scope makes them,
/// including the synthetic ones that stand for a nested scope's `global` or `nonlocal` write.
pub open spec fn bindings(index: SemanticIndex, scope: ScopeId, symbol: int) -> Seq<DefinitionId> {
    bindings_among(index, index.scopes@[scope as int].definitions@, symbol)
}

pub fn bindings_of_symbol(index: &SemanticIndex, scope: ScopeId, symbol: usize) -> (found: Vec<
    DefinitionId,
>)
    requires
        index.wf(),
        scope < index.scopes.len(),
    ensures
        found@ == bindings(*index, scope, symbol as int),
        forall|i: int|
            0 <= i < found.len() ==> (#[trigger] found@[i]) < index.definitions.len(),
{
    let definitions = &index.scopes[scope as usize].definitions;
    assert(index.scope_wf(scope as int, index.scopes@[scope as int]));
    let mut found: Vec<DefinitionId> = Vec::new();
    let mut i: usize = 0;
    assert(found@ =~= bindings_among(*index, definitions@.take(0), symbol as int));
    while i < definitions.len()
        invariant
            i <= definitions.len(),
            forall|k: int|
                0 <= k < definitions.len() ==> (#[trigger] definitions@[k])
                    < index.definitions.len(),
            found@ == bindings_among(*index, definitions@.take(i as int), symbol as int),
            forall|k: int|
                0 <= k < found.len() ==> (#[trigger] found@[k]) < index.definitions.len(),
        decreases definitions.len() - i,
    {
        assert(definitions@.take(i + 1).drop_last() =~= definitions@.take(i as int));
        assert(definitions@.take(i + 1).last() == definitions@[i as int]);
        let definition = &index.definitions[definitions[i] as usize];
        let defines = match definition.symbol {
            Some(defined) => defined as usize == symbol,
            None => false,
        };
        if defines && definition.kind != DefinitionKind::LoopHeader && definition.is_binding {
            found.push(definitions[i]);
        }
        i += 1;
    }
    assert(definitions@.take(i as int) =~= definitions@);
    found
}

/// The first of `scopes` that decides what `name` is.
pub open spec fn resolved_among(
    index: SemanticIndex,
    scopes: Seq<ScopeId>,
    name: Seq<char>,
) -> Option<ScopeId>
    decreases scopes.len(),
{
    if scopes.len() == 0 {
        None
    } else {
        let rest = resolved_among(index, scopes.skip(1), name);
        match index.spec_symbol(scopes[0], name) {
            Some(i) => {
                let symbol = index.scopes@[scopes[0] as int].symbols@[i];
                if symbol.is_global {
                    Some(GLOBAL)
                } else if symbol.is_nonlocal {
                    rest
                } else if symbol.is_local {
                    Some(scopes[0])
                } else {
                    rest
                }
            },
            None => rest,
        }
    }
}

/// The scope a load of `name` in `scope` resolves to, following python's rules:
/// a class body is invisible to the scopes nested in it, `global` goes to the
/// module and `nonlocal` to an enclosing function. `None` for a name no scope in
/// the file binds, such as a builtin.
pub open spec fn resolved(index: SemanticIndex, scope: ScopeId, name: Seq<char>) -> Option<
    ScopeId,
> {
    resolved_among(index, index.scopes@[scope as int].visible_ancestors@, name)
}

pub fn resolving_scope(index: &SemanticIndex, scope: ScopeId, name: &str) -> (found: Option<
    ScopeId,
>)
    requires
        index.wf(),
        scope < index.scopes.len(),
    ensures
        found == resolved(*index, scope, name@),
        found matches Some(found) ==> found < index.scopes.len(),
{
    let scopes = &index.scopes[scope as usize].visible_ancestors;
    assert(index.scope_wf(scope as int, index.scopes@[scope as int]));
    let mut i: usize = 0;
    assert(scopes@.skip(0) =~= scopes@);
    while i < scopes.len()
        invariant
            i <= scopes.len(),
            0 < index.scopes.len(),
            scopes == index.scopes@[scope as int].visible_ancestors,
            forall|k: int|
                0 <= k < scopes.len() ==> (#[trigger] scopes@[k]) < index.scopes.len(),
            resolved_among(*index, scopes@, name@) == resolved_among(
                *index,
                scopes@.skip(i as int),
                name@,
            ),
        decreases scopes.len() - i,
    {
        assert(scopes@.skip(i as int)[0] == scopes@[i as int]);
        assert(scopes@.skip(i as int).skip(1) =~= scopes@.skip(i + 1));
        if let Some(symbol) = index.symbol_id(scopes[i], name) {
            let symbol = &index.scopes[scopes[i] as usize].symbols[symbol];
            if symbol.is_global {
                return Some(GLOBAL);
            }
            if !symbol.is_nonlocal && symbol.is_local {
                return Some(scopes[i]);
            }
        }
        i += 1;
    }
    None
}

/// The scopes nested, at any depth, inside the first `upto` children of `scope`, each before the
/// ones in it and later children first.
pub open spec fn nested_among(index: SemanticIndex, scope: ScopeId, upto: int) -> Seq<ScopeId>
    decreases index.scopes.len() - scope, upto,
{
    let children = index.scopes@[scope as int].children@;
    if upto <= 0 || upto > children.len() {
        Seq::empty()
    } else {
        let child = children[upto - 1];
        let under = if scope < child < index.scopes.len() {
            nested_among(
                index,
                child,
                index.scopes@[child as int].children@.len() as int,
            )
        } else {
            Seq::empty()
        };
        seq![child] + under + nested_among(index, scope, upto - 1)
    }
}

/// The scopes nested, at any depth, inside `scope`.
pub open spec fn nested_scopes(index: SemanticIndex, scope: ScopeId) -> Seq<ScopeId> {
    nested_among(index, scope, index.scopes@[scope as int].children@.len() as int)
}

/// The scopes nested, at any depth, inside `scope`.
fn descendants(index: &SemanticIndex, scope: ScopeId) -> (found: Vec<ScopeId>)
    requires
        index.wf(),
        scope < index.scopes.len(),
    ensures
        found@ == nested_scopes(*index, scope),
        forall|k: int| 0 <= k < found.len() ==> (#[trigger] found@[k]) < index.scopes.len(),
    decreases index.scopes.len() - scope,
{
    let children = &index.scopes[scope as usize].children;
    assert(index.scope_wf(scope as int, index.scopes@[scope as int]));
    let ghost all = nested_scopes(*index, scope);
    let mut found: Vec<ScopeId> = Vec::new();
    let mut left: usize = children.len();
    assert(found@ + nested_among(*index, scope, left as int) =~= all);
    while left > 0
        invariant
            index.wf(),
            scope < index.scopes.len(),
            left <= children.len(),
            children == index.scopes@[scope as int].children,
            forall|k: int|
                0 <= k < children.len() ==> scope < (#[trigger] children@[k])
                    < index.scopes.len(),
            found@ + nested_among(*index, scope, left as int) == all,
            forall|k: int|
                0 <= k < found.len() ==> (#[trigger] found@[k]) < index.scopes.len(),
        decreases left,
    {
        let ghost before = found@;
        let child = children[left - 1];
        found.push(child);
        let mut under = descendants(index, child);
        let ghost nested = under@;
        found.append(&mut under);
        assert(found@ =~= before + (seq![child] + nested));
        assert(nested_among(*index, scope, left as int) == seq![child] + nested + nested_among(
            *index,
            scope,
            left - 1,
        ));
        assert(found@ + nested_among(*index, scope, left - 1) =~= before + nested_among(
            *index,
            scope,
            left as int,
        ));
        left -= 1;
    }
    assert(found@ =~= all);
    found
}

/// Whether `nested` declares `name` `global` or `nonlocal` and binds it, where the module's
/// scope owns the name or not.
pub open spec fn rebinds(
    index: SemanticIndex,
    nested: ScopeId,
    name: Seq<char>,
    owner_is_module: bool,
) -> bool {
    &&& index.spec_symbol(nested, name) matches Some(i)
    &&& {
        let symbol = index.scopes@[nested as int].symbols@[i];
        symbol.is_bound && ((symbol.is_global && owner_is_module) || symbol.is_nonlocal)
    }
}

/// Whether any scope nested in `scope` declares `name` `global` or `nonlocal`
/// and so may rebind the `name` that `scope` owns.
///
/// A `nonlocal` is counted even when it names an intermediate function's binding
/// rather than `scope`'s, which only makes callers more cautious.
pub open spec fn rebound(index: SemanticIndex, scope: ScopeId, name: Seq<char>) -> bool {
    exists|i: int|
        0 <= i < nested_scopes(index, scope).len() && rebinds(
            index,
            #[trigger] nested_scopes(index, scope)[i],
            name,
            scope == GLOBAL,
        )
}

pub fn rebound_from_nested_scope(index: &SemanticIndex, scope: ScopeId, name: &str) -> (rebound_:
    bool)
    requires
        index.wf(),
        scope < index.scopes.len(),
    ensures
        rebound_ == rebound(*index, scope, name@),
{
    let nested = descendants(index, scope);
    let mut i: usize = 0;
    while i < nested.len()
        invariant
            i <= nested.len(),
            nested@ == nested_scopes(*index, scope),
            forall|k: int|
                0 <= k < nested.len() ==> (#[trigger] nested@[k]) < index.scopes.len(),
            forall|k: int|
                0 <= k < i ==> !rebinds(
                    *index,
                    #[trigger] nested_scopes(*index, scope)[k],
                    name@,
                    scope == GLOBAL,
                ),
        decreases nested.len() - i,
    {
        if let Some(symbol) = index.symbol_id(nested[i], name) {
            let symbol = &index.scopes[nested[i] as usize].symbols[symbol];
            if symbol.is_bound && ((symbol.is_global && scope == GLOBAL) || symbol.is_nonlocal) {
                assert(rebinds(
                    *index,
                    nested_scopes(*index, scope)[i as int],
                    name@,
                    scope == GLOBAL,
                ));
                return true;
            }
        }
        i += 1;
    }
    false
}

/// Whether each scope of `chain` is written directly in the one before it.
pub open spec fn is_scope_chain(index: SemanticIndex, chain: Seq<ScopeId>) -> bool {
    &&& chain.len() > 0
    &&& chain[0] < index.scopes.len()
    &&& forall|k: int| 0 <= k < chain.len() - 1 ==> #[trigger] is_scope_link(index, chain, k)
}

pub open spec fn is_scope_link(index: SemanticIndex, chain: Seq<ScopeId>, k: int) -> bool {
    index.scopes@[chain[k] as int].children@.contains(chain[k + 1])
}

proof fn lemma_nested_child(index: SemanticIndex, scope: ScopeId, upto: int, i: int, nested: ScopeId)
    requires
        index.wf(),
        scope < index.scopes.len(),
        0 <= i < upto <= index.scopes@[scope as int].children@.len(),
        ({
            let child = index.scopes@[scope as int].children@[i];
            nested == child || nested_scopes(index, child).contains(nested)
        }),
    ensures
        nested_among(index, scope, upto).contains(nested),
    decreases upto,
{
    let children = index.scopes@[scope as int].children@;
    let child = children[upto - 1];
    assert(index.scope_wf(scope as int, index.scopes@[scope as int]));
    let under = nested_scopes(index, child);
    let rest = nested_among(index, scope, upto - 1);
    let all = nested_among(index, scope, upto);
    assert(all == seq![child] + under + rest);
    if i < upto - 1 {
        lemma_nested_child(index, scope, upto - 1, i, nested);
        let k = rest.index_of(nested);
        assert(all[1 + under.len() + k] == nested);
    } else if nested == child {
        assert(all[0] == nested);
    } else {
        let k = under.index_of(nested);
        assert(all[1 + k] == nested);
    }
}

proof fn lemma_chain_is_nested(index: SemanticIndex, chain: Seq<ScopeId>)
    requires
        index.wf(),
        is_scope_chain(index, chain),
        chain.len() > 1,
    ensures
        nested_scopes(index, chain[0]).contains(chain.last()),
        chain[1] < index.scopes.len(),
    decreases chain.len(),
{
    let scope = chain[0];
    let children = index.scopes@[scope as int].children@;
    assert(index.scope_wf(scope as int, index.scopes@[scope as int]));
    assert(is_scope_link(index, chain, 0));
    let i = children.index_of(chain[1]);
    assert(children[i] < index.scopes.len());
    let rest = chain.skip(1);
    if rest.len() > 1 {
        assert forall|k: int| 0 <= k < rest.len() - 1 implies #[trigger] is_scope_link(
            index,
            rest,
            k,
        ) by {
            assert(is_scope_link(index, chain, k + 1));
            assert(rest[k] == chain[k + 1]);
            assert(rest[k + 1] == chain[k + 2]);
        }
        lemma_chain_is_nested(index, rest);
        assert(rest.last() == chain.last());
    }
    lemma_nested_child(index, scope, children.len() as int, i, chain.last());
}

/// However deep inside a scope another one is, its `nonlocal` write counts as rebinding the outer
/// scope's name, and so does its `global` write when that is the module's.
pub proof fn law_nested_writes_rebind(
    index: SemanticIndex,
    chain: Seq<ScopeId>,
    name: Seq<char>,
    symbol: int,
)
    requires
        index.wf(),
        is_scope_chain(index, chain),
        chain.len() > 1,
        index.spec_symbol(chain.last(), name) == Some(symbol),
        ({
            let written = index.scopes@[chain.last() as int].symbols@[symbol];
            written.is_bound && (written.is_nonlocal || written.is_global && chain[0] == GLOBAL)
        }),
    ensures
        rebound(index, chain[0], name),
{
    lemma_chain_is_nested(index, chain);
    let nested = nested_scopes(index, chain[0]);
    let i = nested.index_of(chain.last());
    assert(rebinds(index, nested[i], name, chain[0] == GLOBAL));
}

/// Whether `scope` says what `name` is: it declares it `global`, or has it for its own.
pub open spec fn is_decided_in(index: SemanticIndex, scope: ScopeId, name: Seq<char>) -> bool {
    index.spec_symbol(scope, name) matches Some(i) && {
        let symbol = index.scopes@[scope as int].symbols@[i];
        symbol.is_global || symbol.is_local && !symbol.is_nonlocal
    }
}

proof fn lemma_resolved_among(index: SemanticIndex, scopes: Seq<ScopeId>, name: Seq<char>, i: int)
    requires
        0 <= i <= scopes.len(),
        forall|j: int| 0 <= j < i ==> !is_decided_in(index, #[trigger] scopes[j], name),
    ensures
        i == scopes.len() ==> resolved_among(index, scopes, name) is None,
        i < scopes.len() && is_decided_in(index, scopes[i], name) ==> resolved_among(
            index,
            scopes,
            name,
        ) == Some(
            if index.scopes@[scopes[i] as int].symbols@[index.spec_symbol(
                scopes[i],
                name,
            )->0].is_global {
                GLOBAL
            } else {
                scopes[i]
            },
        ),
    decreases i,
{
    if i > 0 {
        let rest = scopes.skip(1);
        assert(!is_decided_in(index, scopes[0], name));
        assert forall|j: int| 0 <= j < i - 1 implies !is_decided_in(
            index,
            #[trigger] rest[j],
            name,
        ) by {
            assert(rest[j] == scopes[j + 1]);
        }
        lemma_resolved_among(index, rest, name, i - 1);
        if i < scopes.len() {
            assert(rest[i - 1] == scopes[i]);
        }
    }
}

/// A name is what the first scope a use looks in makes of it that says anything: the module's
/// where that declares it `global`, the scope's own otherwise. Where none says anything it is
/// nothing the file binds.
pub proof fn law_first_scope_decides(index: SemanticIndex, scope: ScopeId, name: Seq<char>, i: int)
    requires
        0 <= i <= index.scopes@[scope as int].visible_ancestors@.len(),
        forall|j: int|
            0 <= j < i ==> !is_decided_in(
                index,
                #[trigger] index.scopes@[scope as int].visible_ancestors@[j],
                name,
            ),
    ensures
        ({
            let scopes = index.scopes@[scope as int].visible_ancestors@;
            &&& i == scopes.len() ==> resolved(index, scope, name) is None
            &&& i < scopes.len() && is_decided_in(index, scopes[i], name) ==> resolved(
                index,
                scope,
                name,
            ) == Some(
                if index.scopes@[scopes[i] as int].symbols@[index.spec_symbol(
                    scopes[i],
                    name,
                )->0].is_global {
                    GLOBAL
                } else {
                    scopes[i]
                },
            )
        }),
{
    lemma_resolved_among(index, index.scopes@[scope as int].visible_ancestors@, name, i);
}

/// The bindings of a symbol are the definitions its scope makes of it that bind a value, and do
/// not just stand for a loop's: each of them, and nothing else.
pub proof fn law_bindings_bind(
    index: SemanticIndex,
    scope: ScopeId,
    symbol: int,
    definition: DefinitionId,
)
    ensures
        bindings(index, scope, symbol).contains(definition) <==> index.scopes@[scope as int].definitions@.contains(
            definition,
        ) && ({
            let made = index.definitions@[definition as int];
            made.symbol matches Some(defined) && defined == symbol && made.is_binding && !(made.kind
                == DefinitionKind::LoopHeader)
        }),
{
    lemma_bindings_bind(index, index.scopes@[scope as int].definitions@, symbol, definition);
}

proof fn lemma_bindings_bind(
    index: SemanticIndex,
    definitions: Seq<DefinitionId>,
    symbol: int,
    definition: DefinitionId,
)
    ensures
        bindings_among(index, definitions, symbol).contains(definition) <==> definitions.contains(
            definition,
        ) && ({
            let made = index.definitions@[definition as int];
            made.symbol matches Some(defined) && defined == symbol && made.is_binding && !(made.kind
                == DefinitionKind::LoopHeader)
        }),
    decreases definitions.len(),
{
    let all = bindings_among(index, definitions, symbol);
    if definitions.len() > 0 {
        let rest = definitions.drop_last();
        let before = bindings_among(index, rest, symbol);
        lemma_bindings_bind(index, rest, symbol, definition);
        if before.contains(definition) {
            assert(all[before.index_of(definition)] == definition);
        }
        if rest.contains(definition) {
            assert(definitions[rest.index_of(definition)] == definition);
        }
        if all.contains(definition) && !before.contains(definition) {
            let k = all.index_of(definition);
            if k < before.len() {
                assert(before[k] == definition);
            }
            assert(definitions[definitions.len() - 1] == definition);
        }
        if definitions.contains(definition) && !rest.contains(definition) {
            let k = definitions.index_of(definition);
            if k < rest.len() {
                assert(rest[k] == definition);
            }
            if binds(index, definition, symbol) {
                assert(all[all.len() - 1] == definition);
            }
        }
    }
}

} // verus!

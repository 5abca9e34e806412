//! The imports that hints have asked for so far, hashed with rustc's hasher.

use super::facts::{ImportAction, ImportActionModel};
use crate::strings::owned;
use rustc_hash::FxHashMap;
use vstd::prelude::*;

verus! {

/// A symbol that can be imported: its module, and its name there.
pub type Symbol = (Seq<char>, Seq<char>);

/// The numbers a map keeps for symbols.
pub uninterp spec fn numbers_of(map: FxHashMap<(String, String), usize>) -> Map<
    (Seq<char>, Seq<char>),
    usize,
>;

/// `FxHashMap::default` of rustc_hash: a map that keeps nothing.
#[verifier::external_body]
fn no_numbers() -> (map: FxHashMap<(String, String), usize>)
    ensures
        numbers_of(map).dom() == Set::<Symbol>::empty(),
{
    FxHashMap::default()
}

/// What a map of numbers says of a symbol.
pub open spec fn number_at(numbers: Map<Symbol, usize>, symbol: Symbol) -> Option<usize> {
    if numbers.dom().contains(symbol) {
        Some(numbers[symbol])
    } else {
        None
    }
}

/// `FxHashMap::get` of rustc_hash: the number kept for the symbol `name` of `module`, if any.
#[verifier::external_body]
fn get_number(map: &FxHashMap<(String, String), usize>, module: String, name: String) -> (number:
    Option<usize>)
    ensures
        number == number_at(numbers_of(*map), (module@, name@)),
{
    map.get(&(module, name)).copied()
}

/// `FxHashMap::insert` of rustc_hash: keeps `number` for the symbol `name` of `module`, in place
/// of what was kept for it.
#[verifier::external_body]
fn insert_number(
    map: &mut FxHashMap<(String, String), usize>,
    module: String,
    name: String,
    number: usize,
)
    ensures
        numbers_of(*final(map)) == numbers_of(*old(map)).insert((module@, name@), number),
{
    map.insert((module, name), number);
}

/// The imports that have already been created, so that not more than one is created for a
/// symbol.
pub struct DynamicImports {
    numbers: FxHashMap<(String, String), usize>,
    actions: Vec<ImportAction>,
}

impl View for DynamicImports {
    type V = Map<Symbol, ImportActionModel>;

    closed spec fn view(&self) -> Map<Symbol, ImportActionModel> {
        Map::new(
            |symbol: Symbol| numbers_of(self.numbers).dom().contains(symbol),
            |symbol: Symbol| self.actions@[numbers_of(self.numbers)[symbol] as int]@,
        )
    }
}

/// What `imports` hold of `symbol`.
pub open spec fn import_at(imports: Map<Symbol, ImportActionModel>, symbol: Symbol) -> Option<
    ImportActionModel,
> {
    if imports.dom().contains(symbol) {
        Some(imports[symbol])
    } else {
        None
    }
}

pub open spec fn action_in(action: Option<&ImportAction>) -> Option<ImportActionModel> {
    match action {
        Some(action) => Some(action@),
        None => None,
    }
}

impl DynamicImports {
    #[verifier::type_invariant]
    closed spec fn numbers_are_of_actions(&self) -> bool {
        forall|symbol: Symbol| #[trigger]
            numbers_of(self.numbers).dom().contains(symbol) ==> numbers_of(self.numbers)[symbol]
                < self.actions.len()
    }

    pub fn new() -> (imports: DynamicImports)
        ensures
            imports@ == Map::<Symbol, ImportActionModel>::empty(),
    {
        let imports = DynamicImports { numbers: no_numbers(), actions: Vec::new() };
        assert(imports@ =~= Map::<Symbol, ImportActionModel>::empty());
        imports
    }

    /// The action for the symbol `name` of `module`, when there is one already.
    pub fn get(&self, module: &str, name: &str) -> (action: Option<&ImportAction>)
        ensures
            action_in(action) == import_at(self@, (module@, name@)),
    {
        proof {
            use_type_invariant(self);
        }
        match get_number(&self.numbers, owned(module), owned(name)) {
            Some(number) => Some(&self.actions[number]),
            None => None,
        }
    }

    /// These imports, and `action` for the symbol `name` of `module`.
    pub fn with(self, module: &str, name: &str, action: ImportAction) -> (imports: DynamicImports)
        ensures
            imports@ == self@.insert((module@, name@), action@),
    {
        proof {
            use_type_invariant(&self);
        }
        let ghost before = self@;
        let ghost old_numbers = numbers_of(self.numbers);
        let ghost old_actions = self.actions@;
        let mut numbers = self.numbers;
        let mut actions = self.actions;
        let number: usize = actions.len();
        actions.push(action);
        insert_number(&mut numbers, owned(module), owned(name), number);
        let imports = DynamicImports { numbers, actions };
        assert(imports@ =~= before.insert((module@, name@), action@));
        imports
    }
}

} // verus!

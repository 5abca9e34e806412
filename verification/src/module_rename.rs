//! Keeping a project's imports pointing at a module that is about to move.
//!
//! An editor that renames `src/alpha/util.py` to `src/alpha/helpers.py` has renamed the module
//! `alpha.util`, and every `from alpha.util import thing` in the project now names a module that
//! is not there. Finding those is not something an editor can do for itself — it would have to
//! resolve every import in the project against the same search paths the type checker uses — so
//! LSP has the client ask before it moves anything (`workspace/willRenameFiles`) and the server
//! answers with the edits that keep the project working.
//!
//! # What is edited
//!
//! The module paths written in import statements, in every file of the project:
//!
//! ```py
//! import alpha.util              # the dotted name
//! import alpha.util as util      # ... with an alias, which is unaffected
//! from alpha.util import thing   # the module a symbol is imported from
//! from alpha import util         # the module imported as a name
//! from .util import thing        # a relative import, when the new name can still be written
//!                                # relative to the importing file's own package
//! ```
//!
//! and, when one of those imports *binds* a name that changes — `import alpha.util` binds `alpha`,
//! and `from alpha import util` binds `util` — the uses of that name in the same file. Those are
//! found by asking the type checker what each expression is rather than by matching text: `util` in
//! one file may be the module and in another a local variable that happens to share its name, and
//! only one of them is a reference to what moved.
//!
//! # What is not
//!
//! - **Module names written as strings** — `importlib.import_module("alpha.util")`, a Django
//!   `INSTALLED_APPS` entry, a `pyproject.toml` entry point, which are not distinguishable from
//!   any other string.
//! - **An import that would have to change shape.** `from alpha import util` can be rewritten while
//!   `util` is still a submodule of `alpha`; a move that puts it under a different package needs a
//!   different statement, and rewriting one import statement into another is a refactor rather than
//!   a repair. Those are left alone rather than half-done — see [`ModuleRenameEdits::skipped`].
//! - **Relative imports whose target leaves the importing file's package.** Same reason: the dots
//!   no longer reach it, and only a different statement would.
//!
//! Everything left alone is reported, so the client can tell the user which files it could not fix
//! rather than leaving them to find out from a stack trace.

use crate::edit::{
    file_edit_models, replacing, text_in, Edit, EditModel, File, FileEdit, FileEditModel,
};
use crate::lookup::{find, found};
use crate::module_name::{
    extended, is_module_name, last_part, lemma_last_part, lemma_last_part_of,
    lemma_parent_extended, lemma_parent_is_shorter, lemma_parent_of_extended, name_in, parent_part,
    relative_part, ModuleName,
};
use crate::node::{
    all_filling, child_of, children_of, height, is_path, lemma_height_child_of, lemma_is_filling,
    lemma_path_is_walked, walk_nodes, walked, walked_all, Field, Node, NodeKind, Prune,
};
use crate::strings::{
    at_most, comes_by, join3, lemma_at_most_total, lemma_at_most_transitive, owned, same_text,
};
use crate::text_size::{is_before, TextRange};
use vstd::multiset::Multiset;
use vstd::prelude::*;

verus! {

/// A file or directory the client is about to move, and where it is going.
///
/// Both paths are absolute. The old one is where the thing still is when this is asked — the
/// request arrives *before* the move — and the new one is where nothing is yet.
#[derive(Debug, Clone, PartialEq, Eq)]
pub struct FileMove {
    pub old_path: String,
    pub new_path: String,
}

/// What a set of moves costs the project.
#[derive(Debug)]
pub struct ModuleRenameEdits {
    /// The edits to apply, at most one per range, grouped by nothing in particular.
    pub edits: Vec<FileEdit>,
    /// Imports that name something being moved and that this could not rewrite.
    ///
    /// Reported rather than dropped: an import left pointing at a module that has gone is a broken
    /// file, and the difference between "the rename fixed everything" and "the rename fixed
    /// everything except these two lines" is the difference between a working project and half an
    /// hour of confusion.
    pub skipped: Vec<SkippedImport>,
}

/// An import naming something that moved, and why it was left alone.
#[derive(Debug, Clone, Copy, PartialEq, Eq, Structural)]
pub struct SkippedImport {
    pub file: File,
    pub range: TextRange,
    pub reason: SkipReason,
}

#[derive(Debug, Clone, Copy, PartialEq, Eq, Structural)]
pub enum SkipReason {
    /// The module ends up under a different parent, so `from <parent> import <name>` no longer
    /// reaches it and only a different statement would.
    NeedsDifferentStatement,
    /// A relative import whose target is no longer reachable from the importing file's package.
    NoLongerRelative,
}

/// A path, and the name of the module that is there, or would be if a file were.
#[derive(Debug)]
pub struct ModulePath {
    pub path: String,
    pub name: ModuleName,
}

/// A file of the project, with what the module resolver and the type checker say about it.
#[derive(Debug)]
pub struct ProjectFile {
    pub file: File,
    pub path: String,
    /// The module's statements.
    pub suite: Node,
    /// What the dots of a relative import resolve to in this file, by how many there are.
    pub bases: Vec<(u32, ModuleName)>,
    /// The module an expression is, by the expression's id, for the expressions that are one.
    pub modules: Vec<(u32, ModuleName)>,
}

/// The files of a project, and the module names of the paths the search paths cover.
#[derive(Debug)]
pub struct Project {
    pub files: Vec<ProjectFile>,
    pub names: Vec<ModulePath>,
}

/// One module moving to another name, and everything under it moving with it.
#[derive(Debug)]
pub struct Renaming {
    pub old: ModuleName,
    pub new: ModuleName,
}

/// A [`Renaming`] as a mathematical value.
pub ghost struct RenamingModel {
    pub old: Seq<char>,
    pub new: Seq<char>,
}

impl View for Renaming {
    type V = RenamingModel;

    open spec fn view(&self) -> RenamingModel {
        RenamingModel { old: self.old@, new: self.new@ }
    }
}

pub open spec fn renaming_models(renamings: Seq<Renaming>) -> Seq<RenamingModel> {
    renamings.map_values(|renaming: Renaming| renaming@)
}

/// What `name` becomes under `renaming`, when it covers it.
///
/// A package takes its submodules with it: renaming `alpha` to `beta` renames `alpha.util` to
/// `beta.util` without anybody saying so, which is why this is a prefix rewrite rather than an
/// equality check.
pub open spec fn applied(renaming: RenamingModel, name: Seq<char>) -> Option<Seq<char>> {
    if name == renaming.old {
        Some(renaming.new)
    } else {
        match relative_part(name, renaming.old) {
            Some(rest) => Some(extended(renaming.new, rest)),
            None => None,
        }
    }
}

/// The new name for `name` under the first of `renamings` that covers it.
pub open spec fn renamed_by(renamings: Seq<RenamingModel>, name: Seq<char>) -> Option<Seq<char>>
    decreases renamings.len(),
{
    if renamings.len() == 0 {
        None
    } else {
        match applied(renamings[0], name) {
            Some(new) => Some(new),
            None => renamed_by(renamings.skip(1), name),
        }
    }
}

/// What `name` is called once `renamings` have happened.
pub open spec fn name_after(renamings: Seq<RenamingModel>, name: Seq<char>) -> Seq<char> {
    match renamed_by(renamings, name) {
        Some(new) => new,
        None => name,
    }
}

impl Renaming {
    /// What `name` becomes, or `None` when this renaming does not cover it.
    pub fn apply(&self, name: &ModuleName) -> (new: Option<ModuleName>)
        ensures
            name_in(new) == applied(self@, name@),
    {
        if name.is(&self.old) {
            return Some(self.new.copy());
        }
        match name.relative_to(&self.old) {
            Some(rest) => Some(self.new.extended_by(&rest)),
            None => None,
        }
    }
}

/// The new name for `name` under any of `renamings`.
pub fn renamed(renamings: &Vec<Renaming>, name: &ModuleName) -> (new: Option<ModuleName>)
    ensures
        name_in(new) == renamed_by(renaming_models(renamings@), name@),
{
    let ghost all = renaming_models(renamings@);
    let mut i: usize = 0;
    assert(all.skip(0) =~= all);
    while i < renamings.len()
        invariant
            i <= renamings.len(),
            all == renaming_models(renamings@),
            renamed_by(all, name@) == renamed_by(all.skip(i as int), name@),
        decreases renamings.len() - i,
    {
        assert(all.skip(i as int)[0] == renamings@[i as int]@);
        assert(all.skip(i as int).skip(1) =~= all.skip(i + 1));
        let new = renamings[i].apply(name);
        if new.is_some() {
            return new;
        }
        i += 1;
    }
    None
}

/// A name a file binds that is about to mean something else.
///
/// Three separate facts, because the name as *written* and the module it *is* are not the same
/// string: `from alpha import util` writes `util` and means `alpha.util`. The written form is what
/// the body spells and what has to be matched there; the module is what the type checker will say
/// the expression is; and the replacement is the written form's new spelling, which for that
/// statement is one component and for `import alpha.util` is the whole dotted name.
#[derive(Debug)]
pub struct Rebinding {
    /// How the body spells it — `util`, or `alpha.util`.
    pub spelling: ModuleName,
    /// The module it refers to, absolute, which is what its type will name.
    pub module: ModuleName,
    /// What the body should spell instead.
    pub replacement: String,
}

/// A [`Rebinding`] as a mathematical value.
pub ghost struct RebindingModel {
    pub spelling: Seq<char>,
    pub module: Seq<char>,
    pub replacement: Seq<char>,
}

impl View for Rebinding {
    type V = RebindingModel;

    open spec fn view(&self) -> RebindingModel {
        RebindingModel {
            spelling: self.spelling@,
            module: self.module@,
            replacement: self.replacement@,
        }
    }
}

pub open spec fn rebinding_models(rebound: Seq<Rebinding>) -> Seq<RebindingModel> {
    rebound.map_values(|rebinding: Rebinding| rebinding@)
}

/// What has been found while a file's import statements are gone through.
#[derive(Debug)]
pub struct Collected {
    pub edits: Vec<FileEdit>,
    pub skipped: Vec<SkippedImport>,
    /// The names the file binds to a module whose name changes. Collected while the import
    /// statements are rewritten and used afterwards, because a use of `alpha` in the body can
    /// only be judged once it is known that this file's `import alpha` was one of the imports
    /// rewritten.
    pub rebound: Vec<Rebinding>,
}

/// A [`Collected`] as a mathematical value.
pub ghost struct CollectedModel {
    pub edits: Seq<FileEditModel>,
    pub skipped: Seq<SkippedImport>,
    pub rebound: Seq<RebindingModel>,
}

impl View for Collected {
    type V = CollectedModel;

    open spec fn view(&self) -> CollectedModel {
        CollectedModel {
            edits: file_edit_models(self.edits@),
            skipped: self.skipped@,
            rebound: rebinding_models(self.rebound@),
        }
    }
}

impl CollectedModel {
    pub open spec fn with_edit(self, file: File, edit: EditModel) -> CollectedModel {
        CollectedModel {
            edits: self.edits.push(FileEditModel { file, edit }),
            skipped: self.skipped,
            rebound: self.rebound,
        }
    }

    pub open spec fn with_skipped(self, skipped: SkippedImport) -> CollectedModel {
        CollectedModel {
            edits: self.edits,
            skipped: self.skipped.push(skipped),
            rebound: self.rebound,
        }
    }

    pub open spec fn with_rebinding(self, rebinding: RebindingModel) -> CollectedModel {
        self.with_rebindings(seq![rebinding])
    }

    pub open spec fn with_rebindings(self, rebindings: Seq<RebindingModel>) -> CollectedModel {
        CollectedModel {
            edits: self.edits,
            skipped: self.skipped,
            rebound: self.rebound + rebindings,
        }
    }
}

impl Collected {
    fn edit(&mut self, file: File, content: String, range: TextRange)
        ensures
            final(self)@ == old(self)@.with_edit(file, replacing(content@, range)),
    {
        let ghost before = self@;
        let edit = FileEdit { file, edit: Edit::range_replacement(content, range) };
        self.edits.push(edit);
        assert(self@.edits =~= before.edits.push(edit@));
    }

    fn skip(&mut self, file: File, range: TextRange, reason: SkipReason)
        ensures
            final(self)@ == old(self)@.with_skipped((SkippedImport { file, range, reason })),
    {
        self.skipped.push(SkippedImport { file, range, reason });
    }

    fn rebind(&mut self, rebinding: Rebinding)
        ensures
            final(self)@ == old(self)@.with_rebinding(rebinding@),
    {
        let ghost before = self@;
        self.rebound.push(rebinding);
        assert(self@.rebound =~= before.rebound + seq![rebinding@]);
    }
}

/// The rebindings an `import <name>` takes: one of each dotted prefix of `name`, itself among
/// them, whose name changes.
pub open spec fn rebound_prefixes(renamings: Seq<RenamingModel>, name: Seq<char>) -> Seq<
    RebindingModel,
>
    decreases name.len(),
{
    proof {
        lemma_parent_is_shorter(name);
    }
    let outer = match parent_part(name) {
        Some(parent) => rebound_prefixes(renamings, parent),
        None => Seq::empty(),
    };
    match renamed_by(renamings, name) {
        Some(new) => outer.push(
            RebindingModel { spelling: name, module: name, replacement: new },
        ),
        None => outer,
    }
}

/// What `import <alias>` adds.
pub open spec fn with_plain_alias(
    renamings: Seq<RenamingModel>,
    file: File,
    alias: Node,
    sofar: CollectedModel,
) -> CollectedModel {
    match alias.kind {
        NodeKind::Alias { name, name_range, asname } => if !is_module_name(name@) {
            sofar
        } else {
            match renamed_by(renamings, name@) {
                Some(new) => {
                    let edited = sofar.with_edit(file, replacing(new, name_range));
                    // `import alpha.util` binds `alpha`, and every use of it in the body is
                    // written `alpha` or `alpha.util.thing`; with an `as` the binding is the
                    // alias and nothing else changes
                    if asname is None {
                        edited.with_rebindings(rebound_prefixes(renamings, name@))
                    } else {
                        edited
                    }
                },
                None => sofar,
            }
        },
        _ => sofar,
    }
}

pub open spec fn with_plain_aliases(
    renamings: Seq<RenamingModel>,
    file: File,
    aliases: Seq<Node>,
    sofar: CollectedModel,
) -> CollectedModel
    decreases aliases.len(),
{
    if aliases.len() == 0 {
        sofar
    } else {
        with_plain_alias(
            renamings,
            file,
            aliases.last(),
            with_plain_aliases(renamings, file, aliases.drop_last(), sofar),
        )
    }
}

/// What the `import` statements among `nodes` add.
pub open spec fn with_plain_imports(
    renamings: Seq<RenamingModel>,
    file: File,
    nodes: Seq<Node>,
    sofar: CollectedModel,
) -> CollectedModel
    decreases nodes.len(),
{
    if nodes.len() == 0 {
        sofar
    } else {
        let before = with_plain_imports(renamings, file, nodes.drop_last(), sofar);
        if nodes.last().kind is StmtImport {
            with_plain_aliases(renamings, file, children_of(nodes.last(), Field::Name), before)
        } else {
            before
        }
    }
}

/// The module of `bases` that `level` dots resolve to.
pub open spec fn base_at(bases: Seq<(u32, ModuleName)>, level: u32) -> Option<Seq<char>> {
    match found(bases, level) {
        Some(name) => Some(name@),
        None => None,
    }
}

/// The module a `from <module> import ..` imports *from*, as an absolute name. Relative imports
/// are resolved against the importing file.
pub open spec fn imported_from(
    bases: Seq<(u32, ModuleName)>,
    module: Option<Seq<char>>,
    level: u32,
) -> Option<Seq<char>> {
    if level == 0 {
        match module {
            Some(module) => if is_module_name(module) {
                Some(module)
            } else {
                None
            },
            None => None,
        }
    } else {
        match base_at(bases, level) {
            Some(base) => match module {
                Some(module) => if is_module_name(module) {
                    Some(extended(base, module))
                } else {
                    None
                },
                None => Some(base),
            },
            None => None,
        }
    }
}

/// The edit that makes an import name `new_from`, or the reason it cannot.
///
/// Absolute imports are a straight replacement of the module text. A relative one is only
/// rewritable while the new name is still under the package the dots reach: `from .util import x`
/// in `alpha/main.py` can become `from .helpers import x`, but nothing that starts with a dot can
/// name a module that has left `alpha`.
pub open spec fn rewritten(
    bases: Seq<(u32, ModuleName)>,
    renamings: Seq<RenamingModel>,
    module: Option<Seq<char>>,
    module_range: TextRange,
    level: u32,
    new_from: Seq<char>,
) -> Result<Option<EditModel>, SkipReason> {
    match module {
        // `from . import x` / `from .. import x`: the dots are the whole reference
        None => Ok(None),
        Some(module) => if level == 0 {
            Ok(Some(replacing(new_from, module_range)))
        } else {
            match base_at(bases, level) {
                None => Err(SkipReason::NoLongerRelative),
                // the dots go on meaning "this file's own package", and that package moves when
                // the file moves with it. so a relative import inside a package that is being
                // renamed as a whole is measured against where the package is going, and comes
                // out unchanged
                Some(base) => match relative_part(new_from, name_after(renamings, base)) {
                    Some(tail) => if tail == module {
                        Ok(None)
                    } else {
                        Ok(Some(replacing(tail, module_range)))
                    },
                    None => Err(SkipReason::NoLongerRelative),
                },
            }
        },
    }
}

/// What the module path of a `from` import adds.
pub open spec fn with_reference(
    facts: FileFacts,
    renamings: Seq<RenamingModel>,
    import: Node,
    from: Seq<char>,
    sofar: CollectedModel,
) -> CollectedModel {
    match import.kind {
        NodeKind::StmtImportFrom { module, module_range, level } => match renamed_by(
            renamings,
            from,
        ) {
            Some(new_from) => match rewritten(
                facts.bases,
                renamings,
                text_in(module),
                module_range,
                level,
                new_from,
            ) {
                Ok(Some(edit)) => sofar.with_edit(facts.file, edit),
                // nothing to rewrite: either the statement has no module text at all
                // (`from . import x`) or the text it has still spells the right thing, which is
                // the ordinary outcome for a relative import inside a package that is moving as
                // a whole
                Ok(None) => sofar,
                Err(reason) => sofar.with_skipped(
                    SkippedImport { file: facts.file, range: import.range, reason },
                ),
            },
            None => sofar,
        },
        _ => sofar,
    }
}

/// What one name of a `from <from> import <alias>` adds. `from alpha import util` names a module
/// in its *alias* rather than in its module path, and that is the form the rename of a leaf
/// module usually meets.
pub open spec fn with_from_alias(
    renamings: Seq<RenamingModel>,
    file: File,
    from: Seq<char>,
    alias: Node,
    sofar: CollectedModel,
) -> CollectedModel {
    match alias.kind {
        NodeKind::Alias { name, name_range, asname } => if !is_module_name(name@) {
            sofar
        } else {
            match renamed_by(renamings, extended(from, name@)) {
                Some(new_imported) => match parent_part(new_imported) {
                    // only the last component may change here: the rest of the name is written
                    // in the `from`
                    Some(new_parent) => if new_parent != name_after(renamings, from) {
                        sofar.with_skipped(
                            SkippedImport {
                                file,
                                range: alias.range,
                                reason: SkipReason::NeedsDifferentStatement,
                            },
                        )
                    } else if last_part(new_imported) == name@ {
                        // the last component is often untouched — renaming the package `alpha`
                        // to `beta` leaves `from beta import util` spelling `util` exactly as it
                        // did — and an edit that replaces a name with itself is noise in a diff
                        // the user is about to be shown
                        sofar
                    } else {
                        let edited = sofar.with_edit(
                            file,
                            replacing(last_part(new_imported), name_range),
                        );
                        if asname is None {
                            edited.with_rebinding(
                                RebindingModel {
                                    spelling: name@,
                                    module: extended(from, name@),
                                    replacement: last_part(new_imported),
                                },
                            )
                        } else {
                            edited
                        }
                    },
                    // a module of the top level has no package it could be imported from
                    None => sofar.with_skipped(
                        SkippedImport {
                            file,
                            range: alias.range,
                            reason: SkipReason::NeedsDifferentStatement,
                        },
                    ),
                },
                None => sofar,
            }
        },
        _ => sofar,
    }
}

pub open spec fn with_from_aliases(
    renamings: Seq<RenamingModel>,
    file: File,
    from: Seq<char>,
    aliases: Seq<Node>,
    sofar: CollectedModel,
) -> CollectedModel
    decreases aliases.len(),
{
    if aliases.len() == 0 {
        sofar
    } else {
        with_from_alias(
            renamings,
            file,
            from,
            aliases.last(),
            with_from_aliases(renamings, file, from, aliases.drop_last(), sofar),
        )
    }
}

/// What a file is, apart from its tree.
pub ghost struct FileFacts {
    pub file: File,
    pub bases: Seq<(u32, ModuleName)>,
    pub modules: Seq<(u32, ModuleName)>,
}

impl ProjectFile {
    pub open spec fn facts(self) -> FileFacts {
        FileFacts { file: self.file, bases: self.bases@, modules: self.modules@ }
    }
}

/// What a `from` import adds.
pub open spec fn with_from_import(
    facts: FileFacts,
    renamings: Seq<RenamingModel>,
    import: Node,
    sofar: CollectedModel,
) -> CollectedModel {
    match import.kind {
        NodeKind::StmtImportFrom { module, module_range, level } => match imported_from(
            facts.bases,
            text_in(module),
            level,
        ) {
            Some(from) => with_from_aliases(
                renamings,
                facts.file,
                from,
                children_of(import, Field::Name),
                with_reference(facts, renamings, import, from, sofar),
            ),
            None => sofar,
        },
        _ => sofar,
    }
}

/// What the `from` imports among `nodes` add.
pub open spec fn with_from_imports(
    facts: FileFacts,
    renamings: Seq<RenamingModel>,
    nodes: Seq<Node>,
    sofar: CollectedModel,
) -> CollectedModel
    decreases nodes.len(),
{
    if nodes.len() == 0 {
        sofar
    } else {
        with_from_import(
            facts,
            renamings,
            nodes.last(),
            with_from_imports(facts, renamings, nodes.drop_last(), sofar),
        )
    }
}

/// The dotted name an expression spells, when it is one: `alpha.util` from `alpha.util`, and
/// nothing at all from `f().util` or `alpha[0].util`.
pub open spec fn dotted_of(expr: Node) -> Option<Seq<char>>
    decreases height(expr),
{
    match expr.kind {
        NodeKind::ExprName { id, .. } => Some(id@),
        NodeKind::ExprAttribute { attr, .. } => {
            proof {
                lemma_height_child_of(expr, Field::Value);
            }
            match child_of(expr, Field::Value) {
                Some(value) => match dotted_of(value) {
                    Some(base) => Some(extended(base, attr@)),
                    None => None,
                },
                None => None,
            }
        },
        _ => None,
    }
}

/// The first of `rebound` that is spelled `spelling`.
pub open spec fn spelled_among(rebound: Seq<RebindingModel>, spelling: Seq<char>) -> Option<
    RebindingModel,
>
    decreases rebound.len(),
{
    if rebound.len() == 0 {
        None
    } else if rebound[0].spelling == spelling {
        Some(rebound[0])
    } else {
        spelled_among(rebound.skip(1), spelling)
    }
}

/// The rebinding `expr` spells, when it reads as a dotted module name.
pub open spec fn candidate_at(rebound: Seq<RebindingModel>, expr: Node) -> Option<RebindingModel> {
    match dotted_of(expr) {
        Some(spelling) => if is_module_name(spelling) {
            spelled_among(rebound, spelling)
        } else {
            None
        },
        None => None,
    }
}

/// The edit to a use of a rebound name. The expression's own text says which module it *reads*
/// as; the type says which module it is. Both have to agree, or this is a use of something else
/// that happens to be spelled the same — a package whose `__init__` re-exports a submodule of
/// another name, most obviously.
pub open spec fn use_edit(facts: FileFacts, rebinding: RebindingModel, expr: Node) -> Seq<
    FileEditModel,
> {
    match found(facts.modules, expr.id) {
        Some(module) => if module@ == rebinding.module {
            seq![
                FileEditModel {
                    file: facts.file,
                    edit: replacing(rebinding.replacement, expr.range),
                },
            ]
        } else {
            Seq::empty()
        },
        None => Seq::empty(),
    }
}

/// The edits to the uses, in `node`, of a name that an import statement bound to a module that
/// moved. The longest dotted prefix wins, and its subexpressions are not visited: rewriting both
/// `alpha` and `alpha.util` inside `alpha.util.thing` would produce two overlapping edits of the
/// same text.
pub open spec fn uses_in(facts: FileFacts, rebound: Seq<RebindingModel>, node: Node) -> Seq<
    FileEditModel,
>
    decreases node, 1int,
{
    match candidate_at(rebound, node) {
        Some(rebinding) => use_edit(facts, rebinding, node),
        None => uses_in_all(facts, rebound, node.children@),
    }
}

/// The edits to the uses in each of `nodes`, one after the other.
pub open spec fn uses_in_all(facts: FileFacts, rebound: Seq<RebindingModel>, nodes: Seq<Node>) ->
    Seq<FileEditModel>
    decreases nodes, 0int,
{
    if nodes.len() == 0 {
        Seq::empty()
    } else {
        uses_in_all(facts, rebound, nodes.drop_last()) + uses_in(facts, rebound, nodes.last())
    }
}

/// A [`ModuleRenameEdits`] as a mathematical value.
pub ghost struct ModuleRenameModel {
    pub edits: Seq<FileEditModel>,
    pub skipped: Seq<SkippedImport>,
}

impl Default for ModuleRenameEdits {
    fn default() -> (edits: Self)
        ensures
            edits@.edits.len() == 0,
            edits@.skipped.len() == 0,
    {
        ModuleRenameEdits { edits: Vec::new(), skipped: Vec::new() }
    }
}

impl View for ModuleRenameEdits {
    type V = ModuleRenameModel;

    open spec fn view(&self) -> ModuleRenameModel {
        ModuleRenameModel { edits: file_edit_models(self.edits@), skipped: self.skipped@ }
    }
}

/// What the import statements of `file` add to `sofar`.
pub open spec fn imports_collected(
    renamings: Seq<RenamingModel>,
    file: ProjectFile,
    sofar: ModuleRenameModel,
) -> CollectedModel {
    let nodes = walked_all(file.suite.children@, Prune::Nothing);
    let start = CollectedModel {
        edits: sofar.edits,
        skipped: sofar.skipped,
        rebound: Seq::empty(),
    };
    with_from_imports(
        file.facts(),
        renamings,
        nodes,
        with_plain_imports(renamings, file.file, nodes, start),
    )
}

/// What `file` adds to `sofar`: every import statement in it, at any depth, and the uses of the
/// names they bind.
pub open spec fn with_file(
    renamings: Seq<RenamingModel>,
    file: ProjectFile,
    sofar: ModuleRenameModel,
) -> ModuleRenameModel {
    let collected = imports_collected(renamings, file, sofar);
    ModuleRenameModel {
        edits: if collected.rebound.len() > 0 {
            collected.edits + uses_in_all(
                file.facts(),
                collected.rebound,
                file.suite.children@,
            )
        } else {
            collected.edits
        },
        skipped: collected.skipped,
    }
}

pub open spec fn with_files(
    renamings: Seq<RenamingModel>,
    files: Seq<ProjectFile>,
    sofar: ModuleRenameModel,
) -> ModuleRenameModel
    decreases files.len(),
{
    if files.len() == 0 {
        sofar
    } else {
        with_file(
            renamings,
            files.last(),
            with_files(renamings, files.drop_last(), sofar),
        )
    }
}

/// The name of the module at `path`, when the search paths cover it.
pub open spec fn name_at(names: Seq<ModulePath>, path: Seq<char>) -> Option<Seq<char>>
    decreases names.len(),
{
    if names.len() == 0 {
        None
    } else if names[0].path@ == path {
        Some(names[0].name@)
    } else {
        name_at(names.skip(1), path)
    }
}

/// The renaming a move is, when it changes the name of a module.
pub open spec fn renaming_of(names: Seq<ModulePath>, file_move: FileMove) -> Option<
    RenamingModel,
> {
    match (name_at(names, file_move.old_path@), name_at(names, file_move.new_path@)) {
        (Some(old), Some(new)) => if old != new {
            Some(RenamingModel { old, new })
        } else {
            None
        },
        _ => None,
    }
}

/// The renamings `moves` are.
pub open spec fn renamings_of(names: Seq<ModulePath>, moves: Seq<FileMove>) -> Seq<RenamingModel>
    decreases moves.len(),
{
    if moves.len() == 0 {
        Seq::empty()
    } else {
        let before = renamings_of(names, moves.drop_last());
        match renaming_of(names, moves.last()) {
            Some(renaming) => before.push(renaming),
            None => before,
        }
    }
}

/// Where a file at `path` goes among `sorted`: after everything that comes no later.
pub open spec fn file_slot(sorted: Seq<ProjectFile>, path: Seq<char>) -> int
    decreases sorted.len(),
{
    if sorted.len() > 0 && !at_most(sorted.last().path@, path) {
        file_slot(sorted.drop_last(), path)
    } else {
        sorted.len() as int
    }
}

/// `files` by their paths.
pub open spec fn by_path(files: Seq<ProjectFile>) -> Seq<ProjectFile>
    decreases files.len(),
{
    if files.len() == 0 {
        Seq::empty()
    } else {
        let before = by_path(files.drop_last());
        before.insert(file_slot(before, files.last().path@), files.last())
    }
}

/// What `moves` cost `project`.
pub open spec fn edits_for(project: Project, moves: Seq<FileMove>) -> ModuleRenameModel {
    let nothing = ModuleRenameModel { edits: Seq::empty(), skipped: Seq::empty() };
    let renamings = renamings_of(project.names@, moves);
    if renamings.len() == 0 {
        nothing
    } else {
        with_files(renamings, by_path(project.files@), nothing)
    }
}

/// Rebinds each dotted prefix of `name` whose name changes.
fn rebind_prefixes(renamings: &Vec<Renaming>, name: &ModuleName, result: &mut Collected)
    ensures
        final(result)@ == old(result)@.with_rebindings(
            rebound_prefixes(renaming_models(renamings@), name@),
        ),
    decreases name@.len(),
{
    let ghost models = renaming_models(renamings@);
    let ghost start = result@;
    proof {
        lemma_parent_is_shorter(name@);
    }
    match name.parent() {
        Some(parent) => {
            rebind_prefixes(renamings, &parent, result);
        },
        None => {
            assert(start.rebound + Seq::<RebindingModel>::empty() =~= start.rebound);
        },
    }
    let ghost outer = result@;
    if let Some(new_name) = renamed(renamings, name) {
        let replacement = owned(new_name.as_str());
        result.rebind(Rebinding { spelling: name.copy(), module: name.copy(), replacement });
        assert(result@.rebound =~= start.rebound + rebound_prefixes(models, name@));
    }
}

fn plain_alias(renamings: &Vec<Renaming>, file: File, alias: &Node, result: &mut Collected)
    ensures
        final(result)@ == with_plain_alias(
            renaming_models(renamings@),
            file,
            *alias,
            old(result)@,
        ),
{
    if let NodeKind::Alias { name, name_range, asname } = &alias.kind {
        let name = match ModuleName::new(name.as_str()) {
            Some(name) => name,
            None => {
                return;
            },
        };
        let new_name = match renamed(renamings, &name) {
            Some(new_name) => new_name,
            None => {
                return;
            },
        };
        result.edit(file, owned(new_name.as_str()), *name_range);
        if asname.is_none() {
            let ghost edited = result@;
            rebind_prefixes(renamings, &name, result);
            assert(result@ == edited.with_rebindings(
                rebound_prefixes(renaming_models(renamings@), name@),
            ));
        }
    }
}

fn plain_import(renamings: &Vec<Renaming>, file: File, import: &Node, result: &mut Collected)
    ensures
        final(result)@ == with_plain_aliases(
            renaming_models(renamings@),
            file,
            children_of(*import, Field::Name),
            old(result)@,
        ),
{
    let ghost start = result@;
    let aliases = import.children_filling(Field::Name);
    let ghost all = children_of(*import, Field::Name);
    let mut i: usize = 0;
    while i < aliases.len()
        invariant
            i <= aliases.len(),
            aliases@.unref() == all,
            result@ == with_plain_aliases(
                renaming_models(renamings@),
                file,
                all.take(i as int),
                start,
            ),
        decreases aliases.len() - i,
    {
        assert(all.take(i + 1).drop_last() =~= all.take(i as int));
        assert(all.take(i + 1).last() == *aliases@[i as int]);
        plain_alias(renamings, file, aliases[i], result);
        i += 1;
    }
    assert(all.take(i as int) =~= all);
}

/// The module a `from <module> import ..` imports *from*, as an absolute name.
fn source_of_import(
    bases: &Vec<(u32, ModuleName)>,
    module: &Option<String>,
    level: u32,
) -> (from: Option<ModuleName>)
    ensures
        name_in(from) == imported_from(bases@, text_in(*module), level),
{
    if level == 0 {
        return match module {
            Some(module) => ModuleName::new(module.as_str()),
            None => None,
        };
    }
    let base = match find(bases, level) {
        Some(base) => base,
        None => {
            return None;
        },
    };
    match module {
        Some(module) => match ModuleName::new(module.as_str()) {
            Some(tail) => Some(base.extended_by(&tail)),
            None => None,
        },
        None => Some(base.copy()),
    }
}

pub open spec fn rewritten_in(result: Result<Option<Edit>, SkipReason>) -> Result<
    Option<EditModel>,
    SkipReason,
> {
    match result {
        Ok(Some(edit)) => Ok(Some(edit@)),
        Ok(None) => Ok(None),
        Err(reason) => Err(reason),
    }
}

/// The edit that makes an import name `new_from`, or the reason it cannot.
pub fn rewritten_module_reference(
    bases: &Vec<(u32, ModuleName)>,
    renamings: &Vec<Renaming>,
    module: &Option<String>,
    module_range: TextRange,
    level: u32,
    new_from: &ModuleName,
) -> (result: Result<Option<Edit>, SkipReason>)
    ensures
        rewritten_in(result) == rewritten(
            bases@,
            renaming_models(renamings@),
            text_in(*module),
            module_range,
            level,
            new_from@,
        ),
{
    let module = match module {
        Some(module) => module,
        None => {
            return Ok(None);
        },
    };
    if level == 0 {
        return Ok(Some(Edit::range_replacement(owned(new_from.as_str()), module_range)));
    }
    let base = match find(bases, level) {
        Some(base) => base,
        None => {
            return Err(SkipReason::NoLongerRelative);
        },
    };
    let new_base = match renamed(renamings, base) {
        Some(new_base) => new_base,
        None => base.copy(),
    };
    match new_from.relative_to(&new_base) {
        Some(tail) => if same_text(tail.as_str(), module.as_str()) {
            Ok(None)
        } else {
            Ok(Some(Edit::range_replacement(owned(tail.as_str()), module_range)))
        },
        None => Err(SkipReason::NoLongerRelative),
    }
}

fn from_alias(
    renamings: &Vec<Renaming>,
    file: File,
    from: &ModuleName,
    alias: &Node,
    result: &mut Collected,
)
    ensures
        final(result)@ == with_from_alias(
            renaming_models(renamings@),
            file,
            from@,
            *alias,
            old(result)@,
        ),
{
    if let NodeKind::Alias { name, name_range, asname } = &alias.kind {
        let alias_name = match ModuleName::new(name.as_str()) {
            Some(alias_name) => alias_name,
            None => {
                return;
            },
        };
        let imported = from.extended_by(&alias_name);
        let new_imported = match renamed(renamings, &imported) {
            Some(new_imported) => new_imported,
            None => {
                return;
            },
        };
        let new_parent = match new_imported.parent() {
            Some(new_parent) => new_parent,
            None => {
                result.skip(file, alias.range, SkipReason::NeedsDifferentStatement);
                return;
            },
        };
        let new_from = match renamed(renamings, from) {
            Some(new_from) => new_from,
            None => from.copy(),
        };
        if !new_parent.is(&new_from) {
            result.skip(file, alias.range, SkipReason::NeedsDifferentStatement);
            return;
        }
        let last = new_imported.last_component();
        if same_text(last.as_str(), name.as_str()) {
            return;
        }
        result.edit(file, owned(last.as_str()), *name_range);
        if asname.is_none() {
            result.rebind(
                Rebinding { spelling: alias_name, module: imported, replacement: last },
            );
        }
    }
}

fn collect_edits_for_import_from(
    file: &ProjectFile,
    renamings: &Vec<Renaming>,
    import: &Node,
    result: &mut Collected,
)
    ensures
        final(result)@ == with_from_import(
            file.facts(),
            renaming_models(renamings@),
            *import,
            old(result)@,
        ),
{
    if let NodeKind::StmtImportFrom { module, module_range, level } = &import.kind {
        let ghost models = renaming_models(renamings@);
        let from = match source_of_import(&file.bases, module, *level) {
            Some(from) => from,
            None => {
                return;
            },
        };
        let ghost before = result@;
        if let Some(new_from) = renamed(renamings, &from) {
            match rewritten_module_reference(
                &file.bases,
                renamings,
                module,
                *module_range,
                *level,
                &new_from,
            ) {
                Ok(Some(edit)) => {
                    let ghost held = result@;
                    let edit = FileEdit { file: file.file, edit };
                    result.edits.push(edit);
                    assert(result@.edits =~= held.edits.push(edit@));
                },
                Ok(None) => {},
                Err(reason) => {
                    result.skip(file.file, import.range, reason);
                },
            }
        }
        assert(result@ == with_reference(file.facts(), models, *import, from@, before));
        let ghost start = result@;
        let aliases = import.children_filling(Field::Name);
        let ghost all = children_of(*import, Field::Name);
        let mut i: usize = 0;
        while i < aliases.len()
            invariant
                i <= aliases.len(),
                aliases@.unref() == all,
                models == renaming_models(renamings@),
                result@ == with_from_aliases(
                    models,
                    file.file,
                    from@,
                    all.take(i as int),
                    start,
                ),
            decreases aliases.len() - i,
        {
            assert(all.take(i + 1).drop_last() =~= all.take(i as int));
            assert(all.take(i + 1).last() == *aliases@[i as int]);
            from_alias(renamings, file.file, &from, aliases[i], result);
            i += 1;
        }
        assert(all.take(i as int) =~= all);
    }
}

/// The dotted name an expression spells, when it is one.
fn dotted(expr: &Node) -> (spelling: Option<String>)
    ensures
        text_in(spelling) == dotted_of(*expr),
    decreases height(*expr),
{
    match &expr.kind {
        NodeKind::ExprName { id, .. } => Some(owned(id.as_str())),
        NodeKind::ExprAttribute { attr, .. } => {
            proof {
                lemma_height_child_of(*expr, Field::Value);
                reveal_strlit(".");
            }
            match expr.child(Field::Value) {
                Some(value) => match dotted(value) {
                    Some(base) => {
                        let spelling = join3(base.as_str(), ".", attr.as_str());
                        assert(spelling@ =~= extended(base@, attr@));
                        Some(spelling)
                    },
                    None => None,
                },
                None => None,
            }
        },
        _ => None,
    }
}

pub open spec fn rebinding_in(found: Option<&Rebinding>) -> Option<RebindingModel> {
    match found {
        Some(rebinding) => Some(rebinding@),
        None => None,
    }
}

fn candidate<'r>(rebound: &'r Vec<Rebinding>, expr: &Node) -> (found: Option<&'r Rebinding>)
    ensures
        rebinding_in(found) == candidate_at(rebinding_models(rebound@), *expr),
{
    let spelling = match dotted(expr) {
        Some(spelling) => spelling,
        None => {
            return None;
        },
    };
    let spelled = match ModuleName::new(spelling.as_str()) {
        Some(spelled) => spelled,
        None => {
            return None;
        },
    };
    let ghost all = rebinding_models(rebound@);
    let mut i: usize = 0;
    assert(all.skip(0) =~= all);
    while i < rebound.len()
        invariant
            i <= rebound.len(),
            all == rebinding_models(rebound@),
            candidate_at(all, *expr) == spelled_among(all.skip(i as int), spelled@),
        decreases rebound.len() - i,
    {
        assert(all.skip(i as int)[0] == rebound@[i as int]@);
        assert(all.skip(i as int).skip(1) =~= all.skip(i + 1));
        if rebound[i].spelling.is(&spelled) {
            return Some(&rebound[i]);
        }
        i += 1;
    }
    None
}

/// The uses, in `nodes`, of a name that an import statement bound to a module that moved.
///
/// `import alpha.util` binds `alpha`, so `alpha.util.thing()` in the body has to become
/// `beta.util.thing()` when `alpha` moves. The candidates are found by their text and confirmed by
/// their type: an expression is only rewritten when the type checker says it *is* the module that
/// moved, which is what keeps a local variable called `util` from being rewritten in a file that
/// also imports a module of that name.
fn collect_edits_for_uses(
    file: &ProjectFile,
    rebound: &Vec<Rebinding>,
    nodes: &Vec<Node>,
    edits: &mut Vec<FileEdit>,
)
    ensures
        file_edit_models(final(edits)@) == file_edit_models(old(edits)@) + uses_in_all(
            file.facts(),
            rebinding_models(rebound@),
            nodes@,
        ),
    decreases nodes@, 0int,
{
    let ghost start = file_edit_models(edits@);
    let ghost models = rebinding_models(rebound@);
    let mut i: usize = 0;
    assert(file_edit_models(edits@) =~= start + uses_in_all(file.facts(), models, nodes@.take(0)));
    while i < nodes.len()
        invariant
            i <= nodes.len(),
            models == rebinding_models(rebound@),
            file_edit_models(edits@) == start + uses_in_all(
                file.facts(),
                models,
                nodes@.take(i as int),
            ),
        decreases nodes.len() - i,
    {
        assert(nodes@.take(i + 1).drop_last() =~= nodes@.take(i as int));
        assert(nodes@.take(i + 1).last() == nodes@[i as int]);
        collect_edits_for_use(file, rebound, &nodes[i], edits);
        assert(file_edit_models(edits@) =~= start + uses_in_all(
            file.facts(),
            models,
            nodes@.take(i + 1),
        ));
        i += 1;
    }
    assert(nodes@.take(i as int) =~= nodes@);
}

fn collect_edits_for_use(
    file: &ProjectFile,
    rebound: &Vec<Rebinding>,
    node: &Node,
    edits: &mut Vec<FileEdit>,
)
    ensures
        file_edit_models(final(edits)@) == file_edit_models(old(edits)@) + uses_in(
            file.facts(),
            rebinding_models(rebound@),
            *node,
        ),
    decreases node, 1int,
{
    let ghost start = file_edit_models(edits@);
    match candidate(rebound, node) {
        Some(rebinding) => {
            if let Some(module) = find(&file.modules, node.id) {
                if module.is(&rebinding.module) {
                    let replacement = owned(rebinding.replacement.as_str());
                    let edit = FileEdit {
                        file: file.file,
                        edit: Edit::range_replacement(replacement, node.range),
                    };
                    edits.push(edit);
                    assert(file_edit_models(edits@) =~= start + seq![edit@]);
                    return;
                }
            }
            assert(start =~= start + Seq::<FileEditModel>::empty());
        },
        None => {
            collect_edits_for_uses(file, rebound, &node.children, edits);
        },
    }
}

fn collect_edits_for_file(
    file: &ProjectFile,
    renamings: &Vec<Renaming>,
    result: ModuleRenameEdits,
) -> (edited: ModuleRenameEdits)
    ensures
        edited@ == with_file(renaming_models(renamings@), *file, result@),
{
    let ghost models = renaming_models(renamings@);
    let ghost sofar = result@;
    let nodes = walk_nodes(&file.suite.children, Prune::Nothing);
    let ghost all = walked_all(file.suite.children@, Prune::Nothing);
    let mut collected = Collected {
        edits: result.edits,
        skipped: result.skipped,
        rebound: Vec::new(),
    };
    let ghost start = CollectedModel {
        edits: sofar.edits,
        skipped: sofar.skipped,
        rebound: Seq::empty(),
    };
    assert(collected@.rebound =~= Seq::empty());
    let mut i: usize = 0;
    while i < nodes.len()
        invariant
            i <= nodes.len(),
            nodes@.unref() == all,
            models == renaming_models(renamings@),
            collected@ == with_plain_imports(models, file.file, all.take(i as int), start),
        decreases nodes.len() - i,
    {
        assert(all.take(i + 1).drop_last() =~= all.take(i as int));
        assert(all.take(i + 1).last() == *nodes@[i as int]);
        if matches!(nodes[i].kind, NodeKind::StmtImport) {
            plain_import(renamings, file.file, nodes[i], &mut collected);
        }
        i += 1;
    }
    assert(all.take(i as int) =~= all);
    let ghost plain = collected@;
    let mut j: usize = 0;
    while j < nodes.len()
        invariant
            j <= nodes.len(),
            nodes@.unref() == all,
            models == renaming_models(renamings@),
            collected@ == with_from_imports(file.facts(), models, all.take(j as int), plain),
        decreases nodes.len() - j,
    {
        assert(all.take(j + 1).drop_last() =~= all.take(j as int));
        assert(all.take(j + 1).last() == *nodes@[j as int]);
        collect_edits_for_import_from(file, renamings, nodes[j], &mut collected);
        j += 1;
    }
    assert(all.take(j as int) =~= all);
    assert(collected@ == imports_collected(models, *file, sofar));
    let Collected { edits, skipped, rebound } = collected;
    let mut edits = edits;
    if rebound.len() > 0 {
        collect_edits_for_uses(file, &rebound, &file.suite.children, &mut edits);
    }
    ModuleRenameEdits { edits, skipped }
}

fn name_of_path(names: &Vec<ModulePath>, path: &str) -> (name: Option<ModuleName>)
    ensures
        name_in(name) == name_at(names@, path@),
{
    let mut i: usize = 0;
    assert(names@.skip(0) =~= names@);
    while i < names.len()
        invariant
            i <= names.len(),
            name_at(names@, path@) == name_at(names@.skip(i as int), path@),
        decreases names.len() - i,
    {
        assert(names@.skip(i as int)[0] == names@[i as int]);
        assert(names@.skip(i as int).skip(1) =~= names@.skip(i + 1));
        if same_text(names[i].path.as_str(), path) {
            return Some(names[i].name.copy());
        }
        i += 1;
    }
    None
}

fn renamings_for(names: &Vec<ModulePath>, moves: &Vec<FileMove>) -> (renamings: Vec<Renaming>)
    ensures
        renaming_models(renamings@) == renamings_of(names@, moves@),
{
    let mut renamings: Vec<Renaming> = Vec::new();
    let mut i: usize = 0;
    assert(renaming_models(renamings@) =~= renamings_of(names@, moves@.take(0)));
    while i < moves.len()
        invariant
            i <= moves.len(),
            renaming_models(renamings@) == renamings_of(names@, moves@.take(i as int)),
        decreases moves.len() - i,
    {
        assert(moves@.take(i + 1).drop_last() =~= moves@.take(i as int));
        assert(moves@.take(i + 1).last() == moves@[i as int]);
        if let Some(old) = name_of_path(names, moves[i].old_path.as_str()) {
            if let Some(new) = name_of_path(names, moves[i].new_path.as_str()) {
                if !old.is(&new) {
                    let ghost before = renamings@;
                    let renaming = Renaming { old, new };
                    renamings.push(renaming);
                    assert(renaming_models(renamings@) =~= renaming_models(before).push(
                        renaming@,
                    ));
                }
            }
        }
        i += 1;
    }
    assert(moves@.take(i as int) =~= moves@);
    renamings
}

/// The files by their paths.
fn sort_by_path(files: &Vec<ProjectFile>) -> (sorted: Vec<&ProjectFile>)
    ensures
        sorted@.unref() == by_path(files@),
{
    let mut sorted: Vec<&ProjectFile> = Vec::new();
    let mut i: usize = 0;
    assert(sorted@.unref() =~= by_path(files@.take(0)));
    while i < files.len()
        invariant
            i <= files.len(),
            sorted@.unref() == by_path(files@.take(i as int)),
        decreases files.len() - i,
    {
        assert(files@.take(i + 1).drop_last() =~= files@.take(i as int));
        assert(files@.take(i + 1).last() == files@[i as int]);
        let file = &files[i];
        let ghost before = sorted@.unref();
        let mut at: usize = sorted.len();
        assert(before.take(at as int) =~= before);
        while at > 0 && !comes_by(sorted[at - 1].path.as_str(), file.path.as_str())
            invariant
                at <= sorted.len(),
                before == sorted@.unref(),
                file_slot(before, file.path@) == file_slot(before.take(at as int), file.path@),
            decreases at,
        {
            assert(before.take(at as int).drop_last() =~= before.take(at - 1));
            assert(before.take(at as int).last() == *sorted@[at - 1]);
            at -= 1;
        }
        assert(at > 0 ==> before.take(at as int).last() == *sorted@[at - 1]);
        sorted.insert(at, file);
        assert(sorted@.unref() =~= before.insert(at as int, *file));
        i += 1;
    }
    assert(files@.take(i as int) =~= files@);
    sorted
}

/// The edits that keep the project's imports working when `moves` happen.
///
/// Returns nothing when no move changes a module's name — moving a file the search paths do not
/// cover, or renaming a directory that is not a package, is not a rename of anything importable.
pub fn module_rename_edits(project: &Project, moves: &Vec<FileMove>) -> (result:
    ModuleRenameEdits)
    ensures
        result@ == edits_for(*project, moves@),
{
    let renamings = renamings_for(&project.names, moves);
    let mut result = ModuleRenameEdits { edits: Vec::new(), skipped: Vec::new() };
    let ghost nothing = ModuleRenameModel { edits: Seq::empty(), skipped: Seq::empty() };
    assert(result@.edits =~= nothing.edits);
    if renamings.len() == 0 {
        return result;
    }
    // serial, and in the order of the paths: the client applies these as one edit, and a set of
    // edits that arrives in a different order on every run is one nobody can go over or test
    let files = sort_by_path(&project.files);
    let ghost all = by_path(project.files@);
    let ghost models = renaming_models(renamings@);
    let mut i: usize = 0;
    while i < files.len()
        invariant
            i <= files.len(),
            files@.unref() == all,
            models == renaming_models(renamings@),
            result@ == with_files(models, all.take(i as int), nothing),
        decreases files.len() - i,
    {
        assert(all.take(i + 1).drop_last() =~= all.take(i as int));
        assert(all.take(i + 1).last() == *files@[i as int]);
        result = collect_edits_for_file(files[i], &renamings, result);
        i += 1;
    }
    assert(all.take(i as int) =~= all);
    result
}

/// A renaming is a prefix rewrite: the module itself gets the new name, and everything inside it
/// keeps what follows.
pub proof fn law_renaming_takes_what_is_inside(renaming: RenamingModel, rest: Seq<char>)
    ensures
        applied(renaming, renaming.old) == Some(renaming.new),
        applied(renaming, extended(renaming.old, rest)) == Some(extended(renaming.new, rest)),
{
    let name = extended(renaming.old, rest);
    assert(name.len() > renaming.old.len());
    assert(name.take(renaming.old.len() as int) =~= renaming.old);
    assert(name.skip(renaming.old.len() as int + 1) =~= rest);
}

/// A renaming covers nothing else.
pub proof fn law_renaming_covers_nothing_else(renaming: RenamingModel, name: Seq<char>)
    ensures
        applied(renaming, name) is Some ==> name == renaming.old || exists|rest: Seq<char>|
            name == #[trigger] extended(renaming.old, rest),
{
    if let Some(rest) = relative_part(name, renaming.old) {
        assert(name =~= extended(renaming.old, rest));
    }
}

proof fn lemma_no_renamings(names: Seq<ModulePath>, moves: Seq<FileMove>)
    requires
        forall|i: int| 0 <= i < moves.len() ==> renaming_of(names, #[trigger] moves[i]) is None,
    ensures
        renamings_of(names, moves).len() == 0,
    decreases moves.len(),
{
    if moves.len() > 0 {
        assert forall|i: int| 0 <= i < moves.drop_last().len() implies renaming_of(
            names,
            #[trigger] moves.drop_last()[i],
        ) is None by {
            assert(moves.drop_last()[i] == moves[i]);
        }
        lemma_no_renamings(names, moves.drop_last());
        assert(renaming_of(names, moves[moves.len() - 1]) is None);
    }
}

/// Moves that rename no module cost nothing.
pub proof fn law_moves_that_rename_nothing(project: Project, moves: Seq<FileMove>)
    requires
        forall|i: int|
            0 <= i < moves.len() ==> renaming_of(project.names@, #[trigger] moves[i]) is None,
    ensures
        edits_for(project, moves).edits.len() == 0,
        edits_for(project, moves).skipped.len() == 0,
{
    lemma_no_renamings(project.names@, moves);
}

/// A module path that was rewritten, or left as it is, names the module under its new name; one
/// that was not could not have been, whatever was written after the dots.
pub proof fn law_rewritten_path_names_the_module(
    bases: Seq<(u32, ModuleName)>,
    renamings: Seq<RenamingModel>,
    module: Seq<char>,
    module_range: TextRange,
    level: u32,
    new_from: Seq<char>,
)
    ensures
        match rewritten(bases, renamings, Some(module), module_range, level, new_from) {
            Ok(Some(edit)) => edit.range == module_range && if level == 0 {
                edit.content == Some(new_from)
            } else {
                edit.content != Some(module) && extended(
                    name_after(renamings, base_at(bases, level)->0),
                    edit.content->0,
                ) == new_from
            },
            Ok(None) => level != 0 && extended(
                name_after(renamings, base_at(bases, level)->0),
                module,
            ) == new_from,
            Err(reason) => reason == SkipReason::NoLongerRelative && level != 0 && (base_at(
                bases,
                level,
            ) matches Some(base) ==> forall|tail: Seq<char>|
                #[trigger] extended(name_after(renamings, base), tail) != new_from),
        },
{
    if level != 0 {
        if let Some(base) = base_at(bases, level) {
            let new_base = name_after(renamings, base);
            match relative_part(new_from, new_base) {
                Some(tail) => {
                    assert(extended(new_base, tail) =~= new_from);
                },
                None => {
                    assert forall|tail: Seq<char>| #[trigger] extended(new_base, tail)
                        != new_from by {
                        let name = extended(new_base, tail);
                        assert(name.take(new_base.len() as int) =~= new_base);
                        assert(name[new_base.len() as int] == '.');
                    }
                },
            }
        }
    }
}

/// Nothing about a relative import stops working because the package around it was renamed as a
/// whole: it is left as it is.
pub proof fn law_relative_import_in_a_renamed_package(
    bases: Seq<(u32, ModuleName)>,
    renaming: RenamingModel,
    module: Seq<char>,
    module_range: TextRange,
    level: u32,
)
    requires
        level > 0,
        is_module_name(module),
        base_at(bases, level) is Some,
        applied(renaming, base_at(bases, level)->0) is Some,
    ensures
        imported_from(bases, Some(module), level) is Some,
        rewritten(
            bases,
            seq![renaming],
            Some(module),
            module_range,
            level,
            name_after(seq![renaming], imported_from(bases, Some(module), level)->0),
        ) == Ok::<Option<EditModel>, SkipReason>(None),
{
    let base = base_at(bases, level)->0;
    let from = extended(base, module);
    let renamings = seq![renaming];
    assert(renamings[0] == renaming);
    let new_base = applied(renaming, base)->0;
    assert(name_after(renamings, base) == new_base);
    assert(applied(renaming, from) == Some(extended(new_base, module))) by {
        if base == renaming.old {
            law_renaming_takes_what_is_inside(renaming, module);
        } else {
            let rest = relative_part(base, renaming.old)->0;
            assert(base =~= extended(renaming.old, rest));
            law_renaming_takes_what_is_inside(renaming, extended(rest, module));
            assert(from =~= extended(renaming.old, extended(rest, module)));
            assert(extended(renaming.new, extended(rest, module)) =~= extended(
                new_base,
                module,
            ));
        }
    }
    let new_from = extended(new_base, module);
    assert(new_from.take(new_base.len() as int) =~= new_base);
    assert(new_from.skip(new_base.len() as int + 1) =~= module);
}

/// A name imported from a package that was rewritten reads as the module under its new name, and
/// is no edit that replaces a name with itself.
pub proof fn law_rewritten_name_names_the_module(
    renamings: Seq<RenamingModel>,
    file: File,
    from: Seq<char>,
    alias: Node,
    sofar: CollectedModel,
)
    requires
        alias.kind is Alias,
    ensures
        ({
            let after = with_from_alias(renamings, file, from, alias, sofar);
            after.edits.len() > sofar.edits.len() ==> {
                let content = after.edits.last().edit.content->0;
                &&& alias.kind matches NodeKind::Alias { name, .. }
                &&& content != name@
                &&& Some(extended(name_after(renamings, from), content)) == renamed_by(
                    renamings,
                    extended(from, name@),
                )
            }
        }),
{
    if let NodeKind::Alias { name, .. } = alias.kind {
        if let Some(new) = renamed_by(renamings, extended(from, name@)) {
            lemma_parent_extended(new);
        }
    }
}

/// Whether `files` are in the order of their paths.
pub open spec fn is_by_path(files: Seq<ProjectFile>) -> bool {
    forall|i: int, j: int|
        0 <= i < j < files.len() ==> at_most(
            (#[trigger] files[i]).path@,
            (#[trigger] files[j]).path@,
        )
}

proof fn lemma_file_slot(sorted: Seq<ProjectFile>, path: Seq<char>)
    requires
        is_by_path(sorted),
    ensures
        0 <= file_slot(sorted, path) <= sorted.len(),
        forall|i: int|
            0 <= i < file_slot(sorted, path) ==> at_most((#[trigger] sorted[i]).path@, path),
        forall|i: int|
            file_slot(sorted, path) <= i < sorted.len() ==> at_most(
                path,
                (#[trigger] sorted[i]).path@,
            ),
    decreases sorted.len(),
{
    if sorted.len() > 0 {
        let last = sorted.len() - 1;
        lemma_at_most_total(sorted[last].path@, path);
        if !at_most(sorted.last().path@, path) {
            let rest = sorted.drop_last();
            assert forall|i: int, j: int| 0 <= i < j < rest.len() implies at_most(
                (#[trigger] rest[i]).path@,
                (#[trigger] rest[j]).path@,
            ) by {
                assert(rest[i] == sorted[i] && rest[j] == sorted[j]);
            }
            lemma_file_slot(rest, path);
            assert forall|i: int| 0 <= i < file_slot(sorted, path) implies at_most(
                (#[trigger] sorted[i]).path@,
                path,
            ) by {
                assert(rest[i] == sorted[i]);
            }
            assert forall|i: int| file_slot(sorted, path) <= i < sorted.len() implies at_most(
                path,
                (#[trigger] sorted[i]).path@,
            ) by {
                if i < rest.len() {
                    assert(rest[i] == sorted[i]);
                }
            }
        } else {
            assert forall|i: int| 0 <= i < sorted.len() implies at_most(
                (#[trigger] sorted[i]).path@,
                path,
            ) by {
                if i < last {
                    lemma_at_most_transitive(sorted[i].path@, sorted[last].path@, path);
                }
            }
        }
    }
}

/// The files are gone through in the order of their paths, each as often as the project has it.
pub proof fn law_by_path(files: Seq<ProjectFile>)
    ensures
        is_by_path(by_path(files)),
        by_path(files).to_multiset() =~= files.to_multiset(),
    decreases files.len(),
{
    broadcast use vstd::seq_lib::group_to_multiset_ensures;

    if files.len() > 0 {
        let rest = files.drop_last();
        let before = by_path(rest);
        let last = files.last();
        law_by_path(rest);
        lemma_file_slot(before, last.path@);
        let at = file_slot(before, last.path@);
        let placed = before.insert(at, last);
        assert forall|i: int, j: int| 0 <= i < j < placed.len() implies at_most(
            (#[trigger] placed[i]).path@,
            (#[trigger] placed[j]).path@,
        ) by {
            let a = if i < at {
                before[i]
            } else if i == at {
                last
            } else {
                before[i - 1]
            };
            let b = if j < at {
                before[j]
            } else if j == at {
                last
            } else {
                before[j - 1]
            };
            assert(placed[i] == a && placed[j] == b);
        }
        assert(files =~= rest.push(last));
        assert(placed.to_multiset() =~= before.to_multiset().insert(last));
        assert(files.to_multiset() =~= rest.to_multiset().insert(last));
    }
}

proof fn lemma_same_order(a: Seq<ProjectFile>, b: Seq<ProjectFile>)
    requires
        is_by_path(a),
        is_by_path(b),
        a.to_multiset() == b.to_multiset(),
        forall|x: ProjectFile, y: ProjectFile|
            a.contains(x) && a.contains(y) && #[trigger] x.path@ == #[trigger] y.path@ ==> x == y,
    ensures
        a == b,
    decreases a.len(),
{
    broadcast use vstd::seq_lib::group_to_multiset_ensures;

    assert(a.to_multiset().len() == a.len());
    assert(b.to_multiset().len() == b.len());
    if a.len() > 0 {
        let first = a[0];
        let other = b[0];
        assert(a.contains(first));
        assert(b.contains(other));
        assert(b.to_multiset().count(first) > 0);
        assert(a.to_multiset().count(other) > 0);
        assert(b.contains(first));
        assert(a.contains(other));
        let i = a.index_of(other);
        let j = b.index_of(first);
        lemma_at_most_total(first.path@, other.path@);
        if i > 0 {
            assert(at_most(a[0].path@, a[i].path@));
        }
        if j > 0 {
            assert(at_most(b[0].path@, b[j].path@));
        }
        assert(first.path@ == other.path@);
        assert(first == other);
        let a_rest = a.skip(1);
        let b_rest = b.skip(1);
        assert(a_rest =~= a.remove(0));
        assert(b_rest =~= b.remove(0));
        assert(a_rest.to_multiset() =~= a.to_multiset().remove(first));
        assert(b_rest.to_multiset() =~= b.to_multiset().remove(other));
        assert forall|x: ProjectFile, y: ProjectFile|
            a_rest.contains(x) && a_rest.contains(y) && #[trigger] x.path@
                == #[trigger] y.path@ implies x == y by {
            let k = a_rest.index_of(x);
            let l = a_rest.index_of(y);
            assert(a[k + 1] == x && a[l + 1] == y);
        }
        assert forall|i: int, j: int| 0 <= i < j < a_rest.len() implies at_most(
            (#[trigger] a_rest[i]).path@,
            (#[trigger] a_rest[j]).path@,
        ) by {
            assert(a_rest[i] == a[i + 1] && a_rest[j] == a[j + 1]);
        }
        assert forall|i: int, j: int| 0 <= i < j < b_rest.len() implies at_most(
            (#[trigger] b_rest[i]).path@,
            (#[trigger] b_rest[j]).path@,
        ) by {
            assert(b_rest[i] == b[i + 1] && b_rest[j] == b[j + 1]);
        }
        lemma_same_order(a_rest, b_rest);
        assert(a =~= seq![first] + a_rest);
        assert(b =~= seq![other] + b_rest);
    } else {
        assert(a =~= b);
    }
}

/// The edits come in the same order whatever order the project lists its files in, as long as no
/// two of them are at one path.
pub proof fn law_order_is_stable(a: Project, b: Project, moves: Seq<FileMove>)
    requires
        a.names@ == b.names@,
        a.files@.to_multiset() == b.files@.to_multiset(),
        forall|x: ProjectFile, y: ProjectFile|
            a.files@.contains(x) && a.files@.contains(y) && #[trigger] x.path@
                == #[trigger] y.path@ ==> x == y,
    ensures
        edits_for(a, moves) == edits_for(b, moves),
{
    broadcast use vstd::seq_lib::group_to_multiset_ensures;

    law_by_path(a.files@);
    law_by_path(b.files@);
    let sorted = by_path(a.files@);
    assert forall|x: ProjectFile, y: ProjectFile|
        sorted.contains(x) && sorted.contains(y) && #[trigger] x.path@
            == #[trigger] y.path@ implies x == y by {
        assert(sorted.to_multiset().count(x) > 0 && sorted.to_multiset().count(y) > 0);
        assert(a.files@.contains(x) && a.files@.contains(y));
    }
    lemma_same_order(sorted, by_path(b.files@));
}

/// A place an edit can be at.
pub type Place = (File, TextRange);

/// The places `edits` are at.
pub open spec fn places(edits: Seq<FileEditModel>) -> Multiset<Place>
    decreases edits.len(),
{
    if edits.len() == 0 {
        Multiset::empty()
    } else {
        places(edits.drop_last()).insert((edits.last().file, edits.last().edit.range))
    }
}

/// Where the names of `aliases` are written.
pub open spec fn alias_sites(file: File, aliases: Seq<Node>) -> Multiset<Place>
    decreases aliases.len(),
{
    if aliases.len() == 0 {
        Multiset::empty()
    } else {
        let before = alias_sites(file, aliases.drop_last());
        match aliases.last().kind {
            NodeKind::Alias { name_range, .. } => before.insert((file, name_range)),
            _ => before,
        }
    }
}

/// Where a `import` writes names.
pub open spec fn plain_sites(file: File, node: Node) -> Multiset<Place> {
    if node.kind is StmtImport {
        alias_sites(file, children_of(node, Field::Name))
    } else {
        Multiset::empty()
    }
}

/// Where a `from` import writes names.
pub open spec fn from_sites(file: File, node: Node) -> Multiset<Place> {
    match node.kind {
        NodeKind::StmtImportFrom { module_range, .. } => alias_sites(
            file,
            children_of(node, Field::Name),
        ).insert((file, module_range)),
        _ => Multiset::empty(),
    }
}

/// Where a name or an attribute of one is written.
pub open spec fn use_sites(file: File, node: Node) -> Multiset<Place> {
    if node.kind is ExprName || node.kind is ExprAttribute {
        Multiset::singleton((file, node.range))
    } else {
        Multiset::empty()
    }
}

#[derive(Debug, Clone, Copy, PartialEq, Eq, Structural)]
pub enum SiteKind {
    Plain,
    From,
    Use,
}

pub open spec fn kind_sites(file: File, node: Node, kind: SiteKind) -> Multiset<Place> {
    match kind {
        SiteKind::Plain => plain_sites(file, node),
        SiteKind::From => from_sites(file, node),
        SiteKind::Use => use_sites(file, node),
    }
}

/// Where `nodes` write names of one kind.
pub open spec fn all_sites(file: File, nodes: Seq<Node>, kind: SiteKind) -> Multiset<Place>
    decreases nodes.len(),
{
    if nodes.len() == 0 {
        Multiset::empty()
    } else {
        all_sites(file, nodes.drop_last(), kind).add(kind_sites(file, nodes.last(), kind))
    }
}

/// Where a file writes the names of modules, or could.
pub open spec fn file_sites(file: ProjectFile) -> Multiset<Place> {
    let nodes = walked_all(file.suite.children@, Prune::Nothing);
    all_sites(file.file, nodes, SiteKind::Plain).add(
        all_sites(file.file, nodes, SiteKind::From),
    ).add(all_sites(file.file, nodes, SiteKind::Use))
}

/// Where the files of a project write the names of modules, or could.
pub open spec fn project_sites(files: Seq<ProjectFile>) -> Multiset<Place>
    decreases files.len(),
{
    if files.len() == 0 {
        Multiset::empty()
    } else {
        project_sites(files.drop_last()).add(file_sites(files.last()))
    }
}

proof fn lemma_places_push(edits: Seq<FileEditModel>, edit: FileEditModel)
    ensures
        places(edits.push(edit)) == places(edits).insert((edit.file, edit.edit.range)),
{
    assert(edits.push(edit).drop_last() =~= edits);
}

proof fn lemma_places_add(a: Seq<FileEditModel>, b: Seq<FileEditModel>)
    ensures
        places(a + b) =~= places(a).add(places(b)),
    decreases b.len(),
{
    if b.len() == 0 {
        assert(a + b =~= a);
    } else {
        lemma_places_add(a, b.drop_last());
        assert((a + b).drop_last() =~= a + b.drop_last());
    }
}

proof fn lemma_sites_add(file: File, a: Seq<Node>, b: Seq<Node>, kind: SiteKind)
    ensures
        all_sites(file, a + b, kind) =~= all_sites(file, a, kind).add(all_sites(file, b, kind)),
    decreases b.len(),
{
    if b.len() == 0 {
        assert(a + b =~= a);
    } else {
        lemma_sites_add(file, a, b.drop_last(), kind);
        assert((a + b).drop_last() =~= a + b.drop_last());
    }
}

proof fn lemma_plain_alias_places(
    renamings: Seq<RenamingModel>,
    file: File,
    aliases: Seq<Node>,
    sofar: CollectedModel,
)
    ensures
        places(with_plain_aliases(renamings, file, aliases, sofar).edits).subset_of(
            places(sofar.edits).add(alias_sites(file, aliases)),
        ),
    decreases aliases.len(),
{
    if aliases.len() > 0 {
        let before = with_plain_aliases(renamings, file, aliases.drop_last(), sofar);
        lemma_plain_alias_places(renamings, file, aliases.drop_last(), sofar);
        if let NodeKind::Alias { name, name_range, .. } = aliases.last().kind {
            if let Some(new) = renamed_by(renamings, name@) {
                lemma_places_push(
                    before.edits,
                    FileEditModel { file, edit: replacing(new, name_range) },
                );
            }
        }
    }
}

proof fn lemma_plain_places(
    renamings: Seq<RenamingModel>,
    file: File,
    nodes: Seq<Node>,
    sofar: CollectedModel,
)
    ensures
        places(with_plain_imports(renamings, file, nodes, sofar).edits).subset_of(
            places(sofar.edits).add(all_sites(file, nodes, SiteKind::Plain)),
        ),
    decreases nodes.len(),
{
    if nodes.len() > 0 {
        let before = with_plain_imports(renamings, file, nodes.drop_last(), sofar);
        lemma_plain_places(renamings, file, nodes.drop_last(), sofar);
        lemma_plain_alias_places(
            renamings,
            file,
            children_of(nodes.last(), Field::Name),
            before,
        );
    }
}

proof fn lemma_from_alias_places(
    renamings: Seq<RenamingModel>,
    file: File,
    from: Seq<char>,
    aliases: Seq<Node>,
    sofar: CollectedModel,
)
    ensures
        places(with_from_aliases(renamings, file, from, aliases, sofar).edits).subset_of(
            places(sofar.edits).add(alias_sites(file, aliases)),
        ),
    decreases aliases.len(),
{
    if aliases.len() > 0 {
        let before = with_from_aliases(renamings, file, from, aliases.drop_last(), sofar);
        lemma_from_alias_places(renamings, file, from, aliases.drop_last(), sofar);
        if let NodeKind::Alias { name, name_range, .. } = aliases.last().kind {
            if let Some(new) = renamed_by(renamings, extended(from, name@)) {
                lemma_places_push(
                    before.edits,
                    FileEditModel { file, edit: replacing(last_part(new), name_range) },
                );
            }
        }
    }
}

proof fn lemma_reference_places(
    facts: FileFacts,
    renamings: Seq<RenamingModel>,
    import: Node,
    from: Seq<char>,
    sofar: CollectedModel,
)
    requires
        import.kind is StmtImportFrom,
    ensures
        import.kind matches NodeKind::StmtImportFrom { module_range, .. } && places(
            with_reference(facts, renamings, import, from, sofar).edits,
        ).subset_of(places(sofar.edits).insert((facts.file, module_range))),
{
    if let NodeKind::StmtImportFrom { module, module_range, level } = import.kind {
        if let Some(new_from) = renamed_by(renamings, from) {
            if let Ok(Some(edit)) = rewritten(
                facts.bases,
                renamings,
                text_in(module),
                module_range,
                level,
                new_from,
            ) {
                lemma_places_push(sofar.edits, FileEditModel { file: facts.file, edit });
            }
        }
    }
}

proof fn lemma_from_places(
    facts: FileFacts,
    renamings: Seq<RenamingModel>,
    nodes: Seq<Node>,
    sofar: CollectedModel,
)
    ensures
        places(with_from_imports(facts, renamings, nodes, sofar).edits).subset_of(
            places(sofar.edits).add(all_sites(facts.file, nodes, SiteKind::From)),
        ),
    decreases nodes.len(),
{
    if nodes.len() > 0 {
        let import = nodes.last();
        let before = with_from_imports(facts, renamings, nodes.drop_last(), sofar);
        lemma_from_places(facts, renamings, nodes.drop_last(), sofar);
        if let NodeKind::StmtImportFrom { module, module_range, level } = import.kind {
            if let Some(from) = imported_from(facts.bases, text_in(module), level) {
                lemma_reference_places(facts, renamings, import, from, before);
                lemma_from_alias_places(
                    renamings,
                    facts.file,
                    from,
                    children_of(import, Field::Name),
                    with_reference(facts, renamings, import, from, before),
                );
            }
        }
    }
}

proof fn lemma_use_places(facts: FileFacts, rebound: Seq<RebindingModel>, node: Node)
    ensures
        places(uses_in(facts, rebound, node)).subset_of(
            all_sites(
                facts.file,
                walked(node, Prune::Nothing),
                SiteKind::Use,
            ),
        ),
    decreases node, 1int,
{
    let below = walked_all(node.children@, Prune::Nothing);
    lemma_sites_add(facts.file, seq![node], below, SiteKind::Use);
    assert(seq![node].drop_last() =~= Seq::empty());
    assert(all_sites(facts.file, Seq::<Node>::empty(), SiteKind::Use) =~= Multiset::empty());
    assert(all_sites(facts.file, seq![node], SiteKind::Use) =~= use_sites(facts.file, node));
    match candidate_at(rebound, node) {
        Some(rebinding) => {
            let edits = use_edit(facts, rebinding, node);
            if edits.len() > 0 {
                assert(edits.drop_last() =~= Seq::empty());
                assert(places(Seq::<FileEditModel>::empty()) =~= Multiset::empty());
                assert(places(edits) =~= Multiset::singleton((facts.file, node.range)));
            }
        },
        None => {
            lemma_all_use_places(facts, rebound, node.children@);
        },
    }
}

proof fn lemma_all_use_places(facts: FileFacts, rebound: Seq<RebindingModel>, nodes: Seq<Node>)
    ensures
        places(uses_in_all(facts, rebound, nodes)).subset_of(
            all_sites(facts.file, walked_all(nodes, Prune::Nothing), SiteKind::Use),
        ),
    decreases nodes, 0int,
{
    if nodes.len() > 0 {
        let before = uses_in_all(facts, rebound, nodes.drop_last());
        lemma_all_use_places(facts, rebound, nodes.drop_last());
        lemma_use_places(facts, rebound, nodes.last());
        lemma_places_add(before, uses_in(facts, rebound, nodes.last()));
        lemma_sites_add(
            facts.file,
            walked_all(nodes.drop_last(), Prune::Nothing),
            walked(nodes.last(), Prune::Nothing),
            SiteKind::Use,
        );
    }
}

proof fn lemma_file_places(
    renamings: Seq<RenamingModel>,
    file: ProjectFile,
    sofar: ModuleRenameModel,
)
    ensures
        places(with_file(renamings, file, sofar).edits).subset_of(
            places(sofar.edits).add(file_sites(file)),
        ),
{
    let nodes = walked_all(file.suite.children@, Prune::Nothing);
    let start = CollectedModel {
        edits: sofar.edits,
        skipped: sofar.skipped,
        rebound: Seq::empty(),
    };
    let plain = with_plain_imports(renamings, file.file, nodes, start);
    lemma_plain_places(renamings, file.file, nodes, start);
    lemma_from_places(file.facts(), renamings, nodes, plain);
    let collected = imports_collected(renamings, file, sofar);
    lemma_all_use_places(file.facts(), collected.rebound, file.suite.children@);
    lemma_places_add(
        collected.edits,
        uses_in_all(file.facts(), collected.rebound, file.suite.children@),
    );
}

proof fn lemma_files_places(
    renamings: Seq<RenamingModel>,
    files: Seq<ProjectFile>,
    sofar: ModuleRenameModel,
)
    ensures
        places(with_files(renamings, files, sofar).edits).subset_of(
            places(sofar.edits).add(project_sites(files)),
        ),
    decreases files.len(),
{
    if files.len() > 0 {
        lemma_files_places(renamings, files.drop_last(), sofar);
        lemma_file_places(
            renamings,
            files.last(),
            with_files(renamings, files.drop_last(), sofar),
        );
    }
}

proof fn lemma_sites_insert(files: Seq<ProjectFile>, at: int, file: ProjectFile)
    requires
        0 <= at <= files.len(),
    ensures
        project_sites(files.insert(at, file)) =~= project_sites(files).add(file_sites(file)),
    decreases files.len(),
{
    let placed = files.insert(at, file);
    if at == files.len() {
        assert(placed.drop_last() =~= files);
    } else {
        lemma_sites_insert(files.drop_last(), at, file);
        assert(placed.drop_last() =~= files.drop_last().insert(at, file));
    }
}

proof fn lemma_sites_by_path(files: Seq<ProjectFile>)
    ensures
        project_sites(by_path(files)) =~= project_sites(files),
    decreases files.len(),
{
    if files.len() > 0 {
        let before = by_path(files.drop_last());
        law_by_path(files.drop_last());
        lemma_file_slot(before, files.last().path@);
        lemma_sites_by_path(files.drop_last());
        lemma_sites_insert(before, file_slot(before, files.last().path@), files.last());
    }
}

/// There is at most one edit at a place: where no two of a project's names are written at the
/// same place, no two edits are.
pub proof fn law_one_edit_per_place(project: Project, moves: Seq<FileMove>)
    requires
        forall|place: Place| #[trigger] project_sites(project.files@).count(place) <= 1,
    ensures
        forall|place: Place| #[trigger] places(edits_for(project, moves).edits).count(place) <= 1,
{
    let nothing = ModuleRenameModel { edits: Seq::empty(), skipped: Seq::empty() };
    let renamings = renamings_of(project.names@, moves);
    lemma_sites_by_path(project.files@);
    lemma_files_places(renamings, by_path(project.files@), nothing);
    assert forall|place: Place| #[trigger] places(edits_for(project, moves).edits).count(place)
        <= 1 by {
        assert(project_sites(project.files@).count(place) <= 1);
    }
}

/// A use is only rewritten where the type checker says the expression is the module that moved.
pub proof fn law_uses_are_of_the_module(
    facts: FileFacts,
    rebound: Seq<RebindingModel>,
    node: Node,
    i: int,
)
    requires
        0 <= i < uses_in(facts, rebound, node).len(),
    ensures
        exists|expr: Node|
            #![trigger candidate_at(rebound, expr)]
            walked(node, Prune::Nothing).contains(expr) && candidate_at(
                rebound,
                expr,
            ) is Some && uses_in(facts, rebound, node)[i].edit == replacing(
                candidate_at(rebound, expr)->0.replacement,
                expr.range,
            ) && (found(facts.modules, expr.id) matches Some(module) && module@ == candidate_at(
                rebound,
                expr,
            )->0.module),
    decreases node, 1int,
{
    let walk = walked(node, Prune::Nothing);
    match candidate_at(rebound, node) {
        Some(rebinding) => {
            assert(walk[0] == node);
            assert(walk.contains(node));
        },
        None => {
            lemma_uses_are_of_the_module(facts, rebound, node.children@, i);
            let below = walked_all(node.children@, Prune::Nothing);
            let expr = choose|expr: Node|
                #![trigger candidate_at(rebound, expr)]
                below.contains(expr) && is_use(facts, rebound, expr, uses_in(
                    facts,
                    rebound,
                    node,
                )[i].edit);
            let k = below.index_of(expr);
            assert(walk[k + 1] == expr);
        },
    }
}

/// Whether `edit` rewrites `expr`, which is a module that was rebound.
spec fn is_use(
    facts: FileFacts,
    rebound: Seq<RebindingModel>,
    expr: Node,
    edit: EditModel,
) -> bool {
    &&& candidate_at(rebound, expr) is Some
    &&& edit == replacing(candidate_at(rebound, expr)->0.replacement, expr.range)
    &&& found(facts.modules, expr.id) matches Some(module) && module@ == candidate_at(
        rebound,
        expr,
    )->0.module
}

proof fn lemma_uses_are_of_the_module(
    facts: FileFacts,
    rebound: Seq<RebindingModel>,
    nodes: Seq<Node>,
    i: int,
)
    requires
        0 <= i < uses_in_all(facts, rebound, nodes).len(),
    ensures
        exists|expr: Node|
            #![trigger candidate_at(rebound, expr)]
            walked_all(nodes, Prune::Nothing).contains(expr) && is_use(
                facts,
                rebound,
                expr,
                uses_in_all(facts, rebound, nodes)[i].edit,
            ),
    decreases nodes, 0int,
{
    let before = uses_in_all(facts, rebound, nodes.drop_last());
    let edit = uses_in_all(facts, rebound, nodes)[i].edit;
    let walk = walked_all(nodes, Prune::Nothing);
    let earlier = walked_all(nodes.drop_last(), Prune::Nothing);
    if i < before.len() {
        lemma_uses_are_of_the_module(facts, rebound, nodes.drop_last(), i);
        let expr = choose|expr: Node|
            #![trigger candidate_at(rebound, expr)]
            earlier.contains(expr) && is_use(facts, rebound, expr, edit);
        let k = earlier.index_of(expr);
        assert(walk[k] == expr);
    } else {
        let last = nodes.last();
        law_uses_are_of_the_module(facts, rebound, last, i - before.len());
        let under = walked(last, Prune::Nothing);
        let expr = choose|expr: Node|
            #![trigger candidate_at(rebound, expr)]
            under.contains(expr) && is_use(facts, rebound, expr, edit);
        let k = under.index_of(expr);
        assert(walk[earlier.len() + k] == expr);
    }
}

/// Whether `edits` rewrite `expr` to what the name it spells is rebound to, or `expr` is part of a
/// longer dotted name in `nodes` that is rebound itself.
pub open spec fn use_follows(
    facts: FileFacts,
    rebound: Seq<RebindingModel>,
    nodes: Seq<Node>,
    expr: Node,
    edits: Seq<FileEditModel>,
) -> bool {
    ||| edits.contains(
        FileEditModel {
            file: facts.file,
            edit: replacing(candidate_at(rebound, expr)->0.replacement, expr.range),
        },
    )
    ||| exists|around: Node|
        #![trigger candidate_at(rebound, around)]
        nodes.contains(around) && candidate_at(rebound, around) is Some && walked_all(
            around.children@,
            Prune::Nothing,
        ).contains(expr)
}

/// Every use of a rebound name is rewritten: an expression that reads as the module, and is that
/// module, is edited, or is part of a longer dotted name that is rebound in its place.
pub proof fn law_uses_follow(
    facts: FileFacts,
    rebound: Seq<RebindingModel>,
    nodes: Seq<Node>,
    expr: Node,
)
    requires
        walked_all(nodes, Prune::Nothing).contains(expr),
        candidate_at(rebound, expr) is Some,
        found(facts.modules, expr.id) matches Some(module) && module@ == candidate_at(
            rebound,
            expr,
        )->0.module,
    ensures
        use_follows(
            facts,
            rebound,
            walked_all(nodes, Prune::Nothing),
            expr,
            uses_in_all(facts, rebound, nodes),
        ),
    decreases nodes, 0int,
{
    let walk = walked_all(nodes, Prune::Nothing);
    let earlier = walked_all(nodes.drop_last(), Prune::Nothing);
    let under = walked(nodes.last(), Prune::Nothing);
    let before = uses_in_all(facts, rebound, nodes.drop_last());
    let after = uses_in(facts, rebound, nodes.last());
    let edit = FileEditModel {
        file: facts.file,
        edit: replacing(candidate_at(rebound, expr)->0.replacement, expr.range),
    };
    assert(walk == earlier + under);
    if earlier.contains(expr) {
        law_uses_follow(facts, rebound, nodes.drop_last(), expr);
        if before.contains(edit) {
            let k = before.index_of(edit);
            assert((before + after)[k] == edit);
        } else {
            let around = choose|around: Node|
                #![trigger candidate_at(rebound, around)]
                earlier.contains(around) && candidate_at(rebound, around) is Some && walked_all(
                    around.children@,
                    Prune::Nothing,
                ).contains(expr);
            let k = earlier.index_of(around);
            assert(walk[k] == around);
        }
    } else {
        let k = walk.index_of(expr);
        assert(under[k - earlier.len()] == expr);
        lemma_uses_follow_in(facts, rebound, nodes.last(), expr);
        if after.contains(edit) {
            let k = after.index_of(edit);
            assert((before + after)[before.len() + k] == edit);
        } else {
            let around = choose|around: Node|
                #![trigger candidate_at(rebound, around)]
                under.contains(around) && candidate_at(rebound, around) is Some && walked_all(
                    around.children@,
                    Prune::Nothing,
                ).contains(expr);
            let k = under.index_of(around);
            assert(walk[earlier.len() + k] == around);
        }
    }
}

proof fn lemma_uses_follow_in(
    facts: FileFacts,
    rebound: Seq<RebindingModel>,
    node: Node,
    expr: Node,
)
    requires
        walked(node, Prune::Nothing).contains(expr),
        candidate_at(rebound, expr) is Some,
        found(facts.modules, expr.id) matches Some(module) && module@ == candidate_at(
            rebound,
            expr,
        )->0.module,
    ensures
        use_follows(
            facts,
            rebound,
            walked(node, Prune::Nothing),
            expr,
            uses_in(facts, rebound, node),
        ),
    decreases node, 1int,
{
    let walk = walked(node, Prune::Nothing);
    let below = walked_all(node.children@, Prune::Nothing);
    let edits = uses_in(facts, rebound, node);
    assert(walk[0] == node);
    if candidate_at(rebound, node) is Some {
        if expr == node {
            assert(edits[0].edit.range == expr.range);
            assert(edits.contains(edits[0]));
        } else {
            let k = walk.index_of(expr);
            assert(below[k - 1] == expr);
        }
    } else {
        let k = walk.index_of(expr);
        assert(below[k - 1] == expr);
        law_uses_follow(facts, rebound, node.children@, expr);
        if !edits.contains(
            FileEditModel {
                file: facts.file,
                edit: replacing(candidate_at(rebound, expr)->0.replacement, expr.range),
            },
        ) {
            let around = choose|around: Node|
                #![trigger candidate_at(rebound, around)]
                below.contains(around) && candidate_at(rebound, around) is Some && walked_all(
                    around.children@,
                    Prune::Nothing,
                ).contains(expr);
            let k = below.index_of(around);
            assert(walk[k + 1] == around);
        }
    }
}

/// Whether `later` has everything that is edited, reported or rebound in `earlier`.
pub open spec fn keeps(earlier: CollectedModel, later: CollectedModel) -> bool {
    &&& forall|edit: FileEditModel|
        earlier.edits.contains(edit) ==> #[trigger] later.edits.contains(edit)
    &&& forall|skipped: SkippedImport|
        earlier.skipped.contains(skipped) ==> #[trigger] later.skipped.contains(skipped)
    &&& forall|rebinding: RebindingModel|
        earlier.rebound.contains(rebinding) ==> #[trigger] later.rebound.contains(rebinding)
}

proof fn lemma_add_keeps<A>(items: Seq<A>, more: Seq<A>)
    ensures
        forall|kept: A| items.contains(kept) ==> #[trigger] (items + more).contains(kept),
        forall|added: A| more.contains(added) ==> #[trigger] (items + more).contains(added),
{
    let all = items + more;
    assert forall|kept: A| items.contains(kept) implies #[trigger] all.contains(kept) by {
        let k = items.index_of(kept);
        assert(all[k] == kept);
    }
    assert forall|added: A| more.contains(added) implies #[trigger] all.contains(added) by {
        let k = more.index_of(added);
        assert(all[items.len() + k] == added);
    }
}

proof fn lemma_push_keeps<A>(items: Seq<A>, item: A)
    ensures
        forall|kept: A| items.contains(kept) ==> #[trigger] items.push(item).contains(kept),
        items.push(item).contains(item),
{
    assert(items.push(item)[items.len() as int] == item);
    assert forall|kept: A| items.contains(kept) implies #[trigger] items.push(item).contains(
        kept,
    ) by {
        let k = choose|k: int| 0 <= k < items.len() && items[k] == kept;
        assert(items.push(item)[k] == kept);
    }
}

/// Whether `collected` edits `import <alias>` when that imports a module whose name changes.
pub open spec fn follows_plainly(
    renamings: Seq<RenamingModel>,
    file: File,
    alias: Node,
    collected: CollectedModel,
) -> bool {
    match alias.kind {
        NodeKind::Alias { name, name_range, .. } => is_module_name(name@) ==> match renamed_by(
            renamings,
            name@,
        ) {
            Some(new) => collected.edits.contains(
                FileEditModel { file, edit: replacing(new, name_range) },
            ),
            None => true,
        },
        _ => true,
    }
}

/// Whether `rebound` has the names that `import <alias>` binds and that change: each dotted
/// prefix of what it imports that is renamed.
pub open spec fn rebinds(
    renamings: Seq<RenamingModel>,
    alias: Node,
    rebound: Seq<RebindingModel>,
) -> bool {
    match alias.kind {
        NodeKind::Alias { name, asname, .. } => is_module_name(name@) && asname is None
            && renamed_by(renamings, name@) is Some ==> forall|rebinding: RebindingModel|
            rebound_prefixes(renamings, name@).contains(rebinding) ==> #[trigger] rebound.contains(
                rebinding,
            ),
        _ => true,
    }
}

proof fn lemma_plain_alias_keeps(
    renamings: Seq<RenamingModel>,
    file: File,
    alias: Node,
    sofar: CollectedModel,
)
    ensures
        keeps(sofar, with_plain_alias(renamings, file, alias, sofar)),
        follows_plainly(
            renamings,
            file,
            alias,
            with_plain_alias(renamings, file, alias, sofar),
        ),
        rebinds(renamings, alias, with_plain_alias(renamings, file, alias, sofar).rebound),
{
    if let NodeKind::Alias { name, name_range, .. } = alias.kind {
        if let Some(new) = renamed_by(renamings, name@) {
            lemma_add_keeps(sofar.rebound, rebound_prefixes(renamings, name@));
            lemma_push_keeps(
                sofar.edits,
                FileEditModel { file, edit: replacing(new, name_range) },
            );
        }
    }
}

proof fn lemma_plain_aliases_keep(
    renamings: Seq<RenamingModel>,
    file: File,
    aliases: Seq<Node>,
    sofar: CollectedModel,
)
    ensures
        keeps(sofar, with_plain_aliases(renamings, file, aliases, sofar)),
    decreases aliases.len(),
{
    if aliases.len() > 0 {
        lemma_plain_aliases_keep(renamings, file, aliases.drop_last(), sofar);
        lemma_plain_alias_keeps(
            renamings,
            file,
            aliases.last(),
            with_plain_aliases(renamings, file, aliases.drop_last(), sofar),
        );
    }
}

proof fn lemma_plain_alias_follows(
    renamings: Seq<RenamingModel>,
    file: File,
    aliases: Seq<Node>,
    sofar: CollectedModel,
    j: int,
)
    requires
        0 <= j < aliases.len(),
    ensures
        follows_plainly(
            renamings,
            file,
            aliases[j],
            with_plain_aliases(renamings, file, aliases, sofar),
        ),
        rebinds(
            renamings,
            aliases[j],
            with_plain_aliases(renamings, file, aliases, sofar).rebound,
        ),
    decreases aliases.len(),
{
    lemma_plain_alias_keeps(
        renamings,
        file,
        aliases.last(),
        with_plain_aliases(renamings, file, aliases.drop_last(), sofar),
    );
    if j < aliases.len() - 1 {
        assert(aliases.drop_last()[j] == aliases[j]);
        lemma_plain_alias_follows(renamings, file, aliases.drop_last(), sofar, j);
    }
}

/// Every `import` of a module whose name changes is edited to import it by its new name, and the
/// names it binds are rebound.
pub proof fn law_plain_imports_follow(
    renamings: Seq<RenamingModel>,
    file: File,
    nodes: Seq<Node>,
    sofar: CollectedModel,
    i: int,
    j: int,
)
    requires
        0 <= i < nodes.len(),
        nodes[i].kind is StmtImport,
        0 <= j < children_of(nodes[i], Field::Name).len(),
    ensures
        follows_plainly(
            renamings,
            file,
            children_of(nodes[i], Field::Name)[j],
            with_plain_imports(renamings, file, nodes, sofar),
        ),
        rebinds(
            renamings,
            children_of(nodes[i], Field::Name)[j],
            with_plain_imports(renamings, file, nodes, sofar).rebound,
        ),
    decreases nodes.len(),
{
    let before = with_plain_imports(renamings, file, nodes.drop_last(), sofar);
    let aliases = children_of(nodes.last(), Field::Name);
    if i < nodes.len() - 1 {
        assert(nodes.drop_last()[i] == nodes[i]);
        law_plain_imports_follow(renamings, file, nodes.drop_last(), sofar, i, j);
        if nodes.last().kind is StmtImport {
            lemma_plain_aliases_keep(renamings, file, aliases, before);
        }
    } else {
        lemma_plain_alias_follows(renamings, file, aliases, before, j);
    }
}

proof fn lemma_from_alias_keeps(
    renamings: Seq<RenamingModel>,
    file: File,
    from: Seq<char>,
    alias: Node,
    sofar: CollectedModel,
)
    ensures
        keeps(sofar, with_from_alias(renamings, file, from, alias, sofar)),
        follows(
            renamings,
            file,
            from,
            alias,
            with_from_alias(renamings, file, from, alias, sofar),
        ),
{
    if let NodeKind::Alias { name, name_range, .. } = alias.kind {
        if let Some(new) = renamed_by(renamings, extended(from, name@)) {
            lemma_push_keeps(
                sofar.edits,
                FileEditModel { file, edit: replacing(last_part(new), name_range) },
            );
            lemma_push_keeps(
                sofar.skipped,
                SkippedImport {
                    file,
                    range: alias.range,
                    reason: SkipReason::NeedsDifferentStatement,
                },
            );
            lemma_add_keeps(
                sofar.rebound,
                seq![
                    RebindingModel {
                        spelling: name@,
                        module: extended(from, name@),
                        replacement: last_part(new),
                    },
                ],
            );
        }
    }
}

proof fn lemma_from_aliases_keep(
    renamings: Seq<RenamingModel>,
    file: File,
    from: Seq<char>,
    aliases: Seq<Node>,
    sofar: CollectedModel,
)
    ensures
        keeps(sofar, with_from_aliases(renamings, file, from, aliases, sofar)),
    decreases aliases.len(),
{
    if aliases.len() > 0 {
        lemma_from_aliases_keep(renamings, file, from, aliases.drop_last(), sofar);
        lemma_from_alias_keeps(
            renamings,
            file,
            from,
            aliases.last(),
            with_from_aliases(renamings, file, from, aliases.drop_last(), sofar),
        );
    }
}

/// Whether `collected` deals with `from <from> import <alias>` when that imports a module whose
/// name changes: it is edited to import the module by the last part of its new name, unless that
/// is what it says already, or reported where the module ends up under another parent or none.
pub open spec fn follows(
    renamings: Seq<RenamingModel>,
    file: File,
    from: Seq<char>,
    alias: Node,
    collected: CollectedModel,
) -> bool {
    match alias.kind {
        NodeKind::Alias { name, name_range, .. } => is_module_name(name@) ==> match renamed_by(
            renamings,
            extended(from, name@),
        ) {
            Some(new) => match parent_part(new) {
                Some(parent) => if parent != name_after(renamings, from) {
                    collected.skipped.contains(
                        SkippedImport {
                            file,
                            range: alias.range,
                            reason: SkipReason::NeedsDifferentStatement,
                        },
                    )
                } else {
                    last_part(new) == name@ || collected.edits.contains(
                        FileEditModel { file, edit: replacing(last_part(new), name_range) },
                    )
                },
                None => collected.skipped.contains(
                    SkippedImport {
                        file,
                        range: alias.range,
                        reason: SkipReason::NeedsDifferentStatement,
                    },
                ),
            },
            None => true,
        },
        _ => true,
    }
}

proof fn lemma_from_alias_follows(
    renamings: Seq<RenamingModel>,
    file: File,
    from: Seq<char>,
    aliases: Seq<Node>,
    sofar: CollectedModel,
    j: int,
)
    requires
        0 <= j < aliases.len(),
    ensures
        follows(
            renamings,
            file,
            from,
            aliases[j],
            with_from_aliases(renamings, file, from, aliases, sofar),
        ),
    decreases aliases.len(),
{
    lemma_from_alias_keeps(
        renamings,
        file,
        from,
        aliases.last(),
        with_from_aliases(renamings, file, from, aliases.drop_last(), sofar),
    );
    if j < aliases.len() - 1 {
        assert(aliases.drop_last()[j] == aliases[j]);
        lemma_from_alias_follows(renamings, file, from, aliases.drop_last(), sofar, j);
    }
}

/// Whether `collected` deals with the module path of `import` when that names a module whose name
/// changes: what [`rewritten`] makes of it is among the edits, or is reported.
pub open spec fn follows_path(
    facts: FileFacts,
    renamings: Seq<RenamingModel>,
    import: Node,
    collected: CollectedModel,
) -> bool {
    match import.kind {
        NodeKind::StmtImportFrom { module, module_range, level } => match imported_from(
            facts.bases,
            text_in(module),
            level,
        ) {
            Some(from) => match renamed_by(renamings, from) {
                Some(new) => match rewritten(
                    facts.bases,
                    renamings,
                    text_in(module),
                    module_range,
                    level,
                    new,
                ) {
                    Ok(Some(edit)) => collected.edits.contains(
                        FileEditModel { file: facts.file, edit },
                    ),
                    Ok(None) => true,
                    Err(reason) => collected.skipped.contains(
                        SkippedImport { file: facts.file, range: import.range, reason },
                    ),
                },
                None => true,
            },
            None => true,
        },
        _ => true,
    }
}

proof fn lemma_from_import_keeps(
    facts: FileFacts,
    renamings: Seq<RenamingModel>,
    import: Node,
    sofar: CollectedModel,
)
    ensures
        keeps(sofar, with_from_import(facts, renamings, import, sofar)),
        follows_path(
            facts,
            renamings,
            import,
            with_from_import(facts, renamings, import, sofar),
        ),
{
    if let NodeKind::StmtImportFrom { module, module_range, level } = import.kind {
        if let Some(from) = imported_from(facts.bases, text_in(module), level) {
            let referenced = with_reference(facts, renamings, import, from, sofar);
            if let Some(new) = renamed_by(renamings, from) {
                match rewritten(
                    facts.bases,
                    renamings,
                    text_in(module),
                    module_range,
                    level,
                    new,
                ) {
                    Ok(Some(edit)) => {
                        lemma_push_keeps(sofar.edits, FileEditModel { file: facts.file, edit });
                    },
                    Ok(None) => {},
                    Err(reason) => {
                        lemma_push_keeps(
                            sofar.skipped,
                            SkippedImport { file: facts.file, range: import.range, reason },
                        );
                    },
                }
            }
            lemma_from_aliases_keep(
                renamings,
                facts.file,
                from,
                children_of(import, Field::Name),
                referenced,
            );
        }
    }
}

/// Every `from` import that names a module whose name changes, in its path or in one of the names
/// it imports, is edited or reported: nothing is passed over in silence.
pub proof fn law_from_imports_follow_or_are_reported(
    facts: FileFacts,
    renamings: Seq<RenamingModel>,
    nodes: Seq<Node>,
    sofar: CollectedModel,
    i: int,
)
    requires
        0 <= i < nodes.len(),
    ensures
        follows_path(
            facts,
            renamings,
            nodes[i],
            with_from_imports(facts, renamings, nodes, sofar),
        ),
        nodes[i].kind matches NodeKind::StmtImportFrom { module, level, .. } ==> imported_from(
            facts.bases,
            text_in(module),
            level,
        ) matches Some(from) ==> forall|j: int|
            0 <= j < children_of(nodes[i], Field::Name).len() ==> follows(
                renamings,
                facts.file,
                from,
                #[trigger] children_of(nodes[i], Field::Name)[j],
                with_from_imports(facts, renamings, nodes, sofar),
            ),
    decreases nodes.len(),
{
    let before = with_from_imports(facts, renamings, nodes.drop_last(), sofar);
    lemma_from_import_keeps(facts, renamings, nodes.last(), before);
    if i < nodes.len() - 1 {
        assert(nodes.drop_last()[i] == nodes[i]);
        law_from_imports_follow_or_are_reported(facts, renamings, nodes.drop_last(), sofar, i);
    } else if let NodeKind::StmtImportFrom { module, level, .. } = nodes[i].kind {
        if let Some(from) = imported_from(facts.bases, text_in(module), level) {
            let aliases = children_of(nodes[i], Field::Name);
            let referenced = with_reference(facts, renamings, nodes[i], from, before);
            assert forall|j: int| 0 <= j < aliases.len() implies follows(
                renamings,
                facts.file,
                from,
                #[trigger] aliases[j],
                with_from_imports(facts, renamings, nodes, sofar),
            ) by {
                lemma_from_alias_follows(renamings, facts.file, from, aliases, referenced, j);
            }
        }
    }
}

proof fn lemma_plain_imports_keep(
    renamings: Seq<RenamingModel>,
    file: File,
    nodes: Seq<Node>,
    sofar: CollectedModel,
)
    ensures
        keeps(sofar, with_plain_imports(renamings, file, nodes, sofar)),
    decreases nodes.len(),
{
    if nodes.len() > 0 {
        let before = with_plain_imports(renamings, file, nodes.drop_last(), sofar);
        lemma_plain_imports_keep(renamings, file, nodes.drop_last(), sofar);
        if nodes.last().kind is StmtImport {
            lemma_plain_aliases_keep(
                renamings,
                file,
                children_of(nodes.last(), Field::Name),
                before,
            );
        }
    }
}

proof fn lemma_from_imports_keep(
    facts: FileFacts,
    renamings: Seq<RenamingModel>,
    nodes: Seq<Node>,
    sofar: CollectedModel,
)
    ensures
        keeps(sofar, with_from_imports(facts, renamings, nodes, sofar)),
    decreases nodes.len(),
{
    if nodes.len() > 0 {
        let before = with_from_imports(facts, renamings, nodes.drop_last(), sofar);
        lemma_from_imports_keep(facts, renamings, nodes.drop_last(), sofar);
        lemma_from_import_keeps(facts, renamings, nodes.last(), before);
    }
}

/// Whether `result` deals with every module that `import`, a node of `file`, imports by a name
/// that changes: see [`follows_plainly`], [`follows_path`] and [`follows`].
pub open spec fn is_dealt_with(
    renamings: Seq<RenamingModel>,
    file: ProjectFile,
    import: Node,
    result: ModuleRenameModel,
) -> bool {
    let collected = CollectedModel {
        edits: result.edits,
        skipped: result.skipped,
        rebound: Seq::empty(),
    };
    &&& import.kind is StmtImport ==> forall|j: int|
        0 <= j < children_of(import, Field::Name).len() ==> follows_plainly(
            renamings,
            file.file,
            #[trigger] children_of(import, Field::Name)[j],
            collected,
        )
    &&& follows_path(file.facts(), renamings, import, collected)
    &&& match import.kind {
        NodeKind::StmtImportFrom { module, level, .. } => match imported_from(
            file.bases@,
            text_in(module),
            level,
        ) {
            Some(from) => forall|j: int|
                0 <= j < children_of(import, Field::Name).len() ==> follows(
                    renamings,
                    file.file,
                    from,
                    #[trigger] children_of(import, Field::Name)[j],
                    collected,
                ),
            None => true,
        },
        _ => true,
    }
}

/// Whether `later` has everything that is edited or reported in `earlier`.
spec fn result_keeps(earlier: ModuleRenameModel, later: ModuleRenameModel) -> bool {
    &&& forall|edit: FileEditModel|
        earlier.edits.contains(edit) ==> #[trigger] later.edits.contains(edit)
    &&& forall|skipped: SkippedImport|
        earlier.skipped.contains(skipped) ==> #[trigger] later.skipped.contains(skipped)
}

proof fn lemma_file_deals(renamings: Seq<RenamingModel>, file: ProjectFile, sofar: ModuleRenameModel)
    ensures
        result_keeps(sofar, with_file(renamings, file, sofar)),
        forall|import: Node| #[trigger]
            walked_all(file.suite.children@, Prune::Nothing).contains(import) ==> is_dealt_with(
                renamings,
                file,
                import,
                with_file(renamings, file, sofar),
            ),
{
    let nodes = walked_all(file.suite.children@, Prune::Nothing);
    let start = CollectedModel {
        edits: sofar.edits,
        skipped: sofar.skipped,
        rebound: Seq::empty(),
    };
    let plain = with_plain_imports(renamings, file.file, nodes, start);
    let collected = imports_collected(renamings, file, sofar);
    let result = with_file(renamings, file, sofar);
    lemma_plain_imports_keep(renamings, file.file, nodes, start);
    lemma_from_imports_keep(file.facts(), renamings, nodes, plain);
    assert forall|edit: FileEditModel|
        collected.edits.contains(edit) implies #[trigger] result.edits.contains(edit) by {
        let k = choose|k: int| 0 <= k < collected.edits.len() && collected.edits[k] == edit;
        assert(result.edits[k] == edit);
    }
    assert forall|import: Node| #[trigger] nodes.contains(import) implies is_dealt_with(
        renamings,
        file,
        import,
        result,
    ) by {
        let i = choose|i: int| 0 <= i < nodes.len() && nodes[i] == import;
        law_from_imports_follow_or_are_reported(file.facts(), renamings, nodes, plain, i);
        if import.kind is StmtImport {
            assert forall|j: int| 0 <= j < children_of(import, Field::Name).len() implies
                follows_plainly(
                renamings,
                file.file,
                #[trigger] children_of(import, Field::Name)[j],
                CollectedModel {
                    edits: result.edits,
                    skipped: result.skipped,
                    rebound: Seq::empty(),
                },
            ) by {
                law_plain_imports_follow(renamings, file.file, nodes, start, i, j);
            }
        }
    }
}

proof fn lemma_files_deal(
    renamings: Seq<RenamingModel>,
    files: Seq<ProjectFile>,
    sofar: ModuleRenameModel,
    k: int,
    import: Node,
)
    requires
        0 <= k < files.len(),
        walked_all(files[k].suite.children@, Prune::Nothing).contains(import),
    ensures
        is_dealt_with(renamings, files[k], import, with_files(renamings, files, sofar)),
    decreases files.len(),
{
    let before = with_files(renamings, files.drop_last(), sofar);
    lemma_file_deals(renamings, files.last(), before);
    if k < files.len() - 1 {
        assert(files.drop_last()[k] == files[k]);
        lemma_files_deal(renamings, files.drop_last(), sofar, k, import);
    }
}

/// No import of a moved module is left behind: every import statement of the project, in any file
/// and at any depth, that names a module whose name changes is edited to name it as it will be
/// called, or reported.
pub proof fn law_no_import_is_left_behind(
    project: Project,
    moves: Seq<FileMove>,
    file: ProjectFile,
    import: Node,
)
    requires
        project.files@.contains(file),
        walked_all(file.suite.children@, Prune::Nothing).contains(import),
    ensures
        is_dealt_with(
            renamings_of(project.names@, moves),
            file,
            import,
            edits_for(project, moves),
        ),
{
    broadcast use vstd::seq_lib::group_to_multiset_ensures;

    let renamings = renamings_of(project.names@, moves);
    if renamings.len() > 0 {
        let files = by_path(project.files@);
        law_by_path(project.files@);
        assert(project.files@.to_multiset().count(file) > 0);
        assert(files.contains(file));
        let k = choose|k: int| 0 <= k < files.len() && files[k] == file;
        let nothing = ModuleRenameModel { edits: Seq::empty(), skipped: Seq::empty() };
        lemma_files_deal(renamings, files, nothing, k, import);
    }
}

/// Whether `renaming` makes `new` of `name`: it is of the module itself, or of one it is inside,
/// whose name is what changes.
pub open spec fn turns(renaming: RenamingModel, name: Seq<char>, new: Seq<char>) -> bool {
    ||| name == renaming.old && new == renaming.new
    ||| exists|rest: Seq<char>|
        name == renaming.old + seq!['.'] + rest && new == #[trigger] (renaming.new + seq!['.']
            + rest)
}

/// Whether `renaming` says nothing of `name`.
pub open spec fn spares(renaming: RenamingModel, name: Seq<char>) -> bool {
    &&& name != renaming.old
    &&& forall|rest: Seq<char>| name != #[trigger] (renaming.old + seq!['.'] + rest)
}

/// Whether `name` is called `new` once `renamings` have happened, by the first of them that says
/// anything of it.
pub open spec fn comes_to(renamings: Seq<RenamingModel>, name: Seq<char>, new: Seq<char>) -> bool {
    exists|i: int|
        0 <= i < renamings.len() && turns(#[trigger] renamings[i], name, new) && forall|j: int|
            0 <= j < i ==> spares(#[trigger] renamings[j], name)
}

/// Whether none of `renamings` says anything of `name`.
pub open spec fn stays(renamings: Seq<RenamingModel>, name: Seq<char>) -> bool {
    forall|j: int| 0 <= j < renamings.len() ==> spares(#[trigger] renamings[j], name)
}

proof fn lemma_turned(renaming: RenamingModel, name: Seq<char>)
    ensures
        match applied(renaming, name) {
            Some(new) => turns(renaming, name, new) && forall|other: Seq<char>| #[trigger]
                turns(renaming, name, other) ==> other == new,
            None => spares(renaming, name) && forall|other: Seq<char>| !#[trigger] turns(
                renaming,
                name,
                other,
            ),
        },
{
    let old = renaming.old;
    let dotted = old + seq!['.'];
    assert forall|rest: Seq<char>| name == #[trigger] (old + seq!['.'] + rest) implies applied(
        renaming,
        name,
    ) == Some(renaming.new + seq!['.'] + rest) by {
        law_renaming_takes_what_is_inside(renaming, rest);
        if name == old {
            assert(name.len() == old.len() + 1 + rest.len());
        }
    }
    if name != old {
        if let Some(rest) = relative_part(name, old) {
            assert(name =~= old + seq!['.'] + rest);
            assert(applied(renaming, name) == Some(renaming.new + seq!['.'] + rest));
        }
    }
}

/// The first renaming that is of a module or of one around it says what its name becomes, and a
/// module that no renaming is of keeps its name.
pub proof fn law_first_renaming_decides(renamings: Seq<RenamingModel>, name: Seq<char>)
    ensures
        match renamed_by(renamings, name) {
            Some(new) => comes_to(renamings, name, new) && forall|other: Seq<char>| #[trigger]
                comes_to(renamings, name, other) ==> other == new,
            None => stays(renamings, name) && forall|other: Seq<char>| !#[trigger] comes_to(
                renamings,
                name,
                other,
            ),
        },
        renamed_by(renamings, name) is Some ==> !stays(renamings, name),
    decreases renamings.len(),
{
    if renamings.len() > 0 {
        let rest = renamings.skip(1);
        lemma_turned(renamings[0], name);
        if let Some(new) = applied(renamings[0], name) {
            assert(turns(renamings[0], name, new));
            assert(!spares(renamings[0], name)) by {
                if name != renamings[0].old {
                    let inner = choose|inner: Seq<char>|
                        name == renamings[0].old + seq!['.'] + inner && new == #[trigger] (
                        renamings[0].new + seq!['.'] + inner);
                    assert(name == renamings[0].old + seq!['.'] + inner);
                }
            }
            assert forall|other: Seq<char>| #[trigger] comes_to(
                renamings,
                name,
                other,
            ) implies other == new by {
                let i = choose|i: int|
                    0 <= i < renamings.len() && turns(#[trigger] renamings[i], name, other)
                        && forall|j: int| 0 <= j < i ==> spares(#[trigger] renamings[j], name);
                assert(i == 0) by {
                    if i > 0 {
                        assert(spares(renamings[0], name));
                    }
                }
            }
        } else {
            law_first_renaming_decides(rest, name);
            assert forall|other: Seq<char>| #[trigger] comes_to(
                renamings,
                name,
                other,
            ) implies comes_to(rest, name, other) by {
                let i = choose|i: int|
                    0 <= i < renamings.len() && turns(#[trigger] renamings[i], name, other)
                        && forall|j: int| 0 <= j < i ==> spares(#[trigger] renamings[j], name);
                assert(i > 0);
                assert(rest[i - 1] == renamings[i]);
                assert forall|j: int| 0 <= j < i - 1 implies spares(#[trigger] rest[j], name) by {
                    assert(rest[j] == renamings[j + 1]);
                }
            }
            assert forall|other: Seq<char>| #[trigger] comes_to(rest, name, other) implies comes_to(
                renamings,
                name,
                other,
            ) by {
                let i = choose|i: int|
                    0 <= i < rest.len() && turns(#[trigger] rest[i], name, other) && forall|j: int|
                        0 <= j < i ==> spares(#[trigger] rest[j], name);
                assert(rest[i] == renamings[i + 1]);
                assert forall|j: int| 0 <= j < i + 1 implies spares(
                    #[trigger] renamings[j],
                    name,
                ) by {
                    if j > 0 {
                        assert(rest[j - 1] == renamings[j]);
                    }
                }
            }
            if renamed_by(rest, name) is None {
                assert forall|j: int| 0 <= j < renamings.len() implies spares(
                    #[trigger] renamings[j],
                    name,
                ) by {
                    if j > 0 {
                        assert(rest[j - 1] == renamings[j]);
                    }
                }
            } else {
                let k = choose|k: int| 0 <= k < rest.len() && !spares(#[trigger] rest[k], name);
                assert(!spares(renamings[k + 1], name));
            }
        }
    }
}

/// Whether `names` say that the module at `path` is called `name`: the first of them that is of
/// the path does.
pub open spec fn is_called(names: Seq<ModulePath>, path: Seq<char>, name: Seq<char>) -> bool {
    exists|i: int|
        0 <= i < names.len() && (#[trigger] names[i]).path@ == path && names[i].name@ == name
            && forall|j: int| 0 <= j < i ==> (#[trigger] names[j]).path@ != path
}

proof fn lemma_called(names: Seq<ModulePath>, path: Seq<char>, name: Seq<char>)
    ensures
        is_called(names, path, name) <==> name_at(names, path) == Some(name),
    decreases names.len(),
{
    if names.len() > 0 {
        let rest = names.skip(1);
        lemma_called(rest, path, name);
        if is_called(names, path, name) {
            let i = choose|i: int|
                0 <= i < names.len() && (#[trigger] names[i]).path@ == path && names[i].name@
                    == name && forall|j: int| 0 <= j < i ==> (#[trigger] names[j]).path@ != path;
            if i > 0 {
                assert(names[0].path@ != path);
                assert(rest[i - 1] == names[i]);
                assert forall|j: int| 0 <= j < i - 1 implies (#[trigger] rest[j]).path@ != path by {
                    assert(rest[j] == names[j + 1]);
                }
            }
        }
        if name_at(names, path) == Some(name) {
            if names[0].path@ != path {
                let i = choose|i: int|
                    0 <= i < rest.len() && (#[trigger] rest[i]).path@ == path && rest[i].name@
                        == name && forall|j: int| 0 <= j < i ==> (#[trigger] rest[j]).path@ != path;
                assert(rest[i] == names[i + 1]);
                assert forall|j: int| 0 <= j < i + 1 implies (#[trigger] names[j]).path@
                    != path by {
                    if j > 0 {
                        assert(rest[j - 1] == names[j]);
                    }
                }
            } else {
                assert(names[0].path@ == path);
            }
        }
    }
}

/// A move renames the module at the old path to the one the new path would hold, when those differ
/// in name, and nothing else is renamed.
pub proof fn law_moves_are_renamings(names: Seq<ModulePath>, moves: Seq<FileMove>, renaming: RenamingModel)
    ensures
        renamings_of(names, moves).contains(renaming) <==> renaming.old != renaming.new && exists|
            k: int,
        |
            0 <= k < moves.len() && is_called(names, (#[trigger] moves[k]).old_path@, renaming.old)
                && is_called(names, moves[k].new_path@, renaming.new),
    decreases moves.len(),
{
    let all = renamings_of(names, moves);
    if moves.len() > 0 {
        let before = renamings_of(names, moves.drop_last());
        let last = moves.last();
        law_moves_are_renamings(names, moves.drop_last(), renaming);
        lemma_called(names, last.old_path@, renaming.old);
        lemma_called(names, last.new_path@, renaming.new);
        if before.contains(renaming) {
            let k = choose|k: int|
                0 <= k < moves.drop_last().len() && is_called(
                    names,
                    (#[trigger] moves.drop_last()[k]).old_path@,
                    renaming.old,
                ) && is_called(names, moves.drop_last()[k].new_path@, renaming.new);
            assert(moves[k] == moves.drop_last()[k]);
            let i = before.index_of(renaming);
            assert(all[i] == renaming);
        }
        if all.contains(renaming) && !before.contains(renaming) {
            let i = all.index_of(renaming);
            if i < before.len() {
                assert(before[i] == renaming);
            }
            assert(renaming_of(names, last) == Some(renaming));
            assert(moves[moves.len() - 1] == last);
        }
        if renaming.old != renaming.new && exists|k: int|
            0 <= k < moves.len() && is_called(names, (#[trigger] moves[k]).old_path@, renaming.old)
                && is_called(names, moves[k].new_path@, renaming.new) {
            let k = choose|k: int|
                0 <= k < moves.len() && is_called(
                    names,
                    (#[trigger] moves[k]).old_path@,
                    renaming.old,
                ) && is_called(names, moves[k].new_path@, renaming.new);
            if k < moves.len() - 1 {
                assert(moves.drop_last()[k] == moves[k]);
            } else {
                assert(renaming_of(names, last) == Some(renaming));
                assert(all.last() == renaming);
                assert(all[all.len() - 1] == renaming);
            }
        }
    }
}

/// Whether `level` dots reach the module `base`: the first of `bases` that is of so many dots says
/// so.
pub open spec fn dots_reach(bases: Seq<(u32, ModuleName)>, level: u32, base: Seq<char>) -> bool {
    exists|b: int|
        0 <= b < bases.len() && (#[trigger] bases[b]).0 == level && bases[b].1@ == base && forall|
            j: int,
        |
            0 <= j < b ==> (#[trigger] bases[j]).0 != level
}

proof fn lemma_dots_reach(bases: Seq<(u32, ModuleName)>, level: u32, base: Seq<char>)
    ensures
        dots_reach(bases, level, base) <==> base_at(bases, level) == Some(base),
    decreases bases.len(),
{
    if bases.len() > 0 {
        let rest = bases.skip(1);
        lemma_dots_reach(rest, level, base);
        if dots_reach(bases, level, base) {
            let b = choose|b: int|
                0 <= b < bases.len() && (#[trigger] bases[b]).0 == level && bases[b].1@ == base
                    && forall|j: int| 0 <= j < b ==> (#[trigger] bases[j]).0 != level;
            if b > 0 {
                assert(bases[0].0 != level);
                assert(rest[b - 1] == bases[b]);
                assert forall|j: int| 0 <= j < b - 1 implies (#[trigger] rest[j]).0 != level by {
                    assert(rest[j] == bases[j + 1]);
                }
            }
        }
        if base_at(bases, level) == Some(base) {
            if bases[0].0 != level {
                let b = choose|b: int|
                    0 <= b < rest.len() && (#[trigger] rest[b]).0 == level && rest[b].1@ == base
                        && forall|j: int| 0 <= j < b ==> (#[trigger] rest[j]).0 != level;
                assert(rest[b] == bases[b + 1]);
                assert forall|j: int| 0 <= j < b + 1 implies (#[trigger] bases[j]).0 != level by {
                    if j > 0 {
                        assert(rest[j - 1] == bases[j]);
                    }
                }
            } else {
                assert(bases[0].0 == level);
            }
        }
    }
}

/// Whether a `from` import of `module` after `level` dots, in a file whose dots reach `bases`,
/// imports out of `from`.
pub open spec fn imports_out_of(
    bases: Seq<(u32, ModuleName)>,
    module: Option<Seq<char>>,
    level: u32,
    from: Seq<char>,
) -> bool {
    if level == 0 {
        module == Some(from) && is_module_name(from)
    } else {
        exists|base: Seq<char>| #[trigger]
            dots_reach(bases, level, base) && match module {
                Some(module) => is_module_name(module) && from == base + seq!['.'] + module,
                None => from == base,
            }
    }
}

/// An import with dots is of the module that its own number of dots reaches, and what is written
/// after them inside that; one without is of what it spells.
pub proof fn law_dots_reach_their_module(
    bases: Seq<(u32, ModuleName)>,
    module: Option<Seq<char>>,
    level: u32,
    from: Seq<char>,
)
    ensures
        imported_from(bases, module, level) == Some(from) <==> imports_out_of(
            bases,
            module,
            level,
            from,
        ),
{
    if level > 0 {
        if let Some(base) = base_at(bases, level) {
            lemma_dots_reach(bases, level, base);
        }
        if imports_out_of(bases, module, level, from) {
            let base = choose|base: Seq<char>| #[trigger]
                dots_reach(bases, level, base) && match module {
                    Some(module) => is_module_name(module) && from == base + seq!['.'] + module,
                    None => from == base,
                };
            lemma_dots_reach(bases, level, base);
        }
    }
}

/// Whether `module`, written after dots that reached `base`, is of the module called `new` once
/// `renamings` have happened, when the dots go on reaching the same package.
pub open spec fn reaches_after(
    renamings: Seq<RenamingModel>,
    base: Seq<char>,
    module: Seq<char>,
    new: Seq<char>,
) -> bool {
    exists|after: Seq<char>|
        (comes_to(renamings, base, after) || after == base && stays(renamings, base)) && new
            == #[trigger] (after + seq!['.'] + module)
}

proof fn lemma_reaches_after(
    renamings: Seq<RenamingModel>,
    base: Seq<char>,
    module: Seq<char>,
    new: Seq<char>,
)
    ensures
        reaches_after(renamings, base, module, new) <==> new == extended(
            name_after(renamings, base),
            module,
        ),
{
    law_first_renaming_decides(renamings, base);
    if reaches_after(renamings, base, module, new) {
        let after = choose|after: Seq<char>|
            (comes_to(renamings, base, after) || after == base && stays(renamings, base)) && new
                == #[trigger] (after + seq!['.'] + module);
        assert(after == name_after(renamings, base));
    } else {
        let after = name_after(renamings, base);
        assert(extended(after, module) == after + seq!['.'] + module);
    }
}

/// Whether `result` rewrites the text at `range` of `file` to `content`.
pub open spec fn rewrites(
    result: ModuleRenameModel,
    file: File,
    range: TextRange,
    content: Seq<char>,
) -> bool {
    exists|i: int|
        0 <= i < result.edits.len() && (#[trigger] result.edits[i]).file == file
            && result.edits[i].edit.range == range && result.edits[i].edit.content == Some(content)
}

/// Whether `result` reports the text at `range` of `file`.
pub open spec fn reports(
    result: ModuleRenameModel,
    file: File,
    range: TextRange,
    reason: SkipReason,
) -> bool {
    exists|i: int|
        0 <= i < result.skipped.len() && (#[trigger] result.skipped[i]).file == file
            && result.skipped[i].range == range && result.skipped[i].reason == reason
}

/// Whether `path` leads from the statements of a file of `project` to something in it.
pub open spec fn is_in_project(project: Project, file: ProjectFile, path: Seq<Node>) -> bool {
    project.files@.contains(file) && is_path(path) && path.len() > 1 && path[0] == file.suite
}

proof fn lemma_dealt_with(project: Project, moves: Seq<FileMove>, file: ProjectFile, path: Seq<Node>)
    requires
        is_in_project(project, file, path),
    ensures
        is_dealt_with(
            renamings_of(project.names@, moves),
            file,
            path.last(),
            edits_for(project, moves),
        ),
{
    lemma_path_is_walked(path, Prune::Nothing);
    law_no_import_is_left_behind(project, moves, file, path.last());
}

/// Wherever in a project a `from` import names a moved module in its path, the path is rewritten
/// to what the module is called: in full, or after as many dots as before. It is left as it is
/// only when it says so already, and reported only when no text after the dots would.
pub proof fn law_import_paths_follow_their_module(
    project: Project,
    moves: Seq<FileMove>,
    file: ProjectFile,
    path: Seq<Node>,
    base: Seq<char>,
    from: Seq<char>,
    new: Seq<char>,
)
    requires
        is_in_project(project, file, path),
        comes_to(renamings_of(project.names@, moves), from, new),
    ensures
        path.last().kind matches NodeKind::StmtImportFrom {
            module: Some(module),
            module_range,
            level,
        } ==> {
            let renamings = renamings_of(project.names@, moves);
            let result = edits_for(project, moves);
            &&& level == 0 && module@ == from && is_module_name(from) ==> rewrites(
                result,
                file.file,
                module_range,
                new,
            )
            &&& level > 0 && dots_reach(file.bases@, level, base) && is_module_name(module@) && from
                == base + seq!['.'] + module@ ==> {
                ||| reaches_after(renamings, base, module@, new)
                ||| exists|tail: Seq<char>| #[trigger]
                    rewrites(result, file.file, module_range, tail) && reaches_after(
                        renamings,
                        base,
                        tail,
                        new,
                    )
                ||| reports(result, file.file, path.last().range, SkipReason::NoLongerRelative)
                    && forall|tail: Seq<char>| !#[trigger] reaches_after(
                    renamings,
                    base,
                    tail,
                    new,
                )
            }
        },
{
    let renamings = renamings_of(project.names@, moves);
    let result = edits_for(project, moves);
    let import = path.last();
    lemma_dealt_with(project, moves, file, path);
    law_first_renaming_decides(renamings, from);
    if let NodeKind::StmtImportFrom { module: Some(module), module_range, level } = import.kind {
        assert(text_in(import.kind->StmtImportFrom_module) == Some(module@));
        if level == 0 && module@ == from && is_module_name(from) {
            let edit = FileEditModel { file: file.file, edit: replacing(new, module_range) };
            assert(result.edits.contains(edit));
            let i = result.edits.index_of(edit);
            assert(result.edits[i].file == file.file);
        }
        if level > 0 && dots_reach(file.bases@, level, base) && is_module_name(module@) && from
            == base + seq!['.'] + module@ {
            lemma_dots_reach(file.bases@, level, base);
            law_rewritten_path_names_the_module(
                file.bases@,
                renamings,
                module@,
                module_range,
                level,
                new,
            );
            assert forall|tail: Seq<char>| #[trigger] reaches_after(
                renamings,
                base,
                tail,
                new,
            ) <==> new == extended(name_after(renamings, base), tail) by {
                lemma_reaches_after(renamings, base, tail, new);
            }
            lemma_reaches_after(renamings, base, module@, new);
            match rewritten(
                file.bases@,
                renamings,
                Some(module@),
                module_range,
                level,
                new,
            ) {
                Ok(Some(edit)) => {
                    let all = FileEditModel { file: file.file, edit };
                    assert(result.edits.contains(all));
                    let i = result.edits.index_of(all);
                    let tail = edit.content->0;
                    lemma_reaches_after(renamings, base, tail, new);
                    assert(result.edits[i].file == file.file);
                    assert(rewrites(result, file.file, module_range, tail));
                },
                Ok(None) => {},
                Err(reason) => {
                    let skipped = SkippedImport { file: file.file, range: import.range, reason };
                    assert(result.skipped.contains(skipped));
                    let i = result.skipped.index_of(skipped);
                    assert(result.skipped[i].file == file.file);
                },
            }
        }
    }
}

/// Wherever in a project a moved module is imported by its name, the name is rewritten to what the
/// module is called.
pub proof fn law_plain_import_names_follow_their_module(
    project: Project,
    moves: Seq<FileMove>,
    file: ProjectFile,
    path: Seq<Node>,
    alias: Node,
    new: Seq<char>,
)
    requires
        is_in_project(project, file, path),
        path.last().kind is StmtImport,
        path.last().children@.contains(alias),
        alias.field == Field::Name,
        alias.kind matches NodeKind::Alias { name, .. } && is_module_name(name@) && comes_to(
            renamings_of(project.names@, moves),
            name@,
            new,
        ),
    ensures
        alias.kind matches NodeKind::Alias { name_range, .. } ==> rewrites(
            edits_for(project, moves),
            file.file,
            name_range,
            new,
        ),
{
    let renamings = renamings_of(project.names@, moves);
    let result = edits_for(project, moves);
    lemma_dealt_with(project, moves, file, path);
    let c = path.last().children@.index_of(alias);
    let j = lemma_is_filling(path.last().children@, Field::Name, c);
    if let NodeKind::Alias { name, name_range, .. } = alias.kind {
        law_first_renaming_decides(renamings, name@);
        assert(children_of(path.last(), Field::Name)[j] == alias);
        let edit = FileEditModel { file: file.file, edit: replacing(new, name_range) };
        assert(result.edits.contains(edit));
        let i = result.edits.index_of(edit);
        assert(result.edits[i].file == file.file);
    }
}

/// Wherever in a project a moved module is imported by name out of a package, the name is
/// rewritten to the last part of what the module is called, when all that stands before it is what
/// the package is called and it says something else so far. Otherwise it is reported.
pub proof fn law_imported_names_follow_their_module(
    project: Project,
    moves: Seq<FileMove>,
    file: ProjectFile,
    path: Seq<Node>,
    alias: Node,
    from: Seq<char>,
    new: Seq<char>,
)
    requires
        is_in_project(project, file, path),
        path.last().kind matches NodeKind::StmtImportFrom { module, level, .. } && imports_out_of(
            file.bases@,
            text_in(module),
            level,
            from,
        ),
        path.last().children@.contains(alias),
        alias.field == Field::Name,
        alias.kind matches NodeKind::Alias { name, .. } && is_module_name(name@) && comes_to(
            renamings_of(project.names@, moves),
            from + seq!['.'] + name@,
            new,
        ),
    ensures
        alias.kind matches NodeKind::Alias { name, name_range, .. } ==> {
            let renamings = renamings_of(project.names@, moves);
            let result = edits_for(project, moves);
            ||| exists|last: Seq<char>|
                reaches_after(renamings, from, last, new) && !last.contains('.') && (last == name@
                    || #[trigger] rewrites(result, file.file, name_range, last))
            ||| reports(result, file.file, alias.range, SkipReason::NeedsDifferentStatement)
                && forall|last: Seq<char>| #[trigger]
                reaches_after(renamings, from, last, new) ==> last.contains('.')
        },
{
    let renamings = renamings_of(project.names@, moves);
    let result = edits_for(project, moves);
    lemma_dealt_with(project, moves, file, path);
    let c = path.last().children@.index_of(alias);
    let j = lemma_is_filling(path.last().children@, Field::Name, c);
    assert(children_of(path.last(), Field::Name)[j] == alias);
    if let NodeKind::StmtImportFrom { module, level, .. } = path.last().kind {
        law_dots_reach_their_module(file.bases@, text_in(module), level, from);
    }
    if let NodeKind::Alias { name, name_range, .. } = alias.kind {
        law_first_renaming_decides(renamings, extended(from, name@));
        let last = last_part(new);
        lemma_last_part(new);
        assert forall|tail: Seq<char>| #[trigger] reaches_after(renamings, from, tail, new)
            && !tail.contains('.') implies parent_part(new) == Some(
            name_after(renamings, from),
        ) by {
            lemma_reaches_after(renamings, from, tail, new);
            lemma_last_part_of(name_after(renamings, from), tail);
        }
        if parent_part(new) == Some(name_after(renamings, from)) {
            lemma_parent_extended(new);
            lemma_reaches_after(renamings, from, last, new);
            if last != name@ {
                let edit = FileEditModel { file: file.file, edit: replacing(last, name_range) };
                assert(result.edits.contains(edit));
                let i = result.edits.index_of(edit);
                assert(result.edits[i].file == file.file);
                assert(rewrites(result, file.file, name_range, last));
            } else {
                assert(last == name@ || rewrites(result, file.file, name_range, last));
            }
        } else {
            let skipped = SkippedImport {
                file: file.file,
                range: alias.range,
                reason: SkipReason::NeedsDifferentStatement,
            };
            assert(result.skipped.contains(skipped));
            let i = result.skipped.index_of(skipped);
            assert(result.skipped[i].file == file.file);
        }
    }
}

proof fn lemma_prefix_rebound(
    renamings: Seq<RenamingModel>,
    name: Seq<char>,
    prefix: Seq<char>,
    new: Seq<char>,
)
    requires
        renamed_by(renamings, prefix) == Some(new),
        name == prefix || exists|rest: Seq<char>| name == #[trigger] extended(prefix, rest),
    ensures
        rebound_prefixes(renamings, name).contains(
            RebindingModel { spelling: prefix, module: prefix, replacement: new },
        ),
    decreases name.len(),
{
    let all = rebound_prefixes(renamings, name);
    let rebinding = RebindingModel { spelling: prefix, module: prefix, replacement: new };
    lemma_parent_is_shorter(name);
    if name == prefix {
        assert(all[all.len() - 1] == rebinding);
    } else {
        let rest = choose|rest: Seq<char>| name == #[trigger] extended(prefix, rest);
        lemma_parent_of_extended(prefix, rest);
        let parent = parent_part(name)->0;
        lemma_prefix_rebound(renamings, parent, prefix, new);
        let outer = rebound_prefixes(renamings, parent);
        let k = outer.index_of(rebinding);
        assert(all[k] == rebinding);
    }
}

proof fn lemma_spelled_among(rebound: Seq<RebindingModel>, rebinding: RebindingModel)
    requires
        rebound.contains(rebinding),
    ensures
        spelled_among(rebound, rebinding.spelling) is Some,
    decreases rebound.len(),
{
    if rebound[0].spelling != rebinding.spelling {
        let k = rebound.index_of(rebinding);
        assert(rebound.skip(1)[k - 1] == rebinding);
        lemma_spelled_among(rebound.skip(1), rebinding);
    }
}

/// `import alpha.util` binds `alpha`: an expression anywhere in the file that spells what such an
/// import binds, or a longer part of what it names, and whose name changes is looked at as a use
/// of it.
pub proof fn law_bound_names_are_looked_for(
    renamings: Seq<RenamingModel>,
    file: ProjectFile,
    sofar: ModuleRenameModel,
    import: Node,
    j: int,
    expr: Node,
)
    requires
        walked_all(file.suite.children@, Prune::Nothing).contains(import),
        import.kind is StmtImport,
        0 <= j < children_of(import, Field::Name).len(),
        children_of(import, Field::Name)[j].kind matches NodeKind::Alias { name, asname, .. }
            && asname is None && is_module_name(name@) && (dotted_of(expr) == Some(name@)
            || exists|rest: Seq<char>|
            name@ == #[trigger] extended(dotted_of(expr)->0, rest)),
        dotted_of(expr) matches Some(spelling) && is_module_name(spelling) && renamed_by(
            renamings,
            spelling,
        ) is Some,
    ensures
        candidate_at(imports_collected(renamings, file, sofar).rebound, expr) is Some,
{
    let nodes = walked_all(file.suite.children@, Prune::Nothing);
    let start = CollectedModel {
        edits: sofar.edits,
        skipped: sofar.skipped,
        rebound: Seq::empty(),
    };
    let plain = with_plain_imports(renamings, file.file, nodes, start);
    let i = nodes.index_of(import);
    let spelling = dotted_of(expr)->0;
    law_plain_imports_follow(renamings, file.file, nodes, start, i, j);
    lemma_from_imports_keep(file.facts(), renamings, nodes, plain);
    if let NodeKind::Alias { name, .. } = children_of(import, Field::Name)[j].kind {
        let new = renamed_by(renamings, spelling)->0;
        let rebinding = RebindingModel { spelling, module: spelling, replacement: new };
        lemma_prefix_rebound(renamings, name@, spelling, new);
        lemma_inside_is_renamed(renamings, spelling, name@);
        lemma_spelled_among(imports_collected(renamings, file, sofar).rebound, rebinding);
    }
}

/// What is inside something that is renamed is renamed.
proof fn lemma_inside_is_renamed(
    renamings: Seq<RenamingModel>,
    prefix: Seq<char>,
    name: Seq<char>,
)
    requires
        renamed_by(renamings, prefix) is Some,
        name == prefix || exists|rest: Seq<char>| name == #[trigger] extended(prefix, rest),
    ensures
        renamed_by(renamings, name) is Some,
    decreases renamings.len(),
{
    if name != prefix {
        let rest = choose|rest: Seq<char>| name == #[trigger] extended(prefix, rest);
        if applied(renamings[0], prefix) is Some {
            let old = renamings[0].old;
            law_renaming_covers_nothing_else(renamings[0], prefix);
            if prefix == old {
                law_renaming_takes_what_is_inside(renamings[0], rest);
            } else {
                let inner = choose|inner: Seq<char>| prefix == #[trigger] extended(old, inner);
                assert(name =~= extended(old, extended(inner, rest)));
                law_renaming_takes_what_is_inside(renamings[0], extended(inner, rest));
            }
        } else {
            lemma_inside_is_renamed(renamings.skip(1), prefix, name);
        }
    }
}

/// Whether the parts of `node` are one after the other, each inside it: what an import names
/// inside the import and after the module it imports from, and no import inside a dotted name.
pub open spec fn is_well_nested(node: Node) -> bool
    decreases node,
{
    &&& forall|i: int, j: int|
        0 <= i < j < node.children@.len() ==> is_before(
            (#[trigger] node.children@[i]).range,
            (#[trigger] node.children@[j]).range,
        )
    &&& forall|i: int|
        0 <= i < node.children@.len() ==> node.range.spec_contains_range(
            (#[trigger] node.children@[i]).range,
        )
    &&& forall|i: int|
        0 <= i < node.children@.len() ==> is_well_nested(#[trigger] node.children@[i])
    &&& match node.kind {
        NodeKind::Alias { name_range, .. } => node.range.spec_contains_range(name_range),
        NodeKind::StmtImport => names_only(node.children@),
        NodeKind::StmtImportFrom { module_range, .. } => {
            &&& names_only(node.children@)
            &&& node.range.spec_contains_range(module_range)
            &&& forall|i: int|
                0 <= i < node.children@.len() ==> is_before(
                    module_range,
                    (#[trigger] node.children@[i]).range,
                )
        },
        NodeKind::ExprName { .. } | NodeKind::ExprAttribute { .. } => forall|i: int|
            0 <= i < walked_all(node.children@, Prune::Nothing).len() ==> !is_import(
                #[trigger] walked_all(node.children@, Prune::Nothing)[i],
            ),
        _ => true,
    }
}

pub open spec fn is_import(node: Node) -> bool {
    node.kind is StmtImport || node.kind is StmtImportFrom
}

pub open spec fn names_only(nodes: Seq<Node>) -> bool {
    forall|i: int|
        0 <= i < nodes.len() ==> (#[trigger] nodes[i]).kind is Alias && nodes[i].children@.len()
            == 0
}

/// Whether no two of `sites` in one file overlap.
pub open spec fn are_apart(sites: Multiset<Place>) -> bool {
    forall|p: Place, q: Place|
        #![trigger sites.count(p), sites.count(q)]
        sites.count(p) > 0 && sites.count(q) > 0 && p.0 == q.0 && (p != q || sites.count(p) > 1)
            ==> is_before(p.1, q.1) || is_before(q.1, p.1)
}

spec fn are_within(sites: Multiset<Place>, file: File, range: TextRange) -> bool {
    forall|p: Place| #[trigger]
        sites.count(p) > 0 ==> p.0 == file && range.spec_contains_range(p.1)
}

/// Whether every one of `first` is in another file than those of `second`, or does not overlap
/// them.
spec fn are_clear(first: Multiset<Place>, second: Multiset<Place>) -> bool {
    forall|p: Place, q: Place|
        #![trigger first.count(p), second.count(q)]
        first.count(p) > 0 && second.count(q) > 0 && p.0 == q.0 ==> is_before(p.1, q.1)
            || is_before(q.1, p.1)
}

proof fn lemma_apart_add(first: Multiset<Place>, second: Multiset<Place>)
    requires
        are_apart(first),
        are_apart(second),
        are_clear(first, second),
    ensures
        are_apart(first.add(second)),
{
    let both = first.add(second);
    assert forall|p: Place, q: Place|
        #![trigger both.count(p), both.count(q)]
        both.count(p) > 0 && both.count(q) > 0 && p.0 == q.0 && (p != q || both.count(p)
            > 1) implies is_before(p.1, q.1) || is_before(q.1, p.1) by {
        assert(both.count(p) == first.count(p) + second.count(p));
        assert(both.count(q) == first.count(q) + second.count(q));
    }
}

proof fn lemma_apart_subset(some: Multiset<Place>, all: Multiset<Place>)
    requires
        some.subset_of(all),
        are_apart(all),
    ensures
        are_apart(some),
{
    assert forall|p: Place, q: Place|
        #![trigger some.count(p), some.count(q)]
        some.count(p) > 0 && some.count(q) > 0 && p.0 == q.0 && (p != q || some.count(p)
            > 1) implies is_before(p.1, q.1) || is_before(q.1, p.1) by {
        assert(some.count(p) <= all.count(p) && some.count(q) <= all.count(q));
    }
}

/// Where `node` and what is inside it are edited, at most.
spec fn writes(facts: FileFacts, rebound: Seq<RebindingModel>, node: Node) -> Multiset<Place>
    decreases node, 1int,
{
    plain_sites(facts.file, node).add(from_sites(facts.file, node)).add(
        match candidate_at(rebound, node) {
            Some(rebinding) => places(use_edit(facts, rebinding, node)),
            None => writes_in_all(facts, rebound, node.children@),
        },
    )
}

spec fn writes_in_all(facts: FileFacts, rebound: Seq<RebindingModel>, nodes: Seq<Node>) -> Multiset<
    Place,
>
    decreases nodes, 0int,
{
    if nodes.len() == 0 {
        Multiset::empty()
    } else {
        writes_in_all(facts, rebound, nodes.drop_last()).add(writes(facts, rebound, nodes.last()))
    }
}

proof fn lemma_no_sites(file: File, nodes: Seq<Node>)
    requires
        forall|i: int| 0 <= i < nodes.len() ==> !is_import(#[trigger] nodes[i]),
    ensures
        all_sites(file, nodes, SiteKind::Plain) =~= Multiset::empty(),
        all_sites(file, nodes, SiteKind::From) =~= Multiset::empty(),
    decreases nodes.len(),
{
    if nodes.len() > 0 {
        assert forall|i: int| 0 <= i < nodes.drop_last().len() implies !is_import(
            #[trigger] nodes.drop_last()[i],
        ) by {
            assert(nodes.drop_last()[i] == nodes[i]);
        }
        lemma_no_sites(file, nodes.drop_last());
        assert(!is_import(nodes[nodes.len() - 1]));
    }
}

proof fn lemma_writes(facts: FileFacts, rebound: Seq<RebindingModel>, node: Node)
    requires
        is_well_nested(node),
    ensures
        all_sites(facts.file, walked(node, Prune::Nothing), SiteKind::Plain).add(
            all_sites(facts.file, walked(node, Prune::Nothing), SiteKind::From),
        ).add(places(uses_in(facts, rebound, node))) =~= writes(facts, rebound, node),
    decreases node, 1int,
{
    let file = facts.file;
    let below = walked_all(node.children@, Prune::Nothing);
    let own = seq![node];
    assert(own.drop_last() =~= Seq::empty());
    assert(all_sites(file, Seq::<Node>::empty(), SiteKind::Plain) =~= Multiset::empty());
    assert(all_sites(file, Seq::<Node>::empty(), SiteKind::From) =~= Multiset::empty());
    assert(all_sites(file, own, SiteKind::Plain) =~= plain_sites(file, node));
    assert(all_sites(file, own, SiteKind::From) =~= from_sites(file, node));
    lemma_sites_add(file, own, below, SiteKind::Plain);
    lemma_sites_add(file, own, below, SiteKind::From);
    match candidate_at(rebound, node) {
        Some(_) => {
            assert(node.kind is ExprName || node.kind is ExprAttribute);
            lemma_no_sites(file, below);
        },
        None => {
            lemma_writes_in_all(facts, rebound, node.children@);
        },
    }
}

proof fn lemma_writes_in_all(facts: FileFacts, rebound: Seq<RebindingModel>, nodes: Seq<Node>)
    requires
        forall|i: int| 0 <= i < nodes.len() ==> is_well_nested(#[trigger] nodes[i]),
    ensures
        all_sites(facts.file, walked_all(nodes, Prune::Nothing), SiteKind::Plain).add(
            all_sites(facts.file, walked_all(nodes, Prune::Nothing), SiteKind::From),
        ).add(places(uses_in_all(facts, rebound, nodes))) =~= writes_in_all(facts, rebound, nodes),
    decreases nodes, 0int,
{
    if nodes.len() > 0 {
        let rest = nodes.drop_last();
        let last = nodes.last();
        assert forall|i: int| 0 <= i < rest.len() implies is_well_nested(#[trigger] rest[i]) by {
            assert(rest[i] == nodes[i]);
        }
        assert(is_well_nested(nodes[nodes.len() - 1]));
        lemma_writes_in_all(facts, rebound, rest);
        lemma_writes(facts, rebound, last);
        let earlier = walked_all(rest, Prune::Nothing);
        let under = walked(last, Prune::Nothing);
        lemma_sites_add(facts.file, earlier, under, SiteKind::Plain);
        lemma_sites_add(facts.file, earlier, under, SiteKind::From);
        lemma_places_add(uses_in_all(facts, rebound, rest), uses_in(facts, rebound, last));
    }
}

/// Whether `nodes` are one after the other.
spec fn are_in_order(nodes: Seq<Node>) -> bool {
    forall|i: int, j: int|
        0 <= i < j < nodes.len() ==> is_before(
            (#[trigger] nodes[i]).range,
            (#[trigger] nodes[j]).range,
        )
}

spec fn is_in_one(nodes: Seq<Node>, file: File, place: Place) -> bool {
    place.0 == file && exists|i: int|
        0 <= i < nodes.len() && (#[trigger] nodes[i]).range.spec_contains_range(place.1)
}

proof fn lemma_alias_sites_apart(file: File, nodes: Seq<Node>, field: Field)
    requires
        are_in_order(nodes),
        forall|i: int| 0 <= i < nodes.len() ==> is_well_nested(#[trigger] nodes[i]),
    ensures
        are_apart(alias_sites(file, all_filling(nodes, field))),
        forall|p: Place| #[trigger]
            alias_sites(file, all_filling(nodes, field)).count(p) > 0 ==> is_in_one(
                nodes,
                file,
                p,
            ),
    decreases nodes.len(),
{
    if nodes.len() > 0 {
        let rest = nodes.drop_last();
        let last = nodes.last();
        assert forall|i: int| 0 <= i < rest.len() implies is_well_nested(#[trigger] rest[i]) by {
            assert(rest[i] == nodes[i]);
        }
        assert forall|i: int, j: int| 0 <= i < j < rest.len() implies is_before(
            (#[trigger] rest[i]).range,
            (#[trigger] rest[j]).range,
        ) by {
            assert(rest[i] == nodes[i] && rest[j] == nodes[j]);
        }
        lemma_alias_sites_apart(file, rest, field);
        assert(is_well_nested(nodes[nodes.len() - 1]));
        let before = alias_sites(file, all_filling(rest, field));
        let all = alias_sites(file, all_filling(nodes, field));
        if last.field == field {
            assert(all_filling(nodes, field).drop_last() =~= all_filling(rest, field));
        }
        let added = match last.kind {
            NodeKind::Alias { name_range, .. } => if last.field == field {
                Multiset::singleton((file, name_range))
            } else {
                Multiset::empty()
            },
            _ => Multiset::empty(),
        };
        assert(all =~= before.add(added));
        assert forall|p: Place| #[trigger] all.count(p) > 0 implies is_in_one(nodes, file, p) by {
            if before.count(p) > 0 {
                assert(is_in_one(rest, file, p));
                let i = choose|i: int|
                    0 <= i < rest.len() && (#[trigger] rest[i]).range.spec_contains_range(p.1);
                assert(nodes[i].range.spec_contains_range(p.1));
            } else {
                assert(added.count(p) > 0);
                assert(nodes[nodes.len() - 1].range.spec_contains_range(p.1));
            }
        }
        assert(are_clear(before, added)) by {
            assert forall|p: Place, q: Place|
                #![trigger before.count(p), added.count(q)]
                before.count(p) > 0 && added.count(q) > 0 && p.0 == q.0 implies is_before(
                p.1,
                q.1,
            ) || is_before(q.1, p.1) by {
                assert(is_in_one(rest, file, p));
                let i = choose|i: int|
                    0 <= i < rest.len() && (#[trigger] rest[i]).range.spec_contains_range(p.1);
                assert(is_before(nodes[i].range, nodes[nodes.len() - 1].range));
                assert(last.range.spec_contains_range(q.1));
            }
        }
        lemma_apart_add(before, added);
    }
}

proof fn lemma_names_write_nothing(facts: FileFacts, rebound: Seq<RebindingModel>, nodes: Seq<Node>)
    requires
        names_only(nodes),
    ensures
        writes_in_all(facts, rebound, nodes) =~= Multiset::empty(),
    decreases nodes.len(),
{
    if nodes.len() > 0 {
        let rest = nodes.drop_last();
        let last = nodes[nodes.len() - 1];
        assert forall|i: int| 0 <= i < rest.len() implies (#[trigger] rest[i]).kind is Alias
            && rest[i].children@.len() == 0 by {
            assert(rest[i] == nodes[i]);
        }
        lemma_names_write_nothing(facts, rebound, rest);
        assert(writes_in_all(facts, rebound, last.children@) =~= Multiset::empty());
        assert(writes(facts, rebound, last) =~= Multiset::empty());
    }
}

proof fn lemma_writes_apart(facts: FileFacts, rebound: Seq<RebindingModel>, node: Node)
    requires
        is_well_nested(node),
    ensures
        are_apart(writes(facts, rebound, node)),
        are_within(writes(facts, rebound, node), facts.file, node.range),
    decreases node, 1int,
{
    let file = facts.file;
    let all = writes(facts, rebound, node);
    match node.kind {
        NodeKind::StmtImport => {
            lemma_names_write_nothing(facts, rebound, node.children@);
            lemma_alias_sites_apart(file, node.children@, Field::Name);
            assert(all =~= alias_sites(file, children_of(node, Field::Name)));
            assert forall|p: Place| #[trigger] all.count(p) > 0 implies p.0 == file
                && node.range.spec_contains_range(p.1) by {
                assert(is_in_one(node.children@, file, p));
            }
        },
        NodeKind::StmtImportFrom { module_range, .. } => {
            lemma_names_write_nothing(facts, rebound, node.children@);
            lemma_alias_sites_apart(file, node.children@, Field::Name);
            let names = alias_sites(file, children_of(node, Field::Name));
            let module = Multiset::singleton((file, module_range));
            assert(all =~= names.add(module));
            assert(are_clear(names, module)) by {
                assert forall|p: Place, q: Place|
                    #![trigger names.count(p), module.count(q)]
                    names.count(p) > 0 && module.count(q) > 0 && p.0 == q.0 implies is_before(
                    p.1,
                    q.1,
                ) || is_before(q.1, p.1) by {
                    assert(is_in_one(node.children@, file, p));
                }
            }
            lemma_apart_add(names, module);
            assert forall|p: Place| #[trigger] all.count(p) > 0 implies p.0 == file
                && node.range.spec_contains_range(p.1) by {
                if names.count(p) > 0 {
                    assert(is_in_one(node.children@, file, p));
                }
            }
        },
        _ => {
            match candidate_at(rebound, node) {
                Some(rebinding) => {
                    let edits = use_edit(facts, rebinding, node);
                    if edits.len() > 0 {
                        assert(edits.drop_last() =~= Seq::empty());
                        assert(places(Seq::<FileEditModel>::empty()) =~= Multiset::empty());
                    }
                    assert(all =~= places(edits));
                },
                None => {
                    lemma_writes_in_all_apart(facts, rebound, node.children@);
                    assert(all =~= writes_in_all(facts, rebound, node.children@));
                    assert forall|p: Place| #[trigger] all.count(p) > 0 implies p.0 == file
                        && node.range.spec_contains_range(p.1) by {
                        assert(is_in_one(node.children@, file, p));
                    }
                },
            }
        },
    }
}

proof fn lemma_writes_in_all_apart(
    facts: FileFacts,
    rebound: Seq<RebindingModel>,
    nodes: Seq<Node>,
)
    requires
        are_in_order(nodes),
        forall|i: int| 0 <= i < nodes.len() ==> is_well_nested(#[trigger] nodes[i]),
    ensures
        are_apart(writes_in_all(facts, rebound, nodes)),
        forall|p: Place| #[trigger]
            writes_in_all(facts, rebound, nodes).count(p) > 0 ==> is_in_one(
                nodes,
                facts.file,
                p,
            ),
    decreases nodes, 0int,
{
    if nodes.len() > 0 {
        let file = facts.file;
        let rest = nodes.drop_last();
        let last = nodes.last();
        assert forall|i: int| 0 <= i < rest.len() implies is_well_nested(#[trigger] rest[i]) by {
            assert(rest[i] == nodes[i]);
        }
        assert forall|i: int, j: int| 0 <= i < j < rest.len() implies is_before(
            (#[trigger] rest[i]).range,
            (#[trigger] rest[j]).range,
        ) by {
            assert(rest[i] == nodes[i] && rest[j] == nodes[j]);
        }
        assert(is_well_nested(nodes[nodes.len() - 1]));
        lemma_writes_in_all_apart(facts, rebound, rest);
        lemma_writes_apart(facts, rebound, last);
        let before = writes_in_all(facts, rebound, rest);
        let added = writes(facts, rebound, last);
        let all = writes_in_all(facts, rebound, nodes);
        assert(are_clear(before, added)) by {
            assert forall|p: Place, q: Place|
                #![trigger before.count(p), added.count(q)]
                before.count(p) > 0 && added.count(q) > 0 && p.0 == q.0 implies is_before(
                p.1,
                q.1,
            ) || is_before(q.1, p.1) by {
                assert(is_in_one(rest, file, p));
                let i = choose|i: int|
                    0 <= i < rest.len() && (#[trigger] rest[i]).range.spec_contains_range(p.1);
                assert(is_before(nodes[i].range, nodes[nodes.len() - 1].range));
                assert(last.range.spec_contains_range(q.1));
            }
        }
        lemma_apart_add(before, added);
        assert forall|p: Place| #[trigger] all.count(p) > 0 implies is_in_one(nodes, file, p) by {
            if before.count(p) > 0 {
                assert(is_in_one(rest, file, p));
                let i = choose|i: int|
                    0 <= i < rest.len() && (#[trigger] rest[i]).range.spec_contains_range(p.1);
                assert(nodes[i].range.spec_contains_range(p.1));
            } else {
                assert(added.count(p) > 0);
                assert(nodes[nodes.len() - 1].range.spec_contains_range(p.1));
            }
        }
    }
}

/// Whether no two of `files` are one file.
pub open spec fn files_differ(files: Seq<ProjectFile>) -> bool {
    forall|i: int, j: int|
        0 <= i < j < files.len() ==> (#[trigger] files[i]).file != (#[trigger] files[j]).file
}

pub open spec fn all_well_nested(files: Seq<ProjectFile>) -> bool {
    forall|i: int| 0 <= i < files.len() ==> is_well_nested((#[trigger] files[i]).suite)
}

spec fn is_in_files(files: Seq<ProjectFile>, place: Place) -> bool {
    exists|i: int| 0 <= i < files.len() && (#[trigger] files[i]).file == place.0
}

proof fn lemma_file_apart(renamings: Seq<RenamingModel>, file: ProjectFile, sofar: ModuleRenameModel)
    requires
        is_well_nested(file.suite),
        are_apart(places(sofar.edits)),
        forall|p: Place| #[trigger] places(sofar.edits).count(p) > 0 ==> p.0 != file.file,
    ensures
        are_apart(places(with_file(renamings, file, sofar).edits)),
        forall|p: Place| #[trigger]
            places(with_file(renamings, file, sofar).edits).count(p) > 0 ==> p.0 == file.file
                || places(sofar.edits).count(p) > 0,
{
    let nodes = walked_all(file.suite.children@, Prune::Nothing);
    let start = CollectedModel {
        edits: sofar.edits,
        skipped: sofar.skipped,
        rebound: Seq::empty(),
    };
    let plain = with_plain_imports(renamings, file.file, nodes, start);
    let collected = imports_collected(renamings, file, sofar);
    let uses = uses_in_all(file.facts(), collected.rebound, file.suite.children@);
    let written = writes_in_all(file.facts(), collected.rebound, file.suite.children@);
    let before = places(sofar.edits);
    let after = places(with_file(renamings, file, sofar).edits);
    lemma_plain_places(renamings, file.file, nodes, start);
    lemma_from_places(file.facts(), renamings, nodes, plain);
    lemma_places_add(collected.edits, uses);
    lemma_writes_in_all(file.facts(), collected.rebound, file.suite.children@);
    lemma_writes_in_all_apart(file.facts(), collected.rebound, file.suite.children@);
    assert forall|p: Place| #[trigger] after.count(p) <= before.add(written).count(p) by {
        let plain_sites_ = all_sites(file.file, nodes, SiteKind::Plain);
        let from_sites_ = all_sites(file.file, nodes, SiteKind::From);
        assert(places(plain.edits).count(p) <= before.add(plain_sites_).count(p));
        assert(places(collected.edits).count(p) <= places(plain.edits).add(from_sites_).count(p));
        assert(written.count(p) == plain_sites_.add(from_sites_).add(places(uses)).count(p));
    }
    assert(after.subset_of(before.add(written)));
    assert(are_clear(before, written)) by {
        assert forall|p: Place, q: Place|
            #![trigger before.count(p), written.count(q)]
            before.count(p) > 0 && written.count(q) > 0 && p.0 == q.0 implies is_before(p.1, q.1)
            || is_before(q.1, p.1) by {
            assert(is_in_one(file.suite.children@, file.file, q));
        }
    }
    lemma_apart_add(before, written);
    lemma_apart_subset(after, before.add(written));
    assert forall|p: Place| #[trigger] after.count(p) > 0 implies p.0 == file.file
        || before.count(p) > 0 by {
        assert(after.count(p) <= before.add(written).count(p));
        if before.count(p) == 0 {
            assert(written.count(p) > 0);
            assert(is_in_one(file.suite.children@, file.file, p));
        }
    }
}

proof fn lemma_files_apart(renamings: Seq<RenamingModel>, files: Seq<ProjectFile>)
    requires
        files_differ(files),
        all_well_nested(files),
    ensures
        ({
            let nothing = ModuleRenameModel { edits: Seq::empty(), skipped: Seq::empty() };
            let sites = places(with_files(renamings, files, nothing).edits);
            &&& are_apart(sites)
            &&& forall|p: Place| #[trigger] sites.count(p) > 0 ==> is_in_files(files, p)
        }),
    decreases files.len(),
{
    let nothing = ModuleRenameModel { edits: Seq::empty(), skipped: Seq::empty() };
    assert(places(Seq::<FileEditModel>::empty()) =~= Multiset::empty());
    if files.len() > 0 {
        let rest = files.drop_last();
        let last = files.last();
        let before = with_files(renamings, rest, nothing);
        assert forall|i: int, j: int| 0 <= i < j < rest.len() implies (#[trigger] rest[i]).file
            != (#[trigger] rest[j]).file by {
            assert(files[i].file != files[j].file);
        }
        assert forall|i: int| 0 <= i < rest.len() implies is_well_nested(
            (#[trigger] rest[i]).suite,
        ) by {
            assert(rest[i] == files[i]);
        }
        lemma_files_apart(renamings, rest);
        assert forall|p: Place| #[trigger] places(before.edits).count(p) > 0 implies p.0
            != last.file by {
            assert(is_in_files(rest, p));
            let i = choose|i: int| 0 <= i < rest.len() && (#[trigger] rest[i]).file == p.0;
            assert(files[i].file != files[files.len() - 1].file);
        }
        assert(is_well_nested(files[files.len() - 1].suite));
        lemma_file_apart(renamings, last, before);
        let sites = places(with_files(renamings, files, nothing).edits);
        assert forall|p: Place| #[trigger] sites.count(p) > 0 implies is_in_files(files, p) by {
            if places(before.edits).count(p) > 0 {
                assert(is_in_files(rest, p));
                let i = choose|i: int| 0 <= i < rest.len() && (#[trigger] rest[i]).file == p.0;
                assert(files[i].file == p.0);
            } else {
                assert(files[files.len() - 1].file == p.0);
            }
        }
    }
}

proof fn lemma_by_path_differ(files: Seq<ProjectFile>)
    requires
        files_differ(files),
        all_well_nested(files),
    ensures
        files_differ(by_path(files)),
        all_well_nested(by_path(files)),
    decreases files.len(),
{
    broadcast use vstd::seq_lib::group_to_multiset_ensures;

    if files.len() > 0 {
        let rest = files.drop_last();
        let last = files.last();
        let before = by_path(rest);
        assert forall|i: int, j: int| 0 <= i < j < rest.len() implies (#[trigger] rest[i]).file
            != (#[trigger] rest[j]).file by {
            assert(files[i].file != files[j].file);
        }
        assert forall|i: int| 0 <= i < rest.len() implies is_well_nested(
            (#[trigger] rest[i]).suite,
        ) by {
            assert(rest[i] == files[i]);
        }
        lemma_by_path_differ(rest);
        law_by_path(rest);
        lemma_file_slot(before, last.path@);
        let at = file_slot(before, last.path@);
        let placed = before.insert(at, last);
        assert(is_well_nested(files[files.len() - 1].suite));
        assert forall|k: int| 0 <= k < before.len() implies (#[trigger] before[k]).file
            != last.file by {
            assert(before.contains(before[k]));
            assert(before.to_multiset().count(before[k]) > 0);
            assert(rest.contains(before[k]));
            let r = rest.index_of(before[k]);
            assert(files[r].file != files[files.len() - 1].file);
        }
        assert forall|i: int| 0 <= i < placed.len() implies is_well_nested(
            (#[trigger] placed[i]).suite,
        ) by {
            let a = if i < at {
                before[i]
            } else if i == at {
                last
            } else {
                before[i - 1]
            };
            assert(placed[i] == a);
        }
        assert forall|i: int, j: int| 0 <= i < j < placed.len() implies (
        #[trigger] placed[i]).file != (#[trigger] placed[j]).file by {
            let a = if i < at {
                before[i]
            } else if i == at {
                last
            } else {
                before[i - 1]
            };
            let b = if j < at {
                before[j]
            } else if j == at {
                last
            } else {
                before[j - 1]
            };
            assert(placed[i] == a && placed[j] == b);
        }
    }
}

proof fn lemma_place_of(edits: Seq<FileEditModel>, i: int)
    requires
        0 <= i < edits.len(),
    ensures
        places(edits).count((edits[i].file, edits[i].edit.range)) > 0,
    decreases edits.len(),
{
    if i < edits.len() - 1 {
        assert(edits.drop_last()[i] == edits[i]);
        lemma_place_of(edits.drop_last(), i);
    }
}

proof fn lemma_place_of_two(edits: Seq<FileEditModel>, i: int, j: int)
    requires
        0 <= i < j < edits.len(),
        edits[i].file == edits[j].file,
        edits[i].edit.range == edits[j].edit.range,
    ensures
        places(edits).count((edits[i].file, edits[i].edit.range)) > 1,
    decreases edits.len(),
{
    assert(edits.drop_last()[i] == edits[i]);
    if j < edits.len() - 1 {
        assert(edits.drop_last()[j] == edits[j]);
        lemma_place_of_two(edits.drop_last(), i, j);
    } else {
        lemma_place_of(edits.drop_last(), i);
    }
}

/// No two edits of one file overlap: making one leaves the text of every other as it was.
pub proof fn law_edits_never_overlap(project: Project, moves: Seq<FileMove>, i: int, j: int)
    requires
        files_differ(project.files@),
        all_well_nested(project.files@),
        0 <= i < j < edits_for(project, moves).edits.len(),
        edits_for(project, moves).edits[i].file == edits_for(project, moves).edits[j].file,
    ensures
        ({
            let edits = edits_for(project, moves).edits;
            is_before(edits[i].edit.range, edits[j].edit.range) || is_before(
                edits[j].edit.range,
                edits[i].edit.range,
            )
        }),
{
    let edits = edits_for(project, moves).edits;
    let renamings = renamings_of(project.names@, moves);
    lemma_by_path_differ(project.files@);
    lemma_files_apart(renamings, by_path(project.files@));
    lemma_place_of(edits, i);
    lemma_place_of(edits, j);
    if edits[i].edit.range == edits[j].edit.range {
        lemma_place_of_two(edits, i, j);
    }
}

/// Whether `more` goes on from `edits` with edits of `file`.
spec fn goes_on(edits: Seq<FileEditModel>, more: Seq<FileEditModel>, file: File) -> bool {
    &&& edits.len() <= more.len()
    &&& forall|k: int| 0 <= k < edits.len() ==> #[trigger] more[k] == edits[k]
    &&& forall|k: int| edits.len() <= k < more.len() ==> (#[trigger] more[k]).file == file
}

proof fn lemma_plain_goes_on(
    renamings: Seq<RenamingModel>,
    file: File,
    aliases: Seq<Node>,
    sofar: CollectedModel,
)
    ensures
        goes_on(sofar.edits, with_plain_aliases(renamings, file, aliases, sofar).edits, file),
    decreases aliases.len(),
{
    if aliases.len() > 0 {
        lemma_plain_goes_on(renamings, file, aliases.drop_last(), sofar);
    }
}

proof fn lemma_plain_imports_go_on(
    renamings: Seq<RenamingModel>,
    file: File,
    nodes: Seq<Node>,
    sofar: CollectedModel,
)
    ensures
        goes_on(sofar.edits, with_plain_imports(renamings, file, nodes, sofar).edits, file),
    decreases nodes.len(),
{
    if nodes.len() > 0 {
        let before = with_plain_imports(renamings, file, nodes.drop_last(), sofar);
        lemma_plain_imports_go_on(renamings, file, nodes.drop_last(), sofar);
        lemma_plain_goes_on(renamings, file, children_of(nodes.last(), Field::Name), before);
    }
}

proof fn lemma_from_goes_on(
    renamings: Seq<RenamingModel>,
    file: File,
    from: Seq<char>,
    aliases: Seq<Node>,
    sofar: CollectedModel,
)
    ensures
        goes_on(sofar.edits, with_from_aliases(renamings, file, from, aliases, sofar).edits, file),
    decreases aliases.len(),
{
    if aliases.len() > 0 {
        lemma_from_goes_on(renamings, file, from, aliases.drop_last(), sofar);
    }
}

proof fn lemma_from_imports_go_on(
    facts: FileFacts,
    renamings: Seq<RenamingModel>,
    nodes: Seq<Node>,
    sofar: CollectedModel,
)
    ensures
        goes_on(
            sofar.edits,
            with_from_imports(facts, renamings, nodes, sofar).edits,
            facts.file,
        ),
    decreases nodes.len(),
{
    if nodes.len() > 0 {
        let import = nodes.last();
        let before = with_from_imports(facts, renamings, nodes.drop_last(), sofar);
        lemma_from_imports_go_on(facts, renamings, nodes.drop_last(), sofar);
        if let NodeKind::StmtImportFrom { module, level, .. } = import.kind {
            if let Some(from) = imported_from(facts.bases, text_in(module), level) {
                lemma_from_goes_on(
                    renamings,
                    facts.file,
                    from,
                    children_of(import, Field::Name),
                    with_reference(facts, renamings, import, from, before),
                );
            }
        }
    }
}

proof fn lemma_uses_of_file(facts: FileFacts, rebound: Seq<RebindingModel>, node: Node)
    ensures
        forall|k: int|
            0 <= k < uses_in(facts, rebound, node).len() ==> (#[trigger] uses_in(
                facts,
                rebound,
                node,
            )[k]).file == facts.file,
    decreases node, 1int,
{
    if candidate_at(rebound, node) is None {
        lemma_all_uses_of_file(facts, rebound, node.children@);
    }
}

proof fn lemma_all_uses_of_file(facts: FileFacts, rebound: Seq<RebindingModel>, nodes: Seq<Node>)
    ensures
        forall|k: int|
            0 <= k < uses_in_all(facts, rebound, nodes).len() ==> (#[trigger] uses_in_all(
                facts,
                rebound,
                nodes,
            )[k]).file == facts.file,
    decreases nodes, 0int,
{
    if nodes.len() > 0 {
        lemma_all_uses_of_file(facts, rebound, nodes.drop_last());
        lemma_uses_of_file(facts, rebound, nodes.last());
    }
}

/// Whether `edits` are grouped by file, in the order of `files`.
pub open spec fn are_grouped(edits: Seq<FileEditModel>, files: Seq<ProjectFile>) -> bool {
    forall|i: int, j: int|
        0 <= i <= j < edits.len() ==> are_of_files_in_order(
            files,
            (#[trigger] edits[i]).file,
            (#[trigger] edits[j]).file,
        )
}

pub open spec fn are_of_files_in_order(files: Seq<ProjectFile>, first: File, second: File) -> bool {
    exists|a: int, b: int|
        0 <= a <= b < files.len() && (#[trigger] files[a]).file == first && (
        #[trigger] files[b]).file == second
}

proof fn lemma_files_grouped(renamings: Seq<RenamingModel>, files: Seq<ProjectFile>)
    ensures
        ({
            let nothing = ModuleRenameModel { edits: Seq::empty(), skipped: Seq::empty() };
            are_grouped(with_files(renamings, files, nothing).edits, files)
        }),
    decreases files.len(),
{
    if files.len() > 0 {
        let nothing = ModuleRenameModel { edits: Seq::empty(), skipped: Seq::empty() };
        let rest = files.drop_last();
        let last = files.last();
        let sofar = with_files(renamings, rest, nothing);
        let nodes = walked_all(last.suite.children@, Prune::Nothing);
        let start = CollectedModel {
            edits: sofar.edits,
            skipped: sofar.skipped,
            rebound: Seq::empty(),
        };
        let plain = with_plain_imports(renamings, last.file, nodes, start);
        let collected = imports_collected(renamings, last, sofar);
        lemma_files_grouped(renamings, rest);
        lemma_plain_imports_go_on(renamings, last.file, nodes, start);
        lemma_from_imports_go_on(last.facts(), renamings, nodes, plain);
        lemma_all_uses_of_file(last.facts(), collected.rebound, last.suite.children@);
        let edits = with_file(renamings, last, sofar).edits;
        assert(goes_on(sofar.edits, edits, last.file));
        assert forall|i: int, j: int| 0 <= i <= j < edits.len() implies are_of_files_in_order(
            files,
            (#[trigger] edits[i]).file,
            (#[trigger] edits[j]).file,
        ) by {
            let end = files.len() - 1;
            if i < sofar.edits.len() {
                let k = if j < sofar.edits.len() {
                    j
                } else {
                    i
                };
                assert(sofar.edits[i] == edits[i] && sofar.edits[k] == edits[k]);
                assert(are_of_files_in_order(rest, sofar.edits[i].file, sofar.edits[k].file));
                let (a, b) = choose|a: int, b: int|
                    0 <= a <= b < rest.len() && (#[trigger] rest[a]).file == edits[i].file && (
                    #[trigger] rest[b]).file == edits[k].file;
                assert(files[a].file == edits[i].file && files[b].file == edits[k].file);
                if j >= sofar.edits.len() {
                    assert(files[end].file == edits[j].file);
                }
            } else {
                assert(files[end].file == edits[i].file && files[end].file == edits[j].file);
            }
        }
    }
}

/// The edits come grouped by file, the files in the order of their paths.
pub proof fn law_edits_by_file(project: Project, moves: Seq<FileMove>)
    ensures
        is_by_path(by_path(project.files@)),
        are_grouped(edits_for(project, moves).edits, by_path(project.files@)),
{
    law_by_path(project.files@);
    lemma_files_grouped(renamings_of(project.names@, moves), by_path(project.files@));
}

} // verus!

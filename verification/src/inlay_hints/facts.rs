//! What the type checker says of a file, as far as hints show it.
//!
//! Types come rendered, the way the file is written. What is said of a node is kept under the
//! node's id.

use super::Variance;
use crate::edit::{Edit, EditModel, File};
use crate::navigation::NavigationTarget;
use crate::text_size::TextRange;
use vstd::prelude::*;

verus! {

/// The module a definition is in.
#[derive(Debug)]
pub struct DefiningModule {
    pub name: String,
    /// Whether it is python's `builtins`.
    pub is_builtins: bool,
}

/// Where a type is defined.
#[derive(Debug)]
pub struct TypeDefinition {
    /// Tells the definition from every other.
    pub id: u32,
    /// Whether it is at the top level of its module.
    pub is_global: bool,
    pub file: File,
    pub name: Option<String>,
    /// The module it is in, when the search paths cover its file.
    pub module: Option<DefiningModule>,
}

/// A type that a rendered one is made up of.
#[derive(Debug)]
pub struct NamedType {
    /// Whether it is the type of `None`.
    pub is_none: bool,
    pub definition: Option<TypeDefinition>,
    /// Where the type can be gone to.
    pub target: Option<NavigationTarget>,
}

/// What a stretch of a rendered type is.
#[derive(Debug)]
pub enum TypeDetail {
    Type(NamedType),
    SignatureStart,
    SignatureEnd,
    Parameter,
}

#[derive(Debug)]
pub struct LabelSpan {
    /// Where the stretch is in the rendered type.
    pub range: TextRange,
    pub detail: TypeDetail,
}

/// A rendered type, and the types that make it up, in the order they were rendered: the inner,
/// smaller ones before the outer, bigger ones.
#[derive(Debug)]
pub struct TypeLabel {
    pub label: String,
    /// Whether the label can be written in a source.
    pub is_valid_syntax: bool,
    pub spans: Vec<LabelSpan>,
}

/// A member of the scope an expression is in.
#[derive(Debug)]
pub struct ScopeMember {
    pub name: String,
    /// The definition of the member's type.
    pub definition: Option<u32>,
}

/// What it takes to use a symbol in a scope.
#[derive(Debug)]
pub struct ImportAction {
    /// The edit that imports it, when one is needed.
    pub import: Option<Edit>,
    /// How the symbol is spelled in the scope.
    pub symbol_text: String,
}

/// An [`ImportAction`] as a mathematical value.
pub ghost struct ImportActionModel {
    pub import: Option<EditModel>,
    pub symbol_text: Seq<char>,
}

impl View for ImportAction {
    type V = ImportActionModel;

    open spec fn view(&self) -> ImportActionModel {
        ImportActionModel {
            import: match self.import {
                Some(edit) => Some(edit@),
                None => None,
            },
            symbol_text: self.symbol_text@,
        }
    }
}

impl ImportAction {
    /// The same action again.
    pub fn copy(&self) -> (action: ImportAction)
        ensures
            action@ == self@,
    {
        ImportAction {
            import: match &self.import {
                Some(edit) => Some(edit.copy()),
                None => None,
            },
            symbol_text: crate::strings::owned(self.symbol_text.as_str()),
        }
    }
}

/// What it takes to use `symbol` of `module`: with `from <module> import <symbol>` where that is
/// possible or, when `qualified`, with `import <module>`.
#[derive(Debug)]
pub struct ImportAnswer {
    pub module: String,
    pub symbol: String,
    pub qualified: bool,
    pub action: ImportAction,
}

/// The type of a variable an assignment binds.
#[derive(Debug)]
pub struct VariableType {
    pub plain: TypeLabel,
    /// The type with its type arguments named.
    pub named: TypeLabel,
    /// The members of the scope the variable is in.
    pub members: Vec<ScopeMember>,
    /// What it takes to import symbols there.
    pub imports: Vec<ImportAnswer>,
}

/// An argument inferred for a type parameter of a generic call.
#[derive(Debug)]
pub struct TypeArgument {
    pub parameter: String,
    pub text: String,
    /// Whether nothing is known of the argument.
    pub is_unknown: bool,
    pub target: Option<NavigationTarget>,
}

/// An argument a call site fills from a `context` declaration.
#[derive(Debug)]
pub struct ContextArgument {
    pub parameter: String,
    pub variable: String,
    pub declaration: Option<NavigationTarget>,
}

/// The parameter an argument fills.
#[derive(Debug)]
pub struct ArgumentName {
    pub name: String,
    pub target: Option<NavigationTarget>,
}

/// What is known of a call.
#[derive(Debug)]
pub struct CallFacts {
    /// Whether it calls `reveal_type`.
    pub reveals_type: bool,
    pub type_arguments: Vec<TypeArgument>,
    /// The parameters the positional arguments fill, by their index among those.
    pub argument_names: Vec<(u32, ArgumentName)>,
    pub context_arguments: Vec<ContextArgument>,
}

/// A parameter no source spells.
#[derive(Debug)]
pub struct ImplicitParameter {
    pub name: String,
    pub ty: Option<String>,
}

/// What is known of a function.
#[derive(Debug)]
pub struct FunctionFacts {
    /// The exception set inferred for a function with no `raises` clause.
    pub raises: Option<String>,
    /// The return type recovered for a function that leaves its annotation out.
    pub returned: Option<String>,
    /// The type parameters reified by a use in the body.
    pub reified: Vec<String>,
    /// The parameters a trailing lambda binds.
    pub implicit_parameters: Vec<ImplicitParameter>,
}

/// That a method overrides a member of a superclass without saying so.
#[derive(Debug)]
pub struct OverrideAnswer {
    pub function: u32,
    /// The class the method is in.
    pub class: u32,
    pub superclass: Option<NavigationTarget>,
}

/// The value an enum member takes without the source writing one.
#[derive(Debug)]
pub struct EnumValue {
    pub class: u32,
    pub name: String,
    /// Not said where only the type of the value is known.
    pub value: Option<String>,
}

/// The arms numeric promotion adds to an expression beside other operands of a union.
#[derive(Debug)]
pub struct Promotion {
    pub expr: u32,
    /// The operands beside it whose type is known.
    pub siblings: Vec<u32>,
    pub arms: String,
}

/// The type a `reveal_type` reveals, and the wider one its place was declared with.
#[derive(Debug)]
pub struct Revealed {
    pub ty: String,
    pub declared: Option<String>,
}

#[derive(Debug)]
pub struct HintFacts {
    /// The types of the names and attributes that assignments bind.
    pub variables: Vec<(u32, VariableType)>,
    /// The expressions whose type is known, among the operands of unions.
    pub typed: Vec<u32>,
    pub promotions: Vec<Promotion>,
    pub functions: Vec<(u32, FunctionFacts)>,
    pub overrides: Vec<OverrideAnswer>,
    /// The classes whose type is known.
    pub classes: Vec<u32>,
    /// The variances inferred for type parameters.
    pub variances: Vec<(u32, Variance)>,
    pub enum_values: Vec<EnumValue>,
    pub calls: Vec<(u32, CallFacts)>,
    /// The names of the type parameters of what a subscript subscripts.
    pub type_parameters: Vec<(u32, Vec<String>)>,
    /// The expressions that are `Union` itself.
    pub unions: Vec<u32>,
    pub revealed: Vec<(u32, Revealed)>,
    /// The types of parameters that are worth a hint.
    pub parameter_types: Vec<(u32, String)>,
    /// The types parameters take from what their function overrides or implements.
    pub inherited_types: Vec<(u32, String)>,
}

} // verus!

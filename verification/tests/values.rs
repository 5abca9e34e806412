//! The parts of the library that work on plain values.

use rustc_hash::FxHashSet;

use ty_ide::edit::{Edit, File};
use ty_ide::inlay_hints::facts::{ContextArgument, ImplicitParameter, ImportAction, TypeArgument};
use ty_ide::inlay_hints::imports::DynamicImports;
use ty_ide::inlay_hints::matching::name_matches_parameter;
use ty_ide::inlay_hints::variable::qualified_symbol_text;
use ty_ide::inlay_hints::{
    InlayHint, InlayHintKind, InlayHintLabelPart, InlayHintSettings, Variance,
};
use ty_ide::module_name::ModuleName;
use ty_ide::module_rename::{
    module_rename_edits, renamed, rewritten_module_reference, FileMove, ModulePath, Project,
    ProjectFile, Renaming, SkipReason,
};
use ty_ide::navigation::NavigationTarget;
use ty_ide::node::{ExprContext, Field, Node, NodeKind};
use ty_ide::refactor::flow::{reaching_definitions, resolving_scope};
use ty_ide::refactor::names::{find_fresh_name, names_in_file, suggest_for_expression};
use ty_ide::refactor::RefactorKind;
use ty_ide::semantics::{
    Definition, DefinitionKind, DefinitionState, Scope, ScopeKind, ScopeNode, SemanticIndex,
    Symbol,
};
use ty_ide::source::{fits, get, spans, trim_range};
use ty_ide::strings::{comes_by, decimal_text, first_component, join_all, trim_leading, trim_trailing};
use ty_ide::text_size::TextRange;
use ty_ide::tokens::{first_token, first_token_any, token_at, token_before, Token, TokenKind};

fn at(start: u32, end: u32) -> TextRange {
    TextRange { start, end }
}

fn name(text: &str) -> ModuleName {
    ModuleName::new(text).expect("a module name")
}

fn node(id: u32, range: TextRange, field: Field, kind: NodeKind, children: Vec<Node>) -> Node {
    Node { id, range, outer: range, field, kind, children }
}

fn load(id: u32, text: &str, field: Field) -> Node {
    let kind = NodeKind::ExprName { id: text.to_string(), ctx: ExprContext::Load };
    node(id, at(id, id + text.len() as u32), field, kind, vec![])
}

// ---- text ----

#[test]
fn ranges_contain_meet_and_cover() {
    assert!(TextRange::empty(3).is_empty());
    assert!(at(2, 8).contains_range(at(2, 8)));
    assert!(!at(2, 8).contains_range(at(1, 3)));
    assert!(at(2, 8).contains_inclusive(8));
    assert!(!at(2, 8).contains_inclusive(9));
    assert_eq!(at(2, 8).intersect(at(5, 12)), Some(at(5, 8)));
    assert_eq!(at(2, 8).intersect(at(8, 12)), Some(at(8, 8)));
    assert_eq!(at(2, 8).intersect(at(9, 12)), None);
    assert_eq!(at(2, 4).cover(at(7, 9)), at(2, 9));
}

#[test]
fn white_space_is_trimmed_on_one_side() {
    assert_eq!(trim_trailing("  a b \t\u{a0}"), "  a b");
    assert_eq!(trim_leading("\u{3000} \na b "), "a b ");
    assert_eq!(trim_trailing(" \n"), "");
}

#[test]
fn texts_are_ordered_by_their_characters() {
    assert!(comes_by("a", "b"));
    assert!(comes_by("a", "a"));
    assert!(comes_by("a", "ab"));
    assert!(!comes_by("b", "ab"));
    assert!(comes_by("", "a"));
}

#[test]
fn texts_are_joined_and_taken_apart() {
    let names = vec!["a".to_string(), "b".to_string(), "c".to_string()];
    assert_eq!(join_all(&names, ", "), "a, b, c");
    assert_eq!(join_all(&vec![], ", "), "");
    assert_eq!(first_component("alpha.util"), "alpha");
    assert_eq!(first_component("alpha"), "alpha");
    assert_eq!(decimal_text(0), "0");
    assert_eq!(decimal_text(1203), "1203");
}

#[test]
fn a_source_is_cut_between_characters() {
    let source = "aé b";
    assert!(fits(source));
    assert_eq!(get(source, at(1, 3)), Some("é"));
    assert_eq!(get(source, at(1, 2)), None);
    assert_eq!(get(source, at(3, 9)), None);
    assert!(spans(source, at(3, 5)));
    assert!(!spans(source, at(2, 5)));
}

#[test]
fn a_selection_is_trimmed_of_the_white_space_around_it() {
    assert_eq!(trim_range("x =  a  \n", at(3, 8)), Some(at(5, 6)));
    assert_eq!(trim_range("x =   \n", at(3, 6)), None);
}

// ---- tokens ----

#[test]
fn tokens_are_found_by_where_they_are() {
    let token = |kind: TokenKind, start: u32, end: u32| Token { kind, range: at(start, end) };
    // if x:  # c
    let tokens = vec![
        token(TokenKind::If, 0, 2),
        token(TokenKind::Other, 3, 4),
        token(TokenKind::Colon, 4, 5),
        token(TokenKind::Comment, 7, 10),
        token(TokenKind::Newline, 10, 11),
    ];
    assert_eq!(first_token_any(&tokens, 1), Some(at(3, 4)));
    assert_eq!(token_at(&tokens, 3), Some(at(3, 4)));
    assert_eq!(token_at(&tokens, 2), None);
    assert_eq!(first_token(&tokens, 0, TokenKind::Colon), Some(at(4, 5)));
    assert_eq!(first_token(&tokens, 5, TokenKind::Colon), None);
    assert_eq!(token_before(&tokens, 10), Some(at(4, 5)));
    assert_eq!(token_before(&tokens, 0), None);
}

// ---- module names ----

#[test]
fn a_module_name_is_identifiers_between_dots() {
    assert!(ModuleName::new("alpha.util").is_some());
    assert!(ModuleName::new("").is_none());
    assert!(ModuleName::new("alpha..util").is_none());
    assert!(ModuleName::new("notes.md-old").is_none());
    assert_eq!(name("alpha.util").as_str(), "alpha.util");
    assert!(name("alpha").is(&name("alpha").copy()));
    assert!(!name("alpha").is(&name("beta")));
}

#[test]
fn a_module_name_is_taken_apart_and_put_together() {
    assert_eq!(name("a.b.c").parent().map(|name| name.as_str().to_string()), Some("a.b".to_string()));
    assert!(name("a").parent().is_none());
    assert_eq!(name("a.b.c").last_component(), "c");
    assert_eq!(name("a").extended_by(&name("b.c")).as_str(), "a.b.c");
    let rest = name("a.b.c").relative_to(&name("a"));
    assert_eq!(rest.map(|name| name.as_str().to_string()), Some("b.c".to_string()));
    assert!(name("a.b").relative_to(&name("a.b")).is_none());
    assert!(name("ab.c").relative_to(&name("a")).is_none());
}

#[test]
fn a_renaming_takes_what_is_inside_and_nothing_else() {
    let renaming = Renaming { old: name("alpha"), new: name("beta.gamma") };
    let applied = |module: &str| renaming.apply(&name(module)).map(|name| name.as_str().to_string());
    assert_eq!(applied("alpha"), Some("beta.gamma".to_string()));
    assert_eq!(applied("alpha.util.deep"), Some("beta.gamma.util.deep".to_string()));
    assert_eq!(applied("alphabet"), None);
    assert_eq!(applied("beta"), None);
    let renamings = vec![
        Renaming { old: name("x"), new: name("y") },
        Renaming { old: name("alpha.util"), new: name("z") },
    ];
    let found = renamed(&renamings, &name("alpha.util.deep"));
    assert_eq!(found.map(|name| name.as_str().to_string()), Some("z.deep".to_string()));
    assert!(renamed(&renamings, &name("alpha")).is_none());
}

#[test]
fn a_reference_keeps_its_dots_as_long_as_they_reach() {
    let bases = vec![(1, name("alpha"))];
    let renamings = vec![Renaming { old: name("alpha.util"), new: name("alpha.helpers") }];
    let rewritten = |module: &str, level: u32, new_from: &str| {
        let module = Some(module.to_string());
        rewritten_module_reference(&bases, &renamings, &module, at(6, 10), level, &name(new_from))
            .map(|edit| edit.map(|edit| (edit.range, edit.content.unwrap_or_default())))
    };
    // `from .util import thing` in `alpha`
    assert_eq!(rewritten("util", 1, "alpha.helpers"), Ok(Some((at(6, 10), "helpers".to_string()))));
    assert_eq!(rewritten("util", 1, "beta.util"), Err(SkipReason::NoLongerRelative));
    // `from alpha.util import thing`
    let whole = Ok(Some((at(6, 10), "alpha.helpers".to_string())));
    assert_eq!(rewritten("alpha.util", 0, "alpha.helpers"), whole);
    // the package itself is renamed, and the dots reach it as they did
    let renamings = vec![Renaming { old: name("alpha"), new: name("beta") }];
    let module = Some("util".to_string());
    let kept = rewritten_module_reference(&bases, &renamings, &module, at(6, 10), 1, &name("beta.util"));
    assert!(matches!(kept, Ok(None)));
}

fn project_of(source_names: &[&str], names: Vec<ModulePath>) -> Project {
    let files = source_names
        .iter()
        .enumerate()
        .map(|(position, path)| ProjectFile {
            file: File { index: position as u32 },
            path: path.to_string(),
            suite: node(0, at(0, 0), Field::Body, NodeKind::Suite, vec![]),
            bases: vec![],
            modules: vec![],
        })
        .collect();
    Project { files, names }
}

#[test]
fn moves_that_rename_nothing_cost_nothing() {
    let project = project_of(&["/main.py"], vec![]);
    let moves = vec![FileMove { old_path: "/a.md".to_string(), new_path: "/b.md".to_string() }];
    let result = module_rename_edits(&project, &moves);
    assert!(result.edits.is_empty());
    assert!(result.skipped.is_empty());
}

#[test]
fn a_module_moved_under_another_parent_skips_the_import() {
    // `from alpha import util`
    let alias = node(
        3,
        at(18, 22),
        Field::Name,
        NodeKind::Alias { name: "util".to_string(), name_range: at(18, 22), asname: None },
        vec![],
    );
    let import = node(
        2,
        at(0, 22),
        Field::Statement,
        NodeKind::StmtImportFrom {
            module: Some("alpha".to_string()),
            module_range: at(5, 10),
            level: 0,
        },
        vec![alias],
    );
    let mut project = project_of(
        &["/main.py"],
        vec![
            ModulePath { path: "/alpha/util.py".to_string(), name: name("alpha.util") },
            ModulePath { path: "/beta/util.py".to_string(), name: name("beta.util") },
        ],
    );
    project.files[0].suite = node(1, at(0, 22), Field::Body, NodeKind::Suite, vec![import]);
    let moves = vec![FileMove {
        old_path: "/alpha/util.py".to_string(),
        new_path: "/beta/util.py".to_string(),
    }];
    let result = module_rename_edits(&project, &moves);
    assert!(result.edits.is_empty());
    assert_eq!(result.skipped.len(), 1);
    assert_eq!(format!("{:?}", result.skipped[0].reason), "NeedsDifferentStatement");
    assert_eq!(result.skipped[0].range, at(18, 22));
}

#[test]
fn a_relative_import_out_of_reach_is_skipped() {
    // `from .util import x` in `alpha.main`, where `alpha.util` moves to `beta.util`
    let alias = node(
        3,
        at(18, 19),
        Field::Name,
        NodeKind::Alias { name: "x".to_string(), name_range: at(18, 19), asname: None },
        vec![],
    );
    let import = node(
        2,
        at(0, 19),
        Field::Statement,
        NodeKind::StmtImportFrom {
            module: Some("util".to_string()),
            module_range: at(6, 10),
            level: 1,
        },
        vec![alias],
    );
    let mut project = project_of(
        &["/alpha/main.py"],
        vec![
            ModulePath { path: "/alpha/util.py".to_string(), name: name("alpha.util") },
            ModulePath { path: "/beta/util.py".to_string(), name: name("beta.util") },
        ],
    );
    project.files[0].suite = node(1, at(0, 19), Field::Body, NodeKind::Suite, vec![import]);
    project.files[0].bases = vec![(1, name("alpha"))];
    let moves = vec![FileMove {
        old_path: "/alpha/util.py".to_string(),
        new_path: "/beta/util.py".to_string(),
    }];
    let result = module_rename_edits(&project, &moves);
    assert!(result.edits.is_empty());
    assert_eq!(result.skipped.len(), 1);
    assert_eq!(format!("{:?}", result.skipped[0].reason), "NoLongerRelative");
}

// ---- refactorings ----

#[test]
fn every_refactoring_has_an_id_of_its_own() {
    let kinds = RefactorKind::all();
    assert_eq!(kinds.len(), 7);
    for kind in &kinds {
        assert_eq!(RefactorKind::from_id(kind.id()), Some(*kind));
    }
    assert_eq!(RefactorKind::InlineVariable.id(), "inline-variable");
    assert_eq!(RefactorKind::from_id("inline"), None);
    assert_eq!(RefactorKind::InlineVariable.code_action_kind(), "refactor.inline.variable");
    assert_eq!(RefactorKind::ExtractFunction.code_action_kind(), "refactor.extract.function");
    assert_eq!(RefactorKind::ConvertToDataClass.code_action_kind(), "refactor.rewrite.toDataClass");
}

fn set_of(names: &[&str]) -> FxHashSet<String> {
    names.iter().map(|name| name.to_string()).collect()
}

#[test]
fn a_fresh_name_has_the_smallest_suffix_that_is_free() {
    let fresh = |base: &str, taken: &[&str]| find_fresh_name(base, &set_of(taken));
    assert_eq!(fresh("value", &[]), Some("value".to_string()));
    assert_eq!(fresh("value", &["value"]), Some("value_1".to_string()));
    assert_eq!(fresh("value", &["value", "value_1", "value_2"]), Some("value_3".to_string()));
    assert_eq!(fresh("value", &["value", "value_2"]), Some("value_1".to_string()));
    // a keyword of python, or a word of basedpython, is no name
    assert_eq!(fresh("class", &[]), Some("class_1".to_string()));
    assert_eq!(fresh("data", &[]), Some("data_1".to_string()));
    // no suffix makes a mangled name usable
    assert_eq!(fresh("__x", &[]), None);
    assert_eq!(fresh("1x", &[]), None);
}

fn call(id: u32, func: Node) -> Node {
    let arguments = node(id + 1, at(90, 92), Field::Arguments, NodeKind::Arguments, vec![]);
    let kind = NodeKind::ExprCall { is_cast: false, is_string_tag: false };
    node(id, at(0, 92), Field::Value, kind, vec![func, arguments])
}

fn attribute(id: u32, attr: &str) -> Node {
    let kind = NodeKind::ExprAttribute {
        attr: attr.to_string(),
        ctx: ExprContext::Load,
        optional: false,
    };
    node(id, at(0, 20), Field::Func, kind, vec![load(id + 1, "x", Field::Value)])
}

#[test]
fn a_name_is_suggested_by_what_is_called() {
    let suggested = |expr: Node| suggest_for_expression(&expr, 13);
    assert_eq!(suggested(call(1, attribute(5, "get_name"))), "name");
    assert_eq!(suggested(call(1, attribute(5, "lastHTTPServer"))), "last_httpserver");
    assert_eq!(suggested(call(1, load(5, "readLine", Field::Func))), "read_line");
    // `len` would hide a builtin
    assert_eq!(suggested(call(1, load(5, "len", Field::Func))), "value");
    assert_eq!(suggested(node(1, at(0, 1), Field::Value, NodeKind::ExprNumberLiteral, vec![])), "number");
    assert_eq!(suggested(node(1, at(0, 2), Field::Value, NodeKind::ExprDict, vec![])), "mapping");
    let awaited = node(9, at(0, 95), Field::Value, NodeKind::ExprAwait, vec![call(1, attribute(5, "get_name"))]);
    assert_eq!(suggested(awaited), "name");
}

/// A module that binds `x` twice, around a loop, and a function in it that reads it.
fn small_index() -> SemanticIndex {
    let symbol = |name: &str, is_bound: bool| Symbol {
        name: name.to_string(),
        is_global: false,
        is_nonlocal: false,
        is_local: is_bound,
        is_bound,
        is_declared: false,
    };
    let definition = |kind: DefinitionKind, start: u32, loop_bindings: Vec<DefinitionState>| Definition {
        symbol: Some(0),
        kind,
        is_binding: true,
        target_range: at(start, start + 1),
        full_range: at(start, start + 5),
        loop_bindings,
    };
    let assigned = DefinitionKind::Assignment { is_sole_target: true, is_unpacked: false };
    let module = Scope {
        kind: ScopeKind::Module,
        node: ScopeNode::Module,
        parent: None,
        is_method: false,
        visible_ancestors: vec![0],
        children: vec![1],
        symbols: vec![symbol("x", true)],
        definitions: vec![0, 1, 2],
        uses: vec![
            (40, vec![DefinitionState::Defined(0)]),
            (41, vec![DefinitionState::Defined(0), DefinitionState::Defined(1)]),
            (42, vec![DefinitionState::Undefined, DefinitionState::Defined(0)]),
        ],
    };
    let function = Scope {
        kind: ScopeKind::Function,
        node: ScopeNode::Function(7),
        parent: Some(0),
        is_method: false,
        visible_ancestors: vec![1, 0],
        children: vec![],
        symbols: vec![symbol("x", false), symbol("y", true)],
        definitions: vec![],
        uses: vec![],
    };
    SemanticIndex {
        scopes: vec![module, function],
        definitions: vec![
            definition(assigned, 0, vec![]),
            definition(DefinitionKind::LoopHeader, 10, vec![DefinitionState::Defined(2)]),
            definition(assigned, 20, vec![]),
        ],
        expression_scopes: vec![(40, 0)],
    }
}

#[test]
fn a_read_after_a_loop_sees_what_flows_back() {
    let index = small_index();
    assert!(index.is_wf());
    let one = reaching_definitions(&index, 0, 40);
    assert!(one.is_exactly(0));
    let mut both = reaching_definitions(&index, 0, 41);
    both.definitions.sort();
    assert_eq!(both.definitions, vec![0, 2]);
    assert!(!both.maybe_unbound);
    assert!(!both.is_exactly(0));
    let unsure = reaching_definitions(&index, 0, 42);
    assert!(unsure.maybe_unbound);
    assert!(!unsure.is_exactly(0));
}

#[test]
fn a_name_resolves_to_the_nearest_scope_that_binds_it() {
    let index = small_index();
    assert_eq!(resolving_scope(&index, 1, "x"), Some(0));
    assert_eq!(resolving_scope(&index, 1, "y"), Some(1));
    assert_eq!(resolving_scope(&index, 1, "z"), None);
    let names = names_in_file(&index);
    assert!(names.contains("x") && names.contains("y"));
    assert_eq!(names.len(), 2);
}

#[test]
fn an_index_that_points_outside_itself_is_not_well_formed() {
    let mut index = small_index();
    index.scopes[0].definitions.push(9);
    assert!(!index.is_wf());
    let mut index = small_index();
    index.scopes[1].children.push(0);
    assert!(!index.is_wf());
    let mut index = small_index();
    index.expression_scopes.push((50, 7));
    assert!(!index.is_wf());
    let mut index = small_index();
    index.definitions[1].loop_bindings.push(DefinitionState::Defined(3));
    assert!(!index.is_wf());
}

// ---- hints ----

#[test]
fn settings_are_all_on_by_default_and_all_off_without() {
    assert!(InlayHintSettings::default().any_enabled());
    assert!(!InlayHintSettings::none().any_enabled());
    let one = InlayHintSettings { enum_values: true, ..InlayHintSettings::none() };
    assert!(one.any_enabled());
    assert!(InlayHintSettings::default().variable_types);
    assert!(InlayHintSettings::default().revealed_types);
}

#[test]
fn a_label_part_holds_its_text_and_its_target() {
    let place = NavigationTarget { file: File { index: 3 }, focus_range: at(1, 2), full_range: at(0, 5) };
    let part = InlayHintLabelPart::new("int").with_target(Some(place));
    assert_eq!(part.text(), "int");
    assert_eq!(part.target(), Some(&place));
    assert_eq!(part.into_text(), "int");
    assert_eq!(InlayHintLabelPart::default().text(), "");
    assert_eq!(InlayHintLabelPart::from("x".to_string()).text(), "x");
    assert_eq!(InlayHintLabelPart::from("x").text(), "x");
    assert!(InlayHintLabelPart::from("x").target().is_none());
}

#[test]
fn hints_are_drawn_with_their_padding() {
    let drawn = |hint: InlayHint| hint.display().text();
    assert_eq!(drawn(InlayHint::inferred_raises(4, "TypeError")), " raises TypeError");
    assert_eq!(drawn(InlayHint::inferred_return(4, "int")), " -> int");
    assert_eq!(drawn(InlayHint::inferred_variance(4, Variance::Covariant)), "out ");
    assert_eq!(drawn(InlayHint::inferred_variance(4, Variance::Contravariant)), "in ");
    assert_eq!(drawn(InlayHint::inferred_variance(4, Variance::Invariant)), "in out ");
    assert_eq!(drawn(InlayHint::inferred_reification(4)), "reified ");
    assert_eq!(drawn(InlayHint::inferred_override(4, None)), "override ");
    assert_eq!(drawn(InlayHint::type_argument_name(4, "Key")), "Key=");
    assert_eq!(drawn(InlayHint::numeric_promotion(4, "| int")), " | int");
    assert_eq!(drawn(InlayHint::enum_member_value(4, "1")), " 1");
    assert_eq!(drawn(InlayHint::parameter_type(4, "int")), ": int");
    assert_eq!(drawn(InlayHint::revealed_type(4, "int", &None)), " int");
    let narrowed = InlayHint::revealed_type(4, "int", &Some("int | str".to_string()));
    assert_eq!(drawn(narrowed), " int, narrowed from int | str");
}

#[test]
fn a_call_argument_name_can_be_written_where_an_edit_may() {
    let hint = InlayHint::call_argument_name(7, "x", None, true);
    assert_eq!(hint.kind, InlayHintKind::CallArgumentName);
    assert_eq!(hint.display().text(), "x=");
    assert_eq!(hint.text_edits.len(), 1);
    assert_eq!(hint.text_edits[0].range, at(7, 7));
    assert_eq!(hint.text_edits[0].new_text, "x=");
    assert!(InlayHint::call_argument_name(7, "x", None, false).text_edits.is_empty());
}

#[test]
fn type_arguments_are_named_when_there_are_several() {
    let argument = |parameter: &str, text: &str| TypeArgument {
        parameter: parameter.to_string(),
        text: text.to_string(),
        is_unknown: false,
        target: None,
    };
    let pair = vec![argument("Key", "int"), argument("Value", "str")];
    assert_eq!(InlayHint::call_type_arguments(4, &pair, true).display().text(), "[Key=int, Value=str]");
    assert_eq!(InlayHint::call_type_arguments(4, &pair, false).display().text(), "[int, str]");
    let one = vec![argument("Element", "int")];
    assert_eq!(InlayHint::call_type_arguments(4, &one, true).display().text(), "[int]");
}

#[test]
fn implicit_arguments_follow_the_written_ones() {
    let filled = |parameter: &str, variable: &str| ContextArgument {
        parameter: parameter.to_string(),
        variable: variable.to_string(),
        declaration: None,
    };
    let both = vec![filled("a", "b"), filled("c", "d")];
    assert_eq!(InlayHint::implicit_context_arguments(4, true, &both).display().text(), ", a=b, c=d");
    assert_eq!(InlayHint::implicit_context_arguments(4, false, &both).display().text(), "a=b, c=d");
}

#[test]
fn implicit_parameters_are_spaced_from_what_is_written() {
    let bound = vec![
        ImplicitParameter { name: "self".to_string(), ty: Some("str".to_string()) },
        ImplicitParameter { name: "it".to_string(), ty: None },
    ];
    assert_eq!(InlayHint::implicit_parameters(4, &bound, true, false).display().text(), " self: str, it");
    assert_eq!(InlayHint::implicit_parameters(4, &bound, false, true).display().text(), "self: str, it, ");
}

#[test]
fn an_argument_name_repeats_a_parameter_name_whatever_its_case() {
    assert!(name_matches_parameter("URL", "url"));
    assert!(name_matches_parameter("ÉTAT", "état"));
    assert!(name_matches_parameter("base_url", "url"));
    assert!(name_matches_parameter("url_base", "url"));
    assert!(name_matches_parameter("url", "_url_"));
    assert!(!name_matches_parameter("curl", "url"));
    assert!(!name_matches_parameter("ur", "url"));
}

#[test]
fn a_symbol_is_imported_once() {
    let action = |text: &str| ImportAction {
        import: Some(Edit::insertion("from foo import A\n".to_string(), 0)),
        symbol_text: text.to_string(),
    };
    let imports = DynamicImports::new();
    assert!(imports.get("foo", "A").is_none());
    let imports = imports.with("foo", "A", action("A")).with("bar", "A", action("bar.A"));
    let text = |module: &str, name: &str| imports.get(module, name).map(|action| action.symbol_text.clone());
    assert_eq!(text("foo", "A"), Some("A".to_string()));
    assert_eq!(text("bar", "A"), Some("bar.A".to_string()));
    assert_eq!(text("foo", "B"), None);
}

#[test]
fn a_symbol_that_is_not_imported_by_its_name_is_qualified() {
    let imported = ImportAction {
        import: Some(Edit::insertion("from foo import A\n".to_string(), 0)),
        symbol_text: "A".to_string(),
    };
    assert_eq!(qualified_symbol_text(&imported), None);
    let qualified = ImportAction {
        import: Some(Edit::insertion("import foo\n".to_string(), 0)),
        symbol_text: "foo.A".to_string(),
    };
    assert_eq!(qualified_symbol_text(&qualified), Some("foo.A"));
    let reached = ImportAction { import: None, symbol_text: "foo.A".to_string() };
    assert_eq!(qualified_symbol_text(&reached), Some("foo.A"));
}

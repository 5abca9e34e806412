//! The library on python sources: each is parsed, turned into the library's tree and asked about.

use ruff_python_ast::token::{parenthesized_range, TokenKind as AstTokenKind, Tokens};
use ruff_python_ast::{
    self as ast, AnyNodeRef, ArgOrKeyword, Expr, ExprRef, InterpolatedStringElement, Pattern,
    PySourceType, Stmt, StringFlags as _,
};
use ruff_python_parser::parse_unchecked_source;
use ruff_python_trivia::textwrap::dedent;
use ruff_text_size::Ranged;
use std::collections::{BTreeMap, BTreeSet};

use ty_ide::edit::{Edit, File};
use ty_ide::inlay_hints::facts::{
    ArgumentName, CallFacts, ContextArgument, DefiningModule, EnumValue, FunctionFacts, HintFacts,
    ImplicitParameter, ImportAction, ImportAnswer, LabelSpan, NamedType, OverrideAnswer, Promotion,
    Revealed, ScopeMember, TypeArgument, TypeDefinition, TypeDetail, TypeLabel, VariableType,
};
use ty_ide::inlay_hints::visitor::{inlay_hints, HintedFile};
use ty_ide::inlay_hints::{InlayHintKind, InlayHintSettings, Variance};
use ty_ide::module_name::ModuleName;
use ty_ide::module_rename::{module_rename_edits, FileMove, ModulePath, Project, ProjectFile};
use ty_ide::navigation::NavigationTarget;
use ty_ide::node::{ExprContext, Field, Node, NodeKind, Operator, StringFlags, UnaryOp};
use ty_ide::refactor::context::RefactorContext;
use ty_ide::refactor::names::{suggest_for_expression, to_snake_case};
use ty_ide::refactor::{refactor, refactors, RefactorKind};
use ty_ide::refactor::style::{are_tokens_of, Style};
use ty_ide::refactor::text::leading_comments_start;
use ty_ide::semantics::{
    CheckerFacts, Definition, DefinitionKind, DefinitionState, ReturnAnnotation, Scope, ScopeKind,
    ScopeNode, SemanticIndex, Symbol,
};
use ty_ide::syntax_outline::keywords::{keyword_at, keyword_family};
use ty_ide::syntax_outline::literals::escapes_in;
use ty_ide::syntax_outline::{syntax_outline, OutlineStatement, ParsedFile};
use ty_ide::text_size::TextRange;
use ty_ide::tokens::{Token, TokenKind};

// ---- the syntax tree of a source, read by the parser ----

/// A module as the library reads it.
struct Tree {
    /// The module, whose statements are the suite filling its body.
    module: Node,
    tokens: Vec<Token>,
    has_invalid_syntax: bool,
}

fn parse(source: &str) -> Tree {
    let parsed = parse_unchecked_source(source, PySourceType::Python);
    let mut converter = Converter {
        tokens: parsed.tokens(),
        next_id: 0,
    };
    let module = parsed.syntax();
    let end = u32::try_from(source.len()).unwrap_or(u32::MAX);
    let suite = converter.suite(
        &module.body,
        Field::Body,
        AnyNodeRef::from(module),
        TextRange { start: 0, end },
    );
    let module = converter.node(
        TextRange { start: 0, end },
        Field::Other,
        NodeKind::Module,
        vec![suite],
    );
    Tree {
        module,
        tokens: parsed.tokens().iter().map(token).collect(),
        has_invalid_syntax: parsed.has_invalid_syntax(),
    }
}

fn range(range: ruff_text_size::TextRange) -> TextRange {
    TextRange {
        start: u32::from(range.start()),
        end: u32::from(range.end()),
    }
}

fn token(token: &ast::token::Token) -> Token {
    let kind = match token.kind() {
        AstTokenKind::If => TokenKind::If,
        AstTokenKind::Elif => TokenKind::Elif,
        AstTokenKind::Else => TokenKind::Else,
        AstTokenKind::For => TokenKind::For,
        AstTokenKind::While => TokenKind::While,
        AstTokenKind::Try => TokenKind::Try,
        AstTokenKind::Except => TokenKind::Except,
        AstTokenKind::Finally => TokenKind::Finally,
        AstTokenKind::Match => TokenKind::Match,
        AstTokenKind::Case => TokenKind::Case,
        AstTokenKind::Def => TokenKind::Def,
        AstTokenKind::Class => TokenKind::Class,
        AstTokenKind::With => TokenKind::With,
        AstTokenKind::Return => TokenKind::Return,
        AstTokenKind::Raise => TokenKind::Raise,
        AstTokenKind::Break => TokenKind::Break,
        AstTokenKind::Continue => TokenKind::Continue,
        AstTokenKind::Lpar => TokenKind::Lpar,
        AstTokenKind::Rpar => TokenKind::Rpar,
        AstTokenKind::Lsqb => TokenKind::Lsqb,
        AstTokenKind::Rsqb => TokenKind::Rsqb,
        AstTokenKind::Lbrace => TokenKind::Lbrace,
        AstTokenKind::Rbrace => TokenKind::Rbrace,
        AstTokenKind::Colon => TokenKind::Colon,
        AstTokenKind::Newline => TokenKind::Newline,
        AstTokenKind::NonLogicalNewline => TokenKind::NonLogicalNewline,
        AstTokenKind::Indent => TokenKind::Indent,
        AstTokenKind::Dedent => TokenKind::Dedent,
        AstTokenKind::Comment => TokenKind::Comment,
        _ => TokenKind::Other,
    };
    Token {
        kind,
        range: range(token.range()),
    }
}

fn context(ctx: ast::ExprContext) -> ExprContext {
    match ctx {
        ast::ExprContext::Load => ExprContext::Load,
        ast::ExprContext::Store => ExprContext::Store,
        ast::ExprContext::Del => ExprContext::Del,
        ast::ExprContext::Invalid => ExprContext::Invalid,
    }
}

fn flags(flags: ast::AnyStringFlags) -> StringFlags {
    StringFlags {
        triple_quoted: flags.is_triple_quoted(),
        unclosed: flags.is_unclosed(),
        bytes: flags.is_byte_string(),
        raw: flags.prefix().is_raw(),
    }
}

struct Converter<'t> {
    tokens: &'t Tokens,
    next_id: u32,
}

impl Converter<'_> {
    fn node(&mut self, range: TextRange, field: Field, kind: NodeKind, children: Vec<Node>) -> Node {
        let id = self.next_id;
        self.next_id += 1;
        Node {
            id,
            range,
            outer: range,
            field,
            kind,
            children,
        }
    }

    /// The statements `body`, or an empty suite at the end of `around`.
    fn suite(
        &mut self,
        body: &[Stmt],
        field: Field,
        parent: AnyNodeRef<'_>,
        around: TextRange,
    ) -> Node {
        let children: Vec<Node> = body
            .iter()
            .map(|stmt| self.stmt(stmt, Field::Statement, parent))
            .collect();
        let covered = match (children.first(), children.last()) {
            (Some(first), Some(last)) => TextRange {
                start: first.range.start,
                end: last.range.end,
            },
            _ => TextRange {
                start: around.end,
                end: around.end,
            },
        };
        self.node(covered, field, NodeKind::Suite, children)
    }

    fn suite_if_any(
        &mut self,
        children: &mut Vec<Node>,
        body: &[Stmt],
        field: Field,
        parent: AnyNodeRef<'_>,
        around: TextRange,
    ) {
        if !body.is_empty() {
            let suite = self.suite(body, field, parent, around);
            children.push(suite);
        }
    }

    fn exprs(
        &mut self,
        children: &mut Vec<Node>,
        exprs: &[Expr],
        field: Field,
        parent: AnyNodeRef<'_>,
    ) {
        for expr in exprs {
            let node = self.expr(expr, field, parent);
            children.push(node);
        }
    }

    fn expr_if_any(
        &mut self,
        children: &mut Vec<Node>,
        expr: Option<&Expr>,
        field: Field,
        parent: AnyNodeRef<'_>,
    ) {
        if let Some(expr) = expr {
            let node = self.expr(expr, field, parent);
            children.push(node);
        }
    }

    fn decorators(
        &mut self,
        children: &mut Vec<Node>,
        decorators: &[ast::Decorator],
    ) {
        for decorator in decorators {
            let expression = self.expr(
                &decorator.expression,
                Field::Expression,
                AnyNodeRef::from(decorator),
            );
            let node = self.node(
                range(decorator.range()),
                Field::Decorator,
                NodeKind::Decorator,
                vec![expression],
            );
            children.push(node);
        }
    }

    fn aliases(&mut self, children: &mut Vec<Node>, names: &[ast::Alias]) {
        for alias in names {
            let node = self.node(
                range(alias.range()),
                Field::Name,
                NodeKind::Alias {
                    name: alias.name.to_string(),
                    name_range: range(alias.name.range()),
                    asname: alias.asname.as_ref().map(ToString::to_string),
                },
                Vec::new(),
            );
            children.push(node);
        }
    }

    fn type_params(&mut self, children: &mut Vec<Node>, type_params: Option<&ast::TypeParams>) {
        let Some(type_params) = type_params else {
            return;
        };
        let mut params = Vec::new();
        for type_param in &type_params.type_params {
            let parent = AnyNodeRef::from(type_param);
            let mut parts = Vec::new();
            if let ast::TypeParam::TypeVar(type_var) = type_param {
                self.expr_if_any(&mut parts, type_var.bound.as_deref(), Field::Other, parent);
            }
            self.expr_if_any(&mut parts, type_param.default(), Field::Default, parent);
            let node = self.node(
                range(type_param.range()),
                Field::TypeParam,
                NodeKind::TypeParam {
                    name: type_param.name().to_string(),
                    has_variance: false,
                },
                parts,
            );
            params.push(node);
        }
        let node = self.node(
            range(type_params.range()),
            Field::TypeParams,
            NodeKind::TypeParams,
            params,
        );
        children.push(node);
    }

    fn parameter(
        &mut self,
        parameter: &ast::Parameter,
        default: Option<&Expr>,
        whole: AnyNodeRef<'_>,
        field: Field,
    ) -> Node {
        let parent = AnyNodeRef::from(parameter);
        let mut parts = Vec::new();
        self.expr_if_any(&mut parts, parameter.annotation(), Field::Annotation, parent);
        self.expr_if_any(&mut parts, default, Field::Default, whole);
        self.node(
            range(whole.range()),
            field,
            NodeKind::Parameter {
                name: parameter.name.to_string(),
                name_range: range(parameter.name.range()),
            },
            parts,
        )
    }

    fn parameters(&mut self, parameters: &ast::Parameters) -> Node {
        let mut children = Vec::new();
        for parameter in parameters.iter_source_order() {
            let node = match parameter {
                ast::AnyParameterRef::NonVariadic(with_default) => {
                    let field = if parameters
                        .posonlyargs
                        .iter()
                        .any(|other| other.range() == with_default.range())
                    {
                        Field::PositionalOnly
                    } else if parameters
                        .args
                        .iter()
                        .any(|other| other.range() == with_default.range())
                    {
                        Field::Parameter
                    } else {
                        Field::Other
                    };
                    self.parameter(
                        &with_default.parameter,
                        with_default.default.as_deref(),
                        AnyNodeRef::from(with_default),
                        field,
                    )
                }
                ast::AnyParameterRef::Variadic(parameter) => {
                    self.parameter(parameter, None, AnyNodeRef::from(parameter), Field::Other)
                }
            };
            children.push(node);
        }
        self.node(
            range(parameters.range()),
            Field::Parameters,
            NodeKind::Parameters,
            children,
        )
    }

    fn arguments(&mut self, arguments: &ast::Arguments) -> Node {
        let parent = AnyNodeRef::from(arguments);
        let mut children = Vec::new();
        for argument in arguments.iter_source_order() {
            let node = match argument {
                ArgOrKeyword::Arg(expr) => self.expr(expr, Field::Arg, parent),
                ArgOrKeyword::Keyword(keyword) => {
                    let value =
                        self.expr(&keyword.value, Field::Value, AnyNodeRef::from(keyword));
                    self.node(
                        range(keyword.range()),
                        Field::Keyword,
                        NodeKind::Keyword,
                        vec![value],
                    )
                }
            };
            children.push(node);
        }
        self.node(
            range(arguments.range()),
            Field::Arguments,
            NodeKind::Arguments,
            children,
        )
    }

    fn pattern(&mut self, pattern: &Pattern, field: Field) -> Node {
        let parent = AnyNodeRef::from(pattern);
        let mut children = Vec::new();
        match pattern {
            Pattern::MatchValue(value) => {
                self.expr_if_any(&mut children, Some(&*value.value), Field::Value, parent);
            }
            Pattern::MatchSingleton(_) | Pattern::MatchStar(_) => {}
            Pattern::MatchSequence(sequence) => {
                for inner in &sequence.patterns {
                    let node = self.pattern(inner, Field::Pattern);
                    children.push(node);
                }
            }
            Pattern::MatchMapping(mapping) => {
                for (key, inner) in mapping.keys.iter().zip(&mapping.patterns) {
                    self.expr_if_any(&mut children, Some(key), Field::Key, parent);
                    let node = self.pattern(inner, Field::Pattern);
                    children.push(node);
                }
            }
            Pattern::MatchClass(class) => {
                self.expr_if_any(&mut children, Some(&*class.cls), Field::Func, parent);
                for inner in &class.arguments.patterns {
                    let node = self.pattern(inner, Field::Pattern);
                    children.push(node);
                }
                for keyword in &class.arguments.keywords {
                    let node = self.pattern(&keyword.pattern, Field::Pattern);
                    children.push(node);
                }
            }
            Pattern::MatchAs(inner) => {
                if let Some(inner) = &inner.pattern {
                    let node = self.pattern(inner, Field::Pattern);
                    children.push(node);
                }
            }
            Pattern::MatchOr(or) => {
                for inner in &or.patterns {
                    let node = self.pattern(inner, Field::Pattern);
                    children.push(node);
                }
            }
        }
        self.node(range(pattern.range()), field, NodeKind::Pattern, children)
    }

    fn stmt(&mut self, stmt: &Stmt, field: Field, _parent: AnyNodeRef<'_>) -> Node {
        let this = AnyNodeRef::from(stmt);
        let whole = range(stmt.range());
        let mut children = Vec::new();
        let kind = match stmt {
            Stmt::FunctionDef(function) => {
                self.decorators(&mut children, &function.decorator_list);
                self.type_params(&mut children, function.type_params.as_deref());
                let parameters = self.parameters(&function.parameters);
                children.push(parameters);
                self.expr_if_any(
                    &mut children,
                    function.returns.as_deref(),
                    Field::Returns,
                    this,
                );
                let body = self.suite(&function.body, Field::Body, this, whole);
                children.push(body);
                NodeKind::StmtFunctionDef {
                    name: function.name.to_string(),
                    name_range: range(function.name.range()),
                    is_async: function.is_async,
                    is_trailing_lambda: false,
                    is_asserts_return: false,
                    is_property_construct: false,
                }
            }
            Stmt::ClassDef(class) => {
                self.decorators(&mut children, &class.decorator_list);
                self.type_params(&mut children, class.type_params.as_deref());
                if let Some(arguments) = &class.arguments {
                    let arguments = self.arguments(arguments);
                    children.push(arguments);
                }
                let body = self.suite(&class.body, Field::Body, this, whole);
                children.push(body);
                NodeKind::StmtClassDef {
                    name: class.name.to_string(),
                    name_range: range(class.name.range()),
                    is_enum_variant: false,
                }
            }
            Stmt::Return(statement) => {
                self.expr_if_any(&mut children, statement.value.as_deref(), Field::Value, this);
                NodeKind::StmtReturn
            }
            Stmt::Delete(statement) => {
                self.exprs(&mut children, &statement.targets, Field::Target, this);
                NodeKind::StmtDelete
            }
            Stmt::TypeAlias(alias) => {
                self.expr_if_any(&mut children, Some(&*alias.name), Field::Name, this);
                self.type_params(&mut children, alias.type_params.as_deref());
                self.expr_if_any(&mut children, Some(&*alias.value), Field::Value, this);
                NodeKind::StmtTypeAlias
            }
            Stmt::Assign(assign) => {
                self.exprs(&mut children, &assign.targets, Field::Target, this);
                self.expr_if_any(&mut children, Some(&*assign.value), Field::Value, this);
                NodeKind::StmtAssign
            }
            Stmt::AugAssign(assign) => {
                self.expr_if_any(&mut children, Some(&*assign.target), Field::Target, this);
                self.expr_if_any(&mut children, Some(&*assign.value), Field::Value, this);
                NodeKind::StmtAugAssign
            }
            Stmt::AnnAssign(assign) => {
                self.expr_if_any(&mut children, Some(&*assign.target), Field::Target, this);
                self.expr_if_any(
                    &mut children,
                    Some(&*assign.annotation),
                    Field::Annotation,
                    this,
                );
                self.expr_if_any(&mut children, assign.value.as_deref(), Field::Value, this);
                NodeKind::StmtAnnAssign { is_context: false }
            }
            Stmt::For(statement) => {
                self.expr_if_any(&mut children, Some(&*statement.target), Field::Target, this);
                self.expr_if_any(&mut children, Some(&*statement.iter), Field::Iter, this);
                let body = self.suite(&statement.body, Field::Body, this, whole);
                children.push(body);
                self.suite_if_any(&mut children, &statement.orelse, Field::Orelse, this, whole);
                NodeKind::StmtFor {
                    is_async: statement.is_async,
                }
            }
            Stmt::While(statement) => {
                self.expr_if_any(&mut children, Some(&*statement.test), Field::Test, this);
                let body = self.suite(&statement.body, Field::Body, this, whole);
                children.push(body);
                self.suite_if_any(&mut children, &statement.orelse, Field::Orelse, this, whole);
                NodeKind::StmtWhile
            }
            Stmt::If(statement) => {
                self.expr_if_any(&mut children, Some(&*statement.test), Field::Test, this);
                let body = self.suite(&statement.body, Field::Body, this, whole);
                children.push(body);
                for clause in &statement.elif_else_clauses {
                    let parent = AnyNodeRef::from(clause);
                    let around = range(clause.range());
                    let mut parts = Vec::new();
                    self.expr_if_any(&mut parts, clause.test.as_ref(), Field::Test, parent);
                    let body = self.suite(&clause.body, Field::Body, parent, around);
                    parts.push(body);
                    let node =
                        self.node(around, Field::ElifElse, NodeKind::ElifElseClause, parts);
                    children.push(node);
                }
                NodeKind::StmtIf { has_pattern: false }
            }
            Stmt::With(statement) => {
                for item in &statement.items {
                    let parent = AnyNodeRef::from(item);
                    let mut parts = Vec::new();
                    self.expr_if_any(
                        &mut parts,
                        Some(&item.context_expr),
                        Field::ContextExpr,
                        parent,
                    );
                    self.expr_if_any(
                        &mut parts,
                        item.optional_vars.as_deref(),
                        Field::OptionalVars,
                        parent,
                    );
                    let node = self.node(
                        range(item.range()),
                        Field::Item,
                        NodeKind::WithItem,
                        parts,
                    );
                    children.push(node);
                }
                let body = self.suite(&statement.body, Field::Body, this, whole);
                children.push(body);
                NodeKind::StmtWith {
                    is_async: statement.is_async,
                }
            }
            Stmt::Match(statement) => {
                self.expr_if_any(&mut children, Some(&*statement.subject), Field::Subject, this);
                for case in &statement.cases {
                    let parent = AnyNodeRef::from(case);
                    let around = range(case.range());
                    let mut parts = Vec::new();
                    let pattern = self.pattern(&case.pattern, Field::Pattern);
                    parts.push(pattern);
                    self.expr_if_any(&mut parts, case.guard.as_deref(), Field::Guard, parent);
                    let body = self.suite(&case.body, Field::Body, parent, around);
                    parts.push(body);
                    let node = self.node(around, Field::Case, NodeKind::MatchCase, parts);
                    children.push(node);
                }
                NodeKind::StmtMatch
            }
            Stmt::Raise(statement) => {
                self.expr_if_any(&mut children, statement.exc.as_deref(), Field::Exc, this);
                self.expr_if_any(&mut children, statement.cause.as_deref(), Field::Cause, this);
                NodeKind::StmtRaise
            }
            Stmt::Try(statement) => {
                let body = self.suite(&statement.body, Field::Body, this, whole);
                children.push(body);
                for handler in &statement.handlers {
                    let ast::ExceptHandler::ExceptHandler(inner) = handler;
                    let parent = AnyNodeRef::from(handler);
                    let around = range(inner.range());
                    let mut parts = Vec::new();
                    self.expr_if_any(&mut parts, inner.type_.as_deref(), Field::Type, parent);
                    let body = self.suite(&inner.body, Field::Body, parent, around);
                    parts.push(body);
                    let node = self.node(
                        around,
                        Field::Handler,
                        NodeKind::ExceptHandler {
                            name_end: inner.name.as_ref().map(|name| u32::from(name.end())),
                        },
                        parts,
                    );
                    children.push(node);
                }
                self.suite_if_any(&mut children, &statement.orelse, Field::Orelse, this, whole);
                self.suite_if_any(
                    &mut children,
                    &statement.finalbody,
                    Field::Finalbody,
                    this,
                    whole,
                );
                NodeKind::StmtTry
            }
            Stmt::Assert(statement) => {
                self.expr_if_any(&mut children, Some(&*statement.test), Field::Test, this);
                self.expr_if_any(&mut children, statement.msg.as_deref(), Field::Msg, this);
                NodeKind::StmtAssert
            }
            Stmt::Import(import) => {
                self.aliases(&mut children, &import.names);
                NodeKind::StmtImport
            }
            Stmt::ImportFrom(import) => {
                self.aliases(&mut children, &import.names);
                NodeKind::StmtImportFrom {
                    module: import.module.as_ref().map(ToString::to_string),
                    module_range: import
                        .module
                        .as_ref()
                        .map_or(TextRange::empty(whole.start), |module| range(module.range())),
                    level: import.level,
                }
            }
            Stmt::Global(_) => NodeKind::StmtGlobal,
            Stmt::Nonlocal(_) => NodeKind::StmtNonlocal,
            Stmt::Expr(statement) => {
                self.expr_if_any(&mut children, Some(&*statement.value), Field::Value, this);
                NodeKind::StmtExpr
            }
            Stmt::Pass(_) => NodeKind::StmtPass,
            Stmt::Break(_) => NodeKind::StmtBreak { has_value: false },
            Stmt::Continue(_) => NodeKind::StmtContinue,
            Stmt::IpyEscapeCommand(_) => NodeKind::StmtIpyEscapeCommand,
        };
        self.node(whole, field, kind, children)
    }

    fn generators(&mut self, children: &mut Vec<Node>, generators: &[ast::Comprehension]) {
        for generator in generators {
            let parent = AnyNodeRef::from(generator);
            let mut parts = Vec::new();
            self.expr_if_any(&mut parts, Some(&generator.target), Field::Target, parent);
            self.expr_if_any(&mut parts, Some(&generator.iter), Field::Iter, parent);
            self.exprs(&mut parts, &generator.ifs, Field::Condition, parent);
            let node = self.node(
                range(generator.range()),
                Field::Generator,
                NodeKind::Comprehension {
                    is_async: generator.is_async,
                },
                parts,
            );
            children.push(node);
        }
    }

    fn elements(&mut self, elements: &ast::InterpolatedStringElements) -> Vec<Node> {
        let mut children = Vec::new();
        for element in elements {
            let node = match element {
                InterpolatedStringElement::Literal(literal) => self.node(
                    range(literal.range()),
                    Field::Element,
                    NodeKind::InterpolatedLiteral,
                    Vec::new(),
                ),
                InterpolatedStringElement::Interpolation(interpolation) => {
                    let parent = AnyNodeRef::from(interpolation);
                    let mut parts = Vec::new();
                    self.expr_if_any(
                        &mut parts,
                        Some(&*interpolation.expression),
                        Field::Expression,
                        parent,
                    );
                    if let Some(spec) = &interpolation.format_spec {
                        let inner = self.elements(&spec.elements);
                        let node = self.node(
                            range(spec.range()),
                            Field::FormatSpec,
                            NodeKind::FormatSpec,
                            inner,
                        );
                        parts.push(node);
                    }
                    self.node(
                        range(interpolation.range()),
                        Field::Element,
                        NodeKind::Interpolation,
                        parts,
                    )
                }
            };
            children.push(node);
        }
        children
    }

    fn string_part(&mut self, literal: &ast::StringLiteral) -> Node {
        self.node(
            range(literal.range()),
            Field::Part,
            NodeKind::StringPart {
                flags: flags(literal.flags.into()),
                content: range(literal.content_range()),
                dedent: None,
            },
            Vec::new(),
        )
    }

    fn f_string_part(&mut self, f_string: &ast::FString) -> Node {
        let elements = self.elements(&f_string.elements);
        self.node(
            range(f_string.range()),
            Field::Part,
            NodeKind::FStringPart {
                flags: flags(f_string.flags.into()),
                dedent: None,
            },
            elements,
        )
    }

    fn expr(&mut self, expr: &Expr, field: Field, parent: AnyNodeRef<'_>) -> Node {
        let this = AnyNodeRef::from(expr);
        let mut children = Vec::new();
        let kind = match expr {
            Expr::BoolOp(expr) => {
                self.exprs(&mut children, &expr.values, Field::Value, this);
                NodeKind::ExprBoolOp
            }
            Expr::Named(expr) => {
                self.expr_if_any(&mut children, Some(&*expr.target), Field::Target, this);
                self.expr_if_any(&mut children, Some(&*expr.value), Field::Value, this);
                NodeKind::ExprNamed
            }
            Expr::BinOp(expr) => {
                self.expr_if_any(&mut children, Some(&*expr.left), Field::Left, this);
                self.expr_if_any(&mut children, Some(&*expr.right), Field::Right, this);
                NodeKind::ExprBinOp {
                    op: if matches!(expr.op, ast::Operator::BitOr) {
                        Operator::BitOr
                    } else {
                        Operator::Other
                    },
                }
            }
            Expr::UnaryOp(expr) => {
                self.expr_if_any(&mut children, Some(&*expr.operand), Field::Operand, this);
                NodeKind::ExprUnaryOp {
                    op: match expr.op {
                        ast::UnaryOp::Invert => UnaryOp::Invert,
                        ast::UnaryOp::Not => UnaryOp::Not,
                        ast::UnaryOp::UAdd => UnaryOp::UAdd,
                        ast::UnaryOp::USub => UnaryOp::USub,
                    },
                }
            }
            Expr::Lambda(expr) => {
                if let Some(parameters) = &expr.parameters {
                    let parameters = self.parameters(parameters);
                    children.push(parameters);
                }
                self.expr_if_any(&mut children, Some(&*expr.body), Field::Body, this);
                NodeKind::ExprLambda
            }
            Expr::If(expr) => {
                self.expr_if_any(&mut children, Some(&*expr.body), Field::Body, this);
                self.expr_if_any(&mut children, Some(&*expr.test), Field::Test, this);
                self.expr_if_any(&mut children, Some(&*expr.orelse), Field::Orelse, this);
                NodeKind::ExprIf
            }
            Expr::Dict(expr) => {
                for item in &expr.items {
                    self.expr_if_any(&mut children, item.key.as_ref(), Field::Key, this);
                    self.expr_if_any(&mut children, Some(&item.value), Field::Value, this);
                }
                NodeKind::ExprDict
            }
            Expr::Set(expr) => {
                self.exprs(&mut children, &expr.elts, Field::Elt, this);
                NodeKind::ExprSet
            }
            Expr::ListComp(expr) => {
                self.expr_if_any(&mut children, Some(&*expr.elt), Field::Elt, this);
                self.generators(&mut children, &expr.generators);
                NodeKind::ExprListComp
            }
            Expr::SetComp(expr) => {
                self.expr_if_any(&mut children, Some(&*expr.elt), Field::Elt, this);
                self.generators(&mut children, &expr.generators);
                NodeKind::ExprSetComp
            }
            Expr::DictComp(expr) => {
                self.expr_if_any(&mut children, expr.key.as_deref(), Field::Key, this);
                self.expr_if_any(&mut children, Some(&*expr.value), Field::Value, this);
                self.generators(&mut children, &expr.generators);
                NodeKind::ExprDictComp
            }
            Expr::Generator(expr) => {
                self.expr_if_any(&mut children, Some(&*expr.elt), Field::Elt, this);
                self.generators(&mut children, &expr.generators);
                NodeKind::ExprGenerator {
                    parenthesized: expr.parenthesized,
                }
            }
            Expr::Await(expr) => {
                self.expr_if_any(&mut children, Some(&*expr.value), Field::Value, this);
                NodeKind::ExprAwait
            }
            Expr::Yield(expr) => {
                self.expr_if_any(&mut children, expr.value.as_deref(), Field::Value, this);
                NodeKind::ExprYield
            }
            Expr::YieldFrom(expr) => {
                self.expr_if_any(&mut children, Some(&*expr.value), Field::Value, this);
                NodeKind::ExprYieldFrom
            }
            Expr::Compare(expr) => {
                self.expr_if_any(&mut children, Some(&*expr.left), Field::Left, this);
                self.exprs(&mut children, &expr.comparators, Field::Comparator, this);
                NodeKind::ExprCompare
            }
            Expr::Call(expr) => {
                self.expr_if_any(&mut children, Some(&*expr.func), Field::Func, this);
                let arguments = self.arguments(&expr.arguments);
                children.push(arguments);
                NodeKind::ExprCall {
                    is_cast: false,
                    is_string_tag: false,
                }
            }
            Expr::FString(expr) => {
                for part in &expr.value {
                    let node = match part {
                        ast::FStringPart::Literal(literal) => self.string_part(literal),
                        ast::FStringPart::FString(f_string) => self.f_string_part(f_string),
                    };
                    children.push(node);
                }
                NodeKind::ExprFString {
                    implicit_concatenated: expr.value.is_implicit_concatenated(),
                }
            }
            Expr::TString(expr) => {
                for t_string in &expr.value {
                    let elements = self.elements(&t_string.elements);
                    let node = self.node(
                        range(t_string.range()),
                        Field::Part,
                        NodeKind::TStringPart {
                            flags: flags(t_string.flags.into()),
                            dedent: None,
                        },
                        elements,
                    );
                    children.push(node);
                }
                NodeKind::ExprTString {
                    implicit_concatenated: expr.value.is_implicit_concatenated(),
                }
            }
            Expr::StringLiteral(expr) => {
                for literal in &expr.value {
                    let node = self.string_part(literal);
                    children.push(node);
                }
                NodeKind::ExprStringLiteral {
                    implicit_concatenated: expr.value.is_implicit_concatenated(),
                }
            }
            Expr::BytesLiteral(expr) => {
                for literal in &expr.value {
                    let node = self.node(
                        range(literal.range()),
                        Field::Part,
                        NodeKind::BytesPart {
                            flags: flags(literal.flags.into()),
                            content: range(literal.content_range()),
                        },
                        Vec::new(),
                    );
                    children.push(node);
                }
                NodeKind::ExprBytesLiteral {
                    implicit_concatenated: expr.value.is_implicit_concatenated(),
                }
            }
            Expr::NumberLiteral(_) => NodeKind::ExprNumberLiteral,
            Expr::BooleanLiteral(_) => NodeKind::ExprBooleanLiteral,
            Expr::NoneLiteral(_) => NodeKind::ExprNoneLiteral,
            Expr::EllipsisLiteral(_) => NodeKind::ExprEllipsisLiteral,
            Expr::Attribute(expr) => {
                self.expr_if_any(&mut children, Some(&*expr.value), Field::Value, this);
                NodeKind::ExprAttribute {
                    attr: expr.attr.to_string(),
                    ctx: context(expr.ctx),
                    optional: false,
                }
            }
            Expr::Subscript(expr) => {
                self.expr_if_any(&mut children, Some(&*expr.value), Field::Value, this);
                self.expr_if_any(&mut children, Some(&*expr.slice), Field::Slice, this);
                NodeKind::ExprSubscript {
                    ctx: context(expr.ctx),
                    is_special: false,
                }
            }
            Expr::Starred(expr) => {
                self.expr_if_any(&mut children, Some(&*expr.value), Field::Value, this);
                NodeKind::ExprStarred
            }
            Expr::Name(name) => NodeKind::ExprName {
                id: name.id.to_string(),
                ctx: context(name.ctx),
            },
            Expr::List(expr) => {
                self.exprs(&mut children, &expr.elts, Field::Elt, this);
                NodeKind::ExprList {
                    ctx: context(expr.ctx),
                }
            }
            Expr::Tuple(expr) => {
                self.exprs(&mut children, &expr.elts, Field::Elt, this);
                NodeKind::ExprTuple {
                    ctx: context(expr.ctx),
                    parenthesized: expr.parenthesized,
                    is_special: false,
                }
            }
            Expr::Slice(expr) => {
                self.expr_if_any(&mut children, expr.lower.as_deref(), Field::Lower, this);
                self.expr_if_any(&mut children, expr.upper.as_deref(), Field::Upper, this);
                self.expr_if_any(&mut children, expr.step.as_deref(), Field::Step, this);
                NodeKind::ExprSlice
            }
            Expr::IpyEscapeCommand(_) => NodeKind::ExprIpyEscapeCommand,
        };
        let mut node = self.node(range(expr.range()), field, kind, children);
        if let Some(outer) = parenthesized_range(ExprRef::from(expr), parent, self.tokens) {
            node.outer = range(outer);
        }
        node
    }
}

// ---- basedpython, as python with its modifiers set aside ----

/// A modifier of a basedpython declaration: `text` is set aside before the source is parsed, and
/// the declaration it stands in front of gets it as a decorator.
#[derive(Clone, Copy)]
struct Modifier {
    /// The declaration's first words, which start with `text`.
    before: &'static str,
    /// What is set aside, with the white space behind it.
    text: &'static str,
    /// What the parser reads as the modifier, which starts where `text` does.
    covers: &'static str,
    name: &'static str,
}

/// Where a modifier was set aside.
struct Aside {
    /// In the source that is parsed.
    at: u32,
    length: u32,
    covered: u32,
    name: &'static str,
}

/// The tree of `source`, in which each of `modifiers` stands in the order they are given.
fn parse_based(source: &str, modifiers: &[Modifier]) -> Tree {
    let mut left = String::new();
    let mut asides: Vec<Aside> = Vec::new();
    let mut rest = source;
    for modifier in modifiers {
        let at = rest.find(modifier.before).expect("the modifier stands in the source");
        left.push_str(&rest[..at]);
        rest = &rest[at + modifier.text.len()..];
        asides.push(Aside {
            at: left.len() as u32,
            length: modifier.text.len() as u32,
            covered: modifier.covers.len() as u32,
            name: modifier.name,
        });
    }
    left.push_str(rest);
    let mut tree = parse(&left);
    let mut next_id = 1_000_000;
    put_back(&mut tree.module, &asides, &mut next_id);
    for token in &mut tree.tokens {
        token.range = TextRange {
            start: after(&asides, token.range.start),
            end: before(&asides, token.range.end),
        };
        if token.range.end < token.range.start {
            token.range.end = token.range.start;
        }
    }
    tree
}

/// Where what starts at `offset` of the parsed source stands in the source.
fn after(asides: &[Aside], offset: u32) -> u32 {
    offset + asides.iter().filter(|aside| aside.at <= offset).map(|aside| aside.length).sum::<u32>()
}

/// Where what ends at `offset` of the parsed source ends in the source.
fn before(asides: &[Aside], offset: u32) -> u32 {
    offset + asides.iter().filter(|aside| aside.at < offset).map(|aside| aside.length).sum::<u32>()
}

fn is_statement(kind: &NodeKind) -> bool {
    matches!(
        kind,
        NodeKind::Module
            | NodeKind::Suite
            | NodeKind::StmtFunctionDef { .. }
            | NodeKind::StmtClassDef { .. }
            | NodeKind::StmtAssign
            | NodeKind::StmtAnnAssign { .. }
    )
}

fn put_back(node: &mut Node, asides: &[Aside], next_id: &mut u32) {
    // the modifiers in front of this declaration stand before its name or its first target
    let parsed_start = node.range.start;
    let first = match &node.kind {
        NodeKind::StmtFunctionDef { name_range, .. } | NodeKind::StmtClassDef { name_range, .. } => {
            name_range.start
        }
        _ => node
            .children
            .iter()
            .find(|child| child.field != Field::Decorator)
            .map_or(parsed_start, |child| child.range.start),
    };
    let keeps = is_statement(&node.kind);
    let shift = |range: TextRange| {
        let start = if keeps { before(asides, range.start) } else { after(asides, range.start) };
        TextRange { start, end: before(asides, range.end).max(start) }
    };
    node.range = shift(node.range);
    node.outer = shift(node.outer);
    let name = |range: &mut TextRange| {
        *range = TextRange { start: after(asides, range.start), end: before(asides, range.end) };
    };
    match &mut node.kind {
        NodeKind::StmtFunctionDef { name_range, .. }
        | NodeKind::StmtClassDef { name_range, .. }
        | NodeKind::Parameter { name_range, .. }
        | NodeKind::Alias { name_range, .. } => name(name_range),
        NodeKind::StmtImportFrom { module_range, .. } => name(module_range),
        NodeKind::StringPart { content, .. } | NodeKind::BytesPart { content, .. } => name(content),
        NodeKind::ExceptHandler { name_end: Some(end) } => *end = before(asides, *end),
        _ => {}
    }
    for child in &mut node.children {
        put_back(child, asides, next_id);
    }
    let declares = keeps && !matches!(node.kind, NodeKind::Module | NodeKind::Suite);
    if declares {
        let known = node.children.iter().filter(|child| child.field == Field::Decorator).count();
        let mut at = known;
        for (index, aside) in asides.iter().enumerate() {
            if parsed_start <= aside.at && aside.at <= first {
                let start = before(asides, aside.at)
                    + asides[..index].iter().filter(|other| other.at == aside.at).map(|other| other.length).sum::<u32>();
                let range = TextRange { start, end: start + aside.covered };
                let expression = Node {
                    id: *next_id,
                    range,
                    outer: range,
                    field: Field::Expression,
                    kind: NodeKind::ExprName {
                        id: aside.name.to_string(),
                        ctx: ExprContext::Invalid,
                    },
                    children: Vec::new(),
                };
                let decorator = Node {
                    id: *next_id + 1,
                    range,
                    outer: range,
                    field: Field::Decorator,
                    kind: NodeKind::Decorator,
                    children: vec![expression],
                };
                *next_id += 2;
                node.children.insert(at, decorator);
                at += 1;
            }
        }
    }
}

// ---- the syntax outline ----

fn parsed_file(source: &str, is_basedpython: bool, modifiers: &[Modifier]) -> ParsedFile {
    let mut tree = parse_based(source, modifiers);
    ParsedFile {
        source: source.to_string(),
        suite: tree.module.children.remove(0),
        tokens: tree.tokens,
        is_basedpython,
    }
}

fn text_at(text: &str, range: TextRange) -> &str {
    &text[range.start as usize..range.end as usize]
}

/// The statements of a basedpython file, one line per clause header or simple statement, indented
/// by nesting: a header is shown up to its `:`, marked when it has no keyword or no colon, and a
/// statement's modifiers and call follow it in brackets.
fn statements(source: &str) -> String {
    statements_of(&parsed_file(source, true, &[]))
}

fn statements_of(file: &ParsedFile) -> String {
    let mut out = String::new();
    render(&syntax_outline(file).statements, &file.source, 0, &mut out);
    out
}

fn render(statements: &[OutlineStatement], text: &str, depth: usize, out: &mut String) {
    for statement in statements {
        let indent = "  ".repeat(depth);
        if statement.clauses.is_empty() {
            let first_line = text_at(text, statement.range).lines().next().unwrap_or_default();
            out.push_str(&format!("{indent}{first_line}"));
        }
        for (index, clause) in statement.clauses.iter().enumerate() {
            if index > 0 {
                out.push('\n');
            }
            let header_end = clause.colon.map_or(clause.range.end, |colon| colon.end);
            let header = text_at(text, TextRange { start: clause.range.start, end: header_end });
            out.push_str(&format!("{indent}{}", header.replace('\n', "⏎")));
            if clause.keyword.is_none() {
                out.push_str(" [no keyword]");
            }
            if clause.colon.is_none() {
                out.push_str(" [no colon]");
            }
            if index == 0 {
                for modifier in &statement.modifiers {
                    out.push_str(&format!(" [{} `{}`]", modifier.name, text_at(text, modifier.range)));
                }
            }
            if !clause.body.is_empty() {
                out.push('\n');
                render(&clause.body, text, depth + 1, out);
                // `render` ends every statement with a newline, and so does this loop.
                out.pop();
            }
        }
        if let Some(call) = &statement.call {
            out.push_str(&format!(
                " [call `{}` with `{}`{}]",
                text_at(text, call.callee),
                call.arguments.map(|range| text_at(text, range)).unwrap_or_default(),
                if call.positional_only { ", positional only" } else { "" }
            ));
        }
        out.push('\n');
    }
}

/// A node of a tree that is written out.
fn bare(range: TextRange, field: Field, kind: NodeKind, children: Vec<Node>) -> Node {
    Node { id: range.start, range, outer: range, field, kind, children }
}

/// Every string part: its text, what basedpython strips, and its interpolations and escapes.
fn strings(path: &str, source: &str) -> String {
    strings_of(&parsed_file(source, path == "main.by", &[]))
}

/// The same of a basedpython file, where the dedent takes `dedents` off its plain and formatted
/// string parts.
fn strings_dedented(source: &str, mut dedents: Vec<Option<u32>>) -> String {
    let mut file = parsed_file(source, true, &[]);
    set_dedents(&mut file.suite, &mut dedents);
    strings_of(&file)
}

fn strings_of(file: &ParsedFile) -> String {
    let slice = |range: TextRange| text_at(&file.source, range).replace('\n', "⏎");
    let mut out = String::new();
    for string in &syntax_outline(file).strings {
        out.push_str(&slice(string.range));
        if let Some(indent) = string.stripped_indent {
            out.push_str(&format!(" strips {indent}"));
        }
        for interpolation in &string.interpolations {
            out.push_str(&format!(" interpolation `{}`", slice(*interpolation)));
        }
        for escape in &string.escapes {
            out.push_str(&format!(" escape `{}`", slice(*escape)));
        }
        out.push('\n');
    }
    out
}

/// The keywords that light up with the one under `<CURSOR>`, or `none`.
fn family(source: &str) -> String {
    let offset = source.find("<CURSOR>").expect("a cursor") as u32;
    let file = parsed_file(&source.replacen("<CURSOR>", "", 1), true, &[]);
    match keyword_family(&file, offset) {
        None => "none".to_string(),
        Some(family) => family
            .iter()
            .map(|range| {
                let line = file.source[..range.start as usize].matches('\n').count() + 1;
                format!("{}@{line}", text_at(&file.source, *range))
            })
            .collect::<Vec<_>>()
            .join(" "),
    }
}

/// Gives the string parts under `node` what the dedent takes off each of their lines, in order.
fn set_dedents(node: &mut Node, dedents: &mut Vec<Option<u32>>) {
    match &mut node.kind {
        NodeKind::StringPart { dedent, .. }
        | NodeKind::FStringPart { dedent, .. }
        | NodeKind::TStringPart { dedent, .. } => *dedent = dedents.remove(0),
        _ => {}
    }
    for child in &mut node.children {
        set_dedents(child, dedents);
    }
}

#[test]
fn a_soft_keyword_used_as_a_name_opens_no_suite() {
    assert_eq!(
        statements("match: int = 1\ncase = match\n"),
        "match: int = 1\ncase = match\n"
    );
}

#[test]
fn colons_in_strings_brackets_and_lambdas_are_not_the_header_colon() {
    assert_eq!(
        statements(
            "if d[\":\"] == {1: 2} and (lambda: 1)():  # a: comment\n    pass\nelif x:\n    y = \"a:\"\nelse: pass\n"
        ),
        "if d[\":\"] == {1: 2} and (lambda: 1)():\n  pass\nelif x:\n  y = \"a:\"\nelse:\n  pass\n"
    );
}

#[test]
fn a_header_wrapped_over_lines_ends_at_its_colon() {
    assert_eq!(
        statements("def f(\n    a: int,\n) -> int:\n    return a\n"),
        "def f(⏎    a: int,⏎) -> int:\n  return a\n"
    );
}

#[test]
fn the_clauses_of_every_compound_statement() {
    assert_eq!(
        statements(
            "\
try:
    pass
except (A, B) as e:
    pass
except C:
    pass
else:
    pass
finally:
    pass
for x in y:
    break
else:
    pass
while z:
    continue
else:
    pass
async def f():
    async for a in b:
        pass
    async with c as d, e:
        pass
match p:
    case [1, 2] if q:
        pass
    case _:
        pass
"
        ),
        "\
try:
  pass
except (A, B) as e:
  pass
except C:
  pass
else:
  pass
finally:
  pass
for x in y:
  break
else:
  pass
while z:
  continue
else:
  pass
def f():
  async for a in b:
    pass
  async with c as d, e:
    pass
match p:
case [1, 2] if q:
  pass
case _:
  pass
"
    );
}

#[test]
fn a_header_being_typed_still_opens_its_suite() {
    assert_eq!(statements("def f():\n    if x:"), "def f():\n  if x:\n");
}

#[test]
fn an_inline_suite_is_the_body_of_its_header() {
    assert_eq!(
        statements("if x: return 1\nwhile y: pass\n"),
        "if x:\n  return 1\nwhile y:\n  pass\n"
    );
}

#[test]
fn a_definition_keeps_its_decorators_and_modifiers_but_its_clause_starts_at_the_keyword() {
    assert_eq!(
        statements_of(&parsed_file(
            "\
@dec
frozen data class P:
    x: int
enum class Color:
    RED
class C:
    class def make(cls): ...
    static def s(): ...
",
            true,
            &[
                Modifier { before: "frozen data class", text: "frozen data ", covers: "frozen data ", name: "frozen_data_class" },
                Modifier { before: "enum class", text: "enum ", covers: "enum class ", name: "enum_def" },
                Modifier { before: "class def", text: "class ", covers: "class ", name: "classmethod" },
                Modifier { before: "static def", text: "static ", covers: "static ", name: "static" },
            ],
        )),
        "\
class P: [frozen_data_class `frozen data`]
  x: int
class Color: [enum_def `enum class`]
  RED
class C:
  def make(cls): [classmethod `class`]
    ...
  def s(): [static `static`]
    ...
"
    );
}

#[test]
fn a_let_with_an_else_is_a_compound_statement() {
    let source = "let A(foo) := value else:\n    return None\nlet b := 1\n";
    let at = |text: &str| {
        let start = source.find(text).expect("the text stands in the source") as u32;
        TextRange { start, end: start + text.len() as u32 }
    };
    let none = bare(at("None"), Field::Value, NodeKind::ExprNoneLiteral, vec![]);
    let exit = bare(at("return None"), Field::Statement, NodeKind::StmtReturn, vec![none]);
    let orelse = bare(at("return None"), Field::Orelse, NodeKind::Suite, vec![exit]);
    let pattern = bare(at("A(foo)"), Field::Pattern, NodeKind::Pattern, vec![]);
    let value = bare(
        at("value"),
        Field::Value,
        NodeKind::ExprName { id: "value".to_string(), ctx: ExprContext::Load },
        vec![],
    );
    let first = bare(
        at("let A(foo) := value else:\n    return None"),
        Field::Statement,
        NodeKind::StmtLet,
        vec![pattern, value, orelse],
    );
    let pattern = bare(at("b"), Field::Pattern, NodeKind::Pattern, vec![]);
    let value = bare(at("1"), Field::Value, NodeKind::ExprNumberLiteral, vec![]);
    let second = bare(at("let b := 1"), Field::Statement, NodeKind::StmtLet, vec![pattern, value]);
    let whole = TextRange { start: 0, end: source.len() as u32 };
    let file = ParsedFile {
        source: source.to_string(),
        suite: bare(whole, Field::Body, NodeKind::Suite, vec![first, second]),
        tokens: parse(source).tokens,
        is_basedpython: true,
    };
    assert_eq!(
        statements_of(&file),
        "let A(foo) := value [no colon]\nelse:\n  return None\nlet b := 1\n"
    );
}

#[test]
fn a_call_statement_says_what_it_calls_and_how() {
    assert_eq!(
        statements("print(a, (b + c))\nprint(x, sep=\"\")\nprint(*xs)\nprint()\nf(x)(y)\n"),
        "\
print(a, (b + c)) [call `print` with `a, (b + c)`, positional only]
print(x, sep=\"\") [call `print` with `x, sep=\"\"`]
print(*xs) [call `print` with `*xs`]
print() [call `print` with ``, positional only]
f(x)(y) [call `f(x)` with `y`, positional only]
"
    );
}

#[test]
fn basedpython_strips_what_the_transpiler_strips() {
    assert_eq!(
        strings_dedented(
            "\
def f():
    content_is_the_margin = \"\"\"
            eight
          six
        \"\"\"
    opening_line_has_text = \"\"\"Summary.
        more
        \"\"\"
    closing_shares_a_line = \"\"\"
        text\"\"\"
    closing_past_the_content = \"\"\"
    a
        \"\"\"
    concatenated = \"\"\"
        a
        \"\"\" \"b\"
    bytes = b\"\"\"
        a
        \"\"\"
    formatted = f\"\"\"
        {x}
        \"\"\"
",
            // of the plain and the formatted parts, in order
            vec![Some(10), None, None, None, Some(8), None, Some(8)],
        ),
        "\
\"\"\"⏎            eight⏎          six⏎        \"\"\" strips 10
\"\"\"Summary.⏎        more⏎        \"\"\"
\"\"\"⏎        text\"\"\"
\"\"\"⏎    a⏎        \"\"\"
\"\"\"⏎        a⏎        \"\"\"
\"b\"
b\"\"\"⏎        a⏎        \"\"\"
f\"\"\"⏎        {x}⏎        \"\"\" strips 8 interpolation `{x}`
"
    );
}

#[test]
fn python_strips_nothing() {
    assert_eq!(
        strings("main.py", "x = \"\"\"\n    a\n    \"\"\"\n"),
        "\"\"\"⏎    a⏎    \"\"\"\n"
    );
}

#[test]
fn escapes_follow_pythons_rules() {
    assert_eq!(
        strings(
            "main.by",
            r#"a = "\n\x41\u00e9\N{EM DASH}\101\q\"" + b"\u00e9\x41" + r"\n" + f"\t{x!r:\n>{w}}{{\n}}"
"#
        ),
        r#""\n\x41\u00e9\N{EM DASH}\101\q\"" escape `\n` escape `\x41` escape `\u00e9` escape `\N{EM DASH}` escape `\101` escape `\q` escape `\"`
b"\u00e9\x41" escape `\u` escape `\x41`
r"\n"
f"\t{x!r:\n>{w}}{{\n}}" interpolation `{x!r:\n>{w}}` escape `\t` escape `\n` escape `\n`
"#
    );
}

#[test]
fn an_if_pairs_with_its_own_elif_and_else() {
    assert_eq!(
        family(
            "<CURSOR>if a:\n    x = b if c else d\nelif e:\n    pass\nelse:\n    pass\nif f:\n    pass\n"
        ),
        "if@1 elif@3 else@5"
    );
    assert_eq!(family("if a:\n    x = b if c <CURSOR>else d\n"), "none");
    assert_eq!(family("<CURSOR>if a:\n    pass\n"), "none");
}

#[test]
fn a_try_pairs_with_its_handlers() {
    assert_eq!(
        family("try:\n    pass\nexcept A:\n    pass\n<CURSOR>finally:\n    pass\n"),
        "try@1 except@3 finally@5"
    );
}

#[test]
fn a_match_pairs_with_its_cases_and_a_name_called_match_with_nothing() {
    assert_eq!(
        family("match x:\n    <CURSOR>case 1:\n        pass\n    case _:\n        pass\n"),
        "match@1 case@2 case@4"
    );
    assert_eq!(family("<CURSOR>match: int = 1\n"), "none");
}

#[test]
fn a_def_pairs_with_its_own_exits() {
    let source = "\
def f():
    if a:
        return 1
    def g():
        return 2
    raise E
";
    assert_eq!(
        family(&source.replacen("def f", "<CURSOR>def f", 1)),
        "def@1 return@3 raise@6"
    );
    assert_eq!(
        family(&source.replacen("return 1", "<CURSOR>return 1", 1)),
        "def@1 return@3 raise@6"
    );
    assert_eq!(
        family(&source.replacen("return 2", "<CURSOR>return 2", 1)),
        "def@4 return@5"
    );
}

#[test]
fn a_loop_pairs_with_its_own_jumps() {
    let source = "\
for a in b:
    while c:
        break
    for d in e:
        pass
    else:
        continue
else:
    pass
";
    assert_eq!(
        family(&source.replacen("for a", "<CURSOR>for a", 1)),
        "for@1 continue@7 else@8"
    );
    assert_eq!(
        family(&source.replacen("break", "<CURSOR>break", 1)),
        "while@2 break@3"
    );
}

// ---- what the checker knows of a source ----

/// What each name may hold, by the name. A name that is not there was never bound.
type Names = BTreeMap<String, Vec<DefinitionState>>;

/// The names at a place, or `None` where nothing gets to.
type Flow = Option<Names>;

fn merge(one: Flow, other: Flow) -> Flow {
    let (one, other) = match (one, other) {
        (Some(one), Some(other)) => (one, other),
        (one, other) => return one.or(other),
    };
    let mut merged = Names::new();
    for name in one.keys().chain(other.keys()) {
        let mut states: Vec<DefinitionState> = Vec::new();
        for names in [&one, &other] {
            for state in states_of(names, name) {
                if !states.contains(&state) {
                    states.push(state);
                }
            }
        }
        merged.insert(name.clone(), states);
    }
    Some(merged)
}

fn states_of(names: &Names, name: &str) -> Vec<DefinitionState> {
    names.get(name).cloned().unwrap_or_else(|| vec![DefinitionState::Undefined])
}

/// Where `break` and `continue` go.
#[derive(Default)]
struct Jumps {
    breaks: Vec<Names>,
    continues: Vec<Names>,
}

struct Indexer<'s> {
    source: &'s str,
    scopes: Vec<Scope>,
    definitions: Vec<Definition>,
    expression_scopes: Vec<(u32, u32)>,
    jumps: Vec<Jumps>,
}

/// The scopes, symbols, definitions and uses of `module`.
fn index_of(source: &str, module: &Node) -> SemanticIndex {
    let mut indexer = Indexer {
        source,
        scopes: Vec::new(),
        definitions: Vec::new(),
        expression_scopes: Vec::new(),
        jumps: Vec::new(),
    };
    let scope = indexer.enter(ScopeKind::Module, ScopeNode::Module, None);
    let mut flow = Some(Names::new());
    indexer.all(&module.children, scope, &mut flow);
    SemanticIndex {
        scopes: indexer.scopes,
        definitions: indexer.definitions,
        expression_scopes: indexer.expression_scopes,
    }
}

fn filling<'n>(node: &'n Node, field: Field) -> Vec<&'n Node> {
    node.children.iter().filter(|child| child.field == field).collect()
}

/// The names that `node` binds in its own scope.
fn bound_in(node: &Node, names: &mut Vec<String>) {
    match &node.kind {
        NodeKind::ExprName { id, ctx: ExprContext::Store } => names.push(id.clone()),
        NodeKind::StmtFunctionDef { name, .. } | NodeKind::StmtClassDef { name, .. } => {
            names.push(name.clone());
            return;
        }
        NodeKind::ExprLambda
        | NodeKind::ExprListComp
        | NodeKind::ExprSetComp
        | NodeKind::ExprDictComp
        | NodeKind::ExprGenerator { .. } => return,
        _ => {}
    }
    for child in &node.children {
        bound_in(child, names);
    }
}

impl Indexer<'_> {
    fn enter(&mut self, kind: ScopeKind, node: ScopeNode, parent: Option<u32>) -> u32 {
        let id = self.scopes.len() as u32;
        let mut visible_ancestors = vec![id];
        let mut around = parent;
        while let Some(scope) = around {
            if self.scopes[scope as usize].kind != ScopeKind::Class {
                visible_ancestors.push(scope);
            }
            around = self.scopes[scope as usize].parent;
        }
        let in_class = parent.is_some_and(|parent| self.scopes[parent as usize].kind == ScopeKind::Class);
        if let Some(parent) = parent {
            self.scopes[parent as usize].children.push(id);
        }
        self.scopes.push(Scope {
            kind,
            node,
            parent,
            is_method: kind == ScopeKind::Function && in_class,
            visible_ancestors,
            children: Vec::new(),
            symbols: Vec::new(),
            definitions: Vec::new(),
            uses: Vec::new(),
        });
        id
    }

    fn symbol(&mut self, scope: u32, name: &str) -> u32 {
        let symbols = &mut self.scopes[scope as usize].symbols;
        if let Some(at) = symbols.iter().position(|symbol| symbol.name == name) {
            return at as u32;
        }
        symbols.push(Symbol {
            name: name.to_string(),
            is_global: false,
            is_nonlocal: false,
            is_local: false,
            is_bound: false,
            is_declared: false,
        });
        symbols.len() as u32 - 1
    }

    fn define(
        &mut self,
        name: &str,
        scope: u32,
        kind: DefinitionKind,
        target_range: TextRange,
        full_range: TextRange,
    ) -> u32 {
        let symbol = self.symbol(scope, name);
        let id = self.definitions.len() as u32;
        self.definitions.push(Definition {
            symbol: Some(symbol),
            kind,
            is_binding: true,
            target_range,
            full_range,
            loop_bindings: Vec::new(),
        });
        self.scopes[scope as usize].definitions.push(id);
        id
    }

    fn mark(&mut self, name: &str, scope: u32, bound: bool, declared: bool) {
        let at = self.symbol(scope, name) as usize;
        let symbol = &mut self.scopes[scope as usize].symbols[at];
        symbol.is_bound |= bound;
        symbol.is_declared |= declared;
        symbol.is_local = !symbol.is_global && !symbol.is_nonlocal;
    }

    fn bind(
        &mut self,
        name: &str,
        scope: u32,
        flow: &mut Flow,
        kind: DefinitionKind,
        target_range: TextRange,
        full_range: TextRange,
    ) {
        self.mark(name, scope, true, false);
        let id = self.define(name, scope, kind, target_range, full_range);
        if let Some(names) = flow {
            names.insert(name.to_string(), vec![DefinitionState::Defined(id)]);
        }
    }

    fn read(&mut self, node: &Node, name: &str, scope: u32, flow: &Flow) {
        self.symbol(scope, name);
        let states = flow.as_ref().map_or(Vec::new(), |names| states_of(names, name));
        self.scopes[scope as usize].uses.push((node.id, states));
    }

    fn all(&mut self, nodes: &[Node], scope: u32, flow: &mut Flow) {
        for node in nodes {
            self.visit(node, scope, flow);
        }
    }

    fn fields(&mut self, node: &Node, fields: &[Field], scope: u32, flow: &mut Flow) {
        for field in fields {
            for child in filling(node, *field) {
                self.visit(child, scope, flow);
            }
        }
    }

    /// What `target` binds, where the whole of it is bound as `kind` says.
    fn target(
        &mut self,
        target: &Node,
        scope: u32,
        flow: &mut Flow,
        kind: DefinitionKind,
        full_end: u32,
    ) {
        match &target.kind {
            NodeKind::ExprName { id, .. } => {
                self.expression_scopes.push((target.id, scope));
                let full = TextRange { start: target.range.start, end: full_end.max(target.range.end) };
                self.bind(id, scope, flow, kind, target.range, full);
            }
            NodeKind::ExprTuple { .. } | NodeKind::ExprList { .. } | NodeKind::ExprStarred => {
                self.expression_scopes.push((target.id, scope));
                let inner = match kind {
                    DefinitionKind::Assignment { is_sole_target, .. } => {
                        DefinitionKind::Assignment { is_sole_target, is_unpacked: true }
                    }
                    kind => kind,
                };
                for child in &target.children {
                    self.target(child, scope, flow, inner, full_end);
                }
            }
            _ => self.visit(target, scope, flow),
        }
    }

    fn parameters(&mut self, parameters: &Node, scope: u32, flow: &mut Flow) {
        for parameter in &parameters.children {
            if let NodeKind::Parameter { name, name_range } = &parameter.kind {
                self.bind(name, scope, flow, DefinitionKind::Other, *name_range, parameter.range);
                self.mark(name, scope, true, !filling(parameter, Field::Annotation).is_empty());
            }
        }
    }

    /// A loop whose start is `flow`: a definition for each name that `bound` binds stands for
    /// what flows back.
    fn headers(&mut self, bound: &[&Node], scope: u32, at: TextRange, flow: &mut Flow) -> Vec<(String, u32)> {
        let mut names = Vec::new();
        for node in bound {
            bound_in(node, &mut names);
        }
        names.sort();
        names.dedup();
        let mut headers = Vec::new();
        for name in names {
            let id = self.define(&name, scope, DefinitionKind::LoopHeader, at, at);
            if let Some(held) = flow {
                let mut states = states_of(held, &name);
                states.push(DefinitionState::Defined(id));
                held.insert(name.clone(), states);
            }
            headers.push((name, id));
        }
        headers
    }

    fn close(&mut self, headers: &[(String, u32)], end: &Flow) {
        let Some(names) = end else { return };
        for (name, id) in headers {
            let own = DefinitionState::Defined(*id);
            self.definitions[*id as usize].loop_bindings =
                states_of(names, name).into_iter().filter(|state| *state != own).collect();
        }
    }

    fn looped(&mut self, node: &Node, scope: u32, flow: &mut Flow) {
        self.fields(node, &[Field::Iter], scope, flow);
        let bound: Vec<&Node> = node.children.iter().filter(|child| child.field != Field::Orelse).collect();
        let headers = self.headers(&bound, scope, node.range, flow);
        let start = flow.clone();
        self.fields(node, &[Field::Test], scope, flow);
        for target in filling(node, Field::Target) {
            self.target(target, scope, flow, DefinitionKind::Other, 0);
        }
        self.jumps.push(Jumps::default());
        self.fields(node, &[Field::Body], scope, flow);
        let jumps = self.jumps.pop().expect("the jumps of this loop");
        let mut end = flow.take();
        for names in jumps.continues {
            end = merge(end, Some(names));
        }
        self.close(&headers, &end);
        *flow = start;
        self.fields(node, &[Field::Orelse], scope, flow);
        for names in jumps.breaks {
            *flow = merge(flow.take(), Some(names));
        }
    }

    fn visit(&mut self, node: &Node, scope: u32, flow: &mut Flow) {
        if node.kind.is_expression() {
            self.expression_scopes.push((node.id, scope));
        }
        match &node.kind {
            NodeKind::ExprName { id, ctx } => match ctx {
                ExprContext::Load => self.read(node, id, scope, flow),
                ExprContext::Del => {
                    self.read(node, id, scope, flow);
                    if let Some(names) = flow {
                        names.insert(id.clone(), vec![DefinitionState::Deleted]);
                    }
                }
                _ => {}
            },
            NodeKind::ExprNamed => {
                self.fields(node, &[Field::Value], scope, flow);
                for target in filling(node, Field::Target) {
                    self.target(target, scope, flow, DefinitionKind::Other, node.range.end);
                }
            }
            NodeKind::ExprLambda => {
                for parameters in filling(node, Field::Parameters) {
                    for parameter in &parameters.children {
                        self.fields(parameter, &[Field::Default], scope, flow);
                    }
                }
                let inner = self.enter(ScopeKind::Other, ScopeNode::Other, Some(scope));
                let mut names = Some(Names::new());
                for parameters in filling(node, Field::Parameters) {
                    self.parameters(parameters, inner, &mut names);
                }
                self.fields(node, &[Field::Body], inner, &mut names);
            }
            NodeKind::ExprListComp
            | NodeKind::ExprSetComp
            | NodeKind::ExprDictComp
            | NodeKind::ExprGenerator { .. } => {
                let generators = filling(node, Field::Generator);
                if let Some(first) = generators.first() {
                    self.fields(first, &[Field::Iter], scope, flow);
                }
                let inner = self.enter(ScopeKind::Other, ScopeNode::Other, Some(scope));
                let mut names = Some(Names::new());
                for (position, generator) in generators.iter().enumerate() {
                    if position > 0 {
                        self.fields(generator, &[Field::Iter], inner, &mut names);
                    }
                    for target in filling(generator, Field::Target) {
                        self.target(target, inner, &mut names, DefinitionKind::Other, 0);
                    }
                    self.fields(generator, &[Field::Condition], inner, &mut names);
                }
                self.fields(node, &[Field::Key, Field::Elt, Field::Value], inner, &mut names);
            }
            NodeKind::StmtAssign => {
                self.fields(node, &[Field::Decorator, Field::Value], scope, flow);
                let targets = filling(node, Field::Target);
                let kind = DefinitionKind::Assignment {
                    is_sole_target: targets.len() == 1,
                    is_unpacked: false,
                };
                let end = filling(node, Field::Value).first().map_or(0, |value| value.range.end);
                for target in targets {
                    self.target(target, scope, flow, kind, end);
                }
            }
            NodeKind::StmtAugAssign => {
                self.fields(node, &[Field::Value], scope, flow);
                for target in filling(node, Field::Target) {
                    if let NodeKind::ExprName { id, .. } = &target.kind {
                        self.read(target, id, scope, flow);
                    }
                    self.target(target, scope, flow, DefinitionKind::Other, node.range.end);
                }
            }
            NodeKind::StmtAnnAssign { .. } => {
                self.fields(node, &[Field::Annotation, Field::Value], scope, flow);
                let has_value = !filling(node, Field::Value).is_empty();
                for target in filling(node, Field::Target) {
                    match &target.kind {
                        NodeKind::ExprName { id, .. } if !has_value => {
                            self.expression_scopes.push((target.id, scope));
                            self.mark(id, scope, false, true);
                            let kind = DefinitionKind::AnnotatedAssignment;
                            let at = self.define(id, scope, kind, target.range, node.range);
                            self.definitions[at as usize].is_binding = false;
                        }
                        NodeKind::ExprName { id, .. } => {
                            let kind = DefinitionKind::AnnotatedAssignment;
                            self.target(target, scope, flow, kind, node.range.end);
                            self.mark(id, scope, true, true);
                        }
                        _ => self.visit(target, scope, flow),
                    }
                }
            }
            NodeKind::StmtFor { .. } | NodeKind::StmtWhile => self.looped(node, scope, flow),
            NodeKind::StmtIf { .. } => {
                self.fields(node, &[Field::Test], scope, flow);
                let mut untaken = flow.clone();
                self.fields(node, &[Field::Body], scope, flow);
                let mut out = flow.take();
                for clause in filling(node, Field::ElifElse) {
                    self.fields(clause, &[Field::Test], scope, &mut untaken);
                    let mut taken = untaken.clone();
                    self.fields(clause, &[Field::Body], scope, &mut taken);
                    out = merge(out, taken);
                    if filling(clause, Field::Test).is_empty() {
                        untaken = None;
                    }
                }
                *flow = merge(out, untaken);
            }
            NodeKind::StmtMatch => {
                self.fields(node, &[Field::Subject], scope, flow);
                let start = flow.clone();
                for case in filling(node, Field::Case) {
                    let mut taken = start.clone();
                    self.all(&case.children, scope, &mut taken);
                    *flow = merge(flow.take(), taken);
                }
            }
            NodeKind::StmtTry => {
                let start = flow.clone();
                self.fields(node, &[Field::Body], scope, flow);
                let raised = merge(start, flow.clone());
                self.fields(node, &[Field::Orelse], scope, flow);
                for handler in filling(node, Field::Handler) {
                    let mut taken = raised.clone();
                    self.fields(handler, &[Field::Type], scope, &mut taken);
                    if let NodeKind::ExceptHandler { name_end: Some(end) } = handler.kind {
                        let before = &self.source[..end as usize];
                        let start = before.rfind(char::is_whitespace).map_or(0, |at| at + 1);
                        let name = before[start..].to_string();
                        let range = TextRange { start: start as u32, end };
                        self.bind(&name, scope, &mut taken, DefinitionKind::Other, range, handler.range);
                    }
                    self.fields(handler, &[Field::Body], scope, &mut taken);
                    *flow = merge(flow.take(), taken);
                }
                self.fields(node, &[Field::Finalbody], scope, flow);
            }
            NodeKind::WithItem => {
                self.fields(node, &[Field::ContextExpr], scope, flow);
                for target in filling(node, Field::OptionalVars) {
                    self.target(target, scope, flow, DefinitionKind::Other, 0);
                }
            }
            NodeKind::StmtReturn | NodeKind::StmtRaise => {
                self.all(&node.children, scope, flow);
                *flow = None;
            }
            NodeKind::StmtBreak { .. } => {
                if let (Some(jumps), Some(names)) = (self.jumps.last_mut(), flow.take()) {
                    jumps.breaks.push(names);
                }
            }
            NodeKind::StmtContinue => {
                if let (Some(jumps), Some(names)) = (self.jumps.last_mut(), flow.take()) {
                    jumps.continues.push(names);
                }
            }
            NodeKind::StmtImport | NodeKind::StmtImportFrom { .. } => {
                for alias in &node.children {
                    if let NodeKind::Alias { name, asname, .. } = &alias.kind {
                        let bound = match asname {
                            Some(asname) => asname.as_str(),
                            None => name.split('.').next().unwrap_or_default(),
                        };
                        self.bind(bound, scope, flow, DefinitionKind::Other, alias.range, alias.range);
                        self.mark(bound, scope, true, true);
                    }
                }
            }
            NodeKind::StmtGlobal | NodeKind::StmtNonlocal => {
                let text = text_at(self.source, node.range).to_string();
                let is_global = matches!(node.kind, NodeKind::StmtGlobal);
                let names = text.split_once(' ').map_or("", |(_, names)| names);
                for name in names.split(',') {
                    let at = self.symbol(scope, name.trim()) as usize;
                    let symbol = &mut self.scopes[scope as usize].symbols[at];
                    symbol.is_global = is_global;
                    symbol.is_nonlocal = !is_global;
                    symbol.is_local = false;
                }
            }
            NodeKind::StmtFunctionDef { name, name_range, .. } => {
                self.fields(node, &[Field::Decorator], scope, flow);
                for parameters in filling(node, Field::Parameters) {
                    for parameter in &parameters.children {
                        self.all(&parameter.children, scope, flow);
                    }
                }
                self.fields(node, &[Field::Returns, Field::Raises], scope, flow);
                self.bind(name, scope, flow, DefinitionKind::Other, *name_range, node.range);
                self.mark(name, scope, true, true);
                let inner = self.enter(ScopeKind::Function, ScopeNode::Function(node.id), Some(scope));
                let mut names = Some(Names::new());
                for parameters in filling(node, Field::Parameters) {
                    self.parameters(parameters, inner, &mut names);
                }
                let jumps = std::mem::take(&mut self.jumps);
                self.fields(node, &[Field::Body], inner, &mut names);
                self.jumps = jumps;
            }
            NodeKind::StmtClassDef { name, name_range, .. } => {
                self.fields(node, &[Field::Decorator, Field::Arguments], scope, flow);
                let inner = self.enter(ScopeKind::Class, ScopeNode::Other, Some(scope));
                let mut names = Some(Names::new());
                self.fields(node, &[Field::Body], inner, &mut names);
                self.bind(name, scope, flow, DefinitionKind::Other, *name_range, node.range);
                self.mark(name, scope, true, true);
            }
            _ => self.all(&node.children, scope, flow),
        }
    }
}

/// Every node under `node`, itself first.
fn walk<'n>(node: &'n Node, found: &mut Vec<&'n Node>) {
    found.push(node);
    for child in &node.children {
        walk(child, found);
    }
}

/// The whole number that `node` is carried out to.
fn folded(source: &str, node: &Node, constants: &[(String, i64)]) -> Option<i64> {
    match &node.kind {
        NodeKind::ExprNumberLiteral => text_at(source, node.range).parse().ok(),
        NodeKind::ExprName { id, .. } => {
            constants.iter().find(|(name, _)| name == id).map(|(_, value)| *value)
        }
        NodeKind::ExprUnaryOp { op: UnaryOp::USub } => {
            folded(source, node.children.first()?, constants)?.checked_neg()
        }
        NodeKind::ExprBinOp { .. } => {
            let left = filling(node, Field::Left).first().copied()?;
            let right = filling(node, Field::Right).first().copied()?;
            let between = &source[left.outer.end as usize..right.outer.start as usize];
            let (one, other) = (folded(source, left, constants)?, folded(source, right, constants)?);
            match between.trim() {
                "+" => one.checked_add(other),
                "-" => one.checked_sub(other),
                "*" => one.checked_mul(other),
                "%" => one.checked_rem_euclid(other),
                _ => None,
            }
        }
        _ => None,
    }
}

/// What the checker answers about `module` in file `file`, whose names the files `others` refer to.
fn checker_facts(source: &str, module: &Node, file: File, others: &[&str]) -> CheckerFacts {
    let mut facts = CheckerFacts {
        implicit_receiver_names: Vec::new(),
        context_sensitive_names: Vec::new(),
        implicit_receiver_attributes: Vec::new(),
        context_filling_calls: Vec::new(),
        literal_folds: Vec::new(),
        field_calls: Vec::new(),
        class_members: Vec::new(),
        data_class_obstacles: Vec::new(),
        return_annotations: Vec::new(),
        references: Vec::new(),
    };
    let mut nodes = Vec::new();
    walk(module, &mut nodes);
    let mut constants = Vec::new();
    for node in &nodes {
        if let NodeKind::StmtAnnAssign { .. } = node.kind {
            if let (Some(target), Some(value)) =
                (filling(node, Field::Target).first(), filling(node, Field::Value).first())
            {
                if let Some(value) = folded(source, value, &[]) {
                    constants.push((text_at(source, target.range).to_string(), value));
                }
            }
        }
    }
    for node in &nodes {
        match &node.kind {
            NodeKind::ExprBinOp { .. } | NodeKind::ExprUnaryOp { .. } => {
                if folded(source, node, &constants).is_some() {
                    facts.literal_folds.push(node.id);
                }
            }
            NodeKind::ExprCall { .. } => {
                let callee = filling(node, Field::Func)[0];
                if text_at(source, callee.range) == "field"
                    && source.contains("from dataclasses import field")
                {
                    facts.field_calls.push(node.id);
                }
            }
            NodeKind::StmtClassDef { .. } => {
                let mut members = Vec::new();
                for body in filling(node, Field::Body) {
                    for statement in &body.children {
                        bound_in(statement, &mut members);
                    }
                }
                facts.class_members.push((node.id, members));
                let decorated = filling(node, Field::Decorator)
                    .iter()
                    .any(|decorator| text_at(source, decorator.range) == "@dataclass");
                let bases = filling(node, Field::Arguments);
                if decorated {
                    let reason = "the class is already a data class".to_string();
                    facts.data_class_obstacles.push((node.id, reason));
                } else if bases.iter().any(|bases| text_at(source, bases.range) == "(Enum)") {
                    let reason = "an enum is not a data class".to_string();
                    facts.data_class_obstacles.push((node.id, reason));
                }
            }
            NodeKind::ExprName { id, ctx: ExprContext::Store } => {
                let mut files = vec![file];
                for (position, other) in others.iter().enumerate() {
                    if other.contains(id.as_str()) {
                        files.push(File { index: file.index + 1 + position as u32 });
                    }
                }
                facts.references.push((node.id, files));
            }
            _ => {}
        }
    }
    facts
}

// ---- refactorings ----

/// A file with a `<CURSOR>`, or a `<START>`…`<END>` selection, to refactor.
struct RefactorTest {
    context: RefactorContext,
    range: TextRange,
}

/// Takes `marker` out of `text`, and says where it stood.
fn take_marker(text: &mut String, marker: &str) -> Option<u32> {
    let at = text.find(marker)?;
    text.replace_range(at..at + marker.len(), "");
    Some(at as u32)
}

/// The modifiers of the classes of `source`.
fn class_modifiers(source: &str) -> Vec<Modifier> {
    let known = [
        Modifier { before: "frozen data class", text: "frozen data ", covers: "frozen data ", name: "frozen_data_class" },
        Modifier { before: "data class", text: "data ", covers: "data ", name: "data_class" },
        Modifier { before: "final class", text: "final ", covers: "final ", name: "final" },
    ];
    for modifier in known {
        if source.contains(modifier.before) {
            return vec![modifier];
        }
    }
    Vec::new()
}

impl RefactorTest {
    fn python(source: &str) -> Self {
        Self::with_files("main.py", source, &[])
    }

    fn basedpython(source: &str) -> Self {
        Self::with_files("main.by", source, &[])
    }

    fn with_files(path: &str, source: &str, others: &[(&str, &str)]) -> Self {
        let mut text = dedent(source).into_owned();
        let range = match take_marker(&mut text, "<CURSOR>") {
            Some(cursor) => TextRange::empty(cursor),
            None => {
                let start = take_marker(&mut text, "<START>").expect("a marker");
                let end = take_marker(&mut text, "<END>").expect("an end marker");
                TextRange { start, end }
            }
        };
        let is_basedpython = path == "main.by";
        // what basedpython writes beside python is blanked out, and put back into the tree
        let mut python = text.replace("?.", " .");
        let raises = text.find(" raises ").map(|at| {
            let end = at + text[at..].find(':').expect("the end of the header");
            python.replace_range(at..end, &" ".repeat(end - at));
            TextRange { start: at as u32 + " raises ".len() as u32, end: end as u32 }
        });
        let mut tree = parse_based(&python, &class_modifiers(&python));
        set_based(&text, &mut tree.module, raises);
        let file = File { index: 0 };
        assert!(are_tokens_of(&tree.tokens, &text));
        let style = Style::of(&text, &tree.tokens);
        let contents: Vec<&str> = others.iter().map(|(_, contents)| *contents).collect();
        let context = RefactorContext {
            file,
            index: index_of(&text, &tree.module),
            checker: checker_facts(&text, &tree.module, file, &contents),
            source: text,
            module: tree.module,
            tokens: tree.tokens,
            is_basedpython,
            is_py_file: true,
            has_invalid_syntax: tree.has_invalid_syntax,
            python_version_minor: 13,
            style,
        };
        assert!(context.is_wf());
        RefactorTest { context, range }
    }

    /// The checker writes what every function returns as `text`, for which the file imports
    /// `import`: behind the text `after`, or at its start.
    fn returning(mut self, text: &str, import: Option<(&str, &str)>) -> Self {
        let mut nodes = Vec::new();
        walk(&self.context.module, &mut nodes);
        let mut annotations = Vec::new();
        for node in nodes {
            if matches!(node.kind, NodeKind::StmtFunctionDef { .. }) {
                let imports = import
                    .iter()
                    .map(|(after, written)| {
                        let at = self.context.source.find(after).expect("the import") + after.len();
                        Edit::insertion(written.to_string(), at as u32)
                    })
                    .collect();
                annotations.push((node.id, Some(ReturnAnnotation { text: text.to_string(), imports })));
            }
        }
        self.context.checker.return_annotations = annotations;
        self
    }

    /// The file after applying `kind`, or why it was not offered or refused.
    fn apply(&self, kind: RefactorKind) -> String {
        let offers = refactors(&self.context, self.range, &RefactorKind::all());
        let Some(offer) = offers.iter().find(|offer| offer.kind == kind) else {
            assert!(!matches!(
                refactor(&self.context, kind, self.range),
                Ok(_)
            ));
            return "not offered".to_string();
        };
        match refactor(&self.context, kind, self.range) {
            Ok(result) => {
                let offered = offer
                    .availability
                    .as_ref()
                    .expect("a refactoring that applies must be offered as available");
                assert_eq!(offer.title, result.title);
                // the offer and the resolve are two computations of one rewrite, and a client
                // applies whichever it was handed
                assert_eq!(
                    format!("{offered:?}"),
                    format!("{:?}", result.edits),
                    "the offered edits and the resolved edits must be the same rewrite"
                );
                let mut text = self.context.source.clone();
                let mut edits: Vec<&Edit> = result.edits.iter().map(|edit| &edit.edit).collect();
                edits.sort_by_key(|edit| std::cmp::Reverse(edit.range.start));
                for edit in edits {
                    text.replace_range(
                        edit.range.start as usize..edit.range.end as usize,
                        edit.content.as_deref().unwrap_or_default(),
                    );
                }
                format!("{}\n---\n{text}", offer.title)
            }
            Err(reason) => {
                assert_eq!(offer.availability.as_ref().err(), Some(&reason));
                format!("refused: {} ({reason})", offer.title)
            }
        }
    }
}

/// Puts what was blanked out back into the tree: `?.` into the attributes, `raises` into the
/// first function.
fn set_based(text: &str, node: &mut Node, raises: Option<TextRange>) {
    if let (NodeKind::ExprAttribute { optional, .. }, Some(value)) = (&mut node.kind, node.children.first()) {
        *optional = text[value.outer.end as usize..].starts_with("?.");
    }
    if let (NodeKind::StmtFunctionDef { .. }, Some(range)) = (&node.kind, raises) {
        if node.range.start < range.start && range.end < node.range.end {
            let raised = Node {
                id: 2_000_000,
                range,
                outer: range,
                field: Field::Raises,
                kind: NodeKind::ExprName {
                    id: text_at(text, range).to_string(),
                    ctx: ExprContext::Load,
                },
                children: Vec::new(),
            };
            let body = node.children.len() - 1;
            node.children.insert(body, raised);
        }
    }
    for child in &mut node.children {
        set_based(text, child, raises);
    }
}

/// `expected` is indented as its test is.
fn assert_snapshot(actual: String, expected: &str) {
    let expected = dedent(expected.trim_start_matches('\n')).into_owned();
    assert_eq!(actual.trim_end(), expected.trim_end());
}

fn extract_function(source: &str) -> String {
    RefactorTest::python(source).apply(RefactorKind::ExtractFunction)
}

fn extract_variable(source: &str) -> String {
    RefactorTest::python(source).apply(RefactorKind::ExtractVariable)
}

fn constant(source: &str) -> String {
    RefactorTest::python(source).apply(RefactorKind::IntroduceConstant)
}

fn inline(source: &str) -> String {
    RefactorTest::python(source).apply(RefactorKind::InlineVariable)
}

/// Where the checker infers `text`.
fn annotate(source: &str, text: &str) -> String {
    RefactorTest::python(source).returning(text, None).apply(RefactorKind::AddReturnAnnotation)
}

fn to_data(source: &str) -> String {
    RefactorTest::basedpython(source).apply(RefactorKind::ConvertToDataClass)
}

fn from_data(source: &str) -> String {
    RefactorTest::basedpython(source).apply(RefactorKind::ConvertFromDataClass)
}

#[test]
fn passes_locals_and_returns_what_is_read_after() {
    assert_snapshot(extract_function(
        "
            def report(orders, tax):
                <START>total = 0
                for order in orders:
                    total += order.price * tax<END>
                print(total)
            ",
    ), "
        Extract function `extracted`
        ---

        def extracted(orders, tax):
            total = 0
            for order in orders:
                total += order.price * tax
            return total


        def report(orders, tax):
            total = extracted(orders, tax)
            print(total)
        ");
}

#[test]
fn method_becomes_a_method_called_through_self() {
    assert_snapshot(extract_function(
        "
            class Cart:
                def checkout(self, discount):
                    <START>price = self.total() - discount
                    self.charge(price)<END>

                def total(self) -> int: ...
                def charge(self, amount): ...
            ",
    ), "
        Extract method `extracted`
        ---

        class Cart:
            def extracted(self, discount):
                price = self.total() - discount
                self.charge(price)

            def checkout(self, discount):
                self.extracted(discount)

            def total(self) -> int: ...
            def charge(self, amount): ...
        ");
}

#[test]
fn classmethod_stays_a_classmethod() {
    assert_snapshot(extract_function(
        "
            class Config:
                @classmethod
                def load(cls, path):
                    <START>text = open(path).read()<END>
                    return cls(text)
            ",
    ), "
        Extract method `extracted`
        ---

        class Config:
            @classmethod
            def extracted(cls, path):
                text = open(path).read()
                return text

            @classmethod
            def load(cls, path):
                text = cls.extracted(path)
                return cls(text)
        ");
}

#[test]
fn static_method_is_refused() {
    assert_snapshot(extract_function(
        "
            class A:
                @staticmethod
                def f(x):
                    <START>print(x)<END>
            ",
    ), "refused: Extract method (a static method has no receiver to call a new method through)");
}

#[test]
fn return_is_refused() {
    assert_snapshot(extract_function(
        "
            def f(x):
                <START>if x:
                    return 1<END>
                return 2
            ",
    ), "refused: Extract function `extracted` (the statements `return`)");
}

#[test]
fn break_out_of_an_enclosing_loop_is_refused() {
    assert_snapshot(extract_function(
        "
            def f(items):
                for item in items:
                    <START>if item:
                        break<END>
            ",
    ), "refused: Extract function `extracted` (the statements `break` out of a loop around them)");
}

#[test]
fn break_inside_the_selection_is_allowed() {
    assert_snapshot(extract_function(
        "
            def f(items):
                <START>for item in items:
                    if item:
                        break<END>
            ",
    ), "
        Extract function `extracted`
        ---

        def extracted(items):
            for item in items:
                if item:
                    break


        def f(items):
            extracted(items)
        ");
}

#[test]
fn break_in_a_loop_else_leaves_the_loop_around_it() {
    assert_snapshot(extract_function(
        "
            def f(items, groups):
                for group in groups:
                    <START>for item in items:
                        pass
                    else:
                        break<END>
            ",
    ), "refused: Extract function `extracted` (the statements `break` out of a loop around them)");
}

#[test]
fn variable_assigned_on_some_paths_and_read_after_is_refused() {
    assert_snapshot(extract_function(
        "
            def f(flag):
                <START>if flag:
                    x = 1<END>
                print(x)
            ",
    ), "refused: Extract function `extracted` (`x` is read after the statements but not assigned on every path through them)");
}

#[test]
fn rebound_variable_is_passed_and_returned() {
    assert_snapshot(extract_function(
        "
            def f(count):
                <START>count = count + 1<END>
                return count
            ",
    ), "
        Extract function `extracted`
        ---

        def extracted(count):
            count = count + 1
            return count


        def f(count):
            count = extracted(count)
            return count
        ");
}

#[test]
fn module_level_statements_return_what_they_bind() {
    assert_snapshot(extract_function(
        "
            import sys

            <START>name = sys.argv[0]
            print(name)<END>
            ",
    ), "
        Extract function `extracted`
        ---

        import sys

        def extracted():
            name = sys.argv[0]
            print(name)
            return name


        name = extracted()
        ");
}

#[test]
fn nested_function_goes_inside_the_outer_function() {
    assert_snapshot(extract_function(
        "
            def outer(a):
                def inner(b):
                    <START>print(a, b)<END>
                return inner
            ",
    ), "
        Extract function `extracted`
        ---

        def outer(a):
            def extracted(b):
                print(a, b)

            def inner(b):
                extracted(b)
            return inner
        ");
}

#[test]
fn awaits_make_an_async_function() {
    assert_snapshot(extract_function(
        "
            async def f(client):
                <START>response = await client.get()<END>
                return response
            ",
    ), "
        Extract function `extracted`
        ---

        async def extracted(client):
            response = await client.get()
            return response


        async def f(client):
            response = await extracted(client)
            return response
        ");
}

#[test]
fn multiline_string_is_not_reindented() {
    assert_snapshot(extract_function(
        r#"
            def f():
                if True:
                    <START>text = """
            first
              second
            """<END>
                    print(text)
            "#,
    ), r#"
        Extract function `extracted`
        ---

        def extracted():
            text = """
        first
          second
        """
            return text


        def f():
            if True:
                text = extracted()
                print(text)
        "#);
}

#[test]
fn part_of_a_statement_is_not_offered() {
    assert_snapshot(extract_function(
        "
            def f(a):
                print(<START>a<END>)
            ",
    ), "not offered");
}

#[test]
fn global_declaration_is_refused() {
    assert_snapshot(extract_function(
        "
            counter = 0

            def f():
                global counter
                <START>counter = counter + 1<END>
            ",
    ), "refused: Extract function `extracted` (`counter` is declared `global` or `nonlocal`, so assigning it inside a new function would need the same declaration)");
}

#[test]
fn extracts_above_the_statement() {
    assert_snapshot(extract_variable(
        "
            def f(items):
                print(<START>len(items) + 1<END>)
            ",
    ), "
        Extract variable `value`
        ---

        def f(items):
            value = len(items) + 1
            print(value)
        ");
}

#[test]
fn name_comes_from_the_call() {
    assert_snapshot(extract_variable(
        "
            def f(user):
                return <START>user.get_name()<END>.upper()
            ",
    ), "
        Extract variable `name`
        ---

        def f(user):
            name = user.get_name()
            return name.upper()
        ");
}

#[test]
fn name_avoids_every_name_in_the_file() {
    assert_snapshot(extract_variable(
        "
            value = 1

            def f(a, b):
                return <START>a * b<END> + value
            ",
    ), "
        Extract variable `value_1`
        ---

        value = 1

        def f(a, b):
            value_1 = a * b
            return value_1 + value
        ");
}

#[test]
fn selection_may_include_parentheses() {
    assert_snapshot(extract_variable(
        "
            def f(a, b):
                return <START>(a + b)<END> * 2
            ",
    ), "
        Extract variable `value`
        ---

        def f(a, b):
            value = a + b
            return value * 2
        ");
}

#[test]
fn loop_condition_is_refused() {
    assert_snapshot(extract_variable(
        "
            def f(queue):
                while <START>queue.pending()<END>:
                    queue.pop()
            ",
    ), "refused: Extract variable `pending` (the expression can't be evaluated before its statement: it is evaluated again on every iteration of the loop)");
}

#[test]
fn conditional_branch_is_refused() {
    assert_snapshot(extract_variable(
        "
            def f(a, b):
                return <START>b.value<END> if a else None
            ",
    ), "refused: Extract variable `value` (the expression can't be evaluated before its statement: it is only evaluated when a condition holds)");
}

#[test]
fn lambda_body_is_refused() {
    assert_snapshot(extract_variable(
        "
            def f(items):
                return sorted(items, key=lambda item: <START>item.name<END>)
            ",
    ), "refused: Extract variable `name` (the expression can't be evaluated before its statement: it is evaluated later, when the enclosing function is called)");
}

#[test]
fn after_an_effect_is_refused() {
    assert_snapshot(extract_variable(
        "
            def f(a):
                print(log(), <START>a.value<END>)

            def log(): ...
            ",
    ), "refused: Extract variable `value` (something with effects is evaluated before the expression, which would now run after it)");
}

#[test]
fn after_a_name_is_allowed() {
    assert_snapshot(extract_variable(
        "
            def f(a, b):
                print(a, <START>b.value<END>)
            ",
    ), "
        Extract variable `value`
        ---

        def f(a, b):
            value = b.value
            print(a, value)
        ");
}

#[test]
fn elif_condition_is_refused() {
    assert_snapshot(extract_variable(
        "
            def f(a):
                if a.x:
                    pass
                elif <START>a.y<END>:
                    pass
            ",
    ), "refused: Extract variable `y` (the expression can't be evaluated before its statement: it is only evaluated when a condition holds)");
}

#[test]
fn class_body_is_refused() {
    assert_snapshot(extract_variable(
        "
            class A:
                x = <START>compute()<END>

            def compute(): ...
            ",
    ), "refused: Extract variable `compute_1` (a variable bound in a class body would become an attribute of the class)");
}

#[test]
fn partial_expression_is_not_offered() {
    assert_snapshot(extract_variable(
        "
            def f(a, b, c):
                return a + <START>b + c<END>
            ",
    ), "not offered");
}

#[test]
fn assignment_target_is_not_offered() {
    assert_snapshot(extract_variable(
        "
            def f(a):
                <START>a.x<END> = 1
            ",
    ), "not offered");
}

#[test]
fn multiline_expression_is_parenthesized() {
    assert_snapshot(extract_variable(
        "
            def f(a, b):
                return g(<START>a +
                         b<END>)

            def g(x): ...
            ",
    ), "
        Extract variable `value`
        ---

        def f(a, b):
            value = (a +
                     b)
            return g(value)

        def g(x): ...
        ");
}

#[test]
fn constant_goes_above_the_definition() {
    assert_snapshot(constant(
        "
            import os

            # waits a while
            def wait():
                sleep(<START>60 * 60<END>)

            def sleep(seconds): ...
            ",
    ), "
        Introduce constant `VALUE`
        ---

        import os

        VALUE = 60 * 60


        # waits a while
        def wait():
            sleep(VALUE)

        def sleep(seconds): ...
        ");
}

#[test]
fn constant_is_not_offered_for_a_name() {
    assert_snapshot(constant(
        "
            def f(a):
                return <START>a + 1<END>
            ",
    ), "not offered");
}

#[test]
fn constant_is_not_offered_for_a_mutable_display() {
    assert_snapshot(constant(
        "
            def f():
                return <START>[1, 2]<END>
            ",
    ), "not offered");
}

/// A constant is evaluated as the module loads. This expression is evaluated only when the
/// branch it is in is taken, so hoisting it would turn a program that runs into one that
/// raises `ZeroDivisionError` on import.
#[test]
fn constant_is_not_offered_for_an_expression_that_raises() {
    assert_snapshot(constant(
        "
            def f(c):
                return c if c else <START>1 / 0<END>
            ",
    ), "not offered");
}

/// The same, for an expression python does not evaluate at all under `-O`.
#[test]
fn constant_is_not_offered_from_an_assert_when_it_raises() {
    assert_snapshot(constant(
        "
            def f(c):
                assert c == <START>1 % 0<END>
            ",
    ), "not offered");
}

/// An operation over literals that does not type-check raises `TypeError` where it is
/// written, so it is no more hoistable than one that divides by zero.
#[test]
fn constant_is_not_offered_for_an_operation_between_literals_of_different_types() {
    assert_snapshot(constant(
        "
            def f(c):
                return c if c else <START>1 + \"a\"<END>
            ",
    ), "not offered");
}

/// Nor is a unary operator the operand does not support.
#[test]
fn constant_is_not_offered_for_an_unsupported_unary_operator() {
    assert_snapshot(constant(
        "
            def f(c):
                return c if c else <START>-\"a\"<END>
            ",
    ), "not offered");
}

/// ty folds through a `Final` name — `K + 1` is `Literal[4]` here — so the folded type alone
/// would say this is hoistable. It is not: the constant would be written above `K`, reading a
/// name that is not bound yet. The structural half of the rule is what refuses it.
#[test]
fn constant_is_not_offered_for_arithmetic_over_a_final_name() {
    assert_snapshot(constant(
        "
            from typing import Final

            K: Final = 3

            def f(c):
                return c if c else <START>K + 1<END>
            ",
    ), "not offered");
}

/// An arithmetic expression the checker has carried out is still hoisted: having folded it
/// to the value it produces, ty has shown that evaluating it does not raise.
#[test]
fn constant_is_offered_for_arithmetic_the_checker_folds() {
    assert_snapshot(constant(
        "
            def f(c):
                return c if c else <START>60 * 60 * 24<END>
            ",
    ), "
        Introduce constant `VALUE`
        ---

        VALUE = 60 * 60 * 24


        def f(c):
            return c if c else VALUE
        ");
}

#[test]
fn augmented_assignment_value() {
    assert_snapshot(extract_variable(
        "
            def f(items, tax):
                total = 0
                for item in items:
                    total += <START>item * tax<END>
                return total
            ",
    ), "
        Extract variable `value`
        ---

        def f(items, tax):
            total = 0
            for item in items:
                value = item * tax
                total += value
            return total
        ");
}

#[test]
fn optional_chain_link_is_refused() {
    assert_snapshot(
        RefactorTest::basedpython(
            "
                class User:
                    name: str

                def f(user: User | None):
                    return <START>user?.name<END>.upper()
                ",
        )
        .apply(RefactorKind::ExtractVariable),
        "refused: Extract variable `name_1` (the expression can't be evaluated before its statement: it is a link of an optional chain, which is evaluated as a whole)"
    );
}

#[test]
fn replaces_only_reads_the_assignment_reaches() {
    assert_snapshot(inline(
        r#"
            class Point:
                x = 0

            def other(x=1):
                return x

            def f(obj):
                x<CURSOR> = compute()
                print(x, obj.x, other(x=2), "x")  # x
                return obj

            def compute(): ...
            "#,
    ), r#"
        Inline variable `x`
        ---

        class Point:
            x = 0

        def other(x=1):
            return x

        def f(obj):
            print(compute(), obj.x, other(x=2), "x")  # x
            return obj

        def compute(): ...
        "#);
}

#[test]
fn value_stops_before_trailing_comment() {
    assert_snapshot(inline(
        "
            def f():
                x = 1  # note
                print(x<CURSOR>)
            ",
    ), "
        Inline variable `x`
        ---

        def f():
            print(1)
        ");
}

#[test]
fn pure_value_inlines_into_every_read() {
    assert_snapshot(inline(
        "
            def f(a):
                x<CURSOR> = a
                print(x)
                return x + x
            ",
    ), "
        Inline variable `x`
        ---

        def f(a):
            print(a)
            return a + a
        ");
}

#[test]
fn operator_value_is_parenthesized_under_a_tighter_operator() {
    assert_snapshot(inline(
        "
            def f(a, b):
                x<CURSOR> = a + b
                return x * 2
            ",
    ), "
        Inline variable `x`
        ---

        def f(a, b):
            return (a + b) * 2
        ");
}

#[test]
fn value_with_effects_is_refused_for_two_reads() {
    assert_snapshot(inline(
        "
            def f():
                x<CURSOR> = compute()
                print(x)
                print(x)

            def compute(): ...
            ",
    ), "refused: Inline variable `x` (its value would be evaluated once for each read, and evaluating it may have effects)");
}

#[test]
fn value_with_effects_is_refused_when_code_runs_in_between() {
    assert_snapshot(inline(
        "
            def f():
                x<CURSOR> = compute()
                log()
                return x

            def compute(): ...
            def log(): ...
            ",
    ), "refused: Inline variable `x` (code runs between the assignment and the read, which would now run before the value is evaluated)");
}

#[test]
fn value_with_effects_is_refused_after_an_earlier_call_in_the_statement() {
    assert_snapshot(inline(
        "
            def f():
                x<CURSOR> = compute()
                print(log(), x)

            def compute(): ...
            def log(): ...
            ",
    ), "refused: Inline variable `x` (something with effects is evaluated before the read, and would now run before the value)");
}

#[test]
fn value_with_effects_is_refused_into_a_loop_condition() {
    assert_snapshot(inline(
        "
            def f():
                x<CURSOR> = compute()
                while x:
                    pass

            def compute(): ...
            ",
    ), "refused: Inline variable `x` (the read can't take the value's evaluation: it is evaluated again on every iteration of the loop)");
}

#[test]
fn reassigned_variable_is_refused() {
    assert_snapshot(inline(
        "
            def f():
                x<CURSOR> = 1
                x = 2
                return x
            ",
    ), "refused: Inline variable `x` (`x` is assigned more than once)");
}

#[test]
fn augmented_variable_is_refused() {
    assert_snapshot(inline(
        "
            def f(items):
                total<CURSOR> = 0
                for item in items:
                    total += item
                return total
            ",
    ), "refused: Inline variable `total` (`total` is assigned more than once)");
}

#[test]
fn single_assignment_is_per_scope() {
    assert_snapshot(inline(
        "
            def f():
                x<CURSOR> = 1
                return x

            def g():
                x = 2
                return x
            ",
    ), "
        Inline variable `x`
        ---

        def f():
            return 1

        def g():
            x = 2
            return x
        ");
}

#[test]
fn read_that_may_see_no_value_is_refused() {
    assert_snapshot(inline(
        "
            def f(flag):
                if flag:
                    x<CURSOR> = 1
                return x
            ",
    ), "refused: Inline variable `x` (a read of `x` may see another value, or none)");
}

#[test]
fn rebound_operand_is_refused() {
    assert_snapshot(inline(
        "
            def f(a):
                x<CURSOR> = a
                a = 2
                return x
            ",
    ), "refused: Inline variable `x` (`a` may be rebound before `x` is read)");
}

#[test]
fn sole_statement_becomes_pass() {
    assert_snapshot(inline(
        "
            def f(a, lock):
                with lock:
                    x<CURSOR> = a
                return x
            ",
    ), "
        Inline variable `x`
        ---

        def f(a, lock):
            with lock:
                pass
            return a
        ");
}

#[test]
fn number_is_parenthesized_as_a_receiver() {
    assert_snapshot(inline(
        "
            def f():
                x<CURSOR> = 1
                return x.real
            ",
    ), "
        Inline variable `x`
        ---

        def f():
            return (1).real
        ");
}

#[test]
fn module_variable_imported_elsewhere_is_refused() {
    let test = RefactorTest::with_files(
        "main.py",
        "
            X<CURSOR> = 1
            print(X)
            ",
        &[("other.py", "from main import X\n")],
    );
    assert_snapshot(test.apply(RefactorKind::InlineVariable), "refused: Inline variable `X` (`X` is imported by another module)");
}

#[test]
fn module_variable_read_by_a_function() {
    assert_snapshot(inline(
        "
            X<CURSOR> = 1

            def f():
                return X
            ",
    ), "
        Inline variable `X`
        ---


        def f():
            return 1
        ");
}

#[test]
fn class_attribute_is_refused() {
    assert_snapshot(inline(
        "
            class A:
                x<CURSOR> = 1
                y = x
            ",
    ), "refused: Inline variable `x` (`x` is a class attribute, which can be read through the class and its instances)");
}

#[test]
fn parameter_is_not_offered() {
    assert_snapshot(inline(
        "
            def f(x):
                return x<CURSOR>
            ",
    ), "not offered");
}

#[test]
fn nested_function_read_of_conditional_assignment_is_refused() {
    assert_snapshot(inline(
        "
            def f(a, flag):
                if flag:
                    x<CURSOR> = a
                    return lambda: x
            ",
    ), "refused: Inline variable `x` (`x` is read by a nested function, and its assignment does not always run)");
}

#[test]
fn tuple_value_keeps_its_parentheses_as_an_argument() {
    assert_snapshot(inline(
        "
            def f(a, b):
                x<CURSOR> = a, b
                print(x)
            ",
    ), "
        Inline variable `x`
        ---

        def f(a, b):
            print((a, b))
        ");
}

#[test]
fn loop_variable_read_in_the_same_iteration() {
    assert_snapshot(inline(
        "
            def f(items):
                for item in items:
                    x<CURSOR> = item
                    print(x)
            ",
    ), "
        Inline variable `x`
        ---

        def f(items):
            for item in items:
                print(item)
        ");
}

#[test]
fn deleted_variable_is_refused() {
    assert_snapshot(inline(
        "
            def f(a):
                x<CURSOR> = a
                print(x)
                del x
            ",
    ), "refused: Inline variable `x` (`x` is deleted with `del`)");
}

/// The name the value reads is deleted too, and a `del` is not a rebinding — nothing in the
/// symbol's definitions records it. Inlining here would write `return y` below `del y`, which
/// raises where the original returned `1`.
#[test]
fn deleted_name_in_the_value_is_refused() {
    assert_snapshot(inline(
        "
            def f():
                y = 1
                <CURSOR>x = y
                del y
                return x
            ",
    ), "refused: Inline variable `x` (`y` is deleted with `del`, so a read moved past that would find nothing)");
}

/// The same when the read is in a nested function, which would call back to a name the
/// enclosing scope has since given up.
#[test]
fn deleted_name_in_the_value_is_refused_for_a_nested_read() {
    assert_snapshot(inline(
        "
            def f():
                y = 1
                <CURSOR>x = y
                def g():
                    return x
                del y
                return g
            ",
    ), "refused: Inline variable `x` (`y` is deleted with `del`, so a read moved past that would find nothing)");
}

#[test]
fn read_in_fstring_is_parenthesized() {
    assert_snapshot(inline(
        r#"
            def f(a, b):
                x<CURSOR> = a
                return f"{x}"
            "#,
    ), r#"
        Inline variable `x`
        ---

        def f(a, b):
            return f"{(a)}"
        "#);
}

#[test]
fn writes_the_inferred_type() {
    assert_snapshot(annotate(
        "
            def <CURSOR>f(x: int):
                return x + 1
            ",
        "int",
    ), "
        Add return annotation `-> int`
        ---

        def f(x: int) -> int:
            return x + 1
        ");
}

/// basedpython writes `-> T` before a `raises` clause, so the annotation goes after the
/// parameters rather than at the end of the header.
#[test]
fn the_annotation_goes_before_a_raises_clause() {
    assert_snapshot(
        RefactorTest::basedpython(
            "
                def <CURSOR>f(x: int) raises ValueError:
                    if x < 0:
                        raise ValueError
                    return x
                ",
        )
        .returning("int", None)
        .apply(RefactorKind::AddReturnAnnotation),
        "
        Add return annotation `-> int`
        ---

        def f(x: int) -> int raises ValueError:
            if x < 0:
                raise ValueError
            return x
        "
    );
}

#[test]
fn writes_none_for_a_function_returning_nothing() {
    assert_snapshot(annotate(
        "
            def <CURSOR>f(x: int):
                print(x)
            ",
        "None",
    ), "
        Add return annotation `-> None`
        ---

        def f(x: int) -> None:
            print(x)
        ");
}

#[test]
fn imports_a_type_from_another_module() {
    let test = RefactorTest::with_files(
        "main.py",
        "
            from shapes import make

            def <CURSOR>f():
                return make()
            ",
        &[(
            "shapes.py",
            "
                class Circle: ...

                def make() -> Circle: ...
                ",
        )],
    )
    .returning("Circle", Some(("import make", ", Circle")));
    assert_snapshot(test.apply(RefactorKind::AddReturnAnnotation), "
        Add return annotation `-> Circle`
        ---

        from shapes import make, Circle

        def f() -> Circle:
            return make()
        ");
}

#[test]
fn async_function_is_annotated_with_what_it_returns() {
    let test = RefactorTest::python(
        "
            async def <CURSOR>f():
                return 1
            ",
    )
    .returning("Literal[1]", Some(("", "from typing import Literal\n")));
    assert_snapshot(test.apply(RefactorKind::AddReturnAnnotation), "
        Add return annotation `-> Literal[1]`
        ---
        from typing import Literal

        async def f() -> Literal[1]:
            return 1
        ");
}

#[test]
fn annotated_function_is_not_offered() {
    assert_snapshot(annotate(
        "
            def <CURSOR>f() -> int:
                return 1
            ",
        "int",
    ), "not offered");
}

#[test]
fn body_is_not_the_header() {
    assert_snapshot(annotate(
        "
            def f():
                return <CURSOR>1
            ",
        "int",
    ), "not offered");
}

#[test]
fn basedpython_writes_the_type_in_its_own_spelling() {
    assert_snapshot(
        RefactorTest::basedpython(
            "
                def <CURSOR>f(flag: bool):
                    if flag:
                        return 1
                    return None
                ",
        )
        .returning("1 | None", None)
        .apply(RefactorKind::AddReturnAnnotation),
        "
        Add return annotation `-> 1 | None`
        ---

        def f(flag: bool) -> 1 | None:
            if flag:
                return 1
            return None
        "
    );
}

#[test]
fn adds_the_keyword() {
    assert_snapshot(to_data(
        "
            class <CURSOR>Point:
                x: int
                y: int
            ",
    ), "
        Convert to a data class
        ---

        data class Point:
            x: int
            y: int
        ");
}

#[test]
fn keyword_goes_after_other_modifiers() {
    assert_snapshot(to_data(
        "
            final class <CURSOR>Point:
                x: int
            ",
    ), "
        Convert to a data class
        ---

        final data class Point:
            x: int
        ");
}

#[test]
fn data_class_is_not_offered_to_become_one() {
    assert_snapshot(to_data(
        "
            data class <CURSOR>Point:
                x: int
            ",
    ), "not offered");
}

#[test]
fn removes_the_keyword() {
    assert_snapshot(from_data(
        "
            data class <CURSOR>Point:
                x: int
            ",
    ), "
        Convert to a plain class
        ---

        class Point:
            x: int
        ");
}

/// `@dataclass(slots=True)` builds a new class object, and the methods closed over the old
/// one, so the `__class__` cell `super()` reads no longer matches the instance.
#[test]
fn a_class_calling_bare_super_is_refused() {
    assert_snapshot(to_data(
        "
            class Base:
                def setup(self) -> None: ...

            class <CURSOR>Point(Base):
                x: int

                def setup(self) -> None:
                    super().setup()
            ",
    ), "refused: Convert to a data class (`setup` calls `super()` with no arguments, and a slotted data class is a new class its methods do not close over — the call would raise at runtime)");
}

/// `super(Point, self)` reads no cell, so it survives the new class object.
#[test]
fn a_class_calling_super_with_arguments_is_converted() {
    assert_snapshot(to_data(
        "
            class Base:
                def setup(self) -> None: ...

            class <CURSOR>Point(Base):
                x: int

                def setup(self) -> None:
                    super(Point, self).setup()
            ",
    ), "
        Convert to a data class
        ---

        class Base:
            def setup(self) -> None: ...

        data class Point(Base):
            x: int

            def setup(self) -> None:
                super(Point, self).setup()
        ");
}

/// A static method's first parameter is not a receiver, so what it assigns is not an
/// attribute of an instance of this class.
#[test]
fn a_static_method_is_not_read_as_having_a_receiver() {
    assert_snapshot(to_data(
        "
            class <CURSOR>Point:
                x: int

                @staticmethod
                def reset(other) -> None:
                    other.anything = 1
            ",
    ), "
        Convert to a data class
        ---

        data class Point:
            x: int

            @staticmethod
            def reset(other) -> None:
                other.anything = 1
        ");
}

/// Nothing reports the loss of a `field(...)` default: the plain class would simply hold the
/// descriptor, shared by every instance.
#[test]
fn a_field_default_is_refused_going_back_to_a_plain_class() {
    assert_snapshot(from_data(
        "
            from dataclasses import field

            data class <CURSOR>Bag:
                items: list[int] = field(default_factory=list)
            ",
    ), "refused: Convert to a plain class (`items` has a `field(...)` default, which only the dataclass machinery reads — a plain class would hold the descriptor itself)");
}

/// A `field` the project defines itself is an ordinary call, and its value survives losing
/// the keyword. Which function is called is asked of the checker, so the name alone does not
/// decide it.
#[test]
fn a_projects_own_field_function_is_not_the_dataclass_one() {
    assert_snapshot(from_data(
        "
            def field(default: int) -> int:
                return default

            data class <CURSOR>Bag:
                size: int = field(3)
            ",
    ), "
        Convert to a plain class
        ---

        def field(default: int) -> int:
            return default

        class Bag:
            size: int = field(3)
        ");
}

#[test]
fn removes_frozen_with_it() {
    assert_snapshot(from_data(
        "
            frozen data class <CURSOR>Point:
                x: int
            ",
    ), "
        Convert to a plain class
        ---

        class Point:
            x: int
        ");
}

#[test]
fn plain_class_is_not_offered_to_become_plain() {
    assert_snapshot(from_data(
        "
            class <CURSOR>Point:
                x: int
            ",
    ), "not offered");
}

#[test]
fn decorated_dataclass_is_refused() {
    assert_snapshot(to_data(
        "
            from dataclasses import dataclass

            @dataclass
            class <CURSOR>Point:
                x: int
            ",
    ), "refused: Convert to a data class (the class is already a data class)");
}

#[test]
fn enum_is_refused() {
    assert_snapshot(to_data(
        "
            from enum import Enum

            class <CURSOR>Color(Enum):
                RED = 1
            ",
    ), "refused: Convert to a data class (an enum is not a data class)");
}

#[test]
fn undeclared_attribute_write_is_refused() {
    assert_snapshot(to_data(
        "
            class <CURSOR>Point:
                x: int

                def move(self):
                    self.moved = True
            ",
    ), "refused: Convert to a data class (`move` assigns `self.moved`, which the class does not declare, and a slotted data class has no room for it)");
}

#[test]
fn python_file_is_not_offered() {
    assert_snapshot(
        RefactorTest::python(
            "
                class <CURSOR>Point:
                    x: int
                ",
        )
        .apply(RefactorKind::ConvertToDataClass),
        "not offered"
    );
}

// ---- module renames ----

/// The files of a project, by their paths.
struct RenameTest {
    sources: Vec<(&'static str, String)>,
}

/// The module a path is, when a module can have it.
fn module_at(path: &str) -> Option<ModuleName> {
    let path = path.trim_start_matches('/');
    let path = path.strip_suffix(".py").unwrap_or(path);
    let path = path.strip_suffix("/__init__").unwrap_or(path);
    ModuleName::new(&path.replace('/', "."))
}

/// The modules that the names and attributes of `suite` are, where `known` are the modules there
/// are.
fn module_expressions(source: &str, module: &Node, package: Option<&str>, known: &[String]) -> Vec<(u32, ModuleName)> {
    let index = index_of(source, module);
    let mut nodes = Vec::new();
    walk(module, &mut nodes);
    // what the imports bind
    let mut bound: BTreeMap<String, String> = BTreeMap::new();
    for node in &nodes {
        for alias in &node.children {
            let NodeKind::Alias { name, asname, .. } = &alias.kind else { continue };
            match &node.kind {
                NodeKind::StmtImport => match asname {
                    Some(asname) => {
                        bound.insert(asname.clone(), name.clone());
                    }
                    None => {
                        let first = name.split('.').next().unwrap_or_default().to_string();
                        bound.insert(first.clone(), first);
                    }
                },
                NodeKind::StmtImportFrom { module, level, .. } => {
                    let mut base = if *level > 0 { package.unwrap_or_default().to_string() } else { String::new() };
                    if let Some(module) = module {
                        if !base.is_empty() {
                            base.push('.');
                        }
                        base.push_str(module);
                    }
                    let target = format!("{base}.{name}");
                    bound.insert(asname.clone().unwrap_or_else(|| name.clone()), target);
                }
                _ => {}
            }
        }
    }
    let mut modules: Vec<(u32, String)> = Vec::new();
    // an attribute comes before what it is an attribute of, so the inner ones are found first
    for node in nodes.iter().rev() {
        match &node.kind {
            NodeKind::ExprName { id, ctx: ExprContext::Load } => {
                let scope = index.expression_scopes.iter().find(|(expr, _)| *expr == node.id);
                let shadowed = scope.is_some_and(|(_, scope)| {
                    *scope != 0
                        && index.scopes[*scope as usize]
                            .symbols
                            .iter()
                            .any(|symbol| symbol.name == *id && symbol.is_local)
                });
                if let (false, Some(target)) = (shadowed, bound.get(id)) {
                    if known.contains(target) {
                        modules.push((node.id, target.clone()));
                    }
                }
            }
            NodeKind::ExprAttribute { attr, .. } => {
                let value = filling(node, Field::Value)[0];
                let mut name = None;
                if let Some((_, base)) = modules.iter().find(|(expr, _)| *expr == value.id) {
                    name = Some(format!("{base}.{attr}"));
                }
                if let Some(name) = name {
                    if known.contains(&name) {
                        modules.push((node.id, name));
                    }
                }
            }
            _ => {}
        }
    }
    modules
        .into_iter()
        .map(|(expr, name)| (expr, ModuleName::new(&name).expect("a module name")))
        .collect()
}

impl RenameTest {
    fn builder() -> Self {
        RenameTest { sources: Vec::new() }
    }

    fn source(mut self, path: &'static str, source: &str) -> Self {
        self.sources.push((path, source.replacen("<CURSOR>", "", 1)));
        self
    }

    /// The project, where the search paths cover what is moved too.
    fn project(&self, moved: &[&str]) -> Project {
        let known: Vec<String> = self
            .sources
            .iter()
            .filter_map(|(path, _)| module_at(path))
            .map(|name| name.as_str().to_string())
            .collect();
        let mut files = Vec::new();
        for (position, (path, source)) in self.sources.iter().enumerate() {
            let mut tree = parse(source);
            let package = module_at(path).and_then(|name| {
                if path.ends_with("/__init__.py") { Some(name) } else { name.parent() }
            });
            let text = package.as_ref().map(|name| name.as_str());
            let modules = module_expressions(source, &tree.module, text, &known);
            files.push(ProjectFile {
                file: File { index: position as u32 },
                path: format!("/{path}"),
                suite: tree.module.children.remove(0),
                bases: package.into_iter().map(|name| (1, name)).collect(),
                modules,
            });
        }
        let mut names = Vec::new();
        for path in moved {
            if path.ends_with(".md") {
                continue;
            }
            if let Some(name) = module_at(path) {
                names.push(ModulePath { path: path.to_string(), name });
            }
        }
        Project { files, names }
    }

    /// The project after `old` is renamed to `new`, showing only the files that changed.
    fn rename_module(&self, old: &str, new: &str) -> String {
        let moves = vec![FileMove { old_path: old.to_string(), new_path: new.to_string() }];
        let result = module_rename_edits(&self.project(&[old, new]), &moves);
        let mut by_file: BTreeMap<String, (usize, Vec<&Edit>)> = BTreeMap::new();
        for file_edit in &result.edits {
            let file = file_edit.file.index as usize;
            by_file
                .entry(format!("/{}", self.sources[file].0))
                .or_insert_with(|| (file, Vec::new()))
                .1
                .push(&file_edit.edit);
        }
        let mut rendered = String::new();
        for (path, (file, mut edits)) in by_file {
            let mut text = self.sources[file].1.clone();
            // back to front, so an earlier edit's replacement cannot move a later one's range
            edits.sort_by_key(|edit| std::cmp::Reverse(edit.range.start));
            for edit in edits {
                text.replace_range(
                    edit.range.start as usize..edit.range.end as usize,
                    edit.content.as_deref().unwrap_or_default(),
                );
            }
            rendered.push_str(&format!("--- {path}\n{}\n", text.trim_end()));
        }
        for skipped in &result.skipped {
            rendered.push_str(&format!(
                "!!! /{} {}..{} {:?}\n",
                self.sources[skipped.file.index as usize].0,
                skipped.range.start,
                skipped.range.end,
                skipped.reason
            ));
        }
        if rendered.is_empty() {
            "no edits".to_string()
        } else {
            rendered
        }
    }
}

#[test]
fn from_import_follows_a_renamed_module() {
    let test = RenameTest::builder()
        .source("alpha/__init__.py", "")
        .source("alpha/util.py", "def thing(): ...")
        .source(
            "main.py",
            "\
from alpha.util import thing

thing()<CURSOR>
",
        );

    assert_snapshot(test.rename_module("/alpha/util.py", "/alpha/helpers.py"), "
        --- /main.py
        from alpha.helpers import thing

        thing()
        ");
}

/// `import alpha.util` binds `alpha`, not `alpha.util`, so the statement is only half the job:
/// every use in the body spells the module out again and has to move with it.
#[test]
fn plain_import_and_its_uses_follow_a_renamed_module() {
    let test = RenameTest::builder()
        .source("alpha/__init__.py", "")
        .source("alpha/util.py", "def thing(): ...")
        .source(
            "main.py",
            "\
import alpha.util

alpha.util.thing()
print(alpha.util)<CURSOR>
",
        );

    assert_snapshot(test.rename_module("/alpha/util.py", "/alpha/helpers.py"), "
        --- /main.py
        import alpha.helpers

        alpha.helpers.thing()
        print(alpha.helpers)
        ");
}

/// A renamed package takes everything under it, without any of those modules being named.
#[test]
fn renaming_a_package_renames_the_modules_inside_it() {
    let test = RenameTest::builder()
        .source("alpha/__init__.py", "")
        .source("alpha/util.py", "def thing(): ...")
        .source("alpha/deep/__init__.py", "")
        .source("alpha/deep/inner.py", "value = 1")
        .source(
            "main.py",
            "\
from alpha.util import thing
from alpha.deep.inner import value
from alpha import util
import alpha.util

thing()
print(value, util, alpha.util)<CURSOR>
",
        );

    assert_snapshot(test.rename_module("/alpha", "/beta"), "
        --- /main.py
        from beta.util import thing
        from beta.deep.inner import value
        from beta import util
        import beta.util

        thing()
        print(value, util, beta.util)
        ");
}

/// With an alias, the name the body uses is the alias, which the move does not touch.
#[test]
fn an_alias_is_left_alone() {
    let test = RenameTest::builder()
        .source("alpha/__init__.py", "")
        .source("alpha/util.py", "def thing(): ...")
        .source(
            "main.py",
            "\
import alpha.util as u

u.thing()<CURSOR>
",
        );

    assert_snapshot(test.rename_module("/alpha/util.py", "/alpha/helpers.py"), "
        --- /main.py
        import alpha.helpers as u

        u.thing()
        ");
}

/// A relative import keeps its dots and changes only the part after them, so long as the module
/// is still inside the package they reach.
#[test]
fn a_relative_import_is_rewritten_after_the_dots() {
    let test = RenameTest::builder()
        .source("alpha/__init__.py", "")
        .source("alpha/util.py", "def thing(): ...")
        .source(
            "alpha/main.py",
            "\
from .util import thing
from . import util

thing()
util.thing()<CURSOR>
",
        );

    assert_snapshot(test.rename_module("/alpha/util.py", "/alpha/helpers.py"), "
        --- /alpha/main.py
        from .helpers import thing
        from . import helpers

        thing()
        helpers.thing()
        ");
}

/// The check that stops this being a search and replace: the local `util` is a string that
/// happens to be spelled like the module, and renaming it would change what the function means.
#[test]
fn a_local_that_shadows_the_module_is_not_touched() {
    let test = RenameTest::builder()
        .source("alpha/__init__.py", "")
        .source("alpha/util.py", "def thing(): ...")
        .source(
            "main.py",
            "\
from alpha import util

def shadowed():
    util = \"not the module\"
    return util.upper()

util.thing()<CURSOR>
",
        );

    assert_snapshot(test.rename_module("/alpha/util.py", "/alpha/helpers.py"), r#"
        --- /main.py
        from alpha import helpers

        def shadowed():
            util = "not the module"
            return util.upper()

        helpers.thing()
        "#);
}

/// Moving a module to another package is not a rename any single import statement can express:
/// `from alpha import util` would have to become a different statement. Reported rather than
/// rewritten into something that does not mean the same thing.
#[test]
fn an_import_that_would_need_a_different_statement_is_reported() {
    let test = RenameTest::builder()
        .source("alpha/__init__.py", "")
        .source("alpha/util.py", "def thing(): ...")
        .source("beta/__init__.py", "")
        .source(
            "main.py",
            "\
from alpha import util

util.thing()<CURSOR>
",
        );

    assert_snapshot(test.rename_module("/alpha/util.py", "/beta/util.py"), "!!! /main.py 18..22 NeedsDifferentStatement");
}

/// Nothing to do for a file the search paths do not cover: it is not a module, so no import can
/// be naming it.
#[test]
fn moving_something_that_is_not_a_module_costs_nothing() {
    let test = RenameTest::builder().source("main.py", "x = 1<CURSOR>\n");

    assert_snapshot(test.rename_module("/notes.md", "/notes-old.md"), "no edits");
}

/// A move that leaves the name alone — a directory renamed to itself, a file moved between two
/// paths that spell the same module — is not a rename of anything.
#[test]
fn a_move_that_does_not_change_the_name_costs_nothing() {
    let test = RenameTest::builder().source("main.py", "x = 1<CURSOR>\n");

    assert_snapshot(test.rename_module("/alpha/util.py", "/alpha/util.py"), "no edits");
}

// ---- inlay hints ----

/// A source to hint, with what the checker says of it.
struct HintTest {
    file: HintedFile,
    range: TextRange,
    /// The places the labels link to. The position of one names it.
    targets: Vec<String>,
}

/// Where `hinted`, which is `source` with hints in brackets, has a hint, and what it says.
fn hints_in(source: &str, hinted: &str) -> Vec<(u32, String)> {
    fn matching(text: &[u8], open: usize) -> Option<usize> {
        let mut depth = 0;
        for (at, byte) in text.iter().enumerate().skip(open) {
            match byte {
                b'[' => depth += 1,
                b']' => {
                    depth -= 1;
                    if depth == 0 {
                        return Some(at);
                    }
                }
                b'\n' => return None,
                _ => {}
            }
        }
        None
    }
    fn align(
        source: &[u8],
        hinted: &[u8],
        mut i: usize,
        mut j: usize,
        found: &mut Vec<(u32, String)>,
        hopeless: &mut BTreeSet<(usize, usize)>,
    ) -> bool {
        let (start, kept) = ((i, j), found.len());
        if hopeless.contains(&start) {
            return false;
        }
        loop {
            if j == hinted.len() {
                if i == source.len() {
                    return true;
                }
                break;
            }
            if hinted[j] == b'[' {
                // a bracket of the source first, and a hint when that leads nowhere
                if i < source.len() && source[i] == b'['
                    && align(source, hinted, i + 1, j + 1, found, hopeless)
                {
                    return true;
                }
                let Some(close) = matching(hinted, j) else { break };
                let text = String::from_utf8(hinted[j + 1..close].to_vec()).expect("text");
                found.push((i as u32, text));
                j = close + 1;
            } else if i < source.len() && source[i] == hinted[j] {
                i += 1;
                j += 1;
            } else {
                break;
            }
        }
        found.truncate(kept);
        hopeless.insert(start);
        false
    }
    let mut found = Vec::new();
    let (source, hinted) = (source.trim_end(), hinted.trim_end());
    let aligned = align(source.as_bytes(), hinted.as_bytes(), 0, 0, &mut found, &mut BTreeSet::new());
    assert!(aligned, "the hints are written into the source: {hinted}");
    found
}

/// The parts of `list` between its commas.
fn between_commas(list: &str) -> Vec<String> {
    let mut parts = vec![String::new()];
    let mut depth = 0;
    for c in list.chars() {
        match c {
            '[' | '(' => depth += 1,
            ']' | ')' => depth -= 1,
            _ => {}
        }
        if c == ',' && depth == 0 {
            parts.push(String::new());
        } else {
            parts.last_mut().expect("a part").push(c);
        }
    }
    parts.iter().map(|part| part.trim().to_string()).collect()
}

fn no_facts() -> HintFacts {
    HintFacts {
        variables: Vec::new(),
        typed: Vec::new(),
        promotions: Vec::new(),
        functions: Vec::new(),
        overrides: Vec::new(),
        classes: Vec::new(),
        variances: Vec::new(),
        enum_values: Vec::new(),
        calls: Vec::new(),
        type_parameters: Vec::new(),
        unions: Vec::new(),
        revealed: Vec::new(),
        parameter_types: Vec::new(),
        inherited_types: Vec::new(),
    }
}

fn inlay_hint_test(source: &str) -> HintTest {
    inlay_hint_test_of(source, false, &[])
}

fn inlay_hint_test_of(source: &str, is_basedpython: bool, modifiers: &[Modifier]) -> HintTest {
    let mut text = dedent(source).into_owned();
    let start = take_marker(&mut text, "<START>").unwrap_or(0);
    let end = take_marker(&mut text, "<END>").unwrap_or(text.len() as u32);
    let mut tree = parse_based(&text, modifiers);
    HintTest {
        file: HintedFile {
            file: File { index: 0 },
            suite: tree.module.children.remove(0),
            tokens: tree.tokens,
            source: text,
            is_basedpython,
            facts: no_facts(),
        },
        range: TextRange { start, end },
        targets: Vec::new(),
    }
}

/// The module that a file is, by the file's path.
fn module_of_path(path: &str) -> String {
    let path = path.strip_prefix("stdlib/").unwrap_or(path);
    let path = path.strip_suffix(".py").or(path.strip_suffix(".byi")).or(path.strip_suffix(".pyi")).unwrap_or(path);
    path.strip_suffix("/__init__").unwrap_or(path).replace('/', ".")
}

/// Whether `label` can be written in a source.
fn is_writable(label: &str) -> bool {
    label != "property" && !label.contains('@') && !parse(&format!("x: {label}")).has_invalid_syntax
}

impl HintTest {
    /// The place that the links call `target`.
    fn place(&mut self, target: &str) -> NavigationTarget {
        let at = match self.targets.iter().position(|known| known == target) {
            Some(at) => at,
            None => {
                self.targets.push(target.to_string());
                self.targets.len() - 1
            }
        };
        let range = TextRange::empty(at as u32);
        NavigationTarget { file: File { index: 1000 }, focus_range: range, full_range: range }
    }

    /// The definition at `target` of what is written `text`.
    fn definition(&mut self, text: &str, target: &str) -> TypeDefinition {
        let id = self.place(target).focus_range.start;
        let (path, rest) = target.split_once(':').expect("a path and a place");
        let is_vendored = path.starts_with("stdlib/");
        let name = if is_vendored { rest } else { text.rsplit('.').next().unwrap_or(text) };
        let module = module_of_path(path);
        let is_own = path == "main.py";
        TypeDefinition {
            id,
            is_global: !target.ends_with(" nested"),
            file: File { index: if is_own { 0 } else { 1 } },
            name: Some(name.to_string()),
            module: Some(DefiningModule { is_builtins: module == "builtins", name: module }),
        }
    }

    /// The rendered type `label`, whose parts link as the first of `links` say.
    fn type_label(&mut self, label: &str, links: &mut Vec<(&str, &str)>) -> TypeLabel {
        let mut spans = Vec::new();
        let mut from = 0;
        while let Some((text, target)) = links.first().copied() {
            let Some(at) = label[from..].find(text) else { break };
            links.remove(0);
            let start = from + at;
            from = start + text.len();
            spans.push(LabelSpan {
                range: TextRange { start: start as u32, end: from as u32 },
                detail: TypeDetail::Type(NamedType {
                    is_none: text == "None",
                    definition: Some(self.definition(text, target)),
                    target: Some(self.place(target)),
                }),
            });
        }
        TypeLabel { label: label.to_string(), is_valid_syntax: is_writable(label), spans }
    }

    /// What the scope of the module has, where `defined` are the definitions that are known.
    fn members(&mut self, defined: &[(String, String, u32)]) -> Vec<ScopeMember> {
        let mut members = Vec::new();
        for statement in &self.file.suite.children {
            match &statement.kind {
                NodeKind::StmtClassDef { name, .. } => {
                    let own = defined.iter().find(|(module, known, _)| module == "main" && known == name);
                    let definition = Some(own.map_or(500_000 + statement.id, |(_, _, id)| *id));
                    members.push(ScopeMember { name: name.clone(), definition });
                }
                NodeKind::StmtImportFrom { module: Some(module), .. } => {
                    for alias in &statement.children {
                        if let NodeKind::Alias { name, .. } = &alias.kind {
                            // what a module hands on is defined in another one
                            let same: Vec<&(String, String, u32)> =
                                defined.iter().filter(|(_, known, _)| known == name).collect();
                            let found = same.iter().find(|(of, _, _)| of == module).or(same.first());
                            let definition = Some(found.map_or(600_000 + alias.id, |(_, _, id)| *id));
                            members.push(ScopeMember { name: name.clone(), definition });
                        }
                    }
                }
                _ => {
                    let mut names = Vec::new();
                    bound_in(statement, &mut names);
                    for name in names {
                        members.push(ScopeMember { name, definition: None });
                    }
                }
            }
        }
        members
    }

    /// What it takes to use `symbol` of `module` in the file.
    fn import_answer(&self, module: &str, symbol: &str, qualified: bool) -> ImportAnswer {
        let mut action = ImportAction {
            import: Some(if qualified {
                Edit::insertion(format!("import {module}\n"), 0)
            } else {
                Edit::insertion(format!("from {module} import {symbol}\n"), 0)
            }),
            symbol_text: if qualified { format!("{module}.{symbol}") } else { symbol.to_string() },
        };
        for statement in &self.file.suite.children {
            match &statement.kind {
                NodeKind::StmtImport => {
                    let names = statement.children.iter().map(|alias| match &alias.kind {
                        NodeKind::Alias { name, .. } => name.clone(),
                        _ => String::new(),
                    });
                    if names.into_iter().any(|name| name == module) {
                        action = ImportAction { import: None, symbol_text: format!("{module}.{symbol}") };
                        break;
                    }
                }
                NodeKind::StmtImportFrom { module: Some(of), .. } if of == module && !qualified => {
                    let has = text_at(&self.file.source, statement.range).ends_with(symbol);
                    action = ImportAction {
                        import: if has {
                            None
                        } else {
                            Some(Edit::insertion(format!(", {symbol}"), statement.range.end))
                        },
                        symbol_text: symbol.to_string(),
                    };
                }
                _ => {}
            }
        }
        ImportAnswer { module: module.to_string(), symbol: symbol.to_string(), qualified, action }
    }

    /// The checker knows what `hinted` says, which is the source with its answers in brackets:
    /// `x[: int]` for a type, `f([x=]1)` for a parameter, `f[[int]](1)` for type arguments. What
    /// the answers name links as `links` say, in the same order; one that starts with `~` is known
    /// and links to nothing.
    fn knowing(mut self, hinted: &str, links: &[(&str, &str)]) -> Self {
        let hinted = dedent(hinted).into_owned();
        let mut links = links.to_vec();
        for (at, said) in hints_in(&self.file.source, &hinted) {
            let mut none = Vec::new();
            let (said, links) = match said.strip_prefix('~') {
                Some(said) => (said.to_string(), &mut none),
                None => (said, &mut links),
            };
            if let Some(label) = said.strip_prefix(": ") {
                if !self.know_parameter(at, label) {
                    self.know_variable(at, label, links);
                }
            } else if let Some(returned) = said.strip_prefix(" -> ") {
                self.function_facts(at).returned = Some(returned.to_string());
            } else if let Some(raised) = said.strip_prefix(" raises ") {
                self.function_facts(at).raises = Some(raised.to_string());
            } else if said.starts_with(" | ") {
                let expr = self.expression_ending(at);
                self.file.facts.typed.push(expr);
                self.file.facts.promotions.push(Promotion {
                    expr,
                    siblings: Vec::new(),
                    arms: said.trim_start().to_string(),
                });
            } else if let Some(name) = said.strip_suffix('=') {
                let target = links.first().filter(|(text, _)| *text == name).map(|(_, target)| *target);
                if target.is_some() {
                    links.remove(0);
                }
                let target = target.map(|target| self.place(target));
                self.know_argument(at, name, target);
            } else if let Some(list) = said.strip_prefix('[').and_then(|said| said.strip_suffix(']')) {
                let mut type_arguments = Vec::new();
                for (position, text) in between_commas(list).into_iter().enumerate() {
                    let target = links.first().filter(|(linked, _)| *linked == text).map(|(_, target)| *target);
                    if target.is_some() {
                        links.remove(0);
                    }
                    type_arguments.push(TypeArgument {
                        parameter: format!("T{position}"),
                        is_unknown: text == "Unknown",
                        target: target.map(|target| self.place(target)),
                        text,
                    });
                }
                self.know_type_arguments(at, type_arguments);
            } else if let Some(value) = said.strip_prefix(' ') {
                self.know_enum_value(at, value);
            } else {
                panic!("no answer reads `{said}`");
            }
        }
        assert!(links.is_empty(), "links to nothing: {links:?}");
        self
    }

    fn know_variable(&mut self, at: u32, label: &str, links: &mut Vec<(&str, &str)>) {
        let plain = self.type_label(label, &mut links.clone());
        let named = self.type_label(label, links);
        let mut defined: Vec<(String, String, u32)> = Vec::new();
        for span in &plain.spans {
            if let TypeDetail::Type(NamedType { definition: Some(definition), .. }) = &span.detail {
                let module = if definition.file.index == 0 {
                    "main".to_string()
                } else {
                    definition.module.as_ref().map_or(String::new(), |module| module.name.clone())
                };
                defined.push((module, definition.name.clone().unwrap_or_default(), definition.id));
            }
        }
        let mut imports = Vec::new();
        for (module, name, _) in &defined {
            for qualified in [false, true] {
                imports.push(self.import_answer(module, name, qualified));
            }
        }
        let members = self.members(&defined);
        let mut nodes = Vec::new();
        walk(&self.file.suite, &mut nodes);
        let target = nodes
            .iter()
            .find(|node| {
                node.range.end == at
                    && matches!(node.kind, NodeKind::ExprName { .. } | NodeKind::ExprAttribute { .. })
            })
            .expect("a variable")
            .id;
        self.file.facts.variables.push((target, VariableType { plain, named, members, imports }));
    }

    /// The expression that ends at `at`.
    fn expression_ending(&self, at: u32) -> u32 {
        let mut nodes = Vec::new();
        walk(&self.file.suite, &mut nodes);
        nodes
            .iter()
            .find(|node| node.range.end == at && node.kind.is_expression())
            .expect("an expression")
            .id
    }

    /// Whether a parameter's name ends at `at`, whose type `ty` is then known.
    fn know_parameter(&mut self, at: u32, ty: &str) -> bool {
        let mut nodes = Vec::new();
        walk(&self.file.suite, &mut nodes);
        for owner in nodes {
            for parameters in filling(owner, Field::Parameters) {
                for parameter in &parameters.children {
                    if matches!(&parameter.kind, NodeKind::Parameter { name_range, .. } if name_range.end == at) {
                        let known = (parameter.id, ty.to_string());
                        if matches!(owner.kind, NodeKind::ExprLambda) {
                            self.file.facts.parameter_types.push(known);
                        } else {
                            self.file.facts.inherited_types.push(known);
                        }
                        return true;
                    }
                }
            }
        }
        false
    }

    /// The facts of the function whose parameters, or whose return annotation, end at `at`.
    fn function_facts(&mut self, at: u32) -> &mut FunctionFacts {
        let mut nodes = Vec::new();
        walk(&self.file.suite, &mut nodes);
        let function = nodes
            .iter()
            .find(|node| {
                matches!(node.kind, NodeKind::StmtFunctionDef { .. })
                    && node.children.iter().any(|child| {
                        matches!(child.field, Field::Parameters | Field::Returns) && child.outer.end == at
                    })
            })
            .expect("a function")
            .id;
        self.facts_of_function(function)
    }

    fn facts_of_function(&mut self, function: u32) -> &mut FunctionFacts {
        let functions = &mut self.file.facts.functions;
        let at = match functions.iter().position(|(known, _)| *known == function) {
            Some(at) => at,
            None => {
                let facts = FunctionFacts {
                    raises: None,
                    returned: None,
                    reified: Vec::new(),
                    implicit_parameters: Vec::new(),
                };
                functions.push((function, facts));
                functions.len() - 1
            }
        };
        &mut functions[at].1
    }

    /// The enum member whose value ends at `at` takes `value`.
    fn know_enum_value(&mut self, at: u32, value: &str) {
        let mut nodes = Vec::new();
        walk(&self.file.suite, &mut nodes);
        for class in nodes {
            if !matches!(class.kind, NodeKind::StmtClassDef { .. }) {
                continue;
            }
            for body in filling(class, Field::Body) {
                for statement in body.children.iter().filter(|statement| statement.range.end == at) {
                    let name = filling(statement, Field::Target)
                        .first()
                        .map_or(statement.range, |target| target.range);
                    self.file.facts.classes.push(class.id);
                    self.file.facts.enum_values.push(EnumValue {
                        class: class.id,
                        name: text_at(&self.file.source, name).to_string(),
                        value: Some(value.to_string()),
                    });
                    return;
                }
            }
        }
        panic!("an enum member ends at {at}");
    }

    /// The facts of the call `call`.
    fn call_facts(&mut self, call: u32) -> &mut CallFacts {
        let calls = &mut self.file.facts.calls;
        let at = match calls.iter().position(|(known, _)| *known == call) {
            Some(at) => at,
            None => {
                let facts = CallFacts {
                    reveals_type: false,
                    type_arguments: Vec::new(),
                    argument_names: Vec::new(),
                    context_arguments: Vec::new(),
                };
                calls.push((call, facts));
                calls.len() - 1
            }
        };
        &mut calls[at].1
    }

    fn know_argument(&mut self, at: u32, name: &str, target: Option<NavigationTarget>) {
        let mut found = None;
        let mut nodes = Vec::new();
        walk(&self.file.suite, &mut nodes);
        for call in nodes {
            for arguments in filling(call, Field::Arguments) {
                let positional = filling(arguments, Field::Arg);
                if let Some(index) = positional.iter().position(|argument| argument.range.start == at || argument.outer.start == at) {
                    if matches!(call.kind, NodeKind::ExprCall { .. }) {
                        found = Some((call.id, index as u32));
                    }
                }
            }
        }
        let (call, index) = found.expect("an argument");
        let argument = ArgumentName { name: name.to_string(), target };
        self.call_facts(call).argument_names.push((index, argument));
    }

    fn know_type_arguments(&mut self, at: u32, type_arguments: Vec<TypeArgument>) {
        let mut nodes = Vec::new();
        walk(&self.file.suite, &mut nodes);
        let call = nodes
            .iter()
            .find(|node| {
                matches!(node.kind, NodeKind::ExprCall { .. })
                    && filling(node, Field::Func).iter().any(|callee| callee.range.end == at)
            })
            .expect("a call")
            .id;
        self.call_facts(call).type_arguments = type_arguments;
    }

    /// The hints are written into the source as `hinted` has them, their labels link as `links`
    /// say, and the source reads `edited` once their edits are made.
    fn assert_hints(&self, hinted: &str, links: &[(&str, &str)], edited: Option<&str>) {
        self.assert_hints_with(&InlayHintSettings::default(), hinted, links, edited);
    }

    fn assert_hints_with(
        &self,
        settings: &InlayHintSettings,
        hinted: &str,
        links: &[(&str, &str)],
        edited: Option<&str>,
    ) {
        let hints = inlay_hints(&self.file, self.range, settings);
        assert!(hints.windows(2).all(|pair| pair[0].position <= pair[1].position));
        let mut text = self.file.source.clone();
        let mut offset = 0;
        let mut linked: Vec<(String, String)> = Vec::new();
        let mut edits = Vec::new();
        for hint in &hints {
            let mut written = "[".to_string();
            // padding is drawn by the client rather than carried in the label
            if hint.padding_left {
                written.push(' ');
            }
            for part in hint.label.parts() {
                if let Some(target) = part.target() {
                    let target = self.targets[target.focus_range.start as usize].clone();
                    linked.push((part.text().to_string(), target));
                }
                written.push_str(part.text());
            }
            if hint.padding_right {
                written.push(' ');
            }
            let label: String = hint.label.parts().iter().map(|part| part.text()).collect();
            assert!(!label.is_empty() && !label.starts_with(' ') && !label.ends_with(' '));
            written.push(']');
            text.insert_str(hint.position as usize + offset, &written);
            offset += written.len();
            edits.extend(hint.text_edits.iter());
        }
        assert_eq!(text.trim_end(), dedent(hinted).trim_end());
        let linked: Vec<(&str, &str)> =
            linked.iter().map(|(text, target)| (text.as_str(), target.as_str())).collect();
        assert_eq!(linked, links);
        let mut after = self.file.source.clone();
        edits.sort_by_key(|edit| edit.range.start);
        for edit in edits.iter().rev() {
            after.replace_range(edit.range.start as usize..edit.range.end as usize, &edit.new_text);
        }
        if !self.file.is_basedpython && !parse(&self.file.source).has_invalid_syntax {
            assert!(!parse(&after).has_invalid_syntax, "an edit breaks the source: {after}");
        }
        match edited {
            Some(edited) => assert_eq!(after.trim_end(), dedent(edited).trim_end()),
            None => assert!(edits.is_empty(), "no hint edits: {after}"),
        }
    }

    /// Every hint as `«label»`, with a space the client draws written as `_` and a space the label
    /// itself carries left as a space.
    fn padded_hints(&self, settings: &InlayHintSettings) -> String {
        inlay_hints(&self.file, self.range, settings)
            .iter()
            .map(|hint| {
                let label: String = hint.label.parts().iter().map(|part| part.text()).collect();
                let padding = |padded: bool| if padded { "_" } else { "" };
                format!("«{}{label}{}»", padding(hint.padding_left), padding(hint.padding_right))
            })
            .collect::<Vec<_>>()
            .join("\n")
    }
}

#[test]
fn test_assign_statement() {
    let source = "
        def i(x: int, /) -> int:
            return x

        x = 1
        y = x
        z = i(1)
        w = z
        aa = b'foo'
        bb = aa
    ";
    let hinted = r#"
        def i(x: int, /) -> int:
            return x

        x = 1
        y[: Literal[1]] = x
        z[: int] = i(1)
        w[: int] = z
        aa = b'foo'
        bb[: Literal[b"foo"]] = aa
    "#;
    let links = [
        ("Literal", "stdlib/typing.byi:Literal"),
        ("1", "stdlib/builtins.byi:int"),
        ("int", "stdlib/builtins.byi:int"),
        ("int", "stdlib/builtins.byi:int"),
        ("Literal", "stdlib/typing.byi:Literal"),
        (r#"b"foo""#, "stdlib/builtins.byi:bytes"),
    ];
    let known = r#"
        def i(x: int, /) -> int:
            return x

        x[~: int] = 1
        y[: Literal[1]] = x
        z[: int] = i(1)
        w[: int] = z
        aa[~: int] = b'foo'
        bb[: Literal[b"foo"]] = aa
    "#;
    let test = inlay_hint_test(source).knowing(known, &links);
    let edited = r#"        from typing import Literal

        def i(x: int, /) -> int:
            return x

        x = 1
        y: Literal[1] = x
        z: int = i(1)
        w: int = z
        aa = b'foo'
        bb: Literal[b"foo"] = aa
    "#;
    test.assert_hints(hinted, &links, Some(edited));
}

#[test]
fn test_unpacked_tuple_assignment() {
    let source = "
        def i(x: int, /) -> int:
            return x
        def s(x: str, /) -> str:
            return x

        x1, y1 = (1, 'abc')
        x2, y2 = (x1, y1)
        x3, y3 = (i(1), s('abc'))
        x4, y4 = (x3, y3)
    ";
    let hinted = r#"
        def i(x: int, /) -> int:
            return x
        def s(x: str, /) -> str:
            return x

        x1, y1 = (1, 'abc')
        x2[: Literal[1]], y2[: Literal["abc"]] = (x1, y1)
        x3[: int], y3[: str] = (i(1), s('abc'))
        x4[: int], y4[: str] = (x3, y3)
    "#;
    let known = r#"
        def i(x: int, /) -> int:
            return x
        def s(x: str, /) -> str:
            return x

        x1[~: int], y1[~: str] = (1, 'abc')
        x2[: Literal[1]], y2[: Literal["abc"]] = (x1, y1)
        x3[: int], y3[: str] = (i(1), s('abc'))
        x4[: int], y4[: str] = (x3, y3)
    "#;
    let links = [
        ("Literal", "stdlib/typing.byi:Literal"),
        ("1", "stdlib/builtins.byi:int"),
        ("Literal", "stdlib/typing.byi:Literal"),
        (r#""abc""#, "stdlib/builtins.byi:str"),
        ("int", "stdlib/builtins.byi:int"),
        ("str", "stdlib/builtins.byi:str"),
        ("int", "stdlib/builtins.byi:int"),
        ("str", "stdlib/builtins.byi:str"),
    ];
    let test = inlay_hint_test(source).knowing(known, &links);
    test.assert_hints(hinted, &links, None);
}

#[test]
fn test_starred_unpacked_tuple_assignment() {
    let source = "
        def foo(x: tuple[int, ...]):
            (a, *b) = x
    ";
    let hinted = "
        def foo(x: tuple[int, ...]):
            (a[: int], *b[: list[int]]) = x
    ";
    let links = [
        ("int", "stdlib/builtins.byi:int"),
        ("list", "stdlib/builtins.byi:list"),
        ("int", "stdlib/builtins.byi:int"),
    ];
    let test = inlay_hint_test(source).knowing(hinted, &links);
    test.assert_hints(hinted, &links, None);
}

#[test]
fn test_leading_underscore_variable_assignment_has_no_type_inlay_hint() {
    let source = "
        def i(x: int, /) -> int:
            return x

        _ = i(1)
        _ignored = i(1)
        __ignored = i(1)
    ";
    let hinted = "
        def i(x: int, /) -> int:
            return x

        _ = i(1)
        _ignored = i(1)
        __ignored = i(1)
    ";
    let known = "
        def i(x: int, /) -> int:
            return x

        _[~: i] = i(1)
        _ignored[~: i] = i(1)
        __ignored[~: i] = i(1)
    ";
    let test = inlay_hint_test(source).knowing(known, &[]);
    test.assert_hints(hinted, &[], None);
}

#[test]
fn test_leading_underscore_variable_in_tuple_assignment_has_no_type_inlay_hint() {
    let source = "
        def i(x: int, /) -> int:
            return x
        def s(x: str, /) -> str:
            return x

        x, _ignored = (i(1), s('abc'))
        __ignored, y = (i(1), s('abc'))
    ";
    let hinted = "
        def i(x: int, /) -> int:
            return x
        def s(x: str, /) -> str:
            return x

        x[: int], _ignored = (i(1), s('abc'))
        __ignored, y[: str] = (i(1), s('abc'))
    ";
    let links = [
        ("int", "stdlib/builtins.byi:int"),
        ("str", "stdlib/builtins.byi:str"),
    ];
    let known = "
        def i(x: int, /) -> int:
            return x
        def s(x: str, /) -> str:
            return x

        x[: int], _ignored[~: str] = (i(1), s('abc'))
        __ignored[~: int], y[: str] = (i(1), s('abc'))
    ";
    let test = inlay_hint_test(source).knowing(known, &links);
    test.assert_hints(hinted, &links, None);
}

#[test]
fn test_dunder_variable_assignment_has_type_inlay_hint() {
    let source = "
        def i(x: int, /) -> int:
            return x

        __special__ = i(1)
    ";
    let hinted = "
        def i(x: int, /) -> int:
            return x

        __special__[: int] = i(1)
    ";
    let links = [
        ("int", "stdlib/builtins.byi:int"),
    ];
    let test = inlay_hint_test(source).knowing(hinted, &links);
    let edited = "
        def i(x: int, /) -> int:
            return x

        __special__: int = i(1)
    ";
    test.assert_hints(hinted, &links, Some(edited));
}

#[test]
fn test_multiple_assignment() {
    let source = "
        def i(x: int, /) -> int:
            return x
        def s(x: str, /) -> str:
            return x

        x1, y1 = 1, 'abc'
        x2, y2 = x1, y1
        x3, y3 = i(1), s('abc')
        x4, y4 = x3, y3
    ";
    let hinted = r#"
        def i(x: int, /) -> int:
            return x
        def s(x: str, /) -> str:
            return x

        x1, y1 = 1, 'abc'
        x2[: Literal[1]], y2[: Literal["abc"]] = x1, y1
        x3[: int], y3[: str] = i(1), s('abc')
        x4[: int], y4[: str] = x3, y3
    "#;
    let links = [
        ("Literal", "stdlib/typing.byi:Literal"),
        ("1", "stdlib/builtins.byi:int"),
        ("Literal", "stdlib/typing.byi:Literal"),
        (r#""abc""#, "stdlib/builtins.byi:str"),
        ("int", "stdlib/builtins.byi:int"),
        ("str", "stdlib/builtins.byi:str"),
        ("int", "stdlib/builtins.byi:int"),
        ("str", "stdlib/builtins.byi:str"),
    ];
    let known = r#"
        def i(x: int, /) -> int:
            return x
        def s(x: str, /) -> str:
            return x

        x1[~: Literal[1]], y1[~: Literal["abc"]] = 1, 'abc'
        x2[: Literal[1]], y2[: Literal["abc"]] = x1, y1
        x3[: int], y3[: str] = i(1), s('abc')
        x4[: int], y4[: str] = x3, y3
    "#;
    let test = inlay_hint_test(source).knowing(known, &links);
    test.assert_hints(hinted, &links, None);
}

#[test]
fn test_tuple_assignment() {
    let source = "
        def i(x: int, /) -> int:
            return x
        def s(x: str, /) -> str:
            return x

        x = (1, 'abc')
        y = x
        z = (i(1), s('abc'))
        w = z
    ";
    let hinted = r#"
        def i(x: int, /) -> int:
            return x
        def s(x: str, /) -> str:
            return x

        x = (1, 'abc')
        y[: tuple[Literal[1], Literal["abc"]]] = x
        z[: tuple[int, str]] = (i(1), s('abc'))
        w[: tuple[int, str]] = z
    "#;
    let links = [
        ("tuple", "stdlib/builtins.byi:tuple"),
        ("Literal", "stdlib/typing.byi:Literal"),
        ("1", "stdlib/builtins.byi:int"),
        ("Literal", "stdlib/typing.byi:Literal"),
        (r#""abc""#, "stdlib/builtins.byi:str"),
        ("tuple", "stdlib/builtins.byi:tuple"),
        ("int", "stdlib/builtins.byi:int"),
        ("str", "stdlib/builtins.byi:str"),
        ("tuple", "stdlib/builtins.byi:tuple"),
        ("int", "stdlib/builtins.byi:int"),
        ("str", "stdlib/builtins.byi:str"),
    ];
    let known = r#"
        def i(x: int, /) -> int:
            return x
        def s(x: str, /) -> str:
            return x

        x[~: int] = (1, 'abc')
        y[: tuple[Literal[1], Literal["abc"]]] = x
        z[: tuple[int, str]] = (i(1), s('abc'))
        w[: tuple[int, str]] = z
    "#;
    let test = inlay_hint_test(source).knowing(known, &links);
    let edited = r#"        from typing import Literal

        def i(x: int, /) -> int:
            return x
        def s(x: str, /) -> str:
            return x

        x = (1, 'abc')
        y: tuple[Literal[1], Literal["abc"]] = x
        z: tuple[int, str] = (i(1), s('abc'))
        w: tuple[int, str] = z
    "#;
    test.assert_hints(hinted, &links, Some(edited));
}

#[test]
fn test_nested_tuple_assignment() {
    let source = "
        def i(x: int, /) -> int:
            return x
        def s(x: str, /) -> str:
            return x

        x1, (y1, z1) = (1, ('abc', 2))
        x2, (y2, z2) = (x1, (y1, z1))
        x3, (y3, z3) = (i(1), (s('abc'), i(2)))
        x4, (y4, z4) = (x3, (y3, z3))";
    let hinted = r#"
        def i(x: int, /) -> int:
            return x
        def s(x: str, /) -> str:
            return x

        x1, (y1, z1) = (1, ('abc', 2))
        x2[: Literal[1]], (y2[: Literal["abc"]], z2[: Literal[2]]) = (x1, (y1, z1))
        x3[: int], (y3[: str], z3[: int]) = (i(1), (s('abc'), i(2)))
        x4[: int], (y4[: str], z4[: int]) = (x3, (y3, z3))
    "#;
    let known = r#"
        def i(x: int, /) -> int:
            return x
        def s(x: str, /) -> str:
            return x

        x1[~: int], (y1[~: str], z1[~: int]) = (1, ('abc', 2))
        x2[: Literal[1]], (y2[: Literal["abc"]], z2[: Literal[2]]) = (x1, (y1, z1))
        x3[: int], (y3[: str], z3[: int]) = (i(1), (s('abc'), i(2)))
        x4[: int], (y4[: str], z4[: int]) = (x3, (y3, z3))
    "#;
    let links = [
        ("Literal", "stdlib/typing.byi:Literal"),
        ("1", "stdlib/builtins.byi:int"),
        ("Literal", "stdlib/typing.byi:Literal"),
        (r#""abc""#, "stdlib/builtins.byi:str"),
        ("Literal", "stdlib/typing.byi:Literal"),
        ("2", "stdlib/builtins.byi:int"),
        ("int", "stdlib/builtins.byi:int"),
        ("str", "stdlib/builtins.byi:str"),
        ("int", "stdlib/builtins.byi:int"),
        ("int", "stdlib/builtins.byi:int"),
        ("str", "stdlib/builtins.byi:str"),
        ("int", "stdlib/builtins.byi:int"),
    ];
    let test = inlay_hint_test(source).knowing(known, &links);
    test.assert_hints(hinted, &links, None);
}

#[test]
fn test_assign_statement_with_type_annotation() {
    let source = "
        def i(x: int, /) -> int:
            return x

        x: int = 1
        y = x
        z: int = i(1)
        w = z";
    let hinted = "
        def i(x: int, /) -> int:
            return x

        x: int = 1
        y[: Literal[1]] = x
        z: int = i(1)
        w[: int] = z
    ";
    let links = [
        ("Literal", "stdlib/typing.byi:Literal"),
        ("1", "stdlib/builtins.byi:int"),
        ("int", "stdlib/builtins.byi:int"),
    ];
    let known = "
        def i(x: int, /) -> int:
            return x

        x[~: int]: int = 1
        y[: Literal[1]] = x
        z[~: int]: int = i(1)
        w[: int] = z
    ";
    let test = inlay_hint_test(source).knowing(known, &links);
    let edited = "        from typing import Literal

        def i(x: int, /) -> int:
            return x

        x: int = 1
        y: Literal[1] = x
        z: int = i(1)
        w: int = z
    ";
    test.assert_hints(hinted, &links, Some(edited));
}

#[test]
fn test_assign_statement_out_of_range() {
    let source = "
        def i(x: int, /) -> int:
            return x
        <START>x = i(1)<END>
        z = x";
    let hinted = "
        def i(x: int, /) -> int:
            return x
        x[: int] = i(1)
        z = x
    ";
    let links = [
        ("int", "stdlib/builtins.byi:int"),
    ];
    let known = "
        def i(x: int, /) -> int:
            return x
        x[: int] = i(1)
        z[~: int] = x
    ";
    let test = inlay_hint_test(source).knowing(known, &links);
    let edited = "
        def i(x: int, /) -> int:
            return x
        x: int = i(1)
        z = x
    ";
    test.assert_hints(hinted, &links, Some(edited));
}

#[test]
fn test_assign_attribute_of_instance() {
    let source = "
        class A:
            def __init__(self, y):
                self.x = int(1)
                self.y = y

        a = A(2)
        a.y = int(3)
    ";
    let hinted = "
        class A:
            def __init__(self, y):
                self.x = int(1)
                self.y[: y@__init__] = y

        a = A([y=]2)
        a.y = int(3)
    ";
    let links = [
        ("y", "main.py:3:24"),
    ];
    let known = "
        class A:
            def __init__(self, y):
                self.x = int(1)
                self.y[: y@__init__] = y

        a[~: A] = A([y=]2)
        a.y = int(3)
    ";
    let test = inlay_hint_test(source).knowing(known, &links);
    let edited = "
        class A:
            def __init__(self, y):
                self.x = int(1)
                self.y = y

        a = A(y=2)
        a.y = int(3)
    ";
    test.assert_hints(hinted, &links, Some(edited));
}

#[test]
fn test_match_name_binding() {
    let source = r#"
        def my_func(command: str):
            match command.split():
                case ["get", ab]:
                    x = ab
    "#;
    let hinted = r#"
        def my_func(command: str):
            match command.split():
                case ["get", ab]:
                    x[: str] = ab
    "#;
    let links = [
        ("str", "stdlib/builtins.byi:str"),
    ];
    let test = inlay_hint_test(source).knowing(hinted, &links);
    let edited = r#"
        def my_func(command: str):
            match command.split():
                case ["get", ab]:
                    x: str = ab
    "#;
    test.assert_hints(hinted, &links, Some(edited));
}

#[test]
fn test_match_rest_binding() {
    let source = r#"
        def my_func(command: str):
            match command.split():
                case ["get", *ab]:
                    x = ab
    "#;
    let hinted = r#"
        def my_func(command: str):
            match command.split():
                case ["get", *ab]:
                    x[: list[str]] = ab
    "#;
    let links = [
        ("list", "stdlib/builtins.byi:list"),
        ("str", "stdlib/builtins.byi:str"),
    ];
    let test = inlay_hint_test(source).knowing(hinted, &links);
    let edited = r#"
        def my_func(command: str):
            match command.split():
                case ["get", *ab]:
                    x: list[str] = ab
    "#;
    test.assert_hints(hinted, &links, Some(edited));
}

#[test]
fn test_match_as_binding() {
    let source = r#"
        def my_func(command: str):
            match command.split():
                case ["get", ("a" | "b") as ab]:
                    x = ab
    "#;
    let hinted = r#"
        def my_func(command: str):
            match command.split():
                case ["get", ("a" | "b") as ab]:
                    x[: Literal["a", "b"]] = ab
    "#;
    let links = [
        ("Literal", "stdlib/typing.byi:Literal"),
        (r#""a""#, "stdlib/builtins.byi:str"),
        (r#""b""#, "stdlib/builtins.byi:str"),
    ];
    let test = inlay_hint_test(source).knowing(hinted, &links);
    let edited = r#"        from typing import Literal

        def my_func(command: str):
            match command.split():
                case ["get", ("a" | "b") as ab]:
                    x: Literal["a", "b"] = ab
    "#;
    test.assert_hints(hinted, &links, Some(edited));
}

#[test]
fn test_match_keyword_binding() {
    let source = r#"
        class Click:
            __match_args__ = ("position", "button")
            def __init__(self, pos, btn):
                self.position: int = pos
                self.button: str = btn

        def my_func(event: Click):
            match event:
                case Click(x, button=ab):
                    x = ab
    "#;
    let hinted = r#"
        class Click:
            __match_args__ = ("position", "button")
            def __init__(self, pos, btn):
                self.position: int = pos
                self.button: str = btn

        def my_func(event: Click):
            match event:
                case Click(x, button=ab):
                    x[: str] = ab
    "#;
    let links = [
        ("str", "stdlib/builtins.byi:str"),
    ];
    let known = r#"
        class Click:
            __match_args__[~: int] = ("position", "button")
            def __init__(self, pos, btn):
                self.position: int = pos
                self.button: str = btn

        def my_func(event: Click):
            match event:
                case Click(x, button=ab):
                    x[: str] = ab
    "#;
    let test = inlay_hint_test(source).knowing(known, &links);
    let edited = r#"
        class Click:
            __match_args__ = ("position", "button")
            def __init__(self, pos, btn):
                self.position: int = pos
                self.button: str = btn

        def my_func(event: Click):
            match event:
                case Click(x, button=ab):
                    x: str = ab
    "#;
    test.assert_hints(hinted, &links, Some(edited));
}

#[test]
fn test_typevar_name_binding() {
    let source = "
        type Alias1[AB: int = bool] = tuple[AB, list[AB]]
    ";
    let hinted = "
        type Alias1[AB: int = bool] = tuple[AB, list[AB]]
    ";
    let test = inlay_hint_test(source).knowing(hinted, &[]);
    test.assert_hints(hinted, &[], None);
}

#[test]
fn test_typevar_spec_binding() {
    let source = "
        from typing import Callable
        type Alias2[**AB = [int, str]] = Callable[AB, tuple[AB]]
    ";
    let hinted = "
        from typing import Callable
        type Alias2[**AB = [int, str]] = Callable[AB, tuple[AB]]
    ";
    let test = inlay_hint_test(source).knowing(hinted, &[]);
    test.assert_hints(hinted, &[], None);
}

#[test]
fn test_typevar_tuple_binding() {
    let source = "
        type Alias3[*AB = ()] = tuple[tuple[*AB], tuple[*AB]]
    ";
    let hinted = "
        type Alias3[*AB = ()] = tuple[tuple[*AB], tuple[*AB]]
    ";
    let test = inlay_hint_test(source).knowing(hinted, &[]);
    test.assert_hints(hinted, &[], None);
}

#[test]
fn test_many_literals() {
    let source = r#"
        a = 1
        b = 1.0
        c = True
        d = None
        e = "hello"
        f = 'there'
        g = f"{e} {f}"
        h = t"wow %d"
        i = b'\x00'
        j = +1
        k = -1.0
    "#;
    let hinted = r#"
        a = 1
        b = 1.0
        c = True
        d = None
        e = "hello"
        f = 'there'
        g = f"{e} {f}"
        h = t"wow %d"
        i = b'\x00'
        j = +1
        k = -1.0
    "#;
    let known = r#"
        a[~: int] = 1
        b[~: int] = 1.0
        c[~: int] = True
        d[~: int] = None
        e[~: int] = "hello"
        f[~: int] = 'there'
        g[~: int] = f"{e} {f}"
        h[~: int] = t"wow %d"
        i[~: int] = b'\x00'
        j[~: int] = +1
        k[~: int] = -1.0
    "#;
    let test = inlay_hint_test(source).knowing(known, &[]);
    test.assert_hints(hinted, &[], None);
}

#[test]
fn test_many_literals_tuple() {
    let source = r#"
        a = (1, 2)
        b = (1.0, 2.0)
        c = (True, False)
        d = (None, None)
        e = ("hel", "lo")
        f = ('the', 're')
        g = (f"{ft}", f"{ft}")
        h = (t"wow %d", t"wow %d")
        i = (b'\x01', b'\x02')
        j = (+1, +2.0)
        k = (-1, -2.0)
    "#;
    let hinted = r#"
        a = (1, 2)
        b = (1.0, 2.0)
        c = (True, False)
        d = (None, None)
        e = ("hel", "lo")
        f = ('the', 're')
        g = (f"{ft}", f"{ft}")
        h = (t"wow %d", t"wow %d")
        i = (b'\x01', b'\x02')
        j = (+1, +2.0)
        k = (-1, -2.0)
    "#;
    let known = r#"
        a[~: int] = (1, 2)
        b[~: int] = (1.0, 2.0)
        c[~: int] = (True, False)
        d[~: int] = (None, None)
        e[~: int] = ("hel", "lo")
        f[~: int] = ('the', 're')
        g[~: int] = (f"{ft}", f"{ft}")
        h[~: int] = (t"wow %d", t"wow %d")
        i[~: int] = (b'\x01', b'\x02')
        j[~: int] = (+1, +2.0)
        k[~: int] = (-1, -2.0)
    "#;
    let test = inlay_hint_test(source).knowing(known, &[]);
    test.assert_hints(hinted, &[], None);
}

#[test]
fn test_many_literals_unpacked_tuple() {
    let source = r#"
        a1, a2 = (1, 2)
        b1, b2 = (1.0, 2.0)
        c1, c2 = (True, False)
        d1, d2 = (None, None)
        e1, e2 = ("hel", "lo")
        f1, f2 = ('the', 're')
        g1, g2 = (f"{ft}", f"{ft}")
        h1, h2 = (t"wow %d", t"wow %d")
        i1, i2 = (b'\x01', b'\x02')
        j1, j2 = (+1, +2.0)
        k1, k2 = (-1, -2.0)
    "#;
    let hinted = r#"
        a1, a2 = (1, 2)
        b1, b2 = (1.0, 2.0)
        c1, c2 = (True, False)
        d1, d2 = (None, None)
        e1, e2 = ("hel", "lo")
        f1, f2 = ('the', 're')
        g1, g2 = (f"{ft}", f"{ft}")
        h1, h2 = (t"wow %d", t"wow %d")
        i1, i2 = (b'\x01', b'\x02')
        j1, j2 = (+1, +2.0)
        k1, k2 = (-1, -2.0)
    "#;
    let known = r#"
        a1[~: int], a2[~: int] = (1, 2)
        b1[~: int], b2[~: int] = (1.0, 2.0)
        c1[~: int], c2[~: int] = (True, False)
        d1[~: int], d2[~: int] = (None, None)
        e1[~: int], e2[~: int] = ("hel", "lo")
        f1[~: int], f2[~: int] = ('the', 're')
        g1[~: int], g2[~: int] = (f"{ft}", f"{ft}")
        h1[~: int], h2[~: int] = (t"wow %d", t"wow %d")
        i1[~: int], i2[~: int] = (b'\x01', b'\x02')
        j1[~: int], j2[~: int] = (+1, +2.0)
        k1[~: int], k2[~: int] = (-1, -2.0)
    "#;
    let test = inlay_hint_test(source).knowing(known, &[]);
    test.assert_hints(hinted, &[], None);
}

#[test]
fn test_many_literals_multiple() {
    let source = r#"
        a1, a2 = 1, 2
        b1, b2 = 1.0, 2.0
        c1, c2 = True, False
        d1, d2 = None, None
        e1, e2 = "hel", "lo"
        f1, f2 = 'the', 're'
        g1, g2 = f"{ft}", f"{ft}"
        h1, h2 = t"wow %d", t"wow %d"
        i1, i2 = b'\x01', b'\x02'
        j1, j2 = +1, +2.0
        k1, k2 = -1, -2.0
    "#;
    let hinted = r#"
        a1, a2 = 1, 2
        b1, b2 = 1.0, 2.0
        c1, c2 = True, False
        d1, d2 = None, None
        e1, e2 = "hel", "lo"
        f1, f2 = 'the', 're'
        g1, g2 = f"{ft}", f"{ft}"
        h1, h2 = t"wow %d", t"wow %d"
        i1, i2 = b'\x01', b'\x02'
        j1, j2 = +1, +2.0
        k1, k2 = -1, -2.0
    "#;
    let known = r#"
        a1[~: int], a2[~: int] = 1, 2
        b1[~: int], b2[~: int] = 1.0, 2.0
        c1[~: int], c2[~: int] = True, False
        d1[~: int], d2[~: int] = None, None
        e1[~: int], e2[~: int] = "hel", "lo"
        f1[~: int], f2[~: int] = 'the', 're'
        g1[~: int], g2[~: int] = f"{ft}", f"{ft}"
        h1[~: int], h2[~: int] = t"wow %d", t"wow %d"
        i1[~: int], i2[~: int] = b'\x01', b'\x02'
        j1[~: int], j2[~: int] = +1, +2.0
        k1[~: int], k2[~: int] = -1, -2.0
    "#;
    let test = inlay_hint_test(source).knowing(known, &[]);
    test.assert_hints(hinted, &[], None);
}

#[test]
fn test_many_literals_list() {
    let source = r#"
        a = [1, 2]
        b = [1.0, 2.0]
        c = [True, False]
        d = [None, None]
        e = ["hel", "lo"]
        f = ['the', 're']
        g = [f"{ft}", f"{ft}"]
        h = [t"wow %d", t"wow %d"]
        i = [b'\x01', b'\x02']
        j = [+1, +2.0]
        k = [-1, -2.0]
    "#;
    let hinted = r#"
        a[: list[int]] = [1, 2]
        b[: list[int | float]] = [1.0, 2.0]
        c[: list[bool]] = [True, False]
        d[: list[None | Unknown]] = [None, None]
        e[: list[str]] = ["hel", "lo"]
        f[: list[str]] = ['the', 're']
        g[: list[str]] = [f"{ft}", f"{ft}"]
        h[: list[Template]] = [t"wow %d", t"wow %d"]
        i[: list[bytes]] = [b'\x01', b'\x02']
        j[: list[int | float]] = [+1, +2.0]
        k[: list[int | float]] = [-1, -2.0]
    "#;
    let links = [
        ("list", "stdlib/builtins.byi:list"),
        ("int", "stdlib/builtins.byi:int"),
        ("list", "stdlib/builtins.byi:list"),
        ("int", "stdlib/builtins.byi:int"),
        ("float", "stdlib/builtins.byi:float"),
        ("list", "stdlib/builtins.byi:list"),
        ("bool", "stdlib/builtins.byi:bool"),
        ("list", "stdlib/builtins.byi:list"),
        ("None", "stdlib/types.byi:NoneType"),
        ("Unknown", "stdlib/ty_extensions/_internal.pyi:Unknown"),
        ("list", "stdlib/builtins.byi:list"),
        ("str", "stdlib/builtins.byi:str"),
        ("list", "stdlib/builtins.byi:list"),
        ("str", "stdlib/builtins.byi:str"),
        ("list", "stdlib/builtins.byi:list"),
        ("str", "stdlib/builtins.byi:str"),
        ("list", "stdlib/builtins.byi:list"),
        ("Template", "stdlib/string/templatelib.byi:Template"),
        ("list", "stdlib/builtins.byi:list"),
        ("bytes", "stdlib/builtins.byi:bytes"),
        ("list", "stdlib/builtins.byi:list"),
        ("int", "stdlib/builtins.byi:int"),
        ("float", "stdlib/builtins.byi:float"),
        ("list", "stdlib/builtins.byi:list"),
        ("int", "stdlib/builtins.byi:int"),
        ("float", "stdlib/builtins.byi:float"),
    ];
    let test = inlay_hint_test(source).knowing(hinted, &links);
    let edited = r#"        from ty_extensions._internal import Unknown
        from string.templatelib import Template

        a: list[int] = [1, 2]
        b: list[int | float] = [1.0, 2.0]
        c: list[bool] = [True, False]
        d: list[None | Unknown] = [None, None]
        e: list[str] = ["hel", "lo"]
        f: list[str] = ['the', 're']
        g: list[str] = [f"{ft}", f"{ft}"]
        h: list[Template] = [t"wow %d", t"wow %d"]
        i: list[bytes] = [b'\x01', b'\x02']
        j: list[int | float] = [+1, +2.0]
        k: list[int | float] = [-1, -2.0]
    "#;
    test.assert_hints(hinted, &links, Some(edited));
}

#[test]
fn enum_auto_values() {
    let source = "
        from enum import Enum, auto

        class Color(Enum):
            RED = auto()
            GREEN = 7
            BLUE = auto()
    ";
    let hinted = "
        from enum import Enum, auto

        class Color(Enum):
            RED = auto()[ 1]
            GREEN = 7
            BLUE = auto()[ 2]
    ";
    let known = "
        from enum import Enum, auto

        class Color(Enum):
            RED = auto()[ 1]
            GREEN[~: int] = 7
            BLUE = auto()[ 2]
    ";
    let test = inlay_hint_test(source).knowing(known, &[]);
    test.assert_hints(hinted, &[], None);
}

#[test]
fn annotated_enum_auto_values_are_not_hinted() {
    let source = "
        from enum import Enum, auto

        class Color(Enum):
            RED: int = auto()
            BLUE: int = auto()
    ";
    let hinted = "
        from enum import Enum, auto

        class Color(Enum):
            RED: int = auto()
            BLUE: int = auto()
    ";
    let known = "
        from enum import Enum, auto

        class Color(Enum):
            RED: int = auto()[~ 1]
            BLUE: int = auto()[~ 2]
    ";
    let test = inlay_hint_test(source).knowing(known, &[]);
    test.assert_hints(hinted, &[], None);
}

#[test]
fn enum_auto_string_values() {
    let source = "
        from enum import StrEnum, auto

        class Color(StrEnum):
            RED = auto()
            BLUE = auto()
    ";
    let hinted = r#"
        from enum import StrEnum, auto

        class Color(StrEnum):
            RED = auto()[ "red"]
            BLUE = auto()[ "blue"]
    "#;
    let test = inlay_hint_test(source).knowing(hinted, &[]);
    test.assert_hints(hinted, &[], None);
}

#[test]
fn enum_flag_auto_values() {
    let source = "
        from enum import Flag, IntFlag, auto

        class Style(Flag):
            BOLD = auto()
            ITALIC = auto()
            UNDERLINE = auto()

        class Perm(IntFlag):
            READ = auto()
            WRITE = auto()
            EXECUTE = auto()
    ";
    let hinted = "
        from enum import Flag, IntFlag, auto

        class Style(Flag):
            BOLD = auto()[ 1]
            ITALIC = auto()[ 2]
            UNDERLINE = auto()[ 4]

        class Perm(IntFlag):
            READ = auto()[ 1]
            WRITE = auto()[ 2]
            EXECUTE = auto()[ 4]
    ";
    let test = inlay_hint_test(source).knowing(hinted, &[]);
    test.assert_hints(hinted, &[], None);
}

#[test]
fn enum_auto_values_of_an_unmodelled_mixin() {
    let source = "
        from enum import Enum, auto

        class Color(bytes, Enum):
            RED = auto()
            BLUE = auto()
    ";
    let hinted = "
        from enum import Enum, auto

        class Color(bytes, Enum):
            RED = auto()
            BLUE = auto()
    ";
    let test = inlay_hint_test(source).knowing(hinted, &[]);
    test.assert_hints(hinted, &[], None);
}

#[test]
fn test_enum_literal() {
    let source = "
        from enum import Enum

        class Color(Enum):
            RED = 1
            BLUE = 2

        x = Color.RED
    ";
    let hinted = "
        from enum import Enum

        class Color(Enum):
            RED = 1
            BLUE = 2

        x[: Literal[Color.RED]] = Color.RED
    ";
    let links = [
        ("Literal", "stdlib/typing.byi:Literal"),
        ("Color", "main.py:4:7"),
        ("RED", "main.py:5:5 nested"),
    ];
    let known = "
        from enum import Enum

        class Color(Enum):
            RED[~: int] = 1
            BLUE[~: int] = 2

        x[: Literal[Color.RED]] = Color.RED
    ";
    let test = inlay_hint_test(source).knowing(known, &links);
    test.assert_hints(hinted, &links, None);
}

#[test]
fn test_simple_init_call() {
    let source = "
        class MyClass:
            def __init__(self):
                self.x: int = 1

        x = MyClass()
        y = (MyClass(), MyClass())
        a, b = MyClass(), MyClass()
        c, d = (MyClass(), MyClass())
    ";
    let hinted = "
        class MyClass:
            def __init__(self):
                self.x: int = 1

        x = MyClass()
        y[: tuple[MyClass, MyClass]] = (MyClass(), MyClass())
        a[: MyClass], b[: MyClass] = MyClass(), MyClass()
        c[: MyClass], d[: MyClass] = (MyClass(), MyClass())
    ";
    let links = [
        ("tuple", "stdlib/builtins.byi:tuple"),
        ("MyClass", "main.py:2:7"),
        ("MyClass", "main.py:2:7"),
        ("MyClass", "main.py:2:7"),
        ("MyClass", "main.py:2:7"),
        ("MyClass", "main.py:2:7"),
        ("MyClass", "main.py:2:7"),
    ];
    let known = "
        class MyClass:
            def __init__(self):
                self.x: int = 1

        x[~: MyClass] = MyClass()
        y[: tuple[MyClass, MyClass]] = (MyClass(), MyClass())
        a[: MyClass], b[: MyClass] = MyClass(), MyClass()
        c[: MyClass], d[: MyClass] = (MyClass(), MyClass())
    ";
    let test = inlay_hint_test(source).knowing(known, &links);
    let edited = "
        class MyClass:
            def __init__(self):
                self.x: int = 1

        x = MyClass()
        y: tuple[MyClass, MyClass] = (MyClass(), MyClass())
        a, b = MyClass(), MyClass()
        c, d = (MyClass(), MyClass())
    ";
    test.assert_hints(hinted, &links, Some(edited));
}

#[test]
fn test_generic_init_call() {
    let source = r#"
        class MyClass[T, U]:
            def __init__(self, x: list[T], y: tuple[U, U]):
                self.x = x
                self.y = y

        x = MyClass([42], ("a", "b"))
        y = (MyClass([42], ("a", "b")), MyClass([42], ("a", "b")))
        a, b = MyClass([42], ("a", "b")), MyClass([42], ("a", "b"))
        c, d = (MyClass([42], ("a", "b")), MyClass([42], ("a", "b")))
    "#;
    let hinted = r#"
        class MyClass[T, U]:
            def __init__(self, x: list[T], y: tuple[U, U]):
                self.x[: list[T@MyClass]] = x
                self.y[: tuple[U@MyClass, U@MyClass]] = y

        x[: MyClass[int, str]] = MyClass[[int, str]]([x=][42], [y=]("a", "b"))
        y[: tuple[MyClass[int, str], MyClass[int, str]]] = (MyClass[[int, str]]([x=][42], [y=]("a", "b")), MyClass[[int, str]]([x=][42], [y=]("a", "b")))
        a[: MyClass[int, str]], b[: MyClass[int, str]] = MyClass[[int, str]]([x=][42], [y=]("a", "b")), MyClass[[int, str]]([x=][42], [y=]("a", "b"))
        c[: MyClass[int, str]], d[: MyClass[int, str]] = (MyClass[[int, str]]([x=][42], [y=]("a", "b")), MyClass[[int, str]]([x=][42], [y=]("a", "b")))
    "#;
    let links = [
        ("list", "stdlib/builtins.byi:list"),
        ("tuple", "stdlib/builtins.byi:tuple"),
        ("MyClass", "main.py:2:7"),
        ("int", "stdlib/builtins.byi:int"),
        ("str", "stdlib/builtins.byi:str"),
        ("int", "stdlib/builtins.byi:int"),
        ("str", "stdlib/builtins.byi:str"),
        ("x", "main.py:3:24"),
        ("y", "main.py:3:36"),
        ("tuple", "stdlib/builtins.byi:tuple"),
        ("MyClass", "main.py:2:7"),
        ("int", "stdlib/builtins.byi:int"),
        ("str", "stdlib/builtins.byi:str"),
        ("MyClass", "main.py:2:7"),
        ("int", "stdlib/builtins.byi:int"),
        ("str", "stdlib/builtins.byi:str"),
        ("int", "stdlib/builtins.byi:int"),
        ("str", "stdlib/builtins.byi:str"),
        ("x", "main.py:3:24"),
        ("y", "main.py:3:36"),
        ("int", "stdlib/builtins.byi:int"),
        ("str", "stdlib/builtins.byi:str"),
        ("x", "main.py:3:24"),
        ("y", "main.py:3:36"),
        ("MyClass", "main.py:2:7"),
        ("int", "stdlib/builtins.byi:int"),
        ("str", "stdlib/builtins.byi:str"),
        ("MyClass", "main.py:2:7"),
        ("int", "stdlib/builtins.byi:int"),
        ("str", "stdlib/builtins.byi:str"),
        ("int", "stdlib/builtins.byi:int"),
        ("str", "stdlib/builtins.byi:str"),
        ("x", "main.py:3:24"),
        ("y", "main.py:3:36"),
        ("int", "stdlib/builtins.byi:int"),
        ("str", "stdlib/builtins.byi:str"),
        ("x", "main.py:3:24"),
        ("y", "main.py:3:36"),
        ("MyClass", "main.py:2:7"),
        ("int", "stdlib/builtins.byi:int"),
        ("str", "stdlib/builtins.byi:str"),
        ("MyClass", "main.py:2:7"),
        ("int", "stdlib/builtins.byi:int"),
        ("str", "stdlib/builtins.byi:str"),
        ("int", "stdlib/builtins.byi:int"),
        ("str", "stdlib/builtins.byi:str"),
        ("x", "main.py:3:24"),
        ("y", "main.py:3:36"),
        ("int", "stdlib/builtins.byi:int"),
        ("str", "stdlib/builtins.byi:str"),
        ("x", "main.py:3:24"),
        ("y", "main.py:3:36"),
    ];
    let test = inlay_hint_test(source).knowing(hinted, &links);
    let edited = r#"
        class MyClass[T, U]:
            def __init__(self, x: list[T], y: tuple[U, U]):
                self.x = x
                self.y = y

        x: MyClass[int, str] = MyClass([42], y=("a", "b"))
        y: tuple[MyClass[int, str], MyClass[int, str]] = (MyClass([42], y=("a", "b")), MyClass([42], y=("a", "b")))
        a, b = MyClass([42], y=("a", "b")), MyClass([42], y=("a", "b"))
        c, d = (MyClass([42], y=("a", "b")), MyClass([42], y=("a", "b")))
    "#;
    test.assert_hints(hinted, &links, Some(edited));
}

#[test]
fn test_function_call_with_positional_or_keyword_parameter() {
    let source = "
        def foo(x: int): pass
        foo(1)";
    let hinted = "
        def foo(x: int): pass
        foo([x=]1)
    ";
    let links = [
        ("x", "main.py:2:9"),
    ];
    let test = inlay_hint_test(source).knowing(hinted, &links);
    let edited = "
        def foo(x: int): pass
        foo(x=1)
    ";
    test.assert_hints(hinted, &links, Some(edited));
}

#[test]
fn test_function_call_with_positional_or_keyword_parameter_redundant_name() {
    let source = "
        def foo(x: int): pass
        x = 1
        y = 2
        foo(x)
        foo(y)";
    let hinted = "
        def foo(x: int): pass
        x = 1
        y = 2
        foo(x)
        foo([x=]y)
    ";
    let links = [
        ("x", "main.py:2:9"),
    ];
    let known = "
        def foo(x: int): pass
        x[~: int] = 1
        y[~: int] = 2
        foo([~x=]x)
        foo([x=]y)
    ";
    let test = inlay_hint_test(source).knowing(known, &links);
    let edited = "
        def foo(x: int): pass
        x = 1
        y = 2
        foo(x)
        foo(x=y)
    ";
    test.assert_hints(hinted, &links, Some(edited));
}

#[test]
fn test_function_call_with_positional_or_keyword_parameter_redundant_attribute() {
    let source = "
        def foo(x: int): pass
        class MyClass:
            def __init__(self):
                self.x: int = 1
                self.y: int = 2
        val = MyClass()

        foo(val.x)
        foo(val.y)";
    let hinted = "
        def foo(x: int): pass
        class MyClass:
            def __init__(self):
                self.x: int = 1
                self.y: int = 2
        val = MyClass()

        foo(val.x)
        foo([x=]val.y)
    ";
    let links = [
        ("x", "main.py:2:9"),
    ];
    let known = "
        def foo(x: int): pass
        class MyClass:
            def __init__(self):
                self.x: int = 1
                self.y: int = 2
        val[~: MyClass] = MyClass()

        foo([~x=]val.x)
        foo([x=]val.y)
    ";
    let test = inlay_hint_test(source).knowing(known, &links);
    let edited = "
        def foo(x: int): pass
        class MyClass:
            def __init__(self):
                self.x: int = 1
                self.y: int = 2
        val = MyClass()

        foo(val.x)
        foo(x=val.y)
    ";
    test.assert_hints(hinted, &links, Some(edited));
}

#[test]
fn test_function_call_with_positional_or_keyword_parameter_redundant_attribute_not() {
    let source = "
        def foo(x: int): pass
        class MyClass:
            def __init__(self):
                self.x: int = 1
                self.y: int = 2
        x = MyClass()

        foo(x.x)
        foo(x.y)";
    let hinted = "
        def foo(x: int): pass
        class MyClass:
            def __init__(self):
                self.x: int = 1
                self.y: int = 2
        x = MyClass()

        foo(x.x)
        foo([x=]x.y)
    ";
    let links = [
        ("x", "main.py:2:9"),
    ];
    let known = "
        def foo(x: int): pass
        class MyClass:
            def __init__(self):
                self.x: int = 1
                self.y: int = 2
        x[~: MyClass] = MyClass()

        foo([~x=]x.x)
        foo([x=]x.y)
    ";
    let test = inlay_hint_test(source).knowing(known, &links);
    let edited = "
        def foo(x: int): pass
        class MyClass:
            def __init__(self):
                self.x: int = 1
                self.y: int = 2
        x = MyClass()

        foo(x.x)
        foo(x=x.y)
    ";
    test.assert_hints(hinted, &links, Some(edited));
}

#[test]
fn test_function_call_with_positional_or_keyword_parameter_redundant_call() {
    let source = "
        def foo(x: int): pass
        class MyClass:
            def __init__(self):
            def x() -> int:
                return 1
            def y() -> int:
                return 2
        val = MyClass()

        foo(val.x())
        foo(val.y())";
    let hinted = "
        def foo(x: int): pass
        class MyClass:
            def __init__(self):
            def x() -> int:
                return 1
            def y() -> int:
                return 2
        val = MyClass()

        foo(val.x())
        foo([x=]val.y())
    ";
    let links = [
        ("x", "main.py:2:9"),
    ];
    let known = "
        def foo(x: int): pass
        class MyClass:
            def __init__(self):
            def x() -> int:
                return 1
            def y() -> int:
                return 2
        val[~: MyClass] = MyClass()

        foo([~x=]val.x())
        foo([x=]val.y())
    ";
    let test = inlay_hint_test(source).knowing(known, &links);
    let edited = "
        def foo(x: int): pass
        class MyClass:
            def __init__(self):
            def x() -> int:
                return 1
            def y() -> int:
                return 2
        val = MyClass()

        foo(val.x())
        foo(x=val.y())
    ";
    test.assert_hints(hinted, &links, Some(edited));
}

#[test]
fn test_function_call_with_positional_or_keyword_parameter_redundant_complex() {
    let source = "
        from typing import List

        def foo(x: int): pass
        class MyClass:
            def __init__(self):
            def x() -> List[int]:
                return 1
            def y() -> List[int]:
                return 2
        val = MyClass()

        foo(val.x()[0])
        foo(val.y()[1])";
    let hinted = "
        from typing import List

        def foo(x: int): pass
        class MyClass:
            def __init__(self):
            def x() -> List[int]:
                return 1
            def y() -> List[int]:
                return 2
        val = MyClass()

        foo(val.x()[0])
        foo([x=]val.y()[1])
    ";
    let links = [
        ("x", "main.py:4:9"),
    ];
    let known = "
        from typing import List

        def foo(x: int): pass
        class MyClass:
            def __init__(self):
            def x() -> List[int]:
                return 1
            def y() -> List[int]:
                return 2
        val[~: MyClass] = MyClass()

        foo([~x=]val.x()[0])
        foo([x=]val.y()[1])
    ";
    let test = inlay_hint_test(source).knowing(known, &links);
    let edited = "
        from typing import List

        def foo(x: int): pass
        class MyClass:
            def __init__(self):
            def x() -> List[int]:
                return 1
            def y() -> List[int]:
                return 2
        val = MyClass()

        foo(val.x()[0])
        foo(x=val.y()[1])
    ";
    test.assert_hints(hinted, &links, Some(edited));
}

#[test]
fn test_function_call_with_positional_or_keyword_parameter_redundant_subscript() {
    let source = "
        def foo(x: int): pass
        x = [1]
        y = [2]

        foo(x[0])
        foo(y[0])";
    let hinted = "
        def foo(x: int): pass
        x[: list[int]] = [1]
        y[: list[int]] = [2]

        foo(x[0])
        foo([x=]y[0])
    ";
    let links = [
        ("list", "stdlib/builtins.byi:list"),
        ("int", "stdlib/builtins.byi:int"),
        ("list", "stdlib/builtins.byi:list"),
        ("int", "stdlib/builtins.byi:int"),
        ("x", "main.py:2:9"),
    ];
    let known = "
        def foo(x: int): pass
        x[: list[int]] = [1]
        y[: list[int]] = [2]

        foo([~x=]x[0])
        foo([x=]y[0])
    ";
    let test = inlay_hint_test(source).knowing(known, &links);
    let edited = "
        def foo(x: int): pass
        x: list[int] = [1]
        y: list[int] = [2]

        foo(x[0])
        foo(x=y[0])
    ";
    test.assert_hints(hinted, &links, Some(edited));
}

#[test]
fn test_function_call_with_positional_only_parameter() {
    let source = "
        def foo(x: int, /): pass
        foo(1)";
    let hinted = "
        def foo(x: int, /): pass
        foo(1)
    ";
    let test = inlay_hint_test(source).knowing(hinted, &[]);
    test.assert_hints(hinted, &[], None);
}

#[test]
fn test_function_call_with_variadic_parameter() {
    let source = "
        def foo(*args: int): pass
        foo(1)";
    let hinted = "
        def foo(*args: int): pass
        foo(1)
    ";
    let test = inlay_hint_test(source).knowing(hinted, &[]);
    test.assert_hints(hinted, &[], None);
}

#[test]
fn test_function_call_with_keyword_variadic_parameter() {
    let source = "
        def foo(**kwargs: int): pass
        foo(x=1)";
    let hinted = "
        def foo(**kwargs: int): pass
        foo(x=1)
    ";
    let test = inlay_hint_test(source).knowing(hinted, &[]);
    test.assert_hints(hinted, &[], None);
}

#[test]
fn test_function_call_with_keyword_only_parameter() {
    let source = "
        def foo(*, x: int): pass
        foo(x=1)";
    let hinted = "
        def foo(*, x: int): pass
        foo(x=1)
    ";
    let test = inlay_hint_test(source).knowing(hinted, &[]);
    test.assert_hints(hinted, &[], None);
}

#[test]
fn test_function_call_with_unpacked_tuple_argument() {
    let source = "
        def foo(a: str, b: int, c: int, d: str): ...
        t: tuple[int, int] = (23, 42)
        foo('foo', *t, d='bar')";
    let hinted = "
        def foo(a: str, b: int, c: int, d: str): ...
        t: tuple[int, int] = (23, 42)
        foo([a=]'foo', *t, d='bar')
    ";
    let links = [
        ("a", "main.py:2:9"),
    ];
    let test = inlay_hint_test(source).knowing(hinted, &links);
    let edited = "
        def foo(a: str, b: int, c: int, d: str): ...
        t: tuple[int, int] = (23, 42)
        foo(a='foo', *t, d='bar')
    ";
    test.assert_hints(hinted, &links, Some(edited));
}

#[test]
fn test_function_call_with_unpacked_tuple_argument_single_element() {
    let source = "
        def foo(a: str, b: int, c: str): ...
        t: tuple[int] = (42,)
        foo('foo', *t, 'bar')";
    let hinted = "
        def foo(a: str, b: int, c: str): ...
        t: tuple[int] = (42,)
        foo([a=]'foo', [b=]*t, [c=]'bar')
    ";
    let links = [
        ("a", "main.py:2:9"),
        ("b", "main.py:2:17"),
        ("c", "main.py:2:25"),
    ];
    let test = inlay_hint_test(source).knowing(hinted, &links);
    let edited = "
        def foo(a: str, b: int, c: str): ...
        t: tuple[int] = (42,)
        foo('foo', *t, c='bar')
    ";
    test.assert_hints(hinted, &links, Some(edited));
}

#[test]
fn test_function_call_last_plain_positional_before_starred_argument() {
    let source = "
        def foo(a: int, b: int): ...
        t: tuple[int] = (2,)
        foo(1, *t)";
    let hinted = "
        def foo(a: int, b: int): ...
        t: tuple[int] = (2,)
        foo([a=]1, [b=]*t)
    ";
    let links = [
        ("a", "main.py:2:9"),
        ("b", "main.py:2:17"),
    ];
    let test = inlay_hint_test(source).knowing(hinted, &links);
    let edited = "
        def foo(a: int, b: int): ...
        t: tuple[int] = (2,)
        foo(a=1, *t)
    ";
    test.assert_hints(hinted, &links, Some(edited));
}

#[test]
fn test_function_call_only_starred_argument_has_no_edit() {
    let source = "
        def foo(a: int): ...
        t: tuple[int] = (1,)
        foo(*t)";
    let hinted = "
        def foo(a: int): ...
        t: tuple[int] = (1,)
        foo([a=]*t)
    ";
    let links = [
        ("a", "main.py:2:9"),
    ];
    let test = inlay_hint_test(source).knowing(hinted, &links);
    test.assert_hints(hinted, &links, None);
}

#[test]
fn test_function_call_positional_only_and_positional_or_keyword_parameters() {
    let source = "
        def foo(x: int, /, y: int): pass
        foo(1, 2)";
    let hinted = "
        def foo(x: int, /, y: int): pass
        foo(1, [y=]2)
    ";
    let links = [
        ("y", "main.py:2:20"),
    ];
    let test = inlay_hint_test(source).knowing(hinted, &links);
    let edited = "
        def foo(x: int, /, y: int): pass
        foo(1, y=2)
    ";
    test.assert_hints(hinted, &links, Some(edited));
}

#[test]
fn test_function_call_positional_only_and_variadic_parameters() {
    let source = "
        def foo(x: int, /, *args: int): pass
        foo(1, 2, 3)";
    let hinted = "
        def foo(x: int, /, *args: int): pass
        foo(1, 2, 3)
    ";
    let test = inlay_hint_test(source).knowing(hinted, &[]);
    test.assert_hints(hinted, &[], None);
}

#[test]
fn test_function_call_positional_only_and_keyword_variadic_parameters() {
    let source = "
        def foo(x: int, /, **kwargs: int): pass
        foo(1, x=2)";
    let hinted = "
        def foo(x: int, /, **kwargs: int): pass
        foo(1, x=2)
    ";
    let test = inlay_hint_test(source).knowing(hinted, &[]);
    test.assert_hints(hinted, &[], None);
}

#[test]
fn test_class_constructor_call_init() {
    let source = "
        class Foo:
            def __init__(self, x: int): pass
        Foo(1)
        f = Foo(1)";
    let hinted = "
        class Foo:
            def __init__(self, x: int): pass
        Foo([x=]1)
        f = Foo([x=]1)
    ";
    let links = [
        ("x", "main.py:3:24"),
        ("x", "main.py:3:24"),
    ];
    let known = "
        class Foo:
            def __init__(self, x: int): pass
        Foo([x=]1)
        f[~: Foo] = Foo([x=]1)
    ";
    let test = inlay_hint_test(source).knowing(known, &links);
    let edited = "
        class Foo:
            def __init__(self, x: int): pass
        Foo(x=1)
        f = Foo(x=1)
    ";
    test.assert_hints(hinted, &links, Some(edited));
}

#[test]
fn test_named_tuple_constructor_call() {
    let source = "
        from typing import NamedTuple

        class Foo(NamedTuple):
            x: int
            y: str

        Foo(1, 'a')";
    let hinted = "
        from typing import NamedTuple

        class Foo(NamedTuple):
            x: int
            y: str

        Foo([x=]1, [y=]'a')
    ";
    let links = [
        ("x", "main.py:5:5"),
        ("y", "main.py:6:5"),
    ];
    let test = inlay_hint_test(source).knowing(hinted, &links);
    let edited = "
        from typing import NamedTuple

        class Foo(NamedTuple):
            x: int
            y: str

        Foo(1, y='a')
    ";
    test.assert_hints(hinted, &links, Some(edited));
}

#[test]
fn test_class_constructor_call_new() {
    let source = "
        class Foo:
            def __new__(cls, x: int): pass
        Foo(1)
        f = Foo(1)";
    let hinted = "
        class Foo:
            def __new__(cls, x: int): pass
        Foo([x=]1)
        f = Foo([x=]1)
    ";
    let links = [
        ("x", "main.py:3:22"),
        ("x", "main.py:3:22"),
    ];
    let known = "
        class Foo:
            def __new__(cls, x: int): pass
        Foo([x=]1)
        f[~: Foo] = Foo([x=]1)
    ";
    let test = inlay_hint_test(source).knowing(known, &links);
    let edited = "
        class Foo:
            def __new__(cls, x: int): pass
        Foo(x=1)
        f = Foo(x=1)
    ";
    test.assert_hints(hinted, &links, Some(edited));
}

#[test]
fn test_class_constructor_call_meta_class_call() {
    let source = "
        class MetaFoo:
            def __call__(self, x: int): pass
        class Foo(metaclass=MetaFoo):
            pass
        Foo(1)";
    let hinted = "
        class MetaFoo:
            def __call__(self, x: int): pass
        class Foo(metaclass=MetaFoo):
            pass
        Foo([x=]1)
    ";
    let links = [
        ("x", "main.py:3:24"),
    ];
    let test = inlay_hint_test(source).knowing(hinted, &links);
    let edited = "
        class MetaFoo:
            def __call__(self, x: int): pass
        class Foo(metaclass=MetaFoo):
            pass
        Foo(x=1)
    ";
    test.assert_hints(hinted, &links, Some(edited));
}

#[test]
fn test_callable_call() {
    let source = "
        from typing import Callable
        def foo(x: Callable[[int], int]):
            x(1)";
    let hinted = "
        from typing import Callable
        def foo(x: Callable[[int], int]):
            x(1)
    ";
    let test = inlay_hint_test(source).knowing(hinted, &[]);
    test.assert_hints(hinted, &[], None);
}

#[test]
fn test_instance_method_call() {
    let source = "
        class Foo:
            def bar(self, y: int): pass
        Foo().bar(2)";
    let hinted = "
        class Foo:
            def bar(self, y: int): pass
        Foo().bar([y=]2)
    ";
    let links = [
        ("y", "main.py:3:19"),
    ];
    let test = inlay_hint_test(source).knowing(hinted, &links);
    let edited = "
        class Foo:
            def bar(self, y: int): pass
        Foo().bar(y=2)
    ";
    test.assert_hints(hinted, &links, Some(edited));
}

#[test]
fn instance_method_overload_self_type() {
    let source = r#"
        from typing import overload

        class Parent:
            @overload
            def choose(self: "Child", child_value: int) -> None: ...
            @overload
            def choose(self: "Parent", parent_value: int) -> None: ...
            def choose(self, value: int) -> None: ...

        class Child(Parent): pass

        def f(parent: Parent, child: Child):
            parent.choose(1)
            child.choose(2)"#;
    let hinted = r#"
        from typing import overload

        class Parent:
            @overload
            def choose(self: "Child", child_value: int) -> None: ...
            @overload
            def choose(self: "Parent", parent_value: int) -> None: ...
            def choose(self, value: int) -> None: ...

        class Child(Parent): pass

        def f(parent: Parent, child: Child):
            parent.choose([parent_value=]1)
            child.choose([child_value=]2)
    "#;
    let links = [
        ("parent_value", "main.py:8:32"),
        ("child_value", "main.py:6:31"),
    ];
    let test = inlay_hint_test(source).knowing(hinted, &links);
    let edited = r#"
        from typing import overload

        class Parent:
            @overload
            def choose(self: "Child", child_value: int) -> None: ...
            @overload
            def choose(self: "Parent", parent_value: int) -> None: ...
            def choose(self, value: int) -> None: ...

        class Child(Parent): pass

        def f(parent: Parent, child: Child):
            parent.choose(parent_value=1)
            child.choose(child_value=2)
    "#;
    test.assert_hints(hinted, &links, Some(edited));
}

#[test]
fn test_class_method_call() {
    let source = "
        class Foo:
            @classmethod
            def bar(cls, y: int): pass
        Foo.bar(2)";
    let hinted = "
        class Foo:
            @classmethod
            def bar(cls, y: int): pass
        Foo.bar([y=]2)
    ";
    let links = [
        ("y", "main.py:4:18"),
    ];
    let test = inlay_hint_test(source).knowing(hinted, &links);
    let edited = "
        class Foo:
            @classmethod
            def bar(cls, y: int): pass
        Foo.bar(y=2)
    ";
    test.assert_hints(hinted, &links, Some(edited));
}

#[test]
fn test_static_method_call() {
    let source = "
        class Foo:
            @staticmethod
            def bar(y: int): pass
        Foo.bar(2)";
    let hinted = "
        class Foo:
            @staticmethod
            def bar(y: int): pass
        Foo.bar([y=]2)
    ";
    let links = [
        ("y", "main.py:4:13"),
    ];
    let test = inlay_hint_test(source).knowing(hinted, &links);
    let edited = "
        class Foo:
            @staticmethod
            def bar(y: int): pass
        Foo.bar(y=2)
    ";
    test.assert_hints(hinted, &links, Some(edited));
}

#[test]
fn test_function_call_with_union_type() {
    let source = "
        def foo(x: int | str): pass
        foo(1)
        foo('abc')";
    let hinted = "
        def foo(x: int | str): pass
        foo([x=]1)
        foo([x=]'abc')
    ";
    let links = [
        ("x", "main.py:2:9"),
        ("x", "main.py:2:9"),
    ];
    let test = inlay_hint_test(source).knowing(hinted, &links);
    let edited = "
        def foo(x: int | str): pass
        foo(x=1)
        foo(x='abc')
    ";
    test.assert_hints(hinted, &links, Some(edited));
}

#[test]
fn test_function_call_multiple_positional_arguments() {
    let source = "
        def foo(x: int, y: str, z: bool): pass
        foo(1, 'hello', True)";
    let hinted = "
        def foo(x: int, y: str, z: bool): pass
        foo([x=]1, [y=]'hello', [z=]True)
    ";
    let links = [
        ("x", "main.py:2:9"),
        ("y", "main.py:2:17"),
        ("z", "main.py:2:25"),
    ];
    let test = inlay_hint_test(source).knowing(hinted, &links);
    let edited = "
        def foo(x: int, y: str, z: bool): pass
        foo(1, 'hello', z=True)
    ";
    test.assert_hints(hinted, &links, Some(edited));
}

#[test]
fn test_function_call_multiple_positional_arguments_before_keyword() {
    let source = "
        def add(x: int, b, y: int) -> int:
            return x + y

        total = add(3, 2, y=4)";
    let hinted = "
        def add(x: int, b, y: int) -> int:
            return x + y

        total[: int] = add([x=]3, [b=]2, y=4)
    ";
    let links = [
        ("int", "stdlib/builtins.byi:int"),
        ("x", "main.py:2:9"),
        ("b", "main.py:2:17"),
    ];
    let test = inlay_hint_test(source).knowing(hinted, &links);
    let edited = "
        def add(x: int, b, y: int) -> int:
            return x + y

        total: int = add(3, b=2, y=4)
    ";
    test.assert_hints(hinted, &links, Some(edited));
}

#[test]
fn test_function_call_mixed_positional_and_keyword() {
    let source = "
        def foo(x: int, y: str, z: bool): pass
        foo(1, z=True, y='hello')";
    let hinted = "
        def foo(x: int, y: str, z: bool): pass
        foo([x=]1, z=True, y='hello')
    ";
    let links = [
        ("x", "main.py:2:9"),
    ];
    let test = inlay_hint_test(source).knowing(hinted, &links);
    let edited = "
        def foo(x: int, y: str, z: bool): pass
        foo(x=1, z=True, y='hello')
    ";
    test.assert_hints(hinted, &links, Some(edited));
}

#[test]
fn test_function_call_positional_after_keyword_in_source_order() {
    let source = "
        def foo(x: int, y: str): pass
        foo(y='hello', 1)";
    let hinted = "
        def foo(x: int, y: str): pass
        foo(y='hello', [y=]1)
    ";
    let links = [
        ("y", "main.py:2:17"),
    ];
    let test = inlay_hint_test(source).knowing(hinted, &links);
    let edited = "
        def foo(x: int, y: str): pass
        foo(y='hello', y=1)
    ";
    test.assert_hints(hinted, &links, Some(edited));
}

#[test]
fn test_function_call_with_default_parameters() {
    let source = "
        def foo(x: int, y: str = 'default', z: bool = False): pass
        foo(1)
        foo(1, 'custom')
        foo(1, 'custom', True)";
    let hinted = "
        def foo(x: int, y: str = 'default', z: bool = False): pass
        foo([x=]1)
        foo([x=]1, [y=]'custom')
        foo([x=]1, [y=]'custom', [z=]True)
    ";
    let links = [
        ("x", "main.py:2:9"),
        ("x", "main.py:2:9"),
        ("y", "main.py:2:17"),
        ("x", "main.py:2:9"),
        ("y", "main.py:2:17"),
        ("z", "main.py:2:37"),
    ];
    let test = inlay_hint_test(source).knowing(hinted, &links);
    let edited = "
        def foo(x: int, y: str = 'default', z: bool = False): pass
        foo(x=1)
        foo(1, y='custom')
        foo(1, 'custom', z=True)
    ";
    test.assert_hints(hinted, &links, Some(edited));
}

#[test]
fn test_nested_function_calls() {
    let source = "
        def foo(x: int) -> int:
            return x * 2

        def bar(y: str) -> str:
            return y

        def baz(a: int, b: str, c: bool): pass

        baz(foo(5), bar(bar('test')), True)";
    let hinted = "
        def foo(x: int) -> int:
            return x * 2

        def bar(y: str) -> str:
            return y

        def baz(a: int, b: str, c: bool): pass

        baz([a=]foo([x=]5), [b=]bar([y=]bar([y=]'test')), [c=]True)
    ";
    let links = [
        ("a", "main.py:8:9"),
        ("x", "main.py:2:9"),
        ("b", "main.py:8:17"),
        ("y", "main.py:5:9"),
        ("y", "main.py:5:9"),
        ("c", "main.py:8:25"),
    ];
    let test = inlay_hint_test(source).knowing(hinted, &links);
    let edited = "
        def foo(x: int) -> int:
            return x * 2

        def bar(y: str) -> str:
            return y

        def baz(a: int, b: str, c: bool): pass

        baz(foo(x=5), bar(y=bar(y='test')), c=True)
    ";
    test.assert_hints(hinted, &links, Some(edited));
}

#[test]
fn test_method_chaining() {
    let source = "
        class A:
            def foo(self, value: int) -> 'A':
                return self
            def bar(self, name: str) -> 'A':
                return self
            def baz(self): pass
        A().foo(42).bar('test').baz()";
    let hinted = "
        class A:
            def foo(self, value: int) -> 'A':
                return self
            def bar(self, name: str) -> 'A':
                return self
            def baz(self): pass
        A().foo([value=]42).bar([name=]'test').baz()
    ";
    let links = [
        ("value", "main.py:3:19"),
        ("name", "main.py:5:19"),
    ];
    let test = inlay_hint_test(source).knowing(hinted, &links);
    let edited = "
        class A:
            def foo(self, value: int) -> 'A':
                return self
            def bar(self, name: str) -> 'A':
                return self
            def baz(self): pass
        A().foo(value=42).bar(name='test').baz()
    ";
    test.assert_hints(hinted, &links, Some(edited));
}

#[test]
fn test_nested_keyword_function_calls() {
    let source = "
        def foo(x: str) -> str:
            return x
        def bar(y: int): pass
        bar(y=foo('test'))
    ";
    let hinted = "
        def foo(x: str) -> str:
            return x
        def bar(y: int): pass
        bar(y=foo([x=]'test'))
    ";
    let links = [
        ("x", "main.py:2:9"),
    ];
    let test = inlay_hint_test(source).knowing(hinted, &links);
    let edited = "
        def foo(x: str) -> str:
            return x
        def bar(y: int): pass
        bar(y=foo(x='test'))
    ";
    test.assert_hints(hinted, &links, Some(edited));
}

#[test]
fn test_lambda_function_calls() {
    let source = "
        foo = lambda x: x * 2
        bar = lambda a, b: a + b
        foo(5)
        bar(1, 2)";
    let hinted = "
        foo[: (x) -> Unknown] = lambda x: x * 2
        bar[: (a, b) -> Unknown] = lambda a, b: a + b
        foo([x=]5)
        bar([a=]1, [b=]2)
    ";
    let links = [
        ("Unknown", "stdlib/ty_extensions/_internal.pyi:Unknown"),
        ("Unknown", "stdlib/ty_extensions/_internal.pyi:Unknown"),
    ];
    let test = inlay_hint_test(source).knowing(hinted, &links);
    let edited = "
        foo = lambda x: x * 2
        bar = lambda a, b: a + b
        foo(x=5)
        bar(1, b=2)
    ";
    test.assert_hints(hinted, &links, Some(edited));
}

#[test]
fn test_literal_string() {
    let source = r#"
        from typing import LiteralString
        def my_func(x: LiteralString):
            y = x
        my_func(x="hello")"#;
    let hinted = r#"
        from typing import LiteralString
        def my_func(x: LiteralString):
            y[: LiteralString] = x
        my_func(x="hello")
    "#;
    let links = [
        ("LiteralString", "stdlib/typing_extensions.byi:LiteralString"),
    ];
    let test = inlay_hint_test(source).knowing(hinted, &links);
    let edited = r#"
        from typing import LiteralString
        def my_func(x: LiteralString):
            y: LiteralString = x
        my_func(x="hello")
    "#;
    test.assert_hints(hinted, &links, Some(edited));
}

#[test]
fn test_literal_group() {
    let source = r#"
        def branch(cond: int):
            if cond < 10:
                x = 1
            elif cond < 20:
                x = 2
            elif cond < 30:
                x = 3
            elif cond < 40:
                x = "hello"
            else:
                x = None
            y = x"#;
    let hinted = r#"
        def branch(cond: int):
            if cond < 10:
                x = 1
            elif cond < 20:
                x = 2
            elif cond < 30:
                x = 3
            elif cond < 40:
                x = "hello"
            else:
                x = None
            y[: Literal[1, 2, 3, "hello"] | None] = x
    "#;
    let links = [
        ("Literal", "stdlib/typing.byi:Literal"),
        ("1", "stdlib/builtins.byi:int"),
        ("2", "stdlib/builtins.byi:int"),
        ("3", "stdlib/builtins.byi:int"),
        (r#""hello""#, "stdlib/builtins.byi:str"),
        ("None", "stdlib/types.byi:NoneType"),
    ];
    let known = r#"
        def branch(cond: int):
            if cond < 10:
                x[~: int] = 1
            elif cond < 20:
                x[~: int] = 2
            elif cond < 30:
                x[~: int] = 3
            elif cond < 40:
                x[~: int] = "hello"
            else:
                x[~: int] = None
            y[: Literal[1, 2, 3, "hello"] | None] = x
    "#;
    let test = inlay_hint_test(source).knowing(known, &links);
    let edited = r#"        from typing import Literal

        def branch(cond: int):
            if cond < 10:
                x = 1
            elif cond < 20:
                x = 2
            elif cond < 30:
                x = 3
            elif cond < 40:
                x = "hello"
            else:
                x = None
            y: Literal[1, 2, 3, "hello"] | None = x
    "#;
    test.assert_hints(hinted, &links, Some(edited));
}

#[test]
fn test_generic_alias() {
    let source = "
        class Foo[T]: ...

        a = Foo[int]";
    let hinted = "
        class Foo[T]: ...

        a[: <class 'Foo[int]'>] = Foo[int]
    ";
    let links = [
        ("Foo", "main.py:2:7"),
        ("int", "stdlib/builtins.byi:int"),
    ];
    let test = inlay_hint_test(source).knowing(hinted, &links);
    test.assert_hints(hinted, &links, None);
}

#[test]
fn test_subclass_type() {
    let source = "
        def f(x: list[str]):
            y = type(x)";
    let hinted = "
        def f(x: list[str]):
            y[: type[list[str]]] = type(x)
    ";
    let links = [
        ("type", "stdlib/builtins.byi:type"),
        ("list", "stdlib/builtins.byi:list"),
        ("str", "stdlib/builtins.byi:str"),
    ];
    let test = inlay_hint_test(source).knowing(hinted, &links);
    let edited = "
        def f(x: list[str]):
            y: type[list[str]] = type(x)
    ";
    test.assert_hints(hinted, &links, Some(edited));
}

#[test]
fn test_property_literal_type() {
    let source = "
        class F:
            @property
            def whatever(self): ...

        ab = F.whatever";
    let hinted = "
        class F:
            @property
            def whatever(self): ...

        ab[: property] = F.whatever
    ";
    let links = [
        ("property", "main.py:4:9"),
    ];
    let test = inlay_hint_test(source).knowing(hinted, &links);
    test.assert_hints(hinted, &links, None);
}

#[test]
fn test_complex_parameter_combinations() {
    let source = "
        def foo(a: int, b: str, /, c: float, d: bool = True, *, e: int, f: str = 'default'): pass
        foo(1, 'pos', 3.14, False, e=42)
        foo(1, 'pos', 3.14, e=42, f='custom')";
    let hinted = "
        def foo(a: int, b: str, /, c: float[ | int], d: bool = True, *, e: int, f: str = 'default'): pass
        foo(1, 'pos', [c=]3.14, [d=]False, e=42)
        foo(1, 'pos', [c=]3.14, e=42, f='custom')
    ";
    let links = [
        ("c", "main.py:2:28"),
        ("d", "main.py:2:38"),
        ("c", "main.py:2:28"),
    ];
    let test = inlay_hint_test(source).knowing(hinted, &links);
    let edited = "
        def foo(a: int, b: str, /, c: float, d: bool = True, *, e: int, f: str = 'default'): pass
        foo(1, 'pos', 3.14, d=False, e=42)
        foo(1, 'pos', c=3.14, e=42, f='custom')
    ";
    test.assert_hints(hinted, &links, Some(edited));
}

#[test]
fn test_function_calls_different_file() {
    let source = "
        from foo import bar

        bar(1)";
    let hinted = "
        from foo import bar

        bar([x=]1)
    ";
    let links = [
        ("x", "foo.py:2:17"),
    ];
    let test = inlay_hint_test(source).knowing(hinted, &links);
    let edited = "
        from foo import bar

        bar(x=1)
    ";
    test.assert_hints(hinted, &links, Some(edited));
}

#[test]
fn test_overloaded_function_calls() {
    let source = "
        from typing import overload

        @overload
        def foo(x: int) -> str: ...
        @overload
        def foo(x: str) -> int: ...
        def foo(x):
            return x

        foo(42)
        foo('hello')";
    let hinted = "
        from typing import overload

        @overload
        def foo(x: int) -> str: ...
        @overload
        def foo(x: str) -> int: ...
        def foo(x[: int | str])[ -> str | int]:
            return x

        foo([x=]42)
        foo([x=]'hello')
    ";
    let links = [
        ("x", "main.py:5:9"),
        ("x", "main.py:7:9"),
    ];
    let test = inlay_hint_test(source).knowing(hinted, &links);
    let edited = "
        from typing import overload

        @overload
        def foo(x: int) -> str: ...
        @overload
        def foo(x: str) -> int: ...
        def foo(x):
            return x

        foo(x=42)
        foo(x='hello')
    ";
    test.assert_hints(hinted, &links, Some(edited));
}

#[test]
fn test_overloaded_function_calls_different_params() {
    let source = "
        from typing import overload, Optional, Sequence

        @overload
        def S(name: str, is_symmetric: Optional[bool] = None) -> str: ...
        @overload
        def S(*names: str, is_symmetric: Optional[bool] = None) -> Sequence[str]: ...
        def S():
            pass

        b = S('x', 'y')";
    let hinted = "
        from typing import overload, Optional, Sequence

        @overload
        def S(name: str, is_symmetric: Optional[bool] = None) -> str: ...
        @overload
        def S(*names: str, is_symmetric: Optional[bool] = None) -> Sequence[str]: ...
        def S()[ -> Sequence[str]]:
            pass

        b[: Sequence[str]] = S('x', 'y')
    ";
    let links = [
        ("Sequence", "stdlib/_collections_abc.byi:Sequence"),
        ("str", "stdlib/builtins.byi:str"),
    ];
    let test = inlay_hint_test(source).knowing(hinted, &links);
    let edited = "
        from typing import overload, Optional, Sequence

        @overload
        def S(name: str, is_symmetric: Optional[bool] = None) -> str: ...
        @overload
        def S(*names: str, is_symmetric: Optional[bool] = None) -> Sequence[str]: ...
        def S():
            pass

        b: Sequence[str] = S('x', 'y')
    ";
    test.assert_hints(hinted, &links, Some(edited));
}

#[test]
fn test_overloaded_function_calls_no_matching_overload() {
    let source = "
        from typing import overload

        @overload
        def f(x: int) -> str: ...
        @overload
        def f(x: str, y: str) -> int: ...
        def f(x):
            return x

        f([])
    ";
    let hinted = "
        from typing import overload

        @overload
        def f(x: int) -> str: ...
        @overload
        def f(x: str, y: str) -> int: ...
        def f(x[: int | str])[ -> str | int]:
            return x

        f([x=][])
    ";
    let links = [
        ("x", "main.py:5:7"),
    ];
    let test = inlay_hint_test(source).knowing(hinted, &links);
    let edited = "
        from typing import overload

        @overload
        def f(x: int) -> str: ...
        @overload
        def f(x: str, y: str) -> int: ...
        def f(x):
            return x

        f(x=[])
    ";
    test.assert_hints(hinted, &links, Some(edited));
}

#[test]
fn test_function_call_argument_name_suppressed_by_case_insensitive_exact_match() {
    let source = "
        def foo(test: int, param: int): pass
        TEST = 1
        PARAM = 1

        foo(TEST, PARAM)";
    let hinted = "
        def foo(test: int, param: int): pass
        TEST = 1
        PARAM = 1

        foo(TEST, PARAM)
    ";
    let known = "
        def foo(test: int, param: int): pass
        TEST[~: int] = 1
        PARAM[~: int] = 1

        foo([~test=]TEST, [~param=]PARAM)
    ";
    let test = inlay_hint_test(source).knowing(known, &[]);
    test.assert_hints(hinted, &[], None);
}

#[test]
fn test_function_call_argument_name_suppressed_by_normalized_parameter_name() {
    let source = "
        def trailing(param_: int): pass
        def leading(_param: int): pass
        param = 1

        trailing(param)
        leading(param)";
    let hinted = "
        def trailing(param_: int): pass
        def leading(_param: int): pass
        param = 1

        trailing(param)
        leading(param)
    ";
    let known = "
        def trailing(param_: int): pass
        def leading(_param: int): pass
        param[~: int] = 1

        trailing([~param_=]param)
        leading([~_param=]param)
    ";
    let test = inlay_hint_test(source).knowing(known, &[]);
    test.assert_hints(hinted, &[], None);
}

#[test]
fn test_function_call_argument_name_suppressed_by_segment_prefix_or_suffix() {
    let source = "
        def foo(param: int): pass
        param = 1
        param_end = 1
        start_param = 1

        foo(param)
        foo(param_end)
        foo(start_param)";
    let hinted = "
        def foo(param: int): pass
        param = 1
        param_end = 1
        start_param = 1

        foo(param)
        foo(param_end)
        foo(start_param)
    ";
    let known = "
        def foo(param: int): pass
        param[~: int] = 1
        param_end[~: int] = 1
        start_param[~: int] = 1

        foo([~param=]param)
        foo([~param=]param_end)
        foo([~param=]start_param)
    ";
    let test = inlay_hint_test(source).knowing(known, &[]);
    test.assert_hints(hinted, &[], None);
}

#[test]
fn test_function_call_argument_name_shown_for_near_matches() {
    let source = "
        def foo(param: int): pass
        param2 = 1
        my_param2 = 1
        parameter = 1

        foo(param2)
        foo(my_param2)
        foo(parameter)";
    let hinted = "
        def foo(param: int): pass
        param2 = 1
        my_param2 = 1
        parameter = 1

        foo([param=]param2)
        foo([param=]my_param2)
        foo([param=]parameter)
    ";
    let links = [
        ("param", "main.py:2:9"),
        ("param", "main.py:2:9"),
        ("param", "main.py:2:9"),
    ];
    let known = "
        def foo(param: int): pass
        param2[~: int] = 1
        my_param2[~: int] = 1
        parameter[~: int] = 1

        foo([param=]param2)
        foo([param=]my_param2)
        foo([param=]parameter)
    ";
    let test = inlay_hint_test(source).knowing(known, &links);
    let edited = "
        def foo(param: int): pass
        param2 = 1
        my_param2 = 1
        parameter = 1

        foo(param=param2)
        foo(param=my_param2)
        foo(param=parameter)
    ";
    test.assert_hints(hinted, &links, Some(edited));
}

#[test]
fn test_function_call_argument_name_suppression_matches_full_segment_sequence() {
    let source = "
        def foo(focus_range: int): pass
        focus_range = 1
        FOCUS_RANGE = 1
        focus_range_end = 1
        start_focus_range = 1
        focus_end_range = 1

        foo(focus_range)
        foo(FOCUS_RANGE)
        foo(focus_range_end)
        foo(start_focus_range)
        foo(focus_end_range)";
    let hinted = "
        def foo(focus_range: int): pass
        focus_range = 1
        FOCUS_RANGE = 1
        focus_range_end = 1
        start_focus_range = 1
        focus_end_range = 1

        foo(focus_range)
        foo(FOCUS_RANGE)
        foo(focus_range_end)
        foo(start_focus_range)
        foo([focus_range=]focus_end_range)
    ";
    let links = [
        ("focus_range", "main.py:2:9"),
    ];
    let known = "
        def foo(focus_range: int): pass
        focus_range[~: int] = 1
        FOCUS_RANGE[~: int] = 1
        focus_range_end[~: int] = 1
        start_focus_range[~: int] = 1
        focus_end_range[~: int] = 1

        foo([~focus_range=]focus_range)
        foo([~focus_range=]FOCUS_RANGE)
        foo([~focus_range=]focus_range_end)
        foo([~focus_range=]start_focus_range)
        foo([focus_range=]focus_end_range)
    ";
    let test = inlay_hint_test(source).knowing(known, &links);
    let edited = "
        def foo(focus_range: int): pass
        focus_range = 1
        FOCUS_RANGE = 1
        focus_range_end = 1
        start_focus_range = 1
        focus_end_range = 1

        foo(focus_range)
        foo(FOCUS_RANGE)
        foo(focus_range_end)
        foo(start_focus_range)
        foo(focus_range=focus_end_range)
    ";
    test.assert_hints(hinted, &links, Some(edited));
}

#[test]
fn test_function_call_out_of_range() {
    let source = "
        <START>def foo(x: int): pass
        def bar(y: int): pass
        foo(1)<END>
        bar(2)";
    let hinted = "
        def foo(x: int): pass
        def bar(y: int): pass
        foo([x=]1)
        bar(2)
    ";
    let links = [
        ("x", "main.py:2:9"),
    ];
    let known = "
        def foo(x: int): pass
        def bar(y: int): pass
        foo([x=]1)
        bar([~y=]2)
    ";
    let test = inlay_hint_test(source).knowing(known, &links);
    let edited = "
        def foo(x: int): pass
        def bar(y: int): pass
        foo(x=1)
        bar(2)
    ";
    test.assert_hints(hinted, &links, Some(edited));
}

#[test]
fn test_function_call_with_argument_name_starting_with_underscore() {
    let source = "
        def foo(_x: int, y: int): pass
        foo(1, 2)";
    let hinted = "
        def foo(_x: int, y: int): pass
        foo(1, [y=]2)
    ";
    let links = [
        ("y", "main.py:2:18"),
    ];
    let known = "
        def foo(_x: int, y: int): pass
        foo([~_x=]1, [y=]2)
    ";
    let test = inlay_hint_test(source).knowing(known, &links);
    let edited = "
        def foo(_x: int, y: int): pass
        foo(1, y=2)
    ";
    test.assert_hints(hinted, &links, Some(edited));
}

#[test]
fn test_function_call_different_formatting() {
    let source = "
        def foo(
            x: int,
            y: int
        ): ...

        foo(1, 2)";
    let hinted = "
        def foo(
            x: int,
            y: int
        ): ...

        foo([x=]1, [y=]2)
    ";
    let links = [
        ("x", "main.py:3:5"),
        ("y", "main.py:4:5"),
    ];
    let test = inlay_hint_test(source).knowing(hinted, &links);
    let edited = "
        def foo(
            x: int,
            y: int
        ): ...

        foo(1, y=2)
    ";
    test.assert_hints(hinted, &links, Some(edited));
}

#[test]
fn test_function_signature_inlay_hint() {
    let source = "
        def foo(x: int, *y: bool, z: str | int | list[str]): ...

        a = foo";
    let hinted = "
        def foo(x: int, *y: bool, z: str | int | list[str]): ...

        a[: def foo(x: int, *y: bool, *, z: str | int | list[str])] = foo
    ";
    let links = [
        ("int", "stdlib/builtins.byi:int"),
        ("bool", "stdlib/builtins.byi:bool"),
        ("str", "stdlib/builtins.byi:str"),
        ("int", "stdlib/builtins.byi:int"),
        ("list", "stdlib/builtins.byi:list"),
        ("str", "stdlib/builtins.byi:str"),
    ];
    let test = inlay_hint_test(source).knowing(hinted, &links);
    test.assert_hints(hinted, &links, None);
}

#[test]
fn test_module_inlay_hint() {
    let source = "
        import foo

        a = foo";
    let hinted = "
        import foo

        a[: <module 'foo'>] = foo
    ";
    let links = [
        ("module", "stdlib/types.byi:ModuleType"),
        ("foo", "foo.py:1:1"),
    ];
    let test = inlay_hint_test(source).knowing(hinted, &links);
    test.assert_hints(hinted, &links, None);
}

#[test]
fn test_literal_type_alias_inlay_hint() {
    let source = "
        from typing import Literal

        a = Literal['a', 'b', 'c']";
    let hinted = r#"
        from typing import Literal

        a[: <special-form 'Literal["a", "b", "c"]'>] = Literal['a', 'b', 'c']
    "#;
    let links = [
        ("Literal", "stdlib/typing.byi:Literal"),
        (r#""a""#, "stdlib/builtins.byi:str"),
        (r#""b""#, "stdlib/builtins.byi:str"),
        (r#""c""#, "stdlib/builtins.byi:str"),
    ];
    let test = inlay_hint_test(source).knowing(hinted, &links);
    test.assert_hints(hinted, &links, None);
}

#[test]
fn test_wrapper_descriptor_inlay_hint() {
    let source = "
        from types import FunctionType

        a = FunctionType.__get__";
    let hinted = "
        from types import FunctionType

        a[: <wrapper-descriptor '__get__' of 'function' objects>] = FunctionType.__get__
    ";
    let links = [
        ("wrapper-descriptor", "stdlib/types.byi:WrapperDescriptorType"),
        ("function", "stdlib/types.byi:FunctionType"),
    ];
    let test = inlay_hint_test(source).knowing(hinted, &links);
    test.assert_hints(hinted, &links, None);
}

#[test]
fn test_method_wrapper_inlay_hint() {
    let source = "
        def f(): ...

        a = f.__call__";
    let hinted = "
        def f(): ...

        a[: <method-wrapper '__call__' of function 'f'>] = f.__call__
    ";
    let links = [
        ("method-wrapper", "stdlib/types.byi:MethodWrapperType"),
        ("__call__", "stdlib/types.byi:__call__"),
        ("function", "stdlib/types.byi:FunctionType"),
        ("f", "main.py:2:5"),
    ];
    let test = inlay_hint_test(source).knowing(hinted, &links);
    test.assert_hints(hinted, &links, None);
}

#[test]
fn test_newtype_inlay_hint() {
    let source = "
        from typing import NewType

        N = NewType('N', str)

        Y = N";
    let hinted = "
        from typing import NewType

        N[: <NewType pseudo-class 'N'>] = NewType([name=]'N', [tp=]str)

        Y[: <NewType pseudo-class 'N'>] = N
    ";
    let links = [
        ("NewType", "stdlib/typing.byi:NewType"),
        ("N", "main.py:4:1"),
        ("name", "stdlib/typing.byi:name"),
        ("tp", "stdlib/typing.byi:tp"),
        ("NewType", "stdlib/typing.byi:NewType"),
        ("N", "main.py:4:1"),
    ];
    let test = inlay_hint_test(source).knowing(hinted, &links);
    let edited = "
        from typing import NewType

        N = NewType('N', tp=str)

        Y = N
    ";
    test.assert_hints(hinted, &links, Some(edited));
}

#[test]
fn test_meta_typevar_inlay_hint() {
    let source = "
        def f[T](x: type[T]):
            y = x";
    let hinted = "
        def f[T](x: type[T]):
            y[: type[T@f]] = x
    ";
    let links = [
        ("type", "stdlib/builtins.byi:type"),
        ("T@f", "main.py:2:7"),
    ];
    let test = inlay_hint_test(source).knowing(hinted, &links);
    test.assert_hints(hinted, &links, None);
}

#[test]
fn test_subscripted_protocol_inlay_hint() {
    let source = "
        from typing import Protocol, TypeVar
        T = TypeVar('T')
        Strange = Protocol[T]";
    let hinted = "
        from typing import Protocol, TypeVar
        T = TypeVar([name=]'T')
        Strange[: <special-form 'typing.Protocol[T]'>] = Protocol[T]
    ";
    let links = [
        ("name", "stdlib/typing.byi:name"),
        ("typing.Protocol", "stdlib/typing.byi:Protocol"),
        ("T", "main.py:3:1"),
    ];
    let known = "
        from typing import Protocol, TypeVar
        T[~: TypeVar] = TypeVar([name=]'T')
        Strange[: <special-form 'typing.Protocol[T]'>] = Protocol[T]
    ";
    let test = inlay_hint_test(source).knowing(known, &links);
    let edited = "
        from typing import Protocol, TypeVar
        T = TypeVar(name='T')
        Strange = Protocol[T]
    ";
    test.assert_hints(hinted, &links, Some(edited));
}

#[test]
fn test_paramspec_creation_inlay_hint() {
    let source = "
        from typing import ParamSpec
        P = ParamSpec('P')";
    let hinted = "
        from typing import ParamSpec
        P = ParamSpec([name=]'P')
    ";
    let links = [
        ("name", "stdlib/typing.byi:name"),
    ];
    let known = "
        from typing import ParamSpec
        P[~: ParamSpec] = ParamSpec([name=]'P')
    ";
    let test = inlay_hint_test(source).knowing(known, &links);
    let edited = "
        from typing import ParamSpec
        P = ParamSpec(name='P')
    ";
    test.assert_hints(hinted, &links, Some(edited));
}

#[test]
fn test_typealiastype_creation_inlay_hint() {
    let source = "
        from typing_extensions import TypeAliasType
        A = TypeAliasType('A', str)";
    let hinted = "
        from typing_extensions import TypeAliasType
        A = TypeAliasType([name=]'A', [value=]str)
    ";
    let links = [
        ("name", "stdlib/typing.byi:name"),
        ("value", "stdlib/typing.byi:value"),
    ];
    let known = "
        from typing_extensions import TypeAliasType
        A[~: TypeAliasType] = TypeAliasType([name=]'A', [value=]str)
    ";
    let test = inlay_hint_test(source).knowing(known, &links);
    let edited = "
        from typing_extensions import TypeAliasType
        A = TypeAliasType('A', value=str)
    ";
    test.assert_hints(hinted, &links, Some(edited));
}

#[test]
fn test_typevartuple_creation_inlay_hint() {
    let source = "
        from typing_extensions import TypeVarTuple
        Ts = TypeVarTuple('Ts')";
    let hinted = "
        from typing_extensions import TypeVarTuple
        Ts = TypeVarTuple([name=]'Ts')
    ";
    let links = [
        ("name", "stdlib/typing_extensions.byi:name"),
    ];
    let known = "
        from typing_extensions import TypeVarTuple
        Ts[~: TypeVarTuple] = TypeVarTuple([name=]'Ts')
    ";
    let test = inlay_hint_test(source).knowing(known, &links);
    let edited = "
        from typing_extensions import TypeVarTuple
        Ts = TypeVarTuple(name='Ts')
    ";
    test.assert_hints(hinted, &links, Some(edited));
}

#[test]
fn hover_type_with_top_materialization() {
    let source = "
        from typing import Any
        from ty_extensions import Top

        def f(xyxy: Top[list[Any]]):
            x = xyxy
    ";
    let hinted = "
        from typing import Any
        from ty_extensions import Top

        def f(xyxy: Top[list[Any]]):
            x[: Top[list[Any]]] = xyxy
    ";
    let links = [
        ("Top", "stdlib/ty_extensions/__init__.pyi:Top"),
        ("list", "stdlib/builtins.byi:list"),
        ("Any", "stdlib/typing.byi:Any"),
    ];
    let test = inlay_hint_test(source).knowing(hinted, &links);
    let edited = "
        from typing import Any
        from ty_extensions import Top

        def f(xyxy: Top[list[Any]]):
            x: Top[list[Any]] = xyxy
    ";
    test.assert_hints(hinted, &links, Some(edited));
}

#[test]
fn test_auto_import_with_qualification_of_names() {
    let source = "
        import foo

        a = foo.C().foo()
    ";
    let hinted = "
        import foo

        a[: B[A[D[int, list[str | A[B[int]]]]]]] = foo.C().foo()
    ";
    let links = [
        ("B", "foo.py:6:19"),
        ("A", "foo.py:4:19"),
        ("D", "bar.py:2:19"),
        ("int", "stdlib/builtins.byi:int"),
        ("list", "stdlib/builtins.byi:list"),
        ("str", "stdlib/builtins.byi:str"),
        ("A", "foo.py:4:19"),
        ("B", "foo.py:6:19"),
        ("int", "stdlib/builtins.byi:int"),
    ];
    let test = inlay_hint_test(source).knowing(hinted, &links);
    let edited = "        from bar import D

        import foo

        a: foo.B[foo.A[D[int, list[str | foo.A[foo.B[int]]]]]] = foo.C().foo()
    ";
    test.assert_hints(hinted, &links, Some(edited));
}

#[test]
fn test_auto_import_with_update_import_from_statement() {
    let source = "
        from foo import C

        a = C().foo()
    ";
    let hinted = "
        from foo import C

        a[: B[A[D[int, list[str | A[B[int]]]]]]] = C().foo()
    ";
    let links = [
        ("B", "foo.py:6:19"),
        ("A", "foo.py:4:19"),
        ("D", "bar.py:2:19"),
        ("int", "stdlib/builtins.byi:int"),
        ("list", "stdlib/builtins.byi:list"),
        ("str", "stdlib/builtins.byi:str"),
        ("A", "foo.py:4:19"),
        ("B", "foo.py:6:19"),
        ("int", "stdlib/builtins.byi:int"),
    ];
    let test = inlay_hint_test(source).knowing(hinted, &links);
    let edited = "        from bar import D

        from foo import C, B, A

        a: B[A[D[int, list[str | A[B[int]]]]]] = C().foo()
    ";
    test.assert_hints(hinted, &links, Some(edited));
}

#[test]
fn test_auto_import_symbol_imported_from_different_path() {
    let source = "
        from foo import D

        class Baz: ...

        a = D(Baz)
    ";
    let hinted = "
        from foo import D

        class Baz: ...

        a[: D[Baz]] = D[[Baz]]([x=]Baz)
    ";
    let links = [
        ("D", "foo/bar.py:2:19"),
        ("Baz", "main.py:4:7"),
        ("Baz", "main.py:4:7"),
        ("x", "foo/bar.py:3:36"),
    ];
    let test = inlay_hint_test(source).knowing(hinted, &links);
    let edited = "
        from foo import D

        class Baz: ...

        a: D[Baz] = D(x=Baz)
    ";
    test.assert_hints(hinted, &links, Some(edited));
}

#[test]
fn test_auto_import_typing_literal() {
    let source = r#"
        from typing import Any

        def foo(x: Any):
            a = getattr(x, 'foo', "some")
    "#;
    let hinted = r#"
        from typing import Any

        def foo(x: Any):
            a[: Any | Literal["some"]] = getattr[[Literal["some"]]](x, 'foo', "some")
    "#;
    let links = [
        ("Any", "stdlib/typing.byi:Any"),
        ("Literal", "stdlib/typing.byi:Literal"),
        (r#""some""#, "stdlib/builtins.byi:str"),
        (r#"Literal["some"]"#, "stdlib/builtins.byi:str"),
    ];
    let test = inlay_hint_test(source).knowing(hinted, &links);
    let edited = r#"
        from typing import Any, Literal

        def foo(x: Any):
            a: Any | Literal["some"] = getattr(x, 'foo', "some")
    "#;
    test.assert_hints(hinted, &links, Some(edited));
}

#[test]
fn test_auto_import_other_symbols() {
    let source = "
        from foo import foo

        a = foo()
    ";
    let hinted = "
        from foo import foo

        a[: dict[TypeVar, Any] | None] = foo()
    ";
    let links = [
        ("dict", "stdlib/builtins.byi:dict"),
        ("TypeVar", "stdlib/typing.byi:TypeVar"),
        ("Any", "stdlib/typing.byi:Any"),
        ("None", "stdlib/types.byi:NoneType"),
    ];
    let test = inlay_hint_test(source).knowing(hinted, &links);
    let edited = "        from typing import TypeVar
        from typing import Any

        from foo import foo

        a: dict[TypeVar, Any] | None = foo()
    ";
    test.assert_hints(hinted, &links, Some(edited));
}

#[test]
fn test_auto_import_same_name_different_modules_both_qualified() {
    let source = "
        from foo import foo

        a = foo()
    ";
    let hinted = "
        from foo import foo

        a[: bar.A | baz.A] = foo()
    ";
    let links = [
        ("bar.A", "bar.py:2:19"),
        ("baz.A", "baz.py:2:19"),
    ];
    let test = inlay_hint_test(source).knowing(hinted, &links);
    let edited = "        import bar
        import baz

        from foo import foo

        a: bar.A | baz.A = foo()
    ";
    test.assert_hints(hinted, &links, Some(edited));
}

#[test]
fn test_auto_import_same_name_different_modules_one_qualified() {
    let source = "
        from foo import foo
        from bar import B

        a = foo()
    ";
    let hinted = "
        from foo import foo
        from bar import B

        a[: bar.A | baz.A | list[bar.A | baz.A]] = foo()
    ";
    let links = [
        ("bar.A", "bar.py:2:22"),
        ("baz.A", "baz.py:2:22"),
        ("list", "stdlib/builtins.byi:list"),
        ("bar.A", "bar.py:2:22"),
        ("baz.A", "baz.py:2:22"),
    ];
    let test = inlay_hint_test(source).knowing(hinted, &links);
    let edited = "        import bar
        import baz

        from foo import foo
        from bar import B

        a: bar.A | baz.A | list[bar.A | baz.A] = foo()
    ";
    test.assert_hints(hinted, &links, Some(edited));
}

#[test]
fn test_auto_import_symbol_in_scope_same_name() {
    let source = "
        from dataclasses import dataclass
        import foo

        class A: ...

        @dataclass
        class B[T]:
            x: T

        b = B(foo.A())
    ";
    let hinted = "
        from dataclasses import dataclass
        import foo

        class A: ...

        @dataclass
        class B[T]:
            x: T

        b[: B[A]] = B[[A]]([x=]foo.A())
    ";
    let links = [
        ("B", "main.py:8:7"),
        ("A", "foo.py:2:19"),
        ("A", "foo.py:2:19"),
        ("x", "main.py:9:5"),
    ];
    let test = inlay_hint_test(source).knowing(hinted, &links);
    let edited = "
        from dataclasses import dataclass
        import foo

        class A: ...

        @dataclass
        class B[T]:
            x: T

        b: B[foo.A] = B(x=foo.A())
    ";
    test.assert_hints(hinted, &links, Some(edited));
}

#[test]
fn test_auto_import_enum_member() {
    let source = "
        from test import Color

        x = Color.RED
    ";
    let hinted = "
        from test import Color

        x[: Literal[Color.RED]] = Color.RED
    ";
    let links = [
        ("Literal", "stdlib/typing.byi:Literal"),
        ("Color", "test.py:4:19"),
        ("RED", "test.py:5:17 nested"),
    ];
    let test = inlay_hint_test(source).knowing(hinted, &links);
    test.assert_hints(hinted, &links, None);
}

#[test]
fn test_auto_import_nested_class() {
    let source = "
        from module import Outer


        def wrap[T](x: T) -> list[T]:
            return [x]

        y = wrap(Outer.Inner())
    ";
    let hinted = "
        from module import Outer


        def wrap[T](x: T) -> list[T]:
            return [x]

        y[: list[Inner]] = wrap[[Inner]]([x=]Outer.Inner())
    ";
    let links = [
        ("list", "stdlib/builtins.byi:list"),
        ("Inner", "module.py:3:23 nested"),
        ("Inner", "module.py:3:23 nested"),
        ("x", "main.py:5:13"),
    ];
    let test = inlay_hint_test(source).knowing(hinted, &links);
    let edited = "
        from module import Outer


        def wrap[T](x: T) -> list[T]:
            return [x]

        y = wrap(x=Outer.Inner())
    ";
    test.assert_hints(hinted, &links, Some(edited));
}

#[test]
fn test_auto_import_enum_member_unimported_class() {
    let source = "
        import test

        x = test.Color.RED
    ";
    let hinted = "
        import test

        x[: Literal[Color.RED]] = test.Color.RED
    ";
    let links = [
        ("Literal", "stdlib/typing.byi:Literal"),
        ("Color", "test.py:4:19"),
        ("RED", "test.py:5:17 nested"),
    ];
    let test = inlay_hint_test(source).knowing(hinted, &links);
    test.assert_hints(hinted, &links, None);
}

#[test]
fn test_auto_import_method_returning_nested_class() {
    let source = "
        from module import Outer

        x = Outer().make()
    ";
    let hinted = "
        from module import Outer

        x[: Inner] = Outer().make()
    ";
    let links = [
        ("Inner", "module.py:3:23 nested"),
    ];
    let test = inlay_hint_test(source).knowing(hinted, &links);
    test.assert_hints(hinted, &links, None);
}

#[test]
fn test_auto_import_same_file_method_returning_nested_class() {
    let source = r#"
        class Outer:
            class Inner: ...

            def make(self) -> "Outer.Inner":
                return Outer.Inner()

        x = Outer().make()
    "#;
    let hinted = r#"
        class Outer:
            class Inner: ...

            def make(self) -> "Outer.Inner":
                return Outer.Inner()

        x[: Inner] = Outer().make()
    "#;
    let links = [
        ("Inner", "main.py:3:11 nested"),
    ];
    let test = inlay_hint_test(source).knowing(hinted, &links);
    test.assert_hints(hinted, &links, None);
}

// ---- inlay hints of basedpython ----

/// A basedpython source, each of whose stretches in `written` is read as the python one beside it,
/// which is as long. The tree is then made what basedpython's parser makes of the source.
fn basedpython_inlay_hint_test(source: &str, written: &[(&str, &str)]) -> HintTest {
    declaring_inlay_hint_test(source, written, &[])
}

/// The same, where the declarations have `modifiers`.
fn declaring_inlay_hint_test(
    source: &str,
    written: &[(&str, &str)],
    modifiers: &[Modifier],
) -> HintTest {
    let source = dedent(source).into_owned();
    let mut python = source.clone();
    for (based, plain) in written {
        assert_eq!(based.len(), plain.len(), "`{based}` is as long as `{plain}`");
        assert!(python.contains(based), "`{based}` stands in the source");
        python = python.replace(based, plain);
    }
    let mut test = inlay_hint_test_of(&python, true, modifiers);
    test.file.source = source;
    let mut next_id = 3_000_000;
    make_based(&test.file.source, &mut test.file.suite, &mut next_id);
    test
}

fn numbered(next_id: &mut u32, range: TextRange, field: Field, kind: NodeKind, children: Vec<Node>) -> Node {
    *next_id += 1;
    Node { id: *next_id, range, outer: range, field, kind, children }
}

fn function_kind(name: &str, name_range: TextRange, is_trailing_lambda: bool) -> NodeKind {
    NodeKind::StmtFunctionDef {
        name: name.to_string(),
        name_range,
        is_async: false,
        is_trailing_lambda,
        is_asserts_return: false,
        is_property_construct: false,
    }
}

fn parameter_at(next_id: &mut u32, name: &str, range: TextRange) -> Node {
    let kind = NodeKind::Parameter { name: name.to_string(), name_range: range };
    numbered(next_id, range, Field::Parameter, kind, vec![])
}

fn make_based(source: &str, node: &mut Node, next_id: &mut u32) {
    let text = text_at(source, node.range).to_string();
    let start = node.range.start;
    match &mut node.kind {
        // `apply:` opens a suite that is a lambda's body, and `get():` an accessor's
        NodeKind::StmtIf { .. } if !text.starts_with("if") && !text.starts_with("var ") => {
            let is_accessor = text.starts_with("get(") || text.starts_with("set(");
            let ends = if is_accessor { text.find([':', '=']) } else { text.find(':') };
            let colon = start + ends.expect("the end of the header") as u32;
            let mut body = node.children.remove(1);
            body.field = Field::Body;
            let bound = text[..(colon - start) as usize].find(" = ").map_or(0, |at| at + " = ".len());
            let header = TextRange { start: start + bound as u32, end: colon };
            if is_accessor {
                let nothing = TextRange::empty(start);
                let parameters = numbered(next_id, nothing, Field::Parameters, NodeKind::Parameters, vec![]);
                node.kind = function_kind("x", header, false);
                node.children = vec![parameters, body];
            } else {
                let id = text_at(source, header).to_string();
                let callee = NodeKind::ExprName { id, ctx: ExprContext::Load };
                let callee = numbered(next_id, header, Field::Expression, callee, vec![]);
                let decorator = numbered(next_id, header, Field::Decorator, NodeKind::Decorator, vec![callee]);
                let at = TextRange { start: colon, end: colon + 1 };
                let it = parameter_at(next_id, "it", at);
                let parameters = numbered(next_id, at, Field::Parameters, NodeKind::Parameters, vec![it]);
                node.kind = function_kind("<lambda>", header, true);
                node.children = vec![decorator, parameters, body];
            }
        }
        // `init(a: int)` is a method with a receiver it does not spell
        NodeKind::StmtPass if text.starts_with("init") || source[start as usize..].starts_with("init(") => {
            let open = start + source[start as usize..].find('(').expect("a parameter list") as u32;
            let close = start + source[start as usize..].find(')').expect("its end") as u32;
            let receiver = parameter_at(next_id, "self", TextRange::empty(open + 1));
            let mut parameters = vec![receiver];
            let mut from = open + 1;
            for written in source[open as usize + 1..close as usize].split(',') {
                let name = written.split(':').next().unwrap_or_default();
                if !name.trim().is_empty() {
                    let at = from + (name.len() - name.trim_start().len()) as u32;
                    let range = TextRange { start: at, end: at + name.trim().len() as u32 };
                    parameters.push(parameter_at(next_id, name.trim(), range));
                }
                from += written.len() as u32 + 1;
            }
            let list = TextRange { start: open, end: close + 1 };
            let parameters = numbered(next_id, list, Field::Parameters, NodeKind::Parameters, parameters);
            let returned = TextRange::empty(close + 1);
            let returned = numbered(next_id, returned, Field::Returns, NodeKind::ExprNoneLiteral, vec![]);
            let body = TextRange::empty(close + 1);
            let body = numbered(next_id, body, Field::Body, NodeKind::Suite, vec![]);
            node.range = TextRange { start, end: close + 1 };
            node.outer = node.range;
            node.kind = function_kind("__init__", TextRange { start, end: open }, false);
            node.children = vec![parameters, returned, body];
        }
        NodeKind::Suite => {
            // `case Red, Green` declares a class for each
            let statements = std::mem::take(&mut node.children);
            for statement in statements {
                let rest = &source[statement.range.start as usize..];
                // `result = apply:` binds what the call of the block is
                let line = rest.lines().next().unwrap_or_default();
                if let (NodeKind::StmtIf { .. }, Some(equals)) = (&statement.kind, line.find(" = ")) {
                    if let Some(colon) = line.find(':').filter(|colon| equals < *colon) {
                        let at = statement.range.start;
                        let target = TextRange { start: at, end: at + equals as u32 };
                        let value = TextRange { start: target.end + 3, end: at + colon as u32 };
                        let name = |range: TextRange, ctx: ExprContext| NodeKind::ExprName {
                            id: text_at(source, range).to_string(),
                            ctx,
                        };
                        let bound = vec![
                            numbered(next_id, target, Field::Target, name(target, ExprContext::Store), vec![]),
                            numbered(next_id, value, Field::Value, name(value, ExprContext::Load), vec![]),
                        ];
                        let range = TextRange { start: at, end: value.end };
                        node.children.push(numbered(next_id, range, Field::Statement, NodeKind::StmtAssign, bound));
                    }
                }
                let is_case = matches!(statement.kind, NodeKind::StmtPass) && rest.starts_with("case ");
                if !is_case {
                    node.children.push(statement);
                    continue;
                }
                let line = rest.lines().next().unwrap_or_default();
                let mut from = statement.range.start + "case ".len() as u32;
                for name in line["case ".len()..].split(", ") {
                    let bare = name.split('(').next().unwrap_or_default();
                    let name_range = TextRange { start: from, end: from + bare.len() as u32 };
                    let kind = NodeKind::StmtClassDef {
                        name: bare.to_string(),
                        name_range,
                        is_enum_variant: true,
                    };
                    let range = TextRange { start: from, end: from + name.len() as u32 };
                    node.children.push(numbered(next_id, range, Field::Statement, kind, vec![]));
                    from += name.len() as u32 + 2;
                }
            }
        }
        NodeKind::ExprCall { is_cast, is_string_tag } => {
            *is_cast = !text.starts_with("cast(") && text.contains(" cast");
            *is_string_tag = text.starts_with("sql\"");
        }
        // `Key=str` names the type parameter that `str` fills
        NodeKind::ExprBinOp { .. } if text.contains('=') => {
            node.kind = NodeKind::ExprNamed;
            for child in &mut node.children {
                if child.field == Field::Left {
                    child.field = Field::Target;
                    if let NodeKind::ExprName { ctx, .. } = &mut child.kind {
                        *ctx = ExprContext::Invalid;
                    }
                } else {
                    child.field = Field::Value;
                }
            }
        }
        NodeKind::TypeParam { has_variance, .. } => {
            *has_variance = source[..start as usize].trim_end().ends_with("out");
        }
        NodeKind::StmtFunctionDef { is_asserts_return, .. } => {
            let after = filling_position(&node.children, Field::Parameters);
            let body = filling_position(&node.children, Field::Body);
            if let (Some(after), Some(body)) = (after, body) {
                let from = node.children[after].range.end;
                let header = &source[from as usize..node.children[body].range.start as usize];
                *is_asserts_return = header.contains("asserts ");
                if let Some(at) = header.find("raises ") {
                    let at = from + at as u32 + "raises ".len() as u32;
                    let end = at + source[at as usize..].find(':').expect("the colon") as u32;
                    let range = TextRange { start: at, end };
                    let id = text_at(source, range).to_string();
                    let kind = NodeKind::ExprName { id, ctx: ExprContext::Load };
                    node.children.insert(body, numbered(next_id, range, Field::Raises, kind, vec![]));
                }
            }
        }
        // `let a = v` is read as `a: __let__ = v`, where the marker spans the keyword
        NodeKind::StmtAssign if node.children.iter().any(|child| child.field == Field::Decorator) => {
            let decorator = node.children.remove(0);
            let NodeKind::ExprName { id, .. } = &decorator.children[0].kind else { return };
            let marker = NodeKind::ExprName { id: id.clone(), ctx: ExprContext::Invalid };
            node.kind = NodeKind::StmtAnnAssign { is_context: id == "__context__" };
            node.children.insert(0, numbered(next_id, decorator.range, Field::Annotation, marker, vec![]));
        }
        _ => {}
    }
    for child in &mut node.children {
        make_based(source, child, next_id);
    }
}

fn filling_position(nodes: &[Node], field: Field) -> Option<usize> {
    nodes.iter().position(|node| node.field == field)
}

impl HintTest {
    /// The nodes that `accepts` holds of, with the class around each.
    fn found(&self, accepts: impl Fn(&Node) -> bool) -> Vec<(u32, u32)> {
        fn go(node: &Node, class: u32, accepts: &impl Fn(&Node) -> bool, found: &mut Vec<(u32, u32)>) {
            if accepts(node) {
                found.push((node.id, class));
            }
            let class = if matches!(node.kind, NodeKind::StmtClassDef { .. }) { node.id } else { class };
            for child in &node.children {
                go(child, class, accepts, found);
            }
        }
        let mut found = Vec::new();
        go(&self.file.suite, u32::MAX, &accepts, &mut found);
        found
    }

    /// The `nth` function named `function`.
    fn function(&self, function: &str, nth: usize) -> (u32, u32) {
        self.found(|node| matches!(&node.kind, NodeKind::StmtFunctionDef { name, .. } if name == function))[nth]
    }

    fn raising(mut self, function: &str, raised: &str) -> Self {
        let found = self.found(|node| matches!(&node.kind, NodeKind::StmtFunctionDef { name, .. } if name == function));
        let (function, _) = found[found.len() - 1];
        self.facts_of_function(function).raises = Some(raised.to_string());
        self
    }

    fn returned(mut self, function: &str, returned: &str) -> Self {
        let (function, _) = self.function(function, 0);
        self.facts_of_function(function).returned = Some(returned.to_string());
        self
    }

    fn reifying(mut self, function: &str, parameters: &[&str]) -> Self {
        let (function, _) = self.function(function, 0);
        self.facts_of_function(function).reified = parameters.iter().map(|name| name.to_string()).collect();
        self
    }

    /// The `nth` method named `function` overrides a member of a superclass.
    fn overriding(mut self, function: &str, nth: usize) -> Self {
        let (function, class) = self.function(function, nth);
        self.file.facts.classes.push(class);
        self.file.facts.overrides.push(OverrideAnswer { function, class, superclass: None });
        self
    }

    /// The variance of the `nth` type parameter of the file.
    fn varying(mut self, nth: usize, variance: Variance) -> Self {
        let (parameter, _) = self.found(|node| matches!(node.kind, NodeKind::TypeParam { .. }))[nth];
        self.file.facts.variances.push((parameter, variance));
        self
    }

    /// The parameters that the `nth` trailing lambda binds.
    fn binding(mut self, nth: usize, parameters: &[(&str, &str)]) -> Self {
        let (function, _) = self.function("<lambda>", nth);
        self.facts_of_function(function).implicit_parameters = parameters
            .iter()
            .map(|(name, ty)| ImplicitParameter { name: name.to_string(), ty: Some(ty.to_string()) })
            .collect();
        self
    }

    /// The `nth` `reveal_type` reveals `ty`, of a place declared `declared`.
    fn revealing(mut self, nth: usize, ty: &str, declared: Option<&str>) -> Self {
        let source = self.file.source.clone();
        let calls = self.found(|node| {
            matches!(node.kind, NodeKind::ExprCall { .. })
                && text_at(&source, node.range).starts_with("reveal_type(")
        });
        let (call, _) = calls[nth];
        self.call_facts(call).reveals_type = true;
        let mut nodes = Vec::new();
        walk(&self.file.suite, &mut nodes);
        let call = nodes.iter().find(|node| node.id == call).expect("the call");
        let argument = filling(filling(call, Field::Arguments)[0], Field::Arg)[0].id;
        let revealed = Revealed { ty: ty.to_string(), declared: declared.map(ToString::to_string) };
        self.file.facts.revealed.push((argument, revealed));
        self
    }

    /// The `nth` call written `call` fills the parameters from the declarations beside them.
    fn filled(mut self, call: &str, nth: usize, arguments: &[(&str, &str, Option<&str>)]) -> Self {
        let source = self.file.source.clone();
        let (call, _) = self.found(|node| {
            matches!(node.kind, NodeKind::ExprCall { .. }) && text_at(&source, node.range) == call
        })[nth];
        let mut context_arguments = Vec::new();
        for (parameter, variable, declaration) in arguments {
            context_arguments.push(ContextArgument {
                parameter: parameter.to_string(),
                variable: variable.to_string(),
                declaration: declaration.map(|target| self.place(target)),
            });
        }
        self.call_facts(call).context_arguments = context_arguments;
        self
    }

    /// The first argument of the `nth` call fills the parameter `name`.
    fn named_argument(mut self, nth: usize, name: &str) -> Self {
        let (call, _) = self.found(|node| matches!(node.kind, NodeKind::ExprCall { .. }))[nth];
        let argument = ArgumentName { name: name.to_string(), target: None };
        self.call_facts(call).argument_names.push((0, argument));
        self
    }

    /// What is rendered `plain` is `named` with its type arguments named, which fill `parameters`.
    fn naming(mut self, plain: &str, named: &str, parameters: &[&str]) -> Self {
        for (_, variable) in &mut self.file.facts.variables {
            if variable.plain.label == plain {
                variable.named.label = named.to_string();
            }
        }
        for (_, call) in &mut self.file.facts.calls {
            if call.type_arguments.len() == parameters.len() {
                for (argument, parameter) in call.type_arguments.iter_mut().zip(parameters) {
                    argument.parameter = parameter.to_string();
                }
            }
        }
        self
    }

    /// The type parameters of every generic type written `name`.
    fn parameterized(mut self, name: &str, parameters: &[&str]) -> Self {
        let names = self.found(|node| {
            node.field == Field::Value && matches!(&node.kind, NodeKind::ExprName { id, .. } if id == name)
        });
        for (expr, _) in names {
            let parameters = parameters.iter().map(|name| name.to_string()).collect();
            self.file.facts.type_parameters.push((expr, parameters));
        }
        self
    }

    /// The member `name` of the enum `class` takes `value`.
    fn counting(mut self, class: &str, name: &str, value: Option<&str>) -> Self {
        let (class, _) = self.found(|node| matches!(&node.kind, NodeKind::StmtClassDef { name, .. } if name == class))[0];
        self.file.facts.classes.push(class);
        self.file.facts.enum_values.push(EnumValue {
            class,
            name: name.to_string(),
            value: value.map(ToString::to_string),
        });
        self
    }

    /// Every `float` and `complex` is promoted, with the arms that the operands beside it lack.
    fn promoting(mut self) -> Self {
        fn operands<'n>(node: &'n Node, found: &mut Vec<&'n Node>) {
            if matches!(node.kind, NodeKind::ExprBinOp { op: Operator::BitOr }) {
                for child in &node.children {
                    operands(child, found);
                }
            } else {
                found.push(node);
            }
        }
        let mut facts: Vec<Promotion> = Vec::new();
        let mut typed = Vec::new();
        let mut unions = Vec::new();
        let mut nodes = Vec::new();
        walk(&self.file.suite, &mut nodes);
        let name = |node: &Node| match &node.kind {
            NodeKind::ExprName { id, .. } => id.clone(),
            _ => String::new(),
        };
        let arms = |node: &Node, beside: &[String]| {
            let wider: &[&str] = match name(node).as_str() {
                "float" => &["int"],
                "complex" => &["int", "float"],
                _ => &[],
            };
            let missing: Vec<String> = wider
                .iter()
                .filter(|arm| !beside.iter().any(|known| known == *arm))
                .map(|arm| format!("| {arm}"))
                .collect();
            missing.join(" ")
        };
        let mut in_unions = Vec::new();
        for node in &nodes {
            let members: Vec<&Node> = match &node.kind {
                NodeKind::ExprBinOp { op: Operator::BitOr } => {
                    let mut found = Vec::new();
                    operands(node, &mut found);
                    found
                }
                NodeKind::ExprSubscript { .. } if name(filling(node, Field::Value)[0]) == "Union" => {
                    unions.push(filling(node, Field::Value)[0].id);
                    filling(node, Field::Slice)[0].children.iter().collect()
                }
                _ => continue,
            };
            for (index, member) in members.iter().enumerate() {
                typed.push(member.id);
                in_unions.push(member.id);
                let others: Vec<&&Node> =
                    members.iter().enumerate().filter(|(at, _)| *at != index).map(|(_, other)| other).collect();
                let beside: Vec<String> = others.iter().map(|other| name(other)).collect();
                let arms = arms(member, &beside);
                if !arms.is_empty() {
                    let siblings = others.iter().map(|other| other.id).collect();
                    facts.push(Promotion { expr: member.id, siblings, arms });
                }
            }
        }
        for node in &nodes {
            let arms = arms(node, &[]);
            if !arms.is_empty() && !in_unions.contains(&node.id) {
                facts.push(Promotion { expr: node.id, siblings: Vec::new(), arms });
            }
        }
        self.file.facts.promotions = facts;
        self.file.facts.typed = typed;
        self.file.facts.unions = unions;
        self
    }
}

#[test]
fn a_hint_leaves_the_space_beside_it_to_the_client() {
    let test = basedpython_inlay_hint_test(
        "
        class Base:
            def f(self) -> None: ...

        class Derived(Base):
            def f(self):
                raise TypeError

        class Source[T]:
            def get(self) -> T: ...

        def make[T]():
            return T()
        ",
        &[],
    )
    .overriding("f", 1)
    .raising("f", "TypeError")
    .varying(0, Variance::Covariant)
    .reifying("make", &["T"])
    .returned("make", "T@make");
    assert_snapshot(
        test.padded_hints(&InlayHintSettings {
            inferred_return_types: true,
            inferred_raises: true,
            inferred_variance: true,
            inferred_reification: true,
            inferred_override: true,
            ..InlayHintSettings::none()
        }),
        "
        «override_»
        «_raises TypeError»
        «out_»
        «reified_»
        «_-> T@make»
        ",
    );
}

#[test]
fn a_python_hint_leaves_the_space_beside_it_to_the_client() {
    let test = inlay_hint_test(
        "
        def f(x: float | None) -> None:
            reveal_type(x)
        ",
    )
    .promoting()
    .revealing(0, "int | float | None", None);
    assert_snapshot(
        test.padded_hints(&InlayHintSettings {
            revealed_types: true,
            numeric_promotions: true,
            ..InlayHintSettings::none()
        }),
        "
        «_| int»
        «_int | float | None»
        ",
    );
}

#[test]
fn an_implicit_parameter_is_padded_where_it_meets_written_source() {
    let test = basedpython_inlay_hint_test(
        "
        def apply(fn: (int) -> None) -> None:
            fn(1)

        class C:
            init(a: int)

        class D:
            init()

        apply:
            print(it)
        ",
        &[
            ("(int) -> None)", "None         )"),
            ("init(a: int)", "pass        "),
            ("init()", "pass  "),
            ("\napply:", "\nif 1 :"),
        ],
    )
    .binding(0, &[("it", "int")]);
    assert_snapshot(
        test.padded_hints(&InlayHintSettings {
            implicit_parameters: true,
            implicit_self: true,
            ..InlayHintSettings::none()
        }),
        "
        «self,_»
        «self»
        «_it: int»
        ",
    );
}

#[test]
fn forwarded_parameter_pack_hints() {
    let hinted = "
        def deco[Parameters: (*: *, **: *), R](fn: (**Parameters) -> R)[ -> def inner(**Parameters@deco) -> R@deco]:
            def inner(*args: *Parameters, **kwargs: **Parameters) -> R:
                positional[: *Parameters@deco] = args
                keyword[: **Parameters@deco] = kwargs
                return fn(*args, **kwargs)

            return inner
    ";
    let test = basedpython_inlay_hint_test(
        "
        def deco[Parameters: (*: *, **: *), R](fn: (**Parameters) -> R):
            def inner(*args: *Parameters, **kwargs: **Parameters) -> R:
                positional = args
                keyword = kwargs
                return fn(*args, **kwargs)

            return inner
        ",
        &[
            ("(*: *, **: *)", "(11111111111)"),
            ("fn: (**Parameters) -> R", "fn: R                  "),
            (": **Parameters)", ":   Parameters)"),
        ],
    )
    .knowing(hinted, &[]);
    test.assert_hints(hinted, &[], None);
}

#[test]
fn template_literal_type_hints() {
    let hinted = r#"
        def route(path: f"/{str}"):
            slug[: f"/{str}"] = path
    "#;
    let links = [("/", "stdlib/builtins.byi:str"), ("str", "stdlib/builtins.byi:str")];
    let test = basedpython_inlay_hint_test(
        "
        def route(path: f\"/{str}\"):
            slug = path
        ",
        &[],
    )
    .knowing(hinted, &links);
    let edited = r#"
        def route(path: f"/{str}"):
            slug: f"/{str}" = path
    "#;
    test.assert_hints(hinted, &links, Some(edited));
}

#[test]
fn property_accessor_hints() {
    let hinted = "
        def compute() -> int:
            return 1

        class A:
            var x: int
                field = 10
                get():
                    y[: int] = compute()
                    return y
                set(value):
                    print(value)
    ";
    let links = [("int", "stdlib/builtins.byi:int")];
    let test = basedpython_inlay_hint_test(
        "
        def compute() -> int:
            return 1

        class A:
            var x: int
                field = 10
                get():
                    y = compute()
                    return y
                set(value):
                    print(value)
        ",
        &[("var x: int", "if 11111 :"), ("get():", "if 1 :"), ("set(value):", "if 111111 :")],
    )
    .knowing(hinted, &links);
    let edited = "
        def compute() -> int:
            return 1

        class A:
            var x: int
                field = 10
                get():
                    y: int = compute()
                    return y
                set(value):
                    print(value)
    ";
    test.assert_hints(hinted, &links, Some(edited));
}

#[test]
fn based_enum_case_values() {
    let test = declaring_inlay_hint_test(
        "
        enum class Color:
            case Red, Green
            case Blue
        ",
        &[("case Red, Green", "pass           "), ("case Blue", "pass     ")],
        &[Modifier { before: "enum class", text: "enum ", covers: "enum class ", name: "enum_def" }],
    )
    .counting("Color", "Red", Some("1"))
    .counting("Color", "Green", Some("2"))
    .counting("Color", "Blue", Some("3"));
    let hinted = "
        enum class Color:
            case Red[ 1], Green[ 2]
            case Blue[ 3]
    ";
    test.assert_hints(hinted, &[], None);
}

#[test]
fn payload_enum_case_values_are_not_hinted() {
    let test = declaring_inlay_hint_test(
        "
        enum class Shape:
            case Circle(radius: int)
            case Point
        ",
        &[("case Circle(radius: int)", "pass                    "), ("case Point", "pass      ")],
        &[Modifier { before: "enum class", text: "enum ", covers: "enum class ", name: "enum_def" }],
    )
    .counting("Shape", "Circle", None);
    let hinted = "
        enum class Shape:
            case Circle(radius: int)
            case Point
    ";
    test.assert_hints(hinted, &[], None);
}

#[test]
fn test_disabled_variable_types() {
    let test = inlay_hint_test(
        "
        def i(x: int, /) -> int:
            return x

        x = i(1)
        ",
    )
    .knowing(
        "
        def i(x: int, /) -> int:
            return x

        x[~: int] = i(1)
        ",
        &[],
    );
    let settings = InlayHintSettings { variable_types: false, ..Default::default() };
    let hinted = "
        def i(x: int, /) -> int:
            return x

        x = i(1)
    ";
    test.assert_hints_with(&settings, hinted, &[], None);
}

#[test]
fn test_disabled_function_argument_names() {
    let test = inlay_hint_test(
        "
        def foo(x: int): pass
        foo(1)",
    )
    .knowing(
        "
        def foo(x: int): pass
        foo([~x=]1)",
        &[],
    );
    let settings = InlayHintSettings { call_argument_names: false, ..Default::default() };
    let hinted = "
        def foo(x: int): pass
        foo(1)
    ";
    test.assert_hints_with(&settings, hinted, &[], None);
}

#[test]
fn basedpython_inferred_raises() {
    let test = basedpython_inlay_hint_test(
        "
        def leaf():
            raise TypeError

        def caller():
            leaf()

        def caught():
            try:
                leaf()
            except TypeError:
                pass

        def annotated() -> int:
            raise ValueError

        def declared() raises TypeError:
            raise TypeError
        ",
        &[(" raises TypeError:", "                 :")],
    )
    .raising("leaf", "TypeError")
    .raising("caller", "TypeError")
    .raising("annotated", "ValueError")
    .raising("declared", "TypeError");
    let settings = InlayHintSettings { inferred_raises: true, ..InlayHintSettings::none() };
    let hinted = "
        def leaf()[ raises TypeError]:
            raise TypeError

        def caller()[ raises TypeError]:
            leaf()

        def caught():
            try:
                leaf()
            except TypeError:
                pass

        def annotated() -> int[ raises ValueError]:
            raise ValueError

        def declared() raises TypeError:
            raise TypeError
    ";
    test.assert_hints_with(&settings, hinted, &[], None);
}

#[test]
fn basedpython_inferred_variance() {
    let test = basedpython_inlay_hint_test(
        "
        class Source[T]:
            def get(self) -> T: ...

        class Sink[T]:
            def put(self, value: T) -> None: ...

        class Both[T]:
            value: T

        class Declared[out T]:
            def get(self) -> T: ...

        class Plain:
            pass

        type Alias[T] = list[T]
        ",
        &[("[out T]", "[    T]")],
    )
    .varying(0, Variance::Covariant)
    .varying(1, Variance::Contravariant)
    .varying(2, Variance::Invariant)
    .varying(3, Variance::Covariant)
    .varying(4, Variance::Invariant);
    let settings = InlayHintSettings { inferred_variance: true, ..InlayHintSettings::none() };
    let hinted = "
        class Source[[out ]T]:
            def get(self) -> T: ...

        class Sink[[in ]T]:
            def put(self, value: T) -> None: ...

        class Both[[in out ]T]:
            value: T

        class Declared[out T]:
            def get(self) -> T: ...

        class Plain:
            pass

        type Alias[[in out ]T] = list[T]
    ";
    test.assert_hints_with(&settings, hinted, &[], None);
}

#[test]
fn basedpython_inferred_variance_of_a_pack() {
    let test = basedpython_inlay_hint_test(
        "
        class Source[*Ts]:
            def get(self) -> (*Ts,): ...

        class Sink[**Kwargs]:
            def put(self) -> (**Kwargs) -> None: ...
        ",
        &[("(**Kwargs) -> None", "None              ")],
    )
    .varying(0, Variance::Covariant)
    .varying(1, Variance::Contravariant);
    let settings = InlayHintSettings { inferred_variance: true, ..InlayHintSettings::none() };
    let hinted = "
        class Source[[out ]*Ts]:
            def get(self) -> (*Ts,): ...

        class Sink[[in ]**Kwargs]:
            def put(self) -> (**Kwargs) -> None: ...
    ";
    test.assert_hints_with(&settings, hinted, &[], None);
}

#[test]
fn basedpython_declaration_variable_types() {
    let test = declaring_inlay_hint_test(
        "
        def foo() -> int:
            return 1

        let a = foo()
        var b = foo()
        context c = foo()
        final d = foo()
        let e: int = foo()
        var f: int = foo()
        let g
        ",
        &[],
        &[
            Modifier { before: "let a", text: "let ", covers: "let", name: "__let__" },
            Modifier { before: "var b", text: "var ", covers: "var", name: "__modifier_assign__" },
            Modifier { before: "context c", text: "context ", covers: "context", name: "__context__" },
            Modifier { before: "final d", text: "final ", covers: "final", name: "__modifier_assign__" },
            Modifier { before: "let e", text: "let ", covers: "let", name: "__let__" },
            Modifier { before: "var f", text: "var ", covers: "var", name: "__modifier_assign__" },
            Modifier { before: "let g", text: "let ", covers: "let", name: "__let__" },
        ],
    )
    .knowing(
        "
        def foo() -> int:
            return 1

        let a[~: int] = foo()
        var b[~: int] = foo()
        context c[~: int] = foo()
        final d[~: int] = foo()
        let e[~: int]: int = foo()
        var f[~: int]: int = foo()
        let g
        ",
        &[],
    );
    let settings = InlayHintSettings { variable_types: true, ..InlayHintSettings::none() };
    let hinted = "
        def foo() -> int:
            return 1

        let a[: int] = foo()
        var b[: int] = foo()
        context c[: int] = foo()
        final d[: int] = foo()
        let e: int = foo()
        var f: int = foo()
        let g
    ";
    let edited = "
        def foo() -> int:
            return 1

        let a: int = foo()
        var b: int = foo()
        context c: int = foo()
        final d: int = foo()
        let e: int = foo()
        var f: int = foo()
        let g
    ";
    test.assert_hints_with(&settings, hinted, &[], Some(edited));
}

#[test]
fn basedpython_inferred_reification() {
    let test = basedpython_inlay_hint_test(
        "
        def value_use[T]():
            print(T)

        def pack_use[*Ts, **Kwargs]():
            print(Ts, Kwargs)

        def annotation_only[T](t: T) -> T:
            return t

        def declared[reified T]():
            pass

        def half_declared[reified T, U]():
            print(U)

        class C:
            def method[T](self):
                print(T)
        ",
        &[("[reified T", "[        T")],
    )
    .reifying("value_use", &["T"])
    .reifying("pack_use", &["Ts", "Kwargs"])
    .reifying("half_declared", &["U"])
    .reifying("method", &["T"]);
    let settings = InlayHintSettings { inferred_reification: true, ..InlayHintSettings::none() };
    let hinted = "
        def value_use[[reified ]T]():
            print(T)

        def pack_use[[reified ]*Ts, [reified ]**Kwargs]():
            print(Ts, Kwargs)

        def annotation_only[T](t: T) -> T:
            return t

        def declared[reified T]():
            pass

        def half_declared[reified T, [reified ]U]():
            print(U)

        class C:
            def method[[reified ]T](self):
                print(T)
    ";
    test.assert_hints_with(&settings, hinted, &[], None);
}

#[test]
fn basedpython_inferred_override() {
    let test = declaring_inlay_hint_test(
        "
        class A:
            def f(self) -> None: ...
            def g(self) -> None: ...
            def __init__(self) -> None: ...

        class B(A):
            def f(self) -> None: ...
            override def g(self) -> None: ...
            def h(self) -> None: ...
            def __init__(self) -> None: ...
        ",
        &[],
        &[Modifier { before: "override def", text: "override ", covers: "override ", name: "override" }],
    )
    .overriding("f", 1);
    let settings = InlayHintSettings { inferred_override: true, ..InlayHintSettings::none() };
    let hinted = "
        class A:
            def f(self) -> None: ...
            def g(self) -> None: ...
            def __init__(self) -> None: ...

        class B(A):
            [override ]def f(self) -> None: ...
            override def g(self) -> None: ...
            def h(self) -> None: ...
            def __init__(self) -> None: ...
    ";
    test.assert_hints_with(&settings, hinted, &[], None);
}

/// The blocks of callbacks, which `print` what they are handed.
const BLOCKS: &str = "
    def apply(fn: (int) -> None) -> None:
        fn(1)

    def against(fn: str.() -> None) -> None:
        'a'.fn()

    def against_with(fn: str.(int) -> None) -> None:
        'a'.fn(1)

    class C:
        init(a: int)

    class D:
        init()

    apply:
        print(it)

    against:
        print(upper())

    against_with:
        print(upper(), it)
";

#[test]
fn basedpython_implicit_parameters() {
    let test = basedpython_inlay_hint_test(
        BLOCKS,
        &[
            ("(fn: (int) -> None)", "(fn: None         )"),
            ("(fn: str.() -> None)", "(fn: None          )"),
            ("(fn: str.(int) -> None)", "(fn: None             )"),
            ("init(a: int)", "pass        "),
            ("init()", "pass  "),
            ("\napply:", "\nif 1 :"),
            ("\nagainst:", "\nif 111 :"),
            ("\nagainst_with:", "\nif 11111111 :"),
        ],
    )
    .binding(0, &[("it", "int")])
    .binding(1, &[("self", "str")])
    .binding(2, &[("self", "str"), ("it", "int")]);
    let settings = InlayHintSettings { implicit_parameters: true, ..InlayHintSettings::none() };
    let hinted = BLOCKS
        .replace("    apply:\n", "    apply:[ it: int]\n")
        .replace("    against:\n", "    against:[ self: str]\n")
        .replace("    against_with:\n", "    against_with:[ self: str, it: int]\n");
    test.assert_hints_with(&settings, &hinted, &[], None);
}

#[test]
fn basedpython_implicit_parameters_without_an_argument() {
    let test = basedpython_inlay_hint_test(
        "
        def apply(fn: () -> None) -> None:
            fn()

        def against(fn: str.() -> None) -> None:
            'a'.fn()

        apply:
            print('hi')

        against:
            print(upper())
        ",
        &[
            ("(fn: () -> None)", "(fn: None      )"),
            ("(fn: str.() -> None)", "(fn: None          )"),
            ("\napply:", "\nif 1 :"),
            ("\nagainst:", "\nif 111 :"),
        ],
    )
    .binding(0, &[])
    .binding(1, &[("self", "str")]);
    let settings = InlayHintSettings { implicit_parameters: true, ..InlayHintSettings::none() };
    let hinted = "
        def apply(fn: () -> None) -> None:
            fn()

        def against(fn: str.() -> None) -> None:
            'a'.fn()

        apply:
            print('hi')

        against:[ self: str]
            print(upper())
    ";
    test.assert_hints_with(&settings, hinted, &[], None);
}

/// A block standing as a statement's value binds the same parameters, and
/// the variable it binds is hinted with the call's type, not the callee's.
#[test]
fn basedpython_implicit_parameters_as_a_value() {
    let hinted = "
        def apply(fn: (int) -> None) -> str:
            fn(1)
            return 'done'

        result[~: str] = apply:
            print(it)
    ";
    let test = basedpython_inlay_hint_test(
        "
        def apply(fn: (int) -> None) -> str:
            fn(1)
            return 'done'

        result = apply:
            print(it)
        ",
        &[("(fn: (int) -> None)", "(fn: None         )"), ("result = apply:", "if 1111111111 :")],
    )
    .knowing(hinted, &[])
    .binding(0, &[("it", "int")]);
    let settings = InlayHintSettings {
        implicit_parameters: true,
        variable_types: true,
        ..InlayHintSettings::none()
    };
    test.assert_hints_with(
        &settings,
        "
        def apply(fn: (int) -> None) -> str:
            fn(1)
            return 'done'

        result[: str] = apply:[ it: int]
            print(it)
        ",
        &[],
        Some(
            "
        def apply(fn: (int) -> None) -> str:
            fn(1)
            return 'done'

        result: str = apply:
            print(it)
        ",
        ),
    );
}

#[test]
fn basedpython_implicit_self() {
    let test = basedpython_inlay_hint_test(
        "
        def apply(fn: (int) -> None) -> None:
            fn(1)

        class C:
            init(a: int)

        class D:
            init()

        class E:
            var x: int = 0
                get() = field

        apply:
            print(it)
        ",
        &[
            ("(fn: (int) -> None)", "(fn: None         )"),
            ("init(a: int)", "pass        "),
            ("init()", "pass  "),
            ("var x: int = 0", "if 111111111 :"),
            ("get() = field", "if 111: field"),
            ("\napply:", "\nif 1 :"),
        ],
    )
    .binding(0, &[("it", "int")]);
    let settings = InlayHintSettings { implicit_self: true, ..InlayHintSettings::none() };
    let hinted = "
        def apply(fn: (int) -> None) -> None:
            fn(1)

        class C:
            init([self, ]a: int)

        class D:
            init([self])

        class E:
            var x: int = 0
                get() = field

        apply:
            print(it)
    ";
    test.assert_hints_with(&settings, hinted, &[], None);
}

#[test]
fn basedpython_type_display() {
    let test = basedpython_inlay_hint_test(
        "
        def identity[T](x: T) -> T:
            return x

        a = identity(1)
        b = (1, 'two')
        reveal_type(a)
        ",
        &[],
    )
    .knowing(
        "
        def identity[T](x: T) -> T:
            return x

        a[~: 1] = identity[~[1]](1)
        b[~: (1, \"two\")] = (1, 'two')
        reveal_type(a)
        ",
        &[],
    )
    .revealing(0, "1", None);
    let settings = InlayHintSettings {
        variable_types: true,
        call_type_arguments: true,
        revealed_types: true,
        ..InlayHintSettings::none()
    };
    let hinted = "
        def identity[T](x: T) -> T:
            return x

        a[: 1] = identity[[1]](1)
        b = (1, 'two')
        reveal_type(a)[ 1]
    ";
    let edited = "
        def identity[T](x: T) -> T:
            return x

        a: 1 = identity(1)
        b = (1, 'two')
        reveal_type(a)
    ";
    test.assert_hints_with(&settings, hinted, &[], Some(edited));
}

#[test]
fn basedpython_implicit_context_arguments() {
    let test = declaring_inlay_hint_test(
        "
        def f(context a: int) -> None: ...
        def g(x: str, context a: int, context c: str) -> None: ...

        context b = 1
        context d = 'x'

        f()
        f(a=2)
        g('y')
        ",
        &[("context a: int", "        a: int"), ("context c: str", "        c: str")],
        &[
            Modifier { before: "context b", text: "context ", covers: "context", name: "__context__" },
            Modifier { before: "context d", text: "context ", covers: "context", name: "__context__" },
        ],
    )
    .filled("f()", 0, &[("a", "b", Some("main.by:5:9"))])
    .filled("g('y')", 0, &[("a", "b", Some("main.by:5:9")), ("c", "d", Some("main.by:6:9"))]);
    let settings = InlayHintSettings { implicit_arguments: true, ..InlayHintSettings::none() };
    let hinted = "
        def f(context a: int) -> None: ...
        def g(x: str, context a: int, context c: str) -> None: ...

        context b = 1
        context d = 'x'

        f([a=b])
        f(a=2)
        g('y'[, a=b, c=d])
    ";
    let links = [("b", "main.by:5:9"), ("b", "main.by:5:9"), ("d", "main.by:6:9")];
    test.assert_hints_with(&settings, hinted, &links, None);
}

#[test]
fn basedpython_implicit_context_arguments_from_a_block() {
    let test = basedpython_inlay_hint_test(
        "
        def f(context a: int) -> None: ...
        def each(fn: (int) -> None) -> None: ...
        def against(fn: int.() -> None) -> None: ...

        each:
            f()

        against:
            f()
        ",
        &[
            ("context a: int", "        a: int"),
            ("(fn: (int) -> None)", "(fn: None         )"),
            ("(fn: int.() -> None)", "(fn: None          )"),
            ("\neach:", "\nif 1:"),
            ("\nagainst:", "\nif 111 :"),
        ],
    )
    .filled("f()", 0, &[("a", "it", None)])
    .filled("f()", 1, &[("a", "self", None)]);
    let settings = InlayHintSettings { implicit_arguments: true, ..InlayHintSettings::none() };
    let hinted = "
        def f(context a: int) -> None: ...
        def each(fn: (int) -> None) -> None: ...
        def against(fn: int.() -> None) -> None: ...

        each:
            f([a=it])

        against:
            f([a=self])
    ";
    test.assert_hints_with(&settings, hinted, &[], None);
}

#[test]
fn basedpython_string_tag_argument_is_not_hinted() {
    let test = basedpython_inlay_hint_test(
        "
        def sql(query: str) -> int:
            return 0

        a = sql\"select\"
        b = sql(\"select\")
        ",
        &[("sql\"select\"", "sql(\"elec\")")],
    )
    .named_argument(0, "query")
    .named_argument(1, "query");
    let settings = InlayHintSettings { call_argument_names: true, ..InlayHintSettings::none() };
    let hinted = "
        def sql(query: str) -> int:
            return 0

        a = sql\"select\"
        b = sql([query=]\"select\")
    ";
    let edited = "
        def sql(query: str) -> int:
            return 0

        a = sql\"select\"
        b = sql(query=\"select\")
    ";
    test.assert_hints_with(&settings, hinted, &[], Some(edited));
}

#[test]
fn basedpython_cast_operands_are_not_hinted() {
    let source = "
        def f(a: object, b: int):
            x = b cast object
            y = a cast! int
            z = a cast? int
    ";
    let test = basedpython_inlay_hint_test(
        source,
        &[
            ("b cast object", "cast(b,objec)"),
            ("a cast! int", "cast(a,int)"),
            ("a cast? int", "cast(a,int)"),
        ],
    )
    .named_argument(0, "typ")
    .named_argument(1, "typ")
    .named_argument(2, "typ");
    let settings = InlayHintSettings { call_argument_names: true, ..InlayHintSettings::none() };
    test.assert_hints_with(&settings, source, &[], None);
}

#[test]
fn basedpython_constructor_hint_drops_the_final_modifier() {
    let source = "
        class Wrapper[Element]:
            init(element: Element)

        def f():
            a = Wrapper(1)
    ";
    let hinted = source.replace("a = ", "a[: Wrapper[int]] = ");
    let test = basedpython_inlay_hint_test(source, &[("init(element: Element)", "pass                  ")])
        .knowing(&hinted, &[]);
    let settings = InlayHintSettings { variable_types: true, ..InlayHintSettings::none() };
    let edited = source.replace("a = ", "a: Wrapper[int] = ");
    test.assert_hints_with(&settings, &hinted, &[], Some(&edited));
}

#[test]
fn basedpython_named_type_arguments() {
    let source = "
        class Pair[Key, Value]:
            init(key: Key, value: Value)

        class One[Element]:
            init(element: Element)

        a = Pair(1, 'x')
        b = One(1)
        c: dict[str, int] = {}
    ";
    let known = source
        .replace("a = Pair(", "a[~: Pair[int, str]] = Pair[~[int, str]](")
        .replace("b = One(", "b[~: One[int]] = One[~[int]](");
    let test = basedpython_inlay_hint_test(
        source,
        &[
            ("init(key: Key, value: Value)", "pass                        "),
            ("init(element: Element)", "pass                  "),
        ],
    )
    .knowing(&known, &[])
    .naming("Pair[int, str]", "Pair[Key=int, Value=str]", &["Key", "Value"])
    .naming("One[int]", "One[int]", &["Element"])
    .parameterized("dict", &["Key", "Value"]);
    let settings = InlayHintSettings {
        variable_types: true,
        call_type_arguments: true,
        type_argument_names: true,
        ..InlayHintSettings::none()
    };
    let hinted = source
        .replace("a = Pair(", "a[: Pair[Key=int, Value=str]] = Pair[[Key=int, Value=str]](")
        .replace("b = One(", "b[: One[int]] = One[[int]](")
        .replace("dict[str, int]", "dict[[Key=]str, [Value=]int]");
    let edited = source
        .replace("a = Pair(", "a: Pair[Key=int, Value=str] = Pair(")
        .replace("b = One(", "b: One[int] = One(");
    test.assert_hints_with(&settings, &hinted, &[], Some(&edited));
}

#[test]
fn basedpython_some_holes_are_not_hinted() {
    let source = "
        def echo(s: some str) -> s:
            return s

        def pair[Element](s: some str, e: Element) -> Element:
            return e

        a = echo('lit')
        b = pair('lit', 1)
    ";
    let known = source.replace("pair('lit'", "pair[~[int]]('lit'");
    let test = basedpython_inlay_hint_test(source, &[("some str", "     str")]).knowing(&known, &[]);
    let settings = InlayHintSettings {
        call_type_arguments: true,
        type_argument_names: true,
        ..InlayHintSettings::none()
    };
    let hinted = source.replace("pair('lit'", "pair[[int]]('lit'");
    test.assert_hints_with(&settings, &hinted, &[], None);
}

#[test]
fn basedpython_inferred_holes_are_not_hinted() {
    let source = "
        def echo(s):
            return s

        def pair[Element](s, e: Element) -> Element:
            return e

        a = echo('lit')
        b = pair('lit', 1)
    ";
    let known = source.replace("pair('lit'", "pair[~[int]]('lit'");
    let test = basedpython_inlay_hint_test(source, &[]).knowing(&known, &[]);
    let settings = InlayHintSettings {
        call_type_arguments: true,
        type_argument_names: true,
        ..InlayHintSettings::none()
    };
    let hinted = source.replace("pair('lit'", "pair[[int]]('lit'");
    test.assert_hints_with(&settings, &hinted, &[], None);
}

#[test]
fn type_arguments_are_not_named_outside_basedpython() {
    let source = "
        class Pair[Key, Value]:
            def __init__(self, key: Key, value: Value) -> None: ...

        a = Pair(1, 'x')
    ";
    let hinted = source.replace("a = Pair(", "a[: Pair[int, str]] = Pair[[int, str]](");
    let test = inlay_hint_test(source)
        .knowing(&hinted, &[])
        .naming("Pair[int, str]", "Pair[Key=int, Value=str]", &["Key", "Value"]);
    let settings = InlayHintSettings {
        variable_types: true,
        call_type_arguments: true,
        type_argument_names: true,
        ..InlayHintSettings::none()
    };
    let edited = source.replace("a = Pair(", "a: Pair[int, str] = Pair(");
    test.assert_hints_with(&settings, &hinted, &[], Some(&edited));
}

#[test]
fn call_type_arguments() {
    let source = "
        def identity[T](x: T) -> T:
            return x

        def pair[T, U](a: T, b: U) -> tuple[T, U]:
            return (a, b)

        def plain(x: int) -> int:
            return x

        class Box[T]:
            def __init__(self, value: T) -> None: ...

        identity(1)
        pair('a', 2)
        plain(1)
        Box(1)
        Box[str]('a')
    ";
    let known = source
        .replace("identity(1)", "identity[~[int]](1)")
        .replace("pair('a'", "pair[~[str, int]]('a'")
        .replace("Box(1)", "Box[~[int]](1)")
        .replace("Box[str]('a')", "Box[str][~[str]]('a')");
    let test = inlay_hint_test(source).knowing(&known, &[]);
    let settings = InlayHintSettings { call_type_arguments: true, ..InlayHintSettings::none() };
    let hinted = source
        .replace("identity(1)", "identity[[int]](1)")
        .replace("pair('a'", "pair[[str, int]]('a'")
        .replace("Box(1)", "Box[[int]](1)");
    test.assert_hints_with(&settings, &hinted, &[], None);
}

#[test]
fn basedpython_declared_variance_beside_an_inferred_parameter() {
    let source = "
        class A[out A, B]:
            init(a: A, b: B)

        a = A(1, 2)
    ";
    let hinted = source.replace("a = A(", "a[: A[int, int]] = A[[int, int]](");
    let test = basedpython_inlay_hint_test(
        source,
        &[("[out A", "[    A"), ("init(a: A, b: B)", "pass            ")],
    )
    .knowing(&hinted, &[]);
    let settings = InlayHintSettings {
        variable_types: true,
        call_type_arguments: true,
        ..InlayHintSettings::none()
    };
    let edited = source.replace("a = A(", "a: A[int, int] = A(");
    test.assert_hints_with(&settings, &hinted, &[], Some(&edited));
}

#[test]
fn type_argument_names() {
    let source = "
        class Cache[Key, Value]:
            pass

        def f(
            a: dict[str, int],
            b: list[int],
            c: Cache[str, int],
            d: tuple[int, str],
        ) -> None: ...
    ";
    let test = inlay_hint_test(source)
        .parameterized("dict", &["Key", "Value"])
        .parameterized("list", &["Element"])
        .parameterized("Cache", &["Key", "Value"])
        .parameterized("tuple", &["Element"]);
    let settings = InlayHintSettings { type_argument_names: true, ..InlayHintSettings::none() };
    let hinted = source
        .replace("dict[str, int]", "dict[[Key=]str, [Value=]int]")
        .replace("c: Cache[str, int]", "c: Cache[[Key=]str, [Value=]int]");
    test.assert_hints_with(&settings, &hinted, &[], None);
}

#[test]
fn basedpython_type_argument_names() {
    let source = "
        class Cache[Key, Value]: ...

        type Alias = Cache[str, int]

        def f(
            a: Cache[Key=str, Value=int],
            b: Cache[str, Value=int],
        ) -> None: ...
    ";
    let test = basedpython_inlay_hint_test(source, &[("Key=str", "Key+str"), ("Value=int", "Value+int")])
        .parameterized("Cache", &["Key", "Value"]);
    let settings = InlayHintSettings { type_argument_names: true, ..InlayHintSettings::none() };
    let hinted = source.replace("= Cache[str, int]", "= Cache[[Key=]str, [Value=]int]");
    test.assert_hints_with(&settings, &hinted, &[], None);
}

#[test]
fn numeric_promotions() {
    let source = "
        def f(x: float, y: complex, z: int) -> float:
            return x

        a: float = 1.0
        b: list[float] = []
        c = float(1)
    ";
    let test = inlay_hint_test(source).promoting();
    let settings = InlayHintSettings { numeric_promotions: true, ..InlayHintSettings::none() };
    let hinted = "
        def f(x: float[ | int], y: complex[ | int | float], z: int) -> float[ | int]:
            return x

        a: float[ | int] = 1.0
        b: list[float[ | int]] = []
        c = float(1)
    ";
    test.assert_hints_with(&settings, hinted, &[], None);
}

#[test]
fn numeric_promotions_already_written_in_the_union() {
    let source = "
        from typing import Union

        def f(
            a: float | int,
            b: int | float,
            c: complex | int,
            d: complex | float,
            e: float | str,
            f: Union[float, int],
            g: Union[float, str],
            h: list[float] | int,
            i: str | float | int,
        ) -> None: ...
    ";
    let test = inlay_hint_test(source).promoting();
    let settings = InlayHintSettings { numeric_promotions: true, ..InlayHintSettings::none() };
    let hinted = "
        from typing import Union

        def f(
            a: float | int,
            b: int | float,
            c: complex[ | float] | int,
            d: complex[ | int] | float[ | int],
            e: float[ | int] | str,
            f: Union[float, int],
            g: Union[float[ | int], str],
            h: list[float[ | int]] | int,
            i: str | float | int,
        ) -> None: ...
    ";
    test.assert_hints_with(&settings, hinted, &[], None);
}

#[test]
fn basedpython_numeric_promotions_are_not_hinted() {
    // a `float` is a `float` in basedpython, so the checker promotes none
    let source = "
        def f(x: float, y: complex) -> None: ...
    ";
    let test = basedpython_inlay_hint_test(source, &[]);
    let settings = InlayHintSettings { numeric_promotions: true, ..InlayHintSettings::none() };
    test.assert_hints_with(&settings, source, &[], None);
}

#[test]
fn revealed_types() {
    let source = "
        reveal_type(1)

        x = 'a'
        reveal_type(x)  # a trailing comment

        def f(y: int) -> None:
            reveal_type(y)

        a: int = 1
        reveal_type(a)

        def g(z: int | str) -> None:
            if isinstance(z, int):
                reveal_type(z)
    ";
    let test = inlay_hint_test(source)
        .revealing(0, "Literal[1]", None)
        .revealing(1, "Literal[\"a\"]", None)
        .revealing(2, "int", None)
        .revealing(3, "Literal[1]", Some("int"))
        .revealing(4, "int", Some("int | str"));
    let settings = InlayHintSettings { revealed_types: true, ..InlayHintSettings::none() };
    let hinted = "
        reveal_type(1)[ Literal[1]]

        x = 'a'
        reveal_type(x)  # a trailing comment[ Literal[\"a\"]]

        def f(y: int) -> None:
            reveal_type(y)[ int]

        a: int = 1
        reveal_type(a)[ Literal[1], narrowed from int]

        def g(z: int | str) -> None:
            if isinstance(z, int):
                reveal_type(z)[ int, narrowed from int | str]
    ";
    test.assert_hints_with(&settings, hinted, &[], None);
}

#[test]
fn lambda_parameter_types() {
    let hinted = "
        def apply(fn: Callable[[int], str]) -> None: ...

        from typing import Callable

        apply(lambda x[: int]: str(x))
        f = lambda y: y
    ";
    let test = inlay_hint_test(
        "
        def apply(fn: Callable[[int], str]) -> None: ...

        from typing import Callable

        apply(lambda x: str(x))
        f = lambda y: y
        ",
    )
    .knowing(hinted, &[]);
    let settings = InlayHintSettings { lambda_parameter_types: true, ..InlayHintSettings::none() };
    test.assert_hints_with(&settings, hinted, &[], None);
    test.assert_hints_with(
        &InlayHintSettings { inherited_parameter_types: true, ..InlayHintSettings::none() },
        &test.file.source,
        &[],
        None,
    );
}

#[test]
fn basedpython_inherited_parameter_types() {
    let hinted = "
        class A:
            def f(self, a: int, b: str = 'x') -> None: ...

        class B(A):
            def f(self, a[: int], b[: str]='y') -> None: ...

        class C:
            def f(self, a) -> None: ...
    ";
    let test = basedpython_inlay_hint_test(
        "
        class A:
            def f(self, a: int, b: str = 'x') -> None: ...

        class B(A):
            def f(self, a, b='y') -> None: ...

        class C:
            def f(self, a) -> None: ...
        ",
        &[],
    )
    .knowing(hinted, &[]);
    let settings = InlayHintSettings { inherited_parameter_types: true, ..InlayHintSettings::none() };
    test.assert_hints_with(&settings, hinted, &[], None);
}

#[test]
fn basedpython_inherited_parameter_types_from_overloads() {
    let hinted = "
        from typing import overload

        @overload
        def f(a: int) -> int: ...
        @overload
        def f(a: str) -> str: ...
        def f(a[: int | str]): ...
    ";
    let test = basedpython_inlay_hint_test(
        "
        from typing import overload

        @overload
        def f(a: int) -> int: ...
        @overload
        def f(a: str) -> str: ...
        def f(a): ...
        ",
        &[],
    )
    .knowing(hinted, &[]);
    let settings = InlayHintSettings { inherited_parameter_types: true, ..InlayHintSettings::none() };
    test.assert_hints_with(&settings, hinted, &[], None);
}

#[test]
fn basedpython_inferred_return_types() {
    let hinted = "
        def f()[ -> 1]:
            return 1

        def g():
            print('hi')

        def h(a: int)[ -> \"x\" | None]:
            if a:
                return 'x'
            return None

        def raiser()[ -> Never][ raises TypeError]:
            raise TypeError
    ";
    let test = basedpython_inlay_hint_test(
        "
        def f():
            return 1

        def g():
            print('hi')

        def h(a: int):
            if a:
                return 'x'
            return None

        def raiser():
            raise TypeError
        ",
        &[],
    )
    .knowing(hinted, &[]);
    let settings = InlayHintSettings {
        inferred_return_types: true,
        inferred_raises: true,
        ..InlayHintSettings::none()
    };
    test.assert_hints_with(&settings, hinted, &[], None);
}

#[test]
fn basedpython_declared_return_types_are_not_hinted() {
    let source = "
        def f() -> int:
            return 1

        def guard(a: object) -> asserts a:
            assert a

        class C:
            init(a: int)
    ";
    let test = basedpython_inlay_hint_test(
        source,
        &[(" -> asserts a:", "             :"), ("init(a: int)", "pass        ")],
    )
    .returned("f", "1")
    .returned("guard", "None")
    .returned("__init__", "None");
    let settings = InlayHintSettings { inferred_return_types: true, ..InlayHintSettings::none() };
    test.assert_hints_with(&settings, source, &[], None);
}

// ---- what holds of every source, on some ----

#[test]
fn a_keyword_is_in_its_family_and_its_family_is_in_order() {
    let source = "\
try:
    for a in b:
        if c:
            continue
        else:
            break
    else:
        pass
except E:
    raise
else:
    while d:
        pass
    else:
        pass
finally:
    pass
def f():
    while g:
        for h in i:
            break
        else:
            continue
    raise j
    return k
";
    let file = parsed_file(source, false, &[]);
    let mut families = 0;
    for token in &file.tokens {
        let Some(family) = keyword_family(&file, token.range.start) else { continue };
        families += 1;
        assert!(family.windows(2).all(|pair| pair[0].start < pair[1].start));
        let keyword = keyword_at(&file.tokens, token.range.start).expect("a keyword");
        assert!(family.contains(&keyword));
        // each keyword of the family lights up the same one
        for keyword in &family {
            assert_eq!(keyword_family(&file, keyword.start), Some(family.clone()));
        }
    }
    assert!(families > 8);
}

#[test]
fn the_escapes_of_a_string_are_in_order_and_apart() {
    let file = parsed_file("a = '\\n\\x41\\u00e9' 'b\\t' f'\\q{x}\\''\n", true, &[]);
    let outline = syntax_outline(&file);
    assert_eq!(outline.strings.len(), 3);
    for string in &outline.strings {
        assert!(string.escapes.windows(2).all(|pair| pair[0].end <= pair[1].start));
        for escape in &string.escapes {
            assert!(string.range.contains_range(*escape));
            assert!(text_at(&file.source, *escape).starts_with('\\'));
        }
        // no backslash is left out
        for (at, _) in text_at(&file.source, string.range).match_indices('\\') {
            let at = string.range.start + at as u32;
            assert!(string.escapes.iter().any(|escape| escape.start <= at && at < escape.end));
        }
    }
}

#[test]
fn inlining_edits_each_read_and_the_assignment() {
    let test = RefactorTest::python(
        "
        def f(a):
            x<CURSOR> = a
            print(x)
            return x + x
        ",
    );
    let result = refactor(&test.context, RefactorKind::InlineVariable, test.range).expect("it applies");
    assert_eq!(result.edits.len(), 4);
    let replaced = result.edits.iter().filter(|edit| edit.edit.content.as_deref() == Some("a"));
    assert_eq!(replaced.count(), 3);
    let mut ranges: Vec<TextRange> = result.edits.iter().map(|edit| edit.edit.range).collect();
    ranges.sort_by_key(|range| range.start);
    assert!(ranges.windows(2).all(|pair| pair[0].end <= pair[1].start));
}

/// Asserts that each clause stands in its statement, after the one before it.
fn assert_clauses_in_order(statements: &[OutlineStatement]) -> usize {
    let mut clauses = 0;
    for statement in statements {
        for clause in &statement.clauses {
            assert!(statement.range.contains_range(clause.range));
            let colon = clause.colon.expect("a colon");
            let keyword = clause.keyword.expect("a keyword");
            assert!(clause.range.contains_range(keyword) && keyword.end <= colon.start);
            assert!(clause.range.contains_range(colon));
            let last = clause.body.last().map_or(colon, |statement| statement.range);
            assert_eq!(clause.range.end, last.end);
            assert!(clause.body.iter().all(|statement| colon.end <= statement.range.start));
            assert!(clause.body.windows(2).all(|pair| pair[0].range.end <= pair[1].range.start));
            clauses += 1 + assert_clauses_in_order(&clause.body);
        }
        assert!(statement.clauses.windows(2).all(|pair| pair[0].range.end <= pair[1].range.start));
    }
    clauses
}

#[test]
fn the_clauses_of_a_statement_are_in_it_and_in_order() {
    let source = "\
try:
    for a in b:
        if c: d
        elif e:
            f
        else: g
    else:
        h
except (E, F) as i:
    while j: k
except:
    pass
else:
    with l as m, n:
        o
finally:
    match p:
        case [q, *r] if s: t
        case {'u': 1}:
            v
@w
async def x(y: z = lambda: 1) -> 'a':
    class A(B[C], d=e):
        pass
";
    let file = parsed_file(source, false, &[]);
    let outline = syntax_outline(&file);
    assert_eq!(assert_clauses_in_order(&outline.statements), 17);
    assert_eq!(outline.clone(), outline);
}

#[test]
fn a_suggested_name_is_an_identifier() {
    let source = "f(g[0](), get_(), h.get_it(), a.class_, await b.C2(), print(), get_True, [x.XY[1]], -y, None)\n";
    let tree = parse(source);
    let mut nodes = Vec::new();
    walk(&tree.module, &mut nodes);
    let mut names = BTreeSet::new();
    for node in nodes.iter().filter(|node| node.kind.is_expression()) {
        let name = suggest_for_expression(node, 12);
        assert!(name.chars().all(|c| c.is_ascii_alphanumeric() || c == '_'), "{name}");
        assert!(name.starts_with(|c: char| c.is_ascii_alphabetic() || c == '_'), "{name}");
        assert!(!["class", "True", "None", "is"].contains(&name.as_str()));
        names.insert(name);
    }
    let names: Vec<&str> = names.iter().map(String::as_str).collect();
    assert_eq!(
        names,
        ["c2", "class_", "f", "g_item", "get_", "get_it", "it", "items", "number", "value", "xy", "xy_item"],
    );
}

#[test]
fn the_edits_of_a_rename_are_apart_and_by_file() {
    let test = RenameTest::builder()
        .source("alpha/__init__.py", "import alpha.util\nalpha.util.x\n")
        .source("alpha/util.py", "from . import util\nutil.x\n")
        .source("main.py", "import alpha.util, alpha\nfrom alpha import util as u, util\nalpha.util.x(u, util)\n");
    let moves =
        vec![FileMove { old_path: "/alpha".to_string(), new_path: "/beta".to_string() }];
    let result = module_rename_edits(&test.project(&["/alpha", "/beta"]), &moves);
    let places: Vec<(u32, u32, u32)> = result
        .edits
        .iter()
        .map(|edit| (edit.file.index, edit.edit.range.start, edit.edit.range.end))
        .collect();
    assert!(places.windows(2).all(|pair| pair[0].0 <= pair[1].0));
    for (i, a) in places.iter().enumerate() {
        for b in &places[i + 1..] {
            assert!(a.0 != b.0 || a.2 <= b.1 || b.2 <= a.1);
        }
    }
    assert!(places.len() > 4);
}

#[test]
fn what_applies_is_offered_and_what_is_offered_applies() {
    let test = RefactorTest::python(
        "
        def f(items):
            print(<START>len(items) + 1<END>)
        ",
    );
    for kind in RefactorKind::all() {
        let offers = refactors(&test.context, test.range, &vec![kind]);
        match refactor(&test.context, kind, test.range) {
            Ok(found) => {
                assert_eq!(offers.len(), 1);
                assert_eq!(offers[0].title, found.title);
                assert!(offers[0].availability.is_ok());
            }
            Err(_) => assert!(offers.iter().all(|offer| offer.availability.is_err())),
        }
    }
}

#[test]
fn nothing_is_offered_in_a_file_that_is_no_python() {
    let mut test = RefactorTest::python("x = <START>1 + 2<END>\n");
    test.context.is_py_file = false;
    assert!(refactors(&test.context, test.range, &RefactorKind::all()).is_empty());
    for kind in RefactorKind::all() {
        assert!(refactor(&test.context, kind, test.range).is_err());
    }
}

#[test]
fn a_context_whose_tree_is_of_another_text_is_not_well_formed() {
    let mut test = RefactorTest::python("x = <START>1 + 2<END>\n");
    test.context.source = "é".to_string();
    assert!(!test.context.is_wf());
}

#[test]
fn the_receiver_is_no_parameter_and_no_parameter_is_repeated() {
    let test = RefactorTest::python(
        "
        class A:
            def f(self, a, b):
                <START>print(a, b, a, self)<END>
        ",
    );
    let result = refactor(&test.context, RefactorKind::ExtractFunction, test.range).expect("it applies");
    let texts: Vec<&str> = result.edits.iter().filter_map(|edit| edit.edit.content.as_deref()).collect();
    assert!(texts.iter().any(|text| text.contains("def extracted(self, a, b):")));
    assert!(texts.contains(&"self.extracted(a, b)"));
}

#[test]
fn no_hint_is_shown_when_none_is_wanted() {
    let source = "
        def foo(x: int): pass
        y = foo(1)
    ";
    let known = "
        def foo(x: int): pass
        y[~: int] = foo([~x=]1)
    ";
    let test = inlay_hint_test(source).knowing(known, &[]);
    assert!(inlay_hints(&test.file, test.range, &InlayHintSettings::none()).is_empty());
    assert_eq!(inlay_hints(&test.file, test.range, &InlayHintSettings::default()).len(), 2);
}

#[test]
fn two_hints_that_need_a_symbol_import_it_once() {
    let source = "
        x = 1
        a = x
        b = x
    ";
    let hinted = "
        x = 1
        a[: Literal[1]] = x
        b[: Literal[1]] = x
    ";
    let links = [
        ("Literal", "stdlib/typing.byi:Literal"),
        ("1", "stdlib/builtins.byi:int"),
        ("Literal", "stdlib/typing.byi:Literal"),
        ("1", "stdlib/builtins.byi:int"),
    ];
    let test = inlay_hint_test(source).knowing(hinted, &links);
    let hints = inlay_hints(&test.file, test.range, &InlayHintSettings::default());
    let imports: Vec<&str> = hints
        .iter()
        .flat_map(|hint| hint.text_edits.iter())
        .map(|edit| edit.new_text.as_str())
        .filter(|text| text.contains("import"))
        .collect();
    assert_eq!(imports, ["from typing import Literal\n"]);
}

#[test]
fn a_rename_edits_each_place_once() {
    let test = RenameTest::builder()
        .source("alpha/__init__.py", "")
        .source("alpha/util.py", "def thing(): ...")
        .source("main.py", "import alpha.util\nimport alpha.util\nalpha.util.thing()\n");
    let moves = vec![
        FileMove { old_path: "/alpha/util.py".to_string(), new_path: "/alpha/helpers.py".to_string() },
        FileMove { old_path: "/alpha/util.py".to_string(), new_path: "/alpha/helpers.py".to_string() },
    ];
    let result = module_rename_edits(&test.project(&["/alpha/util.py", "/alpha/helpers.py"]), &moves);
    let places: BTreeSet<(u32, u32, u32)> = result
        .edits
        .iter()
        .map(|edit| (edit.file.index, edit.edit.range.start, edit.edit.range.end))
        .collect();
    assert_eq!(places.len(), result.edits.len());
    assert_eq!(result.edits.len(), 3);
}

#[test]
fn every_import_of_a_moved_module_is_edited_or_reported() {
    let test = RenameTest::builder()
        .source("alpha/__init__.py", "")
        .source("alpha/util.py", "def thing(): ...")
        .source(
            "main.py",
            "\
def f():
    if True:
        import alpha.util
        from alpha.util import thing
    from alpha import util
    import alpha.util as u
",
        )
        .source("other.py", "import other\n");
    let moves = vec![FileMove {
        old_path: "/alpha/util.py".to_string(),
        new_path: "/beta/util.py".to_string(),
    }];
    let result = module_rename_edits(&test.project(&["/alpha/util.py", "/beta/util.py"]), &moves);
    let source = &test.sources[2].1;
    let touched = |line: &str| {
        let start = source.find(line).expect("the line") as u32;
        let end = start + line.len() as u32;
        let edited = result.edits.iter().any(|edit| {
            edit.file.index == 2 && start <= edit.edit.range.start && edit.edit.range.end <= end
        });
        let reported = result.skipped.iter().any(|skipped| {
            skipped.file.index == 2 && start <= skipped.range.start && skipped.range.end <= end
        });
        edited || reported
    };
    assert!(touched("import alpha.util\n"));
    assert!(touched("from alpha.util import thing"));
    assert!(touched("from alpha import util"));
    assert!(touched("import alpha.util as u"));
    assert!(result.edits.iter().all(|edit| edit.file.index == 2));
}

#[test]
fn only_the_hints_that_are_enabled_are_shown() {
    let source = "
        def foo(x: int): pass
        y = foo(1)
    ";
    let known = "
        def foo(x: int): pass
        y[~: int] = foo([~x=]1)
    ";
    let test = inlay_hint_test(source).knowing(known, &[]);
    let mut settings = InlayHintSettings::none();
    settings.call_argument_names = true;
    let hints = inlay_hints(&test.file, test.range, &settings);
    assert_eq!(hints.len(), 1);
    assert_eq!(hints[0].kind, InlayHintKind::CallArgumentName);
    let mut settings = InlayHintSettings::none();
    settings.variable_types = true;
    let hints = inlay_hints(&test.file, test.range, &settings);
    assert_eq!(hints.len(), 1);
    assert_eq!(hints[0].kind, InlayHintKind::Type);
}

#[test]
fn a_name_that_is_taken_is_not_given_again() {
    let test = RefactorTest::python(
        "
        extracted = 1
        extracted_1 = 2

        def f(a):
            <START>b = a + 1<END>
            return b
        ",
    );
    let result = refactor(&test.context, RefactorKind::ExtractFunction, test.range).expect("it applies");
    let texts: Vec<&str> = result.edits.iter().filter_map(|edit| edit.edit.content.as_deref()).collect();
    // what the selection reads is handed in, and what is read after it is handed back
    assert!(texts.iter().any(|text| text.contains("def extracted_2(a):") && text.contains("return b")));
    assert!(texts.iter().any(|text| text.contains("b = extracted_2(a)")));
}

#[test]
fn a_value_with_effects_moves_to_one_read_only() {
    let once = RefactorTest::python("x<CURSOR> = f()\nprint(x)\n");
    assert!(refactor(&once.context, RefactorKind::InlineVariable, once.range).is_ok());
    let twice = RefactorTest::python("x<CURSOR> = f()\nprint(x, x)\n");
    assert!(refactor(&twice.context, RefactorKind::InlineVariable, twice.range).is_err());
}

#[test]
fn a_value_that_depends_on_where_it_is_written_is_not_moved() {
    let mut test = RefactorTest::basedpython("x<CURSOR> = f()\nprint(x)\n");
    let plain = refactor(&test.context, RefactorKind::InlineVariable, test.range);
    assert!(plain.is_ok());
    let calls: Vec<u32> = nodes_of(&test.context.module, |kind| matches!(kind, NodeKind::ExprCall { .. }));
    test.context.checker.context_filling_calls.push(calls[0]);
    assert!(refactor(&test.context, RefactorKind::InlineVariable, test.range).is_err());
}

#[test]
fn a_value_whose_names_may_be_rebound_stays() {
    let before = RefactorTest::python("a = 1\nx<CURSOR> = a\nprint(x)\n");
    assert!(refactor(&before.context, RefactorKind::InlineVariable, before.range).is_ok());
    let between = RefactorTest::python("a = 1\nx<CURSOR> = a\na = 2\nprint(x)\n");
    assert!(refactor(&between.context, RefactorKind::InlineVariable, between.range).is_err());
}

/// The numbers of the nodes of a kind `accepts` holds of.
fn nodes_of(node: &Node, accepts: fn(&NodeKind) -> bool) -> Vec<u32> {
    let mut nodes = Vec::new();
    walk(node, &mut nodes);
    nodes.iter().filter(|node| accepts(&node.kind)).map(|node| node.id).collect()
}

#[test]
fn the_style_of_a_file_is_read_off_it() {
    let style = |source: &str| {
        let tokens = parse(source).tokens;
        assert!(are_tokens_of(&tokens, source));
        let style = Style::of(source, &tokens);
        (style.indentation, style.line_ending)
    };
    let of = |indentation: &str, ending: &str| (indentation.to_string(), ending.to_string());
    assert_eq!(style("if a:\n  b\n"), of("  ", "\n"));
    assert_eq!(style("if a:\r\n\tb\r\nif c:\n  d\n"), of("\t", "\r\n"));
    assert_eq!(style("a\rb\n"), of("    ", "\r"));
    // a line inside brackets, when no block is indented
    assert_eq!(style("f(\n\n   a,\n     b,\n)\n"), of("   ", "\n"));
    // a form feed starts the indentation anew
    assert_eq!(style("if a:\n \x0C  b\n"), of("  ", "\n"));
    assert_eq!(style("a").0, "    ");
    // a token that is not of the text is noticed
    assert!(!are_tokens_of(&parse("if a:\n  b\n").tokens, "if"));
}

#[test]
fn what_is_extracted_is_written_in_the_style_of_the_file() {
    let test = RefactorTest::python("def f(a):\r\n  <START>print(a)<END>\r\n  return a\r\n");
    let result = refactor(&test.context, RefactorKind::ExtractFunction, test.range).expect("it applies");
    let texts: Vec<&str> = result.edits.iter().filter_map(|edit| edit.edit.content.as_deref()).collect();
    assert!(texts.iter().any(|text| text.contains("def extracted(a):\r\n  print(a)\r\n")));
}

#[test]
fn only_a_bare_name_or_attribute_is_annotated() {
    let known = "
        [a[~: int], b[~: int]] = f()
        (c[~: int]) = f()
        d[[i for i[~: int] in e][0]] = f()
        [j for j[~: int] in e][0].k[~: int] = f()
        m[~: int] = f()
        n.o[~: int] = f()
    ";
    let test = inlay_hint_test(&known.replace("[~: int]", "")).knowing(known, &[]);
    test.assert_hints(
        &known.replace("~", ""),
        &[],
        Some(
            "
        [a, b] = f()
        (c) = f()
        d[[i for i in e][0]] = f()
        [j for j in e][0].k: int = f()
        m: int = f()
        n.o: int = f()
    ",
        ),
    );
}

#[test]
fn only_the_last_positional_argument_is_named_by_an_edit() {
    let known = "
        f([~x=]1, [~y=]2, z=3, *a)
        f([~x=]1, y)
        f(([~x=]1))
        f([~x=]i for i in a)
        f([~x=]b := 1)
        f([~x=](i for i in a))
        f([~x=]1, *a)
    ";
    let plain = known.replace("[~x=]", "").replace("[~y=]", "");
    let test = inlay_hint_test(&plain).knowing(known, &[]);
    test.assert_hints(
        &known.replace("~", ""),
        &[],
        Some(
            "
        f(1, y=2, z=3, *a)
        f(1, y)
        f((1))
        f(i for i in a)
        f(b := 1)
        f(x=(i for i in a))
        f(x=1, *a)
    ",
        ),
    );
}

#[test]
fn an_override_is_hinted_after_the_decorators() {
    let source = "
        class A:
            def f(self): ...

        class B(A):
            @dec  # why
            # and more
            @other(1)
            async def f(self): ...
    ";
    let test = basedpython_inlay_hint_test(source, &[]).overriding("f", 1);
    let settings = InlayHintSettings { inferred_override: true, ..InlayHintSettings::none() };
    test.assert_hints_with(&settings, &source.replace("async", "[override ]async"), &[], None);
}

#[test]
fn an_import_of_a_module_that_moves_to_the_top_level_is_reported() {
    let test = RenameTest::builder()
        .source("alpha/__init__.py", "")
        .source("alpha/util.py", "")
        .source("main.py", "from alpha import util\n");
    assert_snapshot(test.rename_module("/alpha/util.py", "/util.py"), "
        !!! /main.py 18..22 NeedsDifferentStatement
        ");
}

#[test]
fn the_package_that_an_import_binds_is_renamed_with_it() {
    let test = RenameTest::builder()
        .source("alpha/__init__.py", "")
        .source("alpha/util.py", "")
        .source("main.py", "import alpha.util\nprint(alpha)\nprint(alpha.util.x)\n");
    assert_snapshot(test.rename_module("/alpha", "/beta"), "
        --- /main.py
        import beta.util
        print(beta)
        print(beta.util.x)
        ");
}

#[test]
fn a_comment_stays_with_what_it_is_of_however_lines_end() {
    for ending in ["\n", "\r\n", "\r"] {
        let source = "a = 1\n# about f\n  # and more\ndef f(a):\n    <START>print(a)<END>\n    return a\n";
        let test = RefactorTest::python(&source.replace('\n', ending));
        let result = refactor(&test.context, RefactorKind::ExtractFunction, test.range).expect("it applies");
        let written = result
            .edits
            .iter()
            .find(|edit| edit.edit.content.as_deref().is_some_and(|text| text.contains("def extracted")))
            .expect("the function");
        assert_eq!(written.edit.range.start as usize, "a = 1".len() + ending.len());
    }
    // a comment that something is written before is no comment line
    let source = "a = 1 # about a\r\ndef f(a):\r\n";
    assert_eq!(leading_comments_start(source, 17), 17);
    assert_eq!(leading_comments_start("#\r\n#\n#\rx", 8), 0);
    assert_eq!(leading_comments_start("\u{feff}#\r\nx", 6), 3);
    assert_eq!(leading_comments_start("\n#\r\n\r\n#\r\nx", 9), 6);
}

#[test]
fn a_context_is_written_in_the_style_of_its_file() {
    let test = RefactorTest::python("if a:\r\n  <START>b<END>\r\n");
    let with = |indentation: &str, line_ending: &str| {
        let style = Style { indentation: indentation.to_string(), line_ending: line_ending.to_string() };
        style.is_style_of(&test.context.source, &test.context.tokens)
    };
    assert!(with("  ", "\r\n"));
    assert!(!with("  ", "\n"));
    assert!(!with("    ", "\r\n"));
    let mut other = RefactorTest::python("if a:\r\n  <START>b<END>\r\n");
    other.context.style.indentation = "\t".to_string();
    assert!(!other.context.is_wf());
    // what a file of one line ends it with is up to the platform
    let tokens = parse("a").tokens;
    let single = |line_ending: &str| {
        Style { indentation: "    ".to_string(), line_ending: line_ending.to_string() }.is_style_of("a", &tokens)
    };
    assert!(single("\n") && single("\r\n") && !single("\r"));
}

#[test]
fn the_keyword_of_a_data_class_comes_off_again() {
    let plain = "class A:\n    x: int\n";
    let test = RefactorTest::basedpython("class A<CURSOR>:\n    x: int\n");
    let made = test.apply(RefactorKind::ConvertToDataClass);
    assert_eq!(made.trim(), "data class A:\n    x: int");
    let again = RefactorTest::basedpython("data class A<CURSOR>:\n    x: int\n");
    assert_eq!(again.apply(RefactorKind::ConvertFromDataClass).trim(), plain.trim());
    assert_eq!(again.apply(RefactorKind::ConvertToDataClass), "not offered");
    assert_eq!(test.apply(RefactorKind::ConvertFromDataClass), "not offered");
}

#[test]
fn snake_case_separates_words_and_leaves_no_capital() {
    for (name, snake) in [
        ("userName", "user_name"),
        ("HTTPServer", "httpserver"),
        ("get2Items", "get2_items"),
        ("__A_b", "__a_b"),
        ("already_snake", "already_snake"),
        ("", ""),
        ("fooBarÄ", "foo_bar_ä"),
    ] {
        assert_eq!(to_snake_case(name), snake);
        assert_eq!(to_snake_case(snake), snake);
    }
}

#[test]
fn the_escapes_of_a_run_are_added_to_what_was_found() {
    let source = "'a\\x4g\\u00e9\\'";
    let mut found = vec![TextRange { start: 0, end: 1 }];
    escapes_in(source, TextRange { start: 1, end: source.len() as u32 - 1 }, false, &mut found);
    let texts: Vec<&str> = found.iter().map(|range| text_at(source, *range)).collect();
    assert_eq!(texts, ["'", "\\x", "\\u00e9"]);
    escapes_in(source, TextRange { start: 9, end: 90 }, false, &mut found);
    assert_eq!(found.len(), 3);
}

#[test]
fn a_line_that_starts_inside_a_string_is_not_moved() {
    let body = "print(f\"\"\"a\n{x}\n  b {\n x}\n\"\"\", '''c\nd''')";
    let source = format!("class A:\n    def f(self, x):\n        <START>{body}<END>\n        return x\n");
    let test = RefactorTest::python(&source);
    let result = refactor(&test.context, RefactorKind::ExtractFunction, test.range).expect("it applies");
    let texts: Vec<&str> = result.edits.iter().filter_map(|edit| edit.edit.content.as_deref()).collect();
    let written = format!("    def extracted(self, x):\n        {body}\n");
    assert!(texts.iter().any(|text| text.contains(&written)), "{texts:?}");
}

#[test]
fn a_value_is_not_moved_to_where_its_names_are_bound_anew() {
    assert_snapshot(inline(
        "
            def f(a):
                x<CURSOR> = a
                return lambda a: x
            ",
    ), "refused: Inline variable `x` (`a` means something else where `x` is read)");
    assert_snapshot(inline(
        "
            def f(a, items):
                x<CURSOR> = a
                return [x for a in items]
            ",
    ), "refused: Inline variable `x` (`a` means something else where `x` is read)");
    assert_snapshot(inline(
        "
            def f(a):
                x<CURSOR> = a
                return lambda b: x
            ",
    ), "
        Inline variable `x`
        ---

        def f(a):
            return lambda b: a
        ");
}

//! The superclass members that the members of a document override.

use ty_ide::edit::File;
use ty_ide::navigation::NavigationTarget;
use ty_ide::super_members::{
    document_super_members, is_constructor_like_method, super_members, ClassMemberDefinition,
    OverriddenMember, SuperMember,
};
use ty_ide::text_size::TextRange;

/// A member of a superclass, with the line that declares it.
struct Over {
    superclass: &'static str,
    line: Option<usize>,
    class_line: Option<usize>,
    synthesized: bool,
    is_abstract: bool,
}

/// What `superclass` declares on `line`.
fn over(superclass: &'static str, line: usize) -> Over {
    Over { superclass, line: Some(line), class_line: None, synthesized: false, is_abstract: false }
}

/// The same of an abstract member.
fn over_abstract(superclass: &'static str, line: usize) -> Over {
    Over { is_abstract: true, ..over(superclass, line) }
}

/// What `superclass`, which stands on `line`, synthesizes.
fn over_synthesized(superclass: &'static str, line: usize) -> Over {
    Over { superclass, line: None, class_line: Some(line), synthesized: true, is_abstract: false }
}

/// A member that a class declares on a line, with what the override checks find for it.
struct Member {
    class: &'static str,
    name: &'static str,
    line: usize,
    is_abstract: bool,
    over: Vec<Over>,
}

fn member(class: &'static str, name: &'static str, line: usize, over: Vec<Over>) -> Member {
    Member { class, name, line, is_abstract: false, over }
}

fn abstract_member(class: &'static str, name: &'static str, line: usize, over: Vec<Over>) -> Member {
    Member { is_abstract: true, ..member(class, name, line, over) }
}

struct CursorTest {
    path: &'static str,
    source: String,
    /// The stub that declares `object`.
    builtins: String,
    offset: u32,
    members: Vec<ClassMemberDefinition>,
}

/// Where `name` stands on `line` of `text`, as a word of its own.
fn word_at(text: &str, line: usize, name: &str) -> TextRange {
    let is_word = |c: Option<char>| c.is_some_and(|c| c.is_alphanumeric() || c == '_');
    let before: usize = text.split('\n').take(line - 1).map(|line| line.len() + 1).sum();
    let row = text.split('\n').nth(line - 1).expect("the line");
    let column = row
        .match_indices(name)
        .map(|(at, _)| at)
        .find(|at| {
            !is_word(row[..*at].chars().next_back())
                && !is_word(row[at + name.len()..].chars().next())
        })
        .expect("the name stands on the line");
    let start = (before + column) as u32;
    TextRange { start, end: start + name.len() as u32 }
}

fn cursor_test(path: &'static str, source: &str, members: Vec<Member>) -> CursorTest {
    let offset = source.find("<CURSOR>").expect("a cursor") as u32;
    let source = source.replacen("<CURSOR>", "", 1);
    let mut builtins = "\n".repeat(92);
    builtins.push_str("    def __repr__(self) -> str: ...\n    def __init__(self) -> None: ...\n");
    let mut classes: Vec<&str> = Vec::new();
    let mut definitions = Vec::new();
    for member in &members {
        let mut overridden = Vec::new();
        for over in &member.over {
            let superclass = match classes.iter().position(|class| *class == over.superclass) {
                Some(at) => at,
                None => {
                    classes.push(over.superclass);
                    classes.len() - 1
                }
            };
            let is_object = over.superclass == "object";
            let (file, text) = if is_object { (1, &builtins) } else { (0, &source) };
            let target = |line: usize, name: &str| {
                let range = word_at(text, line, name);
                NavigationTarget { file: File { index: file }, focus_range: range, full_range: range }
            };
            overridden.push(OverriddenMember {
                superclass: superclass as u32,
                superclass_name: over.superclass.to_string(),
                declarations: over.line.iter().map(|line| target(*line, member.name)).collect(),
                class_declarations: over.class_line.iter().map(|line| target(*line, over.superclass)).collect(),
                synthesized: over.synthesized,
                is_abstract: over.is_abstract,
            });
        }
        definitions.push(ClassMemberDefinition {
            name: member.name.to_string(),
            class_name: member.class.to_string(),
            name_range: word_at(&source, member.line, member.name),
            is_abstract: member.is_abstract,
            overridden,
        });
    }
    CursorTest { path, source, builtins, offset, members: definitions }
}

impl CursorTest {
    /// The line of `offset`, and where that line starts.
    fn line(&self, file: File, offset: u32) -> (usize, u32) {
        let text = if file.index == 0 { &self.source } else { &self.builtins };
        let before = &text[..offset as usize];
        (before.matches('\n').count() + 1, before.rfind('\n').map_or(0, |at| at as u32 + 1))
    }

    /// one line per member: `Superclass.name` and the line it is declared on, `(synthesized)` when
    /// the superclass synthesizes it, `(abstract)` when the member is abstract there
    fn super_members(&self) -> String {
        let Some(members) = super_members(&self.members, self.offset) else {
            return "None".to_string();
        };
        if members.is_empty() {
            return "[]".to_string();
        }
        members.iter().map(|member| self.super_member(member)).collect::<Vec<_>>().join("\n")
    }

    fn super_member(&self, member: &SuperMember) -> String {
        let file = member.target.file;
        let (line, _) = self.line(file, member.target.focus_range.start);
        format!(
            "{}.{} {}:{}{}{}",
            member.superclass,
            member.name,
            if file.index == 0 { format!("/{}", self.path) } else { "stdlib/builtins.byi".to_string() },
            line,
            if member.synthesized { " (synthesized)" } else { "" },
            if member.is_abstract { " (abstract)" } else { "" },
        )
    }

    /// one line per overriding member of the cursor's file: its name, the line and column its name
    /// is on, `(abstract)` when it is abstract itself, and after `->` what it overrides
    fn document_super_members(&self) -> String {
        let members = document_super_members(&self.members);
        if members.is_empty() {
            return "[]".to_string();
        }
        // in source order, none twice
        assert!(members.windows(2).all(|pair| pair[0].name_range.start < pair[1].name_range.start));
        members
            .iter()
            .map(|member| {
                let start = member.name_range.start;
                let (line, line_start) = self.line(File { index: 0 }, start);
                format!(
                    "{}.{} {}:{}{} -> {}",
                    member.class,
                    member.name,
                    line,
                    start - line_start,
                    if member.is_abstract { " (abstract)" } else { "" },
                    member
                        .super_members
                        .iter()
                        .map(|member| self.super_member(member))
                        .collect::<Vec<_>>()
                        .join(", "),
                )
            })
            .collect::<Vec<_>>()
            .join("\n")
    }
}

/// `expected` is indented as its test is.
fn assert_snapshot(actual: String, expected: &str) {
    let expected: Vec<&str> = expected.trim().lines().map(str::trim_start).collect();
    assert_eq!(actual, expected.join("\n"));
}

#[test]
fn an_abstract_method_is_said_to_be_abstract() {
    let test = cursor_test(
        "main.py",
        "
from abc import ABC, abstractmethod

class A(ABC):
    @abstractmethod
    def f(self) -> None: ...

class B(A):
    def <CURSOR>f(self) -> None:
        pass
",
        vec![
            abstract_member("A", "f", 6, vec![]),
            member("B", "f", 9, vec![over_abstract("A", 6)]),
        ],
    );
    assert_snapshot(test.super_members(), "A.f /main.py:6 (abstract)");
}

#[test]
fn a_document_lists_each_member_that_overrides_something() {
    let test = cursor_test(
        "main.py",
        "<CURSOR>
from typing import Protocol

class Greeter(Protocol):
    def greet(self) -> str: ...

class A:
    size: int = 1

    def f(self) -> None: ...

    @property
    def x(self) -> int:
        return 1

    @x.setter
    def x(self, value: int) -> None: ...

class B(A):
    size = 2

    def __init__(self) -> None: ...

    def f(self) -> None: ...

    def g(self) -> None: ...

    @property
    def x(self) -> int:
        return 2

    @x.setter
    def x(self, value: int) -> None: ...

class C(B, Greeter):
    def f(self) -> None:
        f = 1
        class Inner(A):
            def f(self) -> None: ...

    def greet(self) -> str:
        return 'hi'

    names = [f for f in 'ab']
",
        vec![
            abstract_member("Greeter", "greet", 5, vec![]),
            member("A", "size", 8, vec![]),
            member("A", "f", 10, vec![]),
            member("A", "x", 13, vec![]),
            member("A", "x", 17, vec![]),
            member("B", "size", 20, vec![over("A", 8)]),
            member("B", "__init__", 22, vec![over("object", 94)]),
            member("B", "f", 24, vec![over("A", 10)]),
            member("B", "g", 26, vec![]),
            member("B", "x", 29, vec![over("A", 13)]),
            member("B", "x", 33, vec![over("A", 17)]),
            member("C", "f", 36, vec![over("B", 24)]),
            member("Inner", "f", 39, vec![over("A", 10)]),
            member("C", "greet", 41, vec![over_abstract("Greeter", 5)]),
            member("C", "names", 44, vec![]),
        ],
    );
    assert_snapshot(test.document_super_members(), "
        B.size 20:4 -> A.size /main.py:8
        B.f 24:8 -> A.f /main.py:10
        B.x 29:8 -> A.x /main.py:13
        B.x 33:8 -> A.x /main.py:17
        C.f 36:8 -> B.f /main.py:24
        Inner.f 39:16 -> A.f /main.py:10
        C.greet 41:8 -> Greeter.greet /main.py:5 (abstract)
        ");
}

#[test]
fn a_document_member_that_overrides_through_two_bases_lists_both() {
    let test = cursor_test(
        "main.py",
        "<CURSOR>
class Root:
    def f(self) -> None: ...

class Left(Root):
    def f(self) -> None: ...

class Right(Root):
    def f(self) -> None: ...

class Both(Left, Right):
    def f(self) -> None: ...
",
        vec![
            member("Root", "f", 3, vec![]),
            member("Left", "f", 6, vec![over("Root", 3)]),
            member("Right", "f", 9, vec![over("Root", 3)]),
            member("Both", "f", 12, vec![over("Left", 6), over("Right", 9)]),
        ],
    );
    assert_snapshot(test.document_super_members(), "
        Left.f 6:8 -> Root.f /main.py:3
        Right.f 9:8 -> Root.f /main.py:3
        Both.f 12:8 -> Left.f /main.py:6, Right.f /main.py:9
        ");
}

#[test]
fn a_protocol_member_redeclared_in_a_protocol_is_abstract_itself() {
    let test = cursor_test(
        "main.py",
        "<CURSOR>
from typing import Protocol

class Shape(Protocol):
    def area(self) -> float: ...

class Polygon(Shape, Protocol):
    def area(self) -> float: ...
",
        vec![
            abstract_member("Shape", "area", 5, vec![]),
            abstract_member("Polygon", "area", 8, vec![over_abstract("Shape", 5)]),
        ],
    );
    assert_snapshot(
        test.document_super_members(),
        "Polygon.area 8:8 (abstract) -> Shape.area /main.py:5 (abstract)"
    );
}

#[test]
fn a_document_with_no_overrides_is_empty() {
    let test = cursor_test(
        "main.py",
        "<CURSOR>
class A:
    def __init__(self) -> None: ...

    def f(self) -> None: ...

def g() -> None: ...
",
        vec![
            member("A", "__init__", 3, vec![over("object", 94)]),
            member("A", "f", 5, vec![]),
        ],
    );
    assert_snapshot(test.document_super_members(), "[]");
}

#[test]
fn a_method_goes_to_the_method_it_overrides() {
    let test = cursor_test(
        "main.py",
        "
class A:
    def f(self) -> None: ...

class B(A):
    def <CURSOR>f(self) -> None: ...
",
        vec![
            member("A", "f", 3, vec![]),
            member("B", "f", 6, vec![over("A", 3)]),
        ],
    );
    assert_snapshot(test.super_members(), "A.f /main.py:3");
}

#[test]
fn two_levels_up_goes_to_the_nearer() {
    let test = cursor_test(
        "main.py",
        "
class A:
    def f(self) -> None: ...

class B(A):
    def f(self) -> None: ...

class C(B):
    def <CURSOR>f(self) -> None: ...
",
        vec![
            member("A", "f", 3, vec![]),
            member("B", "f", 6, vec![over("A", 3)]),
            member("C", "f", 9, vec![over("B", 6)]),
        ],
    );
    assert_snapshot(test.super_members(), "B.f /main.py:6");
}

#[test]
fn two_levels_up_past_a_class_that_does_not_declare_it() {
    let test = cursor_test(
        "main.py",
        "
class A:
    def f(self) -> None: ...

class B(A):
    pass

class C(B):
    def <CURSOR>f(self) -> None: ...
",
        vec![
            member("A", "f", 3, vec![]),
            member("C", "f", 9, vec![over("A", 3)]),
        ],
    );
    assert_snapshot(test.super_members(), "A.f /main.py:3");
}

#[test]
fn several_bases_that_each_declare_it_are_each_overridden_in_mro_order() {
    let test = cursor_test(
        "main.py",
        "
class Root:
    def f(self) -> None: ...

class Left(Root):
    def f(self) -> None: ...

class Right(Root):
    def f(self) -> None: ...

class Both(Left, Right):
    def <CURSOR>f(self) -> None: ...
",
        vec![
            member("Root", "f", 3, vec![]),
            member("Left", "f", 6, vec![over("Root", 3)]),
            member("Right", "f", 9, vec![over("Root", 3)]),
            member("Both", "f", 12, vec![over("Left", 6), over("Right", 9)]),
        ],
    );
    assert_snapshot(test.super_members(), "
        Left.f /main.py:6
        Right.f /main.py:9
        ");
}

#[test]
fn a_diamond_whose_sides_do_not_declare_it_goes_to_the_root_once() {
    let test = cursor_test(
        "main.py",
        "
class Root:
    def f(self) -> None: ...

class Left(Root): ...

class Right(Root): ...

class Both(Left, Right):
    def <CURSOR>f(self) -> None: ...
",
        vec![
            member("Root", "f", 3, vec![]),
            member("Both", "f", 10, vec![over("Root", 3)]),
        ],
    );
    assert_snapshot(test.super_members(), "Root.f /main.py:3");
}

#[test]
fn a_protocol_member() {
    let test = cursor_test(
        "main.py",
        "
from typing import Protocol

class Greeter(Protocol):
    def greet(self) -> str: ...

class English(Greeter):
    def <CURSOR>greet(self) -> str:
        return 'hello'
",
        vec![
            abstract_member("Greeter", "greet", 5, vec![]),
            member("English", "greet", 8, vec![over_abstract("Greeter", 5)]),
        ],
    );
    assert_snapshot(test.super_members(), "Greeter.greet /main.py:5 (abstract)");
}

#[test]
fn a_property_getter_goes_to_the_getter() {
    let test = cursor_test(
        "main.py",
        "
class A:
    @property
    def x(self) -> int:
        return 1

    @x.setter
    def x(self, value: int) -> None: ...

class B(A):
    @property
    def <CURSOR>x(self) -> int:
        return 2
",
        vec![
            member("A", "x", 4, vec![]),
            member("A", "x", 8, vec![]),
            member("B", "x", 12, vec![over("A", 4)]),
        ],
    );
    assert_snapshot(test.super_members(), "A.x /main.py:4");
}

#[test]
fn a_class_attribute() {
    let test = cursor_test(
        "main.py",
        "
class A:
    size: int = 1

class B(A):
    <CURSOR>size = 2
",
        vec![
            member("A", "size", 3, vec![]),
            member("B", "size", 6, vec![over("A", 3)]),
        ],
    );
    assert_snapshot(test.super_members(), "A.size /main.py:3");
}

#[test]
fn a_member_the_superclass_synthesizes_goes_to_the_superclass() {
    let test = cursor_test(
        "main.py",
        "
from dataclasses import dataclass

@dataclass
class A:
    x: int

class B(A):
    def <CURSOR>__init__(self) -> None:
        super().__init__(1)
",
        vec![
            member("A", "x", 6, vec![]),
            member("B", "__init__", 9, vec![over_synthesized("A", 5)]),
        ],
    );
    assert_snapshot(test.super_members(), "A.__init__ /main.py:5 (synthesized)");
}

#[test]
fn a_method_that_overrides_nothing() {
    let test = cursor_test(
        "main.py",
        "
class A:
    def f(self) -> None: ...

class B(A):
    def <CURSOR>g(self) -> None: ...
",
        vec![
            member("A", "f", 3, vec![]),
            member("B", "g", 6, vec![]),
        ],
    );
    assert_snapshot(test.super_members(), "[]");
}

#[test]
fn a_function_that_is_not_a_member() {
    let test = cursor_test(
        "main.py",
        "
def <CURSOR>f() -> None: ...
",
        vec![],
    );
    assert_snapshot(test.super_members(), "None");
}

#[test]
fn basedpython_override_and_protocol() {
    let test = cursor_test(
        "main.by",
        "
protocol Shape:
    def area(self) -> float: ...

class Square(Shape):
    def __init__(self, side: float) -> None:
        self.side = side

    override def <CURSOR>area(self) -> float:
        return self.side * self.side
",
        vec![
            abstract_member("Shape", "area", 3, vec![]),
            member("Square", "__init__", 6, vec![over("object", 94)]),
            member("Square", "area", 9, vec![over_abstract("Shape", 3)]),
        ],
    );
    assert_snapshot(test.super_members(), "Shape.area /main.by:3 (abstract)");
}

#[test]
fn a_private_member_overrides_nothing() {
    let test = cursor_test(
        "main.by",
        "
class A:
    private def f(self) -> None: ...

class B(A):
    private def <CURSOR>f(self) -> None: ...
",
        vec![
            member("A", "f", 3, vec![]),
            member("B", "f", 6, vec![]),
        ],
    );
    assert_snapshot(test.super_members(), "[]");
}

/// a decorator can replace a class with anything, and the members are the
/// class's own all the same: those of the class as written, not of what the
/// decorator returns
#[test]
fn a_member_of_a_decorated_class() {
    let test = cursor_test(
        "main.py",
        "<CURSOR>
class Base:
    def f(self) -> None: ...

class Other(Base): ...

def to_int(cls: type) -> int:
    return 1

def to_other(cls: type) -> Other:
    return Other()

class A:
    def f(self) -> None: ...

@to_int
class C(A):
    def f(self) -> None: ...

@to_other
class D(A):
    def f(self) -> None: ...
",
        vec![
            member("Base", "f", 3, vec![]),
            member("A", "f", 14, vec![]),
            member("C", "f", 18, vec![over("A", 14)]),
            member("D", "f", 22, vec![over("A", 14)]),
        ],
    );
    assert_snapshot(test.document_super_members(), "
        C.f 18:8 -> A.f /main.py:14
        D.f 22:8 -> A.f /main.py:14
        ");
}

#[test]
fn an_accessor_block_is_listed_once() {
    let test = cursor_test(
        "main.by",
        "<CURSOR>
class A:
    var age: int = 0
        get() = field
        set(value):
            field = value

class B(A):
    override var age: int = 0
        get() = field
        set(value):
            field = value
",
        vec![
            member("A", "age", 3, vec![]),
            member("A", "age", 3, vec![]),
            member("B", "age", 9, vec![over("A", 3)]),
            member("B", "age", 9, vec![over("A", 3)]),
        ],
    );
    assert_snapshot(test.document_super_members(), "B.age 9:17 -> A.age /main.by:3");
}

#[test]
fn an_accessor_block_is_asked_about_once() {
    let test = cursor_test(
        "main.by",
        "
class A:
    var age: int = 0
        get() = field
        set(value):
            field = value

class B(A):
    override var <CURSOR>age: int = 0
        get() = field
        set(value):
            field = value
",
        vec![
            member("A", "age", 3, vec![]),
            member("A", "age", 3, vec![]),
            member("B", "age", 9, vec![over("A", 3)]),
            member("B", "age", 9, vec![over("A", 3)]),
        ],
    );
    assert_snapshot(test.super_members(), "A.age /main.by:3");
}

#[test]
fn a_setter_overriding_a_property_with_only_a_getter_goes_to_the_getter() {
    let test = cursor_test(
        "main.py",
        "<CURSOR>
class A:
    @property
    def x(self) -> int:
        return 1

class B(A):
    @property
    def x(self) -> int:
        return 2

    @x.setter
    def x(self, value: int) -> None: ...
",
        vec![
            member("A", "x", 4, vec![]),
            member("B", "x", 9, vec![over("A", 4)]),
            member("B", "x", 13, vec![over("A", 4)]),
        ],
    );
    assert_snapshot(test.document_super_members(), "
        B.x 9:8 -> A.x /main.py:4
        B.x 13:8 -> A.x /main.py:4
        ");
}

#[test]
fn a_property_overriding_an_attribute() {
    let test = cursor_test(
        "main.py",
        "<CURSOR>
class A:
    x: int = 1

class B(A):
    @property
    def x(self) -> int:
        return 2
",
        vec![
            member("A", "x", 3, vec![]),
            member("B", "x", 7, vec![over("A", 3)]),
        ],
    );
    assert_snapshot(test.document_super_members(), "B.x 7:8 -> A.x /main.py:3");
}

/// a base whose members cannot be known is passed over, and the walk goes
/// on to the bases after it
#[test]
fn a_dynamic_base_is_passed_over() {
    let test = cursor_test(
        "main.py",
        "<CURSOR>
from typing import Any

class A:
    def f(self) -> None: ...

class B(Any, A):
    def f(self) -> None: ...
",
        vec![
            member("A", "f", 5, vec![]),
            member("B", "f", 8, vec![over("A", 5)]),
        ],
    );
    assert_snapshot(test.document_super_members(), "B.f 8:8 -> A.f /main.py:5");
}

/// the keys of a typed dict are not members a class body overrides
#[test]
fn a_typed_dict_key_overrides_nothing() {
    let test = cursor_test(
        "main.py",
        "<CURSOR>
from typing import TypedDict

class A(TypedDict):
    x: int

class B(A):
    x: int
",
        vec![
            member("A", "x", 5, vec![]),
            member("B", "x", 8, vec![]),
        ],
    );
    assert_snapshot(test.document_super_members(), "[]");
}

#[test]
fn a_member_of_a_generic_class() {
    let test = cursor_test(
        "main.py",
        "<CURSOR>
class A[T]:
    def f(self, x: T) -> T:
        return x

class B(A[int]):
    def f(self, x: int) -> int:
        return x

class C[T](A[T]):
    def f(self, x: T) -> T:
        return x
",
        vec![
            member("A", "f", 3, vec![]),
            member("B", "f", 7, vec![over("A", 3)]),
            member("C", "f", 11, vec![over("A", 3)]),
        ],
    );
    assert_snapshot(test.document_super_members(), "
        B.f 7:8 -> A.f /main.py:3
        C.f 11:8 -> A.f /main.py:3
        ");
}

#[test]
fn a_nested_class_an_import_and_a_walrus_in_a_decorator_are_members() {
    let test = cursor_test(
        "main.py",
        "<CURSOR>
import os

def deco(f: object) -> object:
    return f

class A:
    import os
    class Meta: ...
    d = deco
    match 1:
        case captured: ...

    @deco
    def f(self) -> None: ...

class B(A):
    import os
    class Meta: ...

    @(d := deco)
    def f(self) -> None: ...

    match 1:
        case captured: ...
",
        vec![
            member("A", "os", 8, vec![]),
            member("A", "Meta", 9, vec![]),
            member("A", "d", 10, vec![]),
            member("A", "captured", 12, vec![]),
            member("A", "f", 15, vec![]),
            member("B", "os", 18, vec![over("A", 8)]),
            member("B", "Meta", 19, vec![over("A", 9)]),
            member("B", "d", 21, vec![over("A", 10)]),
            member("B", "f", 22, vec![over("A", 15)]),
            member("B", "captured", 25, vec![over("A", 12)]),
        ],
    );
    assert_snapshot(test.document_super_members(), "
        B.os 18:11 -> A.os /main.py:8
        B.Meta 19:10 -> A.Meta /main.py:9
        B.d 21:6 -> A.d /main.py:10
        B.f 22:8 -> A.f /main.py:15
        B.captured 25:13 -> A.captured /main.py:12
        ");
}

#[test]
fn a_member_of_object() {
    let test = cursor_test(
        "main.py",
        "
class A:
    def <CURSOR>__repr__(self) -> str:
        return 'A'
",
        vec![
            member("A", "__repr__", 3, vec![over("object", 93)]),
        ],
    );
    assert_snapshot(test.super_members(), "object.__repr__ stdlib/builtins.byi:93");
}

#[test]
fn a_member_with_no_declaration_and_no_class_to_go_to_is_left_out() {
    let lost = Over { line: None, ..over("A", 3) };
    let test = cursor_test(
        "main.py",
        "
class A:
    def f(self) -> None: ...

class B(A):
    def <CURSOR>f(self) -> None: ...
",
        vec![member("B", "f", 6, vec![lost])],
    );
    assert_eq!(test.super_members(), "[]");
    assert_eq!(test.document_super_members(), "[]");
}

#[test]
fn a_declaration_that_stands_for_several_is_abstract_when_one_of_them_is() {
    let test = cursor_test(
        "main.by",
        "
class A:
    var age: int = 0

class B(A):
    override var <CURSOR>age: int = 0
",
        vec![
            member("B", "age", 6, vec![over("A", 3)]),
            abstract_member("B", "age", 6, vec![over("A", 3)]),
        ],
    );
    assert_eq!(test.document_super_members(), "B.age 6:17 (abstract) -> A.age /main.by:3");
}

#[test]
fn a_superclass_that_two_definitions_override_is_listed_once() {
    let test = cursor_test(
        "main.by",
        "
class A:
    var age: int = 0
class C:
    var age: int = 0
class B(A, C):
    override var <CURSOR>age: int = 0
",
        vec![
            member("B", "age", 7, vec![over("A", 3)]),
            member("B", "age", 7, vec![over("C", 5), over("A", 3)]),
        ],
    );
    assert_eq!(test.super_members(), "A.age /main.by:3\nC.age /main.by:5");
}

#[test]
fn the_methods_a_constructor_calls_are_constructor_like() {
    assert!(is_constructor_like_method("__init__"));
    assert!(is_constructor_like_method("__new__"));
    assert!(is_constructor_like_method("__post_init__"));
    assert!(is_constructor_like_method("__init_subclass__"));
    assert!(!is_constructor_like_method("__repr__"));
}

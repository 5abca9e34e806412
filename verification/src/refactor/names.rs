//! Names for what a refactoring introduces.
//!
//! A code action cannot ask for a name, so a refactoring that introduces a
//! binding picks one the file does not already use anywhere — not in any scope,
//! not as a builtin it reads — which is what makes it impossible for the new
//! binding to capture or shadow a name some other code resolves.

use crate::name_set::{contains_name, count_names, counts, insert_name, names_of, no_names};
use crate::node::{child_of, height, lemma_height_child_of, Field, Node, NodeKind};
use crate::semantics::{SemanticIndex, Symbol};
use crate::strings::{
    decimal, decimal_text, has_prefix, join2, join3, lemma_decimal_injective, lemma_decimal_len,
    owned, same_text, starts_with, without_first,
};
use rustc_hash::FxHashSet;
use vstd::prelude::*;
use vstd::string::{StrSliceExecFns, StringExecFns};

verus! {

/// The words basedpython reads as keywords in some position, which a name
/// introduced by a refactoring stays clear of.
pub open spec fn is_basedpython_word(name: Seq<char>) -> bool {
    ||| name == "let"@ || name == "var"@ || name == "it"@ || name == "init"@ || name == "data"@
    ||| name == "frozen"@ || name == "extension"@ || name == "sealed"@ || name == "open"@
    ||| name == "override"@ || name == "static"@ || name == "export"@ || name == "public"@
    ||| name == "private"@ || name == "protected"@ || name == "late"@ || name == "context"@
    ||| name == "protocol"@ || name == "enum"@ || name == "some"@ || name == "dynamic"@
    ||| name == "typeof"@ || name == "literal"@ || name == "final"@ || name == "abstract"@
}

/// Python's keywords.
pub open spec fn is_python_keyword(name: Seq<char>) -> bool {
    ||| name == "False"@ || name == "None"@ || name == "True"@ || name == "and"@ || name == "as"@
    ||| name == "assert"@ || name == "async"@ || name == "await"@ || name == "break"@
    ||| name == "class"@ || name == "continue"@ || name == "def"@ || name == "del"@
    ||| name == "elif"@ || name == "else"@ || name == "except"@ || name == "finally"@
    ||| name == "for"@ || name == "from"@ || name == "global"@ || name == "if"@
    ||| name == "import"@ || name == "in"@ || name == "is"@ || name == "lambda"@
    ||| name == "nonlocal"@ || name == "not"@ || name == "or"@ || name == "pass"@
    ||| name == "raise"@ || name == "return"@ || name == "try"@ || name == "while"@
    ||| name == "with"@ || name == "yield"@
}

/// Whether unicode lets `c` start an identifier, by `unicode_ident::is_xid_start`.
pub uninterp spec fn xid_start(c: char) -> bool;

/// Whether unicode lets `c` continue an identifier, by `unicode_ident::is_xid_continue`.
pub uninterp spec fn xid_continue(c: char) -> bool;

pub open spec fn is_ascii_letter(c: char) -> bool {
    'a' <= c <= 'z' || 'A' <= c <= 'Z' || c == '_'
}

pub open spec fn starts_identifier(c: char) -> bool {
    is_ascii_letter(c) || xid_start(c)
}

pub open spec fn continues_identifier(c: char) -> bool {
    if (c as u32) < 128 {
        is_ascii_letter(c) || '0' <= c <= '9'
    } else {
        xid_continue(c)
    }
}

/// Whether `name` is written like an identifier, keywords included.
pub open spec fn is_identifier_shaped(name: Seq<char>) -> bool {
    &&& name.len() > 0
    &&& starts_identifier(name[0])
    &&& forall|i: int| 1 <= i < name.len() ==> continues_identifier(#[trigger] name[i])
}

/// Whether `name` is a python identifier.
pub open spec fn is_python_identifier(name: Seq<char>) -> bool {
    is_identifier_shaped(name) && !is_python_keyword(name)
}

/// `identifiers::is_identifier` of ruff_python_stdlib: a letter or underscore, or a character
/// unicode lets start an identifier, then letters, digits, underscores and characters unicode
/// lets continue one, which together are no keyword.
#[verifier::external_body]
pub(crate) fn is_identifier(name: &str) -> (identifier: bool)
    ensures
        identifier == {
            &&& name@.len() > 0
            &&& is_ascii_letter(name@[0]) || xid_start(name@[0])
            &&& forall|i: int|
                1 <= i < name@.len() ==> if (#[trigger] name@[i] as u32) < 128 {
                    is_ascii_letter(name@[i]) || '0' <= name@[i] <= '9'
                } else {
                    xid_continue(name@[i])
                }
            &&& !is_python_keyword(name@)
        },
{
    ruff_python_stdlib::identifiers::is_identifier(name)
}

/// `keyword::is_keyword` of ruff_python_stdlib: whether `name` is one of python's hard keywords.
#[verifier::external_body]
pub(crate) fn is_keyword(name: &str) -> (keyword: bool)
    ensures
        keyword == is_python_keyword(name@),
{
    ruff_python_stdlib::keyword::is_keyword(name)
}

/// Whether `builtins::is_python_builtin` of ruff_python_stdlib lists `name` for python
/// 3.`minor`, in a notebook or not.
pub uninterp spec fn is_listed_builtin(name: Seq<char>, minor: u8, notebook: bool) -> bool;

/// Whether `name` is one that is given to an expression written with none.
pub open spec fn is_kind_name(name: Seq<char>) -> bool {
    ||| name == "text"@ || name == "number"@ || name == "condition"@ || name == "items"@
    ||| name == "elements"@ || name == "mapping"@ || name == "values"@ || name == "function"@
    ||| name == "generator"@ || name == "value"@
}

/// Whether `name` is a builtin of python 3.`minor`, in a notebook or not. None of the names given
/// to an expression written with none is.
pub open spec fn is_builtin(name: Seq<char>, minor: u8, notebook: bool) -> bool {
    !is_kind_name(name) && is_listed_builtin(name, minor, notebook)
}

/// `builtins::is_python_builtin` of ruff_python_stdlib, whose table the name stands for. The table
/// holds none of the names given to an expression written with none.
#[verifier::external_body]
pub(crate) fn is_python_builtin(name: &str, minor: u8, notebook: bool) -> (builtin: bool)
    ensures
        is_kind_name(name@) ==> !builtin,
        !is_kind_name(name@) ==> builtin == is_listed_builtin(name@, minor, notebook),
{
    ruff_python_stdlib::builtins::is_python_builtin(name, minor, notebook)
}

pub open spec fn is_ascii_char(c: char) -> bool {
    (c as u32) < 128
}

/// Whether `c` is one of `A` to `Z`.
pub open spec fn is_capital(c: char) -> bool {
    'A' <= c <= 'Z'
}

/// Whether `c`, which is not ascii, has unicode's uppercase property, by `char::is_uppercase`.
pub uninterp spec fn is_upper_beyond_ascii(c: char) -> bool;

/// Whether `c` has unicode's uppercase property.
pub open spec fn is_upper(c: char) -> bool {
    if is_ascii_char(c) {
        is_capital(c)
    } else {
        is_upper_beyond_ascii(c)
    }
}

/// `char::is_uppercase`: whether `c` has unicode's uppercase property, which of the ascii
/// characters `A` to `Z` have.
#[verifier::external_body]
pub(crate) fn is_uppercase(c: char) -> (upper: bool)
    ensures
        is_ascii_char(c) ==> upper == is_capital(c),
        !is_ascii_char(c) ==> upper == is_upper_beyond_ascii(c),
{
    c.is_uppercase()
}

/// Whether `c`, which is not ascii, has unicode's lowercase property, by `char::is_lowercase`.
pub uninterp spec fn is_lower_beyond_ascii(c: char) -> bool;

/// Whether `c` has unicode's lowercase property.
pub open spec fn is_lower(c: char) -> bool {
    if is_ascii_char(c) {
        'a' <= c <= 'z'
    } else {
        is_lower_beyond_ascii(c)
    }
}

/// `char::is_lowercase`: whether `c` has unicode's lowercase property, which of the ascii
/// characters `a` to `z` have.
#[verifier::external_body]
pub(crate) fn is_lowercase(c: char) -> (lower: bool)
    ensures
        is_ascii_char(c) ==> lower == ('a' <= c <= 'z'),
        !is_ascii_char(c) ==> lower == is_lower_beyond_ascii(c),
{
    c.is_lowercase()
}

/// The lowercase of `c`, which is not ascii, by `char::to_lowercase`.
pub uninterp spec fn lowered_beyond_ascii(c: char) -> Seq<char>;

/// `c`, in lowercase where it is one of `A` to `Z`.
pub open spec fn small(c: char) -> char {
    if is_capital(c) {
        (c as u32 + 32) as char
    } else {
        c
    }
}

/// The lowercase of `c`.
pub open spec fn lowered(c: char) -> Seq<char> {
    if is_ascii_char(c) {
        seq![small(c)]
    } else {
        lowered_beyond_ascii(c)
    }
}

/// `char::to_lowercase`: the characters unicode's lowercase mapping gives for `c`: for `A` to `Z`
/// the same letter of `a` to `z`, and for any other ascii character that character.
#[verifier::external_body]
pub(crate) fn to_lowercase(c: char) -> (lower: String)
    ensures
        is_ascii_char(c) ==> lower@ == seq![small(c)],
        !is_ascii_char(c) ==> lower@ == lowered_beyond_ascii(c),
{
    c.to_lowercase().to_string()
}

/// The uppercase of `text`, by `str::to_uppercase`.
pub uninterp spec fn uppered(text: Seq<char>) -> Seq<char>;

/// `str::to_uppercase`: `text` under unicode's uppercase mapping.
#[verifier::external_body]
pub(crate) fn to_uppercase(text: &str) -> (upper: String)
    ensures
        upper@ == uppered(text@),
{
    text.to_uppercase()
}

/// Whether one of `symbols` is named `name`.
pub open spec fn names_symbol(symbols: Seq<Symbol>, name: Seq<char>) -> bool {
    exists|i: int| 0 <= i < symbols.len() && (#[trigger] symbols[i]).name@ == name
}

/// Every name some scope of the file binds, declares or reads.
pub open spec fn file_names(index: SemanticIndex) -> Set<Seq<char>> {
    Set::new(
        |name: Seq<char>|
            exists|i: int|
                0 <= i < index.scopes.len() && names_symbol(
                    (#[trigger] index.scopes@[i]).symbols@,
                    name,
                ),
    )
}

/// Every name some scope of the file binds, declares or reads.
pub fn names_in_file(index: &SemanticIndex) -> (names: FxHashSet<String>)
    ensures
        names_of(names) == file_names(*index),
{
    let mut names = no_names();
    let mut i: usize = 0;
    while i < index.scopes.len()
        invariant
            i <= index.scopes.len(),
            forall|name: Seq<char>| #[trigger]
                names_of(names).contains(name) <==> exists|k: int|
                    0 <= k < i && names_symbol((#[trigger] index.scopes@[k]).symbols@, name),
        decreases index.scopes.len() - i,
    {
        let ghost before = names_of(names);
        let symbols = &index.scopes[i].symbols;
        let mut j: usize = 0;
        while j < symbols.len()
            invariant
                j <= symbols.len(),
                forall|name: Seq<char>| #[trigger]
                    names_of(names).contains(name) <==> before.contains(name) || exists|k: int|
                        0 <= k < j && (#[trigger] symbols@[k]).name@ == name,
            decreases symbols.len() - j,
        {
            let ghost held = names_of(names);
            insert_name(&mut names, owned(symbols[j].name.as_str()));
            assert forall|name: Seq<char>| #[trigger]
                names_of(names).contains(name) <==> before.contains(name) || exists|k: int|
                    0 <= k < j + 1 && (#[trigger] symbols@[k]).name@ == name by {
                if name == symbols@[j as int].name@ {
                    assert(names_of(names).contains(name));
                } else {
                    assert(held.contains(name) <==> names_of(names).contains(name));
                }
            }
            j += 1;
        }
        assert forall|name: Seq<char>| #[trigger]
            names_of(names).contains(name) <==> exists|k: int|
                0 <= k < i + 1 && names_symbol(
                    (#[trigger] index.scopes@[k]).symbols@,
                    name,
                ) by {
            assert(names_symbol(symbols@, name) <==> exists|k: int|
                0 <= k < j && (#[trigger] symbols@[k]).name@ == name);
            if names_symbol(symbols@, name) {
                assert(names_symbol(index.scopes@[i as int].symbols@, name));
            }
            if before.contains(name) {
                let k = choose|k: int|
                    0 <= k < i && names_symbol((#[trigger] index.scopes@[k]).symbols@, name);
                assert(names_symbol(index.scopes@[k].symbols@, name));
            }
        }
        i += 1;
    }
    assert(names_of(names) =~= file_names(*index));
    names
}

/// Whether a refactoring may bind `name` where `taken` are in use.
pub open spec fn is_usable(name: Seq<char>, taken: Set<Seq<char>>) -> bool {
    &&& is_python_identifier(name)
    &&& !is_python_keyword(name)
    &&& !is_basedpython_word(name)
    &&& !has_prefix(name, "__"@)
    &&& !taken.contains(name)
}

/// `base` with a numeric suffix.
pub open spec fn suffixed(base: Seq<char>, suffix: nat) -> Seq<char> {
    base + "_"@ + decimal(suffix)
}

/// Whether a numeric suffix makes a name of `base` that a file with no names lets bind.
pub open spec fn is_suffixable(base: Seq<char>) -> bool {
    is_identifier_shaped(suffixed(base, 1)) && !has_prefix(suffixed(base, 1), "__"@)
}

/// Whether there is a name made of `base` that may be bound where `taken` are in use.
pub open spec fn is_nameable(base: Seq<char>, taken: Set<Seq<char>>) -> bool {
    is_usable(base, taken) || is_suffixable(base)
}

/// Whether `suffix` is the smallest numeric suffix that makes a usable name of `base`.
pub open spec fn is_least_suffix(base: Seq<char>, taken: Set<Seq<char>>, suffix: nat) -> bool {
    &&& suffix >= 1
    &&& is_usable(suffixed(base, suffix), taken)
    &&& forall|smaller: nat|
        1 <= smaller < suffix ==> !is_usable(#[trigger] suffixed(base, smaller), taken)
}

/// `base`, or `base` with the smallest numeric suffix, that may be bound where `taken` are in
/// use.
pub open spec fn fresh(base: Seq<char>, taken: Set<Seq<char>>) -> Seq<char> {
    if is_usable(base, taken) {
        base
    } else {
        suffixed(base, choose|suffix: nat| is_least_suffix(base, taken, suffix))
    }
}

/// No word of the language ends in a digit.
#[verifier::rlimit(60)]
proof fn lemma_words_end_in_letters(name: Seq<char>)
    requires
        name.len() > 0,
        '0' <= name.last() <= '9',
    ensures
        !is_python_keyword(name),
        !is_basedpython_word(name),
{
    reveal_strlit("let");
    reveal_strlit("var");
    reveal_strlit("it");
    reveal_strlit("init");
    reveal_strlit("data");
    reveal_strlit("frozen");
    reveal_strlit("extension");
    reveal_strlit("sealed");
    reveal_strlit("open");
    reveal_strlit("override");
    reveal_strlit("static");
    reveal_strlit("export");
    reveal_strlit("public");
    reveal_strlit("private");
    reveal_strlit("protected");
    reveal_strlit("late");
    reveal_strlit("context");
    reveal_strlit("protocol");
    reveal_strlit("enum");
    reveal_strlit("some");
    reveal_strlit("dynamic");
    reveal_strlit("typeof");
    reveal_strlit("literal");
    reveal_strlit("final");
    reveal_strlit("abstract");
    reveal_strlit("False");
    reveal_strlit("None");
    reveal_strlit("True");
    reveal_strlit("and");
    reveal_strlit("as");
    reveal_strlit("assert");
    reveal_strlit("async");
    reveal_strlit("await");
    reveal_strlit("break");
    reveal_strlit("class");
    reveal_strlit("continue");
    reveal_strlit("def");
    reveal_strlit("del");
    reveal_strlit("elif");
    reveal_strlit("else");
    reveal_strlit("except");
    reveal_strlit("finally");
    reveal_strlit("for");
    reveal_strlit("from");
    reveal_strlit("global");
    reveal_strlit("if");
    reveal_strlit("import");
    reveal_strlit("in");
    reveal_strlit("is");
    reveal_strlit("lambda");
    reveal_strlit("nonlocal");
    reveal_strlit("not");
    reveal_strlit("or");
    reveal_strlit("pass");
    reveal_strlit("raise");
    reveal_strlit("return");
    reveal_strlit("try");
    reveal_strlit("while");
    reveal_strlit("with");
    reveal_strlit("yield");
}

/// A suffix of a suffixable base makes a name that is usable unless it is taken.
proof fn lemma_suffixed(base: Seq<char>, suffix: nat, taken: Set<Seq<char>>)
    requires
        is_suffixable(base),
    ensures
        is_usable(suffixed(base, suffix), taken) <==> !taken.contains(suffixed(base, suffix)),
{
    let first = suffixed(base, 1);
    let name = suffixed(base, suffix);
    let stem = base + "_"@;
    reveal_strlit("_");
    reveal_strlit("__");
    lemma_decimal_len(suffix);
    lemma_decimal_len(1);
    assert(name.last() == decimal(suffix).last());
    assert(decimal(suffix).last() == decimal(suffix)[decimal(suffix).len() - 1]);
    lemma_words_end_in_letters(name);
    assert(decimal(1).len() == 1);
    assert forall|i: int| 0 <= i < stem.len() implies name[i] == first[i] by {
        assert(name[i] == stem[i]);
        assert(first[i] == stem[i]);
    }
    assert forall|i: int| 1 <= i < name.len() implies continues_identifier(#[trigger] name[i]) by {
        if i < stem.len() {
            assert(name[i] == first[i]);
        } else {
            assert(name[i] == decimal(suffix)[i - stem.len()]);
        }
    }
    assert(name[0] == first[0]);
    if has_prefix(name, "__"@) {
        assert(name.take(2)[0] == name[0] && name.take(2)[1] == name[1]);
        if stem.len() >= 2 {
            assert(first.take(2) =~= "__"@);
        } else {
            assert(name[1] == decimal(suffix)[0]);
        }
    }
}

/// Suffixes that are all taken are no more than the names taken.
proof fn lemma_taken_suffixes(base: Seq<char>, taken: Set<Seq<char>>, count: nat)
    requires
        taken.finite(),
        forall|suffix: nat|
            1 <= suffix <= count ==> taken.contains(#[trigger] suffixed(base, suffix)),
    ensures
        count <= taken.len(),
    decreases count,
{
    if count > 0 {
        let last = suffixed(base, count);
        assert(taken.contains(last));
        let rest = taken.remove(last);
        assert forall|suffix: nat| 1 <= suffix <= count - 1 implies rest.contains(
            #[trigger] suffixed(base, suffix),
        ) by {
            if suffixed(base, suffix) == last {
                let stem = base + "_"@;
                assert(decimal(suffix) =~= last.skip(stem.len() as int));
                assert(decimal(count) =~= last.skip(stem.len() as int));
                lemma_decimal_injective(suffix, count);
            }
        }
        lemma_taken_suffixes(base, rest, (count - 1) as nat);
    }
}

/// Where a suffix makes a usable name, there is a smallest one that does.
proof fn lemma_least_suffix(base: Seq<char>, taken: Set<Seq<char>>, suffix: nat)
    requires
        suffix >= 1,
        is_usable(suffixed(base, suffix), taken),
    ensures
        exists|least: nat| is_least_suffix(base, taken, least),
    decreases suffix,
{
    if !is_least_suffix(base, taken, suffix) {
        let smaller = choose|smaller: nat|
            1 <= smaller < suffix && is_usable(#[trigger] suffixed(base, smaller), taken);
        lemma_least_suffix(base, taken, smaller);
    }
}

/// A name made up for a file is an identifier, no word of the language, and none of the names in
/// use.
pub proof fn law_fresh_name_is_unused(base: Seq<char>, taken: Set<Seq<char>>)
    requires
        taken.finite(),
        is_nameable(base, taken),
    ensures
        is_usable(fresh(base, taken), taken),
{
    if !is_usable(base, taken) {
        let count = (taken.len() + 1) as nat;
        if forall|suffix: nat|
            1 <= suffix <= count ==> taken.contains(#[trigger] suffixed(base, suffix)) {
            lemma_taken_suffixes(base, taken, count);
        }
        let free = choose|suffix: nat|
            1 <= suffix <= count && !taken.contains(#[trigger] suffixed(base, suffix));
        lemma_suffixed(base, free, taken);
        lemma_least_suffix(base, taken, free);
    }
}

/// The names of the first `upto` scopes.
spec fn names_upto(index: SemanticIndex, upto: int) -> Set<Seq<char>> {
    Set::new(
        |name: Seq<char>|
            exists|i: int|
                0 <= i < upto && names_symbol((#[trigger] index.scopes@[i]).symbols@, name),
    )
}

proof fn lemma_names_upto_finite(index: SemanticIndex, upto: int)
    requires
        0 <= upto <= index.scopes.len(),
    ensures
        names_upto(index, upto).finite(),
    decreases upto,
{
    if upto > 0 {
        lemma_names_upto_finite(index, upto - 1);
        let symbols = index.scopes@[upto - 1].symbols@;
        let own = symbols.map_values(|symbol: Symbol| symbol.name@);
        vstd::seq_lib::seq_to_set_is_finite(own);
        assert forall|name: Seq<char>| own.to_set().contains(name) <==> names_symbol(
            symbols,
            name,
        ) by {
            if names_symbol(symbols, name) {
                let i = choose|i: int| 0 <= i < symbols.len() && (#[trigger] symbols[i]).name@ == name;
                assert(own[i] == name);
            }
            if own.to_set().contains(name) {
                let i = choose|i: int| 0 <= i < own.len() && own[i] == name;
                assert(symbols[i].name@ == name);
            }
        }
        assert(names_upto(index, upto) =~= names_upto(index, upto - 1).union(own.to_set()));
    } else {
        assert(names_upto(index, upto) =~= Set::empty());
    }
}

/// A file has finitely many names.
pub proof fn lemma_file_names_finite(index: SemanticIndex)
    ensures
        file_names(index).finite(),
{
    lemma_names_upto_finite(index, index.scopes.len() as int);
    assert(file_names(index) =~= names_upto(index, index.scopes.len() as int));
}

fn based_word(name: &str) -> (word: bool)
    ensures
        word == is_basedpython_word(name@),
{
    same_text(name, "let") || same_text(name, "var") || same_text(name, "it")
        || same_text(name, "init") || same_text(name, "data") || same_text(name, "frozen")
        || same_text(name, "extension") || same_text(name, "sealed") || same_text(name, "open")
        || same_text(name, "override") || same_text(name, "static") || same_text(name, "export")
        || same_text(name, "public") || same_text(name, "private") || same_text(
        name,
        "protected",
    ) || same_text(name, "late") || same_text(name, "context") || same_text(name, "protocol")
        || same_text(name, "enum") || same_text(name, "some") || same_text(name, "dynamic")
        || same_text(name, "typeof") || same_text(name, "literal") || same_text(name, "final")
        || same_text(name, "abstract")
}

fn usable(name: &str, taken: &FxHashSet<String>) -> (usable: bool)
    ensures
        usable == is_usable(name@, names_of(*taken)),
{
    is_identifier(name) && !is_keyword(name) && !based_word(name) && !starts_with(name, "__")
        && !contains_name(taken, name)
}

fn with_suffix(base: &str, suffix: u128) -> (name: String)
    ensures
        name@ == suffixed(base@, suffix as nat),
{
    join3(base, "_", decimal_text(suffix).as_str())
}

/// `base`, or `base` with the smallest numeric suffix, that `taken` lacks.
pub fn fresh_name(base: &str, taken: &FxHashSet<String>) -> (name: String)
    requires
        is_nameable(base@, names_of(*taken)),
    ensures
        name@ == fresh(base@, names_of(*taken)),
        is_usable(name@, names_of(*taken)),
        name@ == base@ || exists|suffix: nat|
            is_least_suffix(base@, names_of(*taken), suffix) && name@ == suffixed(base@, suffix),
{
    if usable(base, taken) {
        return owned(base);
    }
    let count = count_names(taken);
    let ghost held = names_of(*taken);
    let mut suffix: u128 = 1;
    let mut candidate = with_suffix(base, suffix);
    while !usable(candidate.as_str(), taken)
        invariant
            1 <= suffix <= count as u128 + 1,
            count <= usize::MAX,
            held == names_of(*taken),
            counts(held, count as nat),
            is_suffixable(base@),
            candidate@ == suffixed(base@, suffix as nat),
            forall|smaller: nat|
                1 <= smaller < suffix ==> !is_usable(#[trigger] suffixed(base@, smaller), held),
        decreases count as u128 + 1 - suffix,
    {
        proof {
            if suffix == count as u128 + 1 {
                assert forall|smaller: nat| 1 <= smaller <= suffix implies held.contains(
                    #[trigger] suffixed(base@, smaller),
                ) by {
                    lemma_suffixed(base@, smaller, held);
                }
                lemma_taken_suffixes(base@, held, suffix as nat);
            }
        }
        suffix += 1;
        candidate = with_suffix(base, suffix);
    }
    proof {
        assert(is_least_suffix(base@, held, suffix as nat));
        let chosen = choose|suffix: nat| is_least_suffix(base@, held, suffix);
        assert(chosen == suffix as nat) by {
            if chosen < suffix as nat {
                assert(!is_usable(suffixed(base@, chosen), held));
            } else if suffix as nat <= chosen {
                if (suffix as nat) < chosen {
                    assert(!is_usable(suffixed(base@, suffix as nat), held));
                }
            }
        }
    }
    candidate
}

/// `base`, or `base` with the smallest numeric suffix, that `taken` lacks, when there is such a
/// name at all: no suffix helps a base that starts with two underscores.
pub fn find_fresh_name(base: &str, taken: &FxHashSet<String>) -> (name: Option<String>)
    ensures
        match name {
            Some(name) => is_nameable(base@, names_of(*taken)) && name@ == fresh(
                base@,
                names_of(*taken),
            ) && is_usable(name@, names_of(*taken)),
            None => !is_nameable(base@, names_of(*taken)),
        },
{
    let first = with_suffix(base, 1);
    proof {
        lemma_decimal_len(1);
        assert(first@.last() == decimal(1).last());
        lemma_words_end_in_letters(first@);
    }
    if usable(base, taken) || (is_identifier(first.as_str()) && !starts_with(
        first.as_str(),
        "__",
    )) {
        Some(fresh_name(base, taken))
    } else {
        None
    }
}

/// `name` in snake case, where the character before it is lowercase or a digit or not.
pub open spec fn snake_after(name: Seq<char>, previous_lower: bool) -> Seq<char>
    decreases name.len(),
{
    if name.len() == 0 {
        Seq::empty()
    } else if is_upper(name[0]) {
        (if previous_lower {
            "_"@
        } else {
            Seq::empty()
        }) + lowered(name[0]) + snake_after(name.skip(1), false)
    } else {
        seq![name[0]] + snake_after(name.skip(1), is_lower(name[0]) || '0' <= name[0] <= '9')
    }
}

/// `name` in snake case.
pub open spec fn snake_case(name: Seq<char>) -> Seq<char> {
    snake_after(name, false)
}

/// `name` in snake case.
pub fn to_snake_case(name: &str) -> (snake: String)
    ensures
        snake@ == snake_case(name@),
{
    let length = name.unicode_len();
    let mut snake = owned("");
    let mut previous_lower = false;
    let mut i: usize = 0;
    proof {
        reveal_strlit("");
        assert(name@.skip(0) =~= name@);
        assert(snake@ + snake_after(name@, false) =~= snake_case(name@));
    }
    while i < length
        invariant
            i <= length,
            length == name@.len(),
            snake@ + snake_after(name@.skip(i as int), previous_lower) == snake_case(name@),
        decreases length - i,
    {
        let ghost before = snake@;
        let ghost rest = name@.skip(i as int);
        let ghost lower = previous_lower;
        assert(rest[0] == name@[i as int]);
        assert(rest.skip(1) =~= name@.skip(i + 1));
        let character = name.get_char(i);
        if is_uppercase(character) {
            if previous_lower {
                snake.append("_");
            }
            snake.append(to_lowercase(character).as_str());
            previous_lower = false;
        } else {
            snake.append(name.substring_char(i, i + 1));
            assert(name@.subrange(i as int, i + 1) =~= seq![rest[0]]);
            previous_lower = is_lowercase(character) || ('0' <= character && character <= '9');
        }
        assert(snake@ + snake_after(rest.skip(1), previous_lower) =~= before + snake_after(
            rest,
            lower,
        ));
        i += 1;
    }
    assert(name@.skip(i as int).len() == 0);
    assert(snake@ =~= snake_case(name@));
    snake
}

/// Whether `name` is made of ascii characters.
pub open spec fn is_ascii(name: Seq<char>) -> bool {
    forall|i: int| 0 <= i < name.len() ==> is_ascii_char(#[trigger] name[i])
}

/// Whether none of `A` to `Z` is in `name`.
pub open spec fn has_no_capital(name: Seq<char>) -> bool {
    forall|i: int| 0 <= i < name.len() ==> !is_capital(#[trigger] name[i])
}

/// Whether a word ends with `c` where a capital follows it.
pub open spec fn ends_word(c: char) -> bool {
    'a' <= c <= 'z' || '0' <= c <= '9'
}

/// How many capitals of `name` follow a lowercase letter or a digit.
pub open spec fn seams(name: Seq<char>) -> nat
    decreases name.len(),
{
    if name.len() < 2 {
        0
    } else {
        seams(name.drop_last()) + if is_capital(name.last()) && ends_word(name[name.len() - 2]) {
            1nat
        } else {
            0nat
        }
    }
}

/// `name` without its underscores.
pub open spec fn without_underscores(name: Seq<char>) -> Seq<char>
    decreases name.len(),
{
    if name.len() == 0 {
        Seq::empty()
    } else if name[0] == '_' {
        without_underscores(name.skip(1))
    } else {
        seq![name[0]] + without_underscores(name.skip(1))
    }
}

/// `name` in lowercase.
pub open spec fn in_small(name: Seq<char>) -> Seq<char> {
    name.map_values(|c: char| small(c))
}

proof fn lemma_seams_from_front(name: Seq<char>)
    requires
        name.len() >= 2,
    ensures
        seams(name) == seams(name.skip(1)) + if is_capital(name[1]) && ends_word(name[0]) {
            1nat
        } else {
            0nat
        },
    decreases name.len(),
{
    let rest = name.skip(1);
    if name.len() > 2 {
        lemma_seams_from_front(name.drop_last());
        assert(name.drop_last().skip(1) =~= rest.drop_last());
        assert(rest.last() == name.last());
        assert(rest[rest.len() - 2] == name[name.len() - 2]);
    } else {
        assert(seams(name.drop_last()) == 0);
        assert(seams(rest) == 0);
    }
}

proof fn lemma_snake_after(name: Seq<char>, previous_lower: bool)
    requires
        is_ascii(name),
    ensures
        is_ascii(snake_after(name, previous_lower)),
        has_no_capital(snake_after(name, previous_lower)),
        snake_after(name, previous_lower).len() == name.len() + seams(name) + if name.len() > 0
            && is_capital(name[0]) && previous_lower {
            1nat
        } else {
            0nat
        },
        without_underscores(snake_after(name, previous_lower)) == without_underscores(
            in_small(name),
        ),
        has_no_capital(name) ==> snake_after(name, previous_lower) == name,
    decreases name.len(),
{
    reveal_strlit("_");
    if name.len() > 0 {
        let rest = name.skip(1);
        let lower = !is_capital(name[0]) && ends_word(name[0]);
        assert(is_ascii_char(name[0]));
        assert forall|i: int| 0 <= i < rest.len() implies is_ascii_char(#[trigger] rest[i]) by {
            assert(rest[i] == name[i + 1]);
        }
        lemma_snake_after(rest, lower);
        let after = snake_after(rest, lower);
        let snake = snake_after(name, previous_lower);
        let separated = is_capital(name[0]) && previous_lower;
        let letter = small(name[0]);
        assert(snake =~= if separated {
            seq!['_', letter] + after
        } else {
            seq![letter] + after
        });
        if name.len() > 1 {
            lemma_seams_from_front(name);
            assert(rest[0] == name[1]);
        } else {
            assert(seams(rest) == 0 && seams(name) == 0);
        }
        // without underscores
        let small_name = in_small(name);
        assert(small_name[0] == letter);
        assert(small_name.skip(1) =~= in_small(rest));
        let lettered = seq![letter] + after;
        assert(lettered.skip(1) =~= after);
        assert(without_underscores(lettered) =~= without_underscores(small_name));
        if separated {
            assert(snake.skip(1) =~= lettered);
        }
        if has_no_capital(name) {
            assert(!is_capital(name[0]));
            assert forall|i: int| 0 <= i < rest.len() implies !is_capital(#[trigger] rest[i]) by {
                assert(rest[i] == name[i + 1]);
            }
            assert(snake =~= name);
        }
    } else {
        assert(in_small(name) =~= name);
    }
}

/// Snake case leaves no capital of an ascii name, and adds an underscore before each that follows
/// a lowercase letter or a digit, and nothing else. What is in snake case stays as it is.
pub proof fn law_snake_case(name: Seq<char>)
    requires
        is_ascii(name),
    ensures
        has_no_capital(snake_case(name)),
        snake_case(name).len() == name.len() + seams(name),
        without_underscores(snake_case(name)) == without_underscores(in_small(name)),
        snake_case(snake_case(name)) == snake_case(name),
        has_no_capital(name) ==> snake_case(name) == name,
{
    lemma_snake_after(name, false);
    lemma_snake_after(snake_case(name), false);
}

/// The name a call calls.
pub open spec fn callee(func: Node) -> Option<Seq<char>> {
    match func.kind {
        NodeKind::ExprName { id, .. } => Some(id@),
        NodeKind::ExprAttribute { attr, .. } => Some(attr@),
        _ => None,
    }
}

/// A name without the `get_` it starts with, unless nothing else is left.
pub open spec fn without_get(name: Seq<char>) -> Seq<char> {
    if has_prefix(name, "get_"@) && name.len() > 4 {
        name.skip(4)
    } else {
        name
    }
}

/// The name `expr` is written with, if it is written with one.
pub open spec fn written_name(expr: Node) -> Option<Seq<char>> {
    match expr.kind {
        NodeKind::ExprCall { .. } => match child_of(expr, Field::Func) {
            Some(func) => match callee(func) {
                Some(name) => Some(without_get(name)),
                None => None,
            },
            None => None,
        },
        NodeKind::ExprAttribute { attr, .. } => Some(attr@),
        NodeKind::ExprSubscript { .. } => match child_of(expr, Field::Value) {
            Some(value) => match callee(value) {
                Some(name) => Some(name + "_item"@),
                None => None,
            },
            None => None,
        },
        _ => None,
    }
}

/// A name for an expression written with none.
pub open spec fn kind_name(expr: Node) -> Seq<char> {
    match expr.kind {
        NodeKind::ExprStringLiteral { .. } | NodeKind::ExprFString { .. } => "text"@,
        NodeKind::ExprNumberLiteral => "number"@,
        NodeKind::ExprBooleanLiteral | NodeKind::ExprCompare | NodeKind::ExprBoolOp =>
            "condition"@,
        NodeKind::ExprList { .. } | NodeKind::ExprListComp => "items"@,
        NodeKind::ExprSet | NodeKind::ExprSetComp => "elements"@,
        NodeKind::ExprDict | NodeKind::ExprDictComp => "mapping"@,
        NodeKind::ExprTuple { .. } => "values"@,
        NodeKind::ExprLambda => "function"@,
        NodeKind::ExprGenerator { .. } => "generator"@,
        _ => "value"@,
    }
}

/// A name that says what `expr` evaluates to, in snake case.
pub open spec fn suggested(expr: Node, minor: u8) -> Seq<char>
    decreases height(expr),
{
    let awaited = child_of(expr, Field::Value);
    proof {
        lemma_height_child_of(expr, Field::Value);
    }
    if expr.kind is ExprAwait && awaited is Some {
        suggested(awaited->0, minor)
    } else {
        match written_name(expr) {
            Some(name) => if is_python_identifier(snake_case(name)) && !is_builtin(
                snake_case(name),
                minor,
                false,
            ) {
                snake_case(name)
            } else {
                kind_name(expr)
            },
            None => kind_name(expr),
        }
    }
}

fn callee_name(func: &Node) -> (name: Option<&str>)
    ensures
        match name {
            Some(name) => callee(*func) == Some(name@),
            None => callee(*func) is None,
        },
{
    match &func.kind {
        NodeKind::ExprName { id, .. } => Some(id.as_str()),
        NodeKind::ExprAttribute { attr, .. } => Some(attr.as_str()),
        _ => None,
    }
}

fn name_written(expr: &Node) -> (name: Option<String>)
    ensures
        crate::edit::text_in(name) == written_name(*expr),
{
    match &expr.kind {
        NodeKind::ExprCall { .. } => match expr.child(Field::Func) {
            Some(func) => match callee_name(func) {
                Some(name) => {
                    proof {
                        reveal_strlit("get_");
                    }
                    if starts_with(name, "get_") && name.unicode_len() > 4 {
                        Some(owned(without_first(name, 4)))
                    } else {
                        Some(owned(name))
                    }
                },
                None => None,
            },
            None => None,
        },
        NodeKind::ExprAttribute { attr, .. } => Some(owned(attr.as_str())),
        NodeKind::ExprSubscript { .. } => match expr.child(Field::Value) {
            Some(value) => match callee_name(value) {
                Some(name) => Some(join2(name, "_item")),
                None => None,
            },
            None => None,
        },
        _ => None,
    }
}

fn name_of_kind(expr: &Node) -> (name: &'static str)
    ensures
        name@ == kind_name(*expr),
{
    match &expr.kind {
        NodeKind::ExprStringLiteral { .. } | NodeKind::ExprFString { .. } => "text",
        NodeKind::ExprNumberLiteral => "number",
        NodeKind::ExprBooleanLiteral | NodeKind::ExprCompare | NodeKind::ExprBoolOp => "condition",
        NodeKind::ExprList { .. } | NodeKind::ExprListComp => "items",
        NodeKind::ExprSet | NodeKind::ExprSetComp => "elements",
        NodeKind::ExprDict | NodeKind::ExprDictComp => "mapping",
        NodeKind::ExprTuple { .. } => "values",
        NodeKind::ExprLambda => "function",
        NodeKind::ExprGenerator { .. } => "generator",
        _ => "value",
    }
}

/// A name that says what `expr` evaluates to, in snake case.
pub fn suggest_for_expression(expr: &Node, python_version_minor: u8) -> (name: String)
    ensures
        name@ == suggested(*expr, python_version_minor),
    decreases height(*expr),
{
    proof {
        lemma_height_child_of(*expr, Field::Value);
    }
    if matches!(expr.kind, NodeKind::ExprAwait) {
        if let Some(awaited) = expr.child(Field::Value) {
            return suggest_for_expression(awaited, python_version_minor);
        }
    }
    if let Some(written) = name_written(expr) {
        let name = to_snake_case(written.as_str());
        if is_identifier(name.as_str()) && !is_python_builtin(
            name.as_str(),
            python_version_minor,
            false,
        ) {
            return name;
        }
    }
    owned(name_of_kind(expr))
}

/// A name for an expression written with none is an identifier.
#[verifier::rlimit(60)]
proof fn lemma_kind_name_is_identifier(expr: Node)
    ensures
        is_python_identifier(kind_name(expr)),
        is_kind_name(kind_name(expr)),
        has_no_capital(kind_name(expr)),
{
    reveal_strlit("False");
    reveal_strlit("None");
    reveal_strlit("True");
    reveal_strlit("and");
    reveal_strlit("as");
    reveal_strlit("assert");
    reveal_strlit("async");
    reveal_strlit("await");
    reveal_strlit("break");
    reveal_strlit("class");
    reveal_strlit("continue");
    reveal_strlit("def");
    reveal_strlit("del");
    reveal_strlit("elif");
    reveal_strlit("else");
    reveal_strlit("except");
    reveal_strlit("finally");
    reveal_strlit("for");
    reveal_strlit("from");
    reveal_strlit("global");
    reveal_strlit("if");
    reveal_strlit("import");
    reveal_strlit("in");
    reveal_strlit("is");
    reveal_strlit("lambda");
    reveal_strlit("nonlocal");
    reveal_strlit("not");
    reveal_strlit("or");
    reveal_strlit("pass");
    reveal_strlit("raise");
    reveal_strlit("return");
    reveal_strlit("try");
    reveal_strlit("while");
    reveal_strlit("with");
    reveal_strlit("yield");
    let name = kind_name(expr);
    reveal_strlit("text");
    reveal_strlit("number");
    reveal_strlit("condition");
    reveal_strlit("items");
    reveal_strlit("elements");
    reveal_strlit("mapping");
    reveal_strlit("values");
    reveal_strlit("function");
    reveal_strlit("generator");
    reveal_strlit("value");
    assert(name.len() > 0 && 'c' <= name[0] <= 'v');
    assert forall|i: int| 1 <= i < name.len() implies continues_identifier(
        #[trigger] name[i],
    ) by {
        assert('a' <= name[i] <= 'z');
    }
    assert(name.len() >= 4);
    assert forall|i: int| 0 <= i < name.len() implies !is_capital(#[trigger] name[i]) by {
        assert('a' <= name[i] <= 'z');
    }
}

/// What is suggested for an expression is always an identifier, whatever it is written with, and
/// no builtin's name.
pub proof fn law_suggestion_is_identifier(expr: Node, minor: u8)
    ensures
        is_python_identifier(suggested(expr, minor)),
        !is_builtin(suggested(expr, minor), minor, false),
    decreases height(expr),
{
    lemma_kind_name_is_identifier(expr);
    lemma_height_child_of(expr, Field::Value);
    if expr.kind is ExprAwait && child_of(expr, Field::Value) is Some {
        law_suggestion_is_identifier(child_of(expr, Field::Value)->0, minor);
    }
}

/// What is awaited is suggested the name that awaiting it is.
pub proof fn law_awaiting_keeps_the_name(expr: Node, minor: u8)
    requires
        expr.kind is ExprAwait,
        child_of(expr, Field::Value) is Some,
    ensures
        suggested(expr, minor) == suggested(child_of(expr, Field::Value)->0, minor),
{
    lemma_height_child_of(expr, Field::Value);
}

/// Whether what the suggestion for `expr` is made of is ascii.
pub open spec fn is_written_in_ascii(expr: Node) -> bool
    decreases height(expr),
{
    let awaited = child_of(expr, Field::Value);
    proof {
        lemma_height_child_of(expr, Field::Value);
    }
    if expr.kind is ExprAwait && awaited is Some {
        is_written_in_ascii(awaited->0)
    } else {
        match written_name(expr) {
            Some(name) => is_ascii(name),
            None => true,
        }
    }
}

/// What is suggested for an expression written in ascii has no capital.
pub proof fn law_suggestion_has_no_capital(expr: Node, minor: u8)
    requires
        is_written_in_ascii(expr),
    ensures
        has_no_capital(suggested(expr, minor)),
    decreases height(expr),
{
    lemma_kind_name_is_identifier(expr);
    lemma_height_child_of(expr, Field::Value);
    if expr.kind is ExprAwait && child_of(expr, Field::Value) is Some {
        law_suggestion_has_no_capital(child_of(expr, Field::Value)->0, minor);
    } else if let Some(name) = written_name(expr) {
        law_snake_case(name);
    }
}

} // verus!

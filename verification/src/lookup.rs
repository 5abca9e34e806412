//! Looking things up in lists of plain values.

use crate::strings::same_text;
use vstd::prelude::*;

verus! {

/// What the first of `pairs` under `key` says.
pub open spec fn found<T>(pairs: Seq<(u32, T)>, key: u32) -> Option<T>
    decreases pairs.len(),
{
    if pairs.len() == 0 {
        None
    } else if pairs[0].0 == key {
        Some(pairs[0].1)
    } else {
        found(pairs.skip(1), key)
    }
}

/// What is found is one of the pairs.
pub proof fn lemma_found_in<T>(pairs: Seq<(u32, T)>, key: u32) -> (i: int)
    requires
        found(pairs, key) is Some,
    ensures
        0 <= i < pairs.len(),
        pairs[i].0 == key,
        found(pairs, key) == Some(pairs[i].1),
    decreases pairs.len(),
{
    if pairs[0].0 == key {
        0
    } else {
        let i = lemma_found_in(pairs.skip(1), key);
        assert(pairs.skip(1)[i] == pairs[i + 1]);
        i + 1
    }
}

/// Whether `pairs` say `value` of `key`: the first of them that is under it does.
pub open spec fn is_said<T>(pairs: Seq<(u32, T)>, key: u32, value: T) -> bool {
    exists|i: int|
        0 <= i < pairs.len() && (#[trigger] pairs[i]) == (key, value) && forall|j: int|
            0 <= j < i ==> (#[trigger] pairs[j]).0 != key
}

/// What is said of a key is what is found under it.
pub proof fn lemma_said<T>(pairs: Seq<(u32, T)>, key: u32, value: T)
    requires
        is_said(pairs, key, value),
    ensures
        found(pairs, key) == Some(value),
    decreases pairs.len(),
{
    let i = choose|i: int|
        0 <= i < pairs.len() && (#[trigger] pairs[i]) == (key, value) && forall|j: int|
            0 <= j < i ==> (#[trigger] pairs[j]).0 != key;
    if i > 0 {
        let rest = pairs.skip(1);
        assert(pairs[0].0 != key);
        assert(rest[i - 1] == pairs[i]);
        assert forall|j: int| 0 <= j < i - 1 implies (#[trigger] rest[j]).0 != key by {
            assert(rest[j] == pairs[j + 1]);
        }
        lemma_said(rest, key, value);
    }
}

/// The value a reference leads to, when there is one.
pub open spec fn value_in<T>(value: Option<&T>) -> Option<T> {
    match value {
        Some(value) => Some(*value),
        None => None,
    }
}

/// What the first of `pairs` under `key` says.
pub fn find<T>(pairs: &Vec<(u32, T)>, key: u32) -> (value: Option<&T>)
    ensures
        value_in(value) == found(pairs@, key),
{
    let mut i: usize = 0;
    assert(pairs@.skip(0) =~= pairs@);
    while i < pairs.len()
        invariant
            i <= pairs.len(),
            found(pairs@, key) == found(pairs@.skip(i as int), key),
        decreases pairs.len() - i,
    {
        assert(pairs@.skip(i as int)[0] == pairs@[i as int]);
        assert(pairs@.skip(i as int).skip(1) =~= pairs@.skip(i + 1));
        if pairs[i].0 == key {
            return Some(&pairs[i].1);
        }
        i += 1;
    }
    None
}

/// Whether `ids` holds `id`.
pub fn holds(ids: &Vec<u32>, id: u32) -> (holds: bool)
    ensures
        holds == ids@.contains(id),
{
    let mut i: usize = 0;
    while i < ids.len()
        invariant
            i <= ids.len(),
            forall|j: int| 0 <= j < i ==> ids@[j] != id,
        decreases ids.len() - i,
    {
        if ids[i] == id {
            assert(ids@.contains(ids@[i as int]));
            return true;
        }
        i += 1;
    }
    false
}

/// The texts of `names`.
pub open spec fn texts(names: Seq<String>) -> Seq<Seq<char>> {
    names.map_values(|name: String| name@)
}

/// Whether `names` holds the text `name`.
pub fn holds_text(names: &Vec<String>, name: &str) -> (holds: bool)
    ensures
        holds == texts(names@).contains(name@),
{
    let mut i: usize = 0;
    while i < names.len()
        invariant
            i <= names.len(),
            forall|j: int| 0 <= j < i ==> names@[j]@ != name@,
        decreases names.len() - i,
    {
        if same_text(names[i].as_str(), name) {
            assert(texts(names@)[i as int] == name@);
            return true;
        }
        i += 1;
    }
    assert forall|j: int| 0 <= j < texts(names@).len() implies texts(names@)[j] != name@ by {
        assert(texts(names@)[j] == names@[j]@);
    }
    false
}

} // verus!

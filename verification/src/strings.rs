//! Comparing and assembling strings.

use vstd::prelude::*;
use vstd::string::{StrSliceExecFns, StringExecFns};

verus! {

/// Whether two strings hold the same characters.
pub fn same_text(left: &str, right: &str) -> (same: bool)
    ensures
        same == (left@ == right@),
{
    let a = left.as_bytes();
    let b = right.as_bytes();
    if a.len() != b.len() {
        return false;
    }
    let mut i: usize = 0;
    while i < a.len()
        invariant
            i <= a.len(),
            a@.len() == b@.len(),
            a@ == vstd::utf8::encode_utf8(left@),
            b@ == vstd::utf8::encode_utf8(right@),
            forall|j: int| 0 <= j < i ==> a@[j] == b@[j],
        decreases a.len() - i,
    {
        if a[i] != b[i] {
            return false;
        }
        i += 1;
    }
    proof {
        assert(a@ =~= b@);
        vstd::utf8::encode_utf8_decode_utf8(left@);
        vstd::utf8::encode_utf8_decode_utf8(right@);
    }
    true
}

/// A copy of `text`.
pub fn owned(text: &str) -> (copy: String)
    ensures
        copy@ == text@,
{
    text.to_owned()
}

/// The two texts, one after the other.
pub fn join2(a: &str, b: &str) -> (joined: String)
    ensures
        joined@ == a@ + b@,
{
    let mut joined = owned(a);
    joined.append(b);
    joined
}

/// The three texts, one after the other.
pub fn join3(a: &str, b: &str, c: &str) -> (joined: String)
    ensures
        joined@ == a@ + b@ + c@,
{
    let mut joined = join2(a, b);
    joined.append(c);
    joined
}

/// The four texts, one after the other.
pub fn join4(a: &str, b: &str, c: &str, d: &str) -> (joined: String)
    ensures
        joined@ == a@ + b@ + c@ + d@,
{
    let mut joined = join3(a, b, c);
    joined.append(d);
    joined
}

/// The five texts, one after the other.
pub fn join5(a: &str, b: &str, c: &str, d: &str, e: &str) -> (joined: String)
    ensures
        joined@ == a@ + b@ + c@ + d@ + e@,
{
    let mut joined = join4(a, b, c, d);
    joined.append(e);
    joined
}

/// Whether `text` starts with `prefix`.
pub open spec fn has_prefix(text: Seq<char>, prefix: Seq<char>) -> bool {
    prefix.len() <= text.len() && text.take(prefix.len() as int) == prefix
}

/// Whether `text` starts with `prefix`.
pub fn starts_with(text: &str, prefix: &str) -> (starts: bool)
    ensures
        starts == has_prefix(text@, prefix@),
{
    let length = prefix.unicode_len();
    if length > text.unicode_len() {
        return false;
    }
    let start = text.substring_char(0, length);
    assert(start@ =~= text@.take(length as int));
    same_text(start, prefix)
}

/// `text` without its first `count` characters.
pub fn without_first(text: &str, count: usize) -> (rest: &str)
    requires
        count <= text@.len(),
    ensures
        rest@ == text@.skip(count as int),
{
    let rest = text.substring_char(count, text.unicode_len());
    assert(rest@ =~= text@.skip(count as int));
    rest
}

/// The digit `digit`.
pub open spec fn digit_char(digit: nat) -> char {
    if digit == 0 {
        '0'
    } else if digit == 1 {
        '1'
    } else if digit == 2 {
        '2'
    } else if digit == 3 {
        '3'
    } else if digit == 4 {
        '4'
    } else if digit == 5 {
        '5'
    } else if digit == 6 {
        '6'
    } else if digit == 7 {
        '7'
    } else if digit == 8 {
        '8'
    } else {
        '9'
    }
}

/// `number` in decimal.
pub open spec fn decimal(number: nat) -> Seq<char>
    decreases number,
{
    if number < 10 {
        seq![digit_char(number)]
    } else {
        decimal(number / 10).push(digit_char(number % 10))
    }
}

fn digit_text(digit: u128) -> (text: &'static str)
    requires
        digit < 10,
    ensures
        text@ == seq![digit_char(digit as nat)],
{
    proof {
        reveal_strlit("0");
        reveal_strlit("1");
        reveal_strlit("2");
        reveal_strlit("3");
        reveal_strlit("4");
        reveal_strlit("5");
        reveal_strlit("6");
        reveal_strlit("7");
        reveal_strlit("8");
        reveal_strlit("9");
    }
    let text = match digit {
        0 => "0",
        1 => "1",
        2 => "2",
        3 => "3",
        4 => "4",
        5 => "5",
        6 => "6",
        7 => "7",
        8 => "8",
        _ => "9",
    };
    assert(text@ =~= seq![digit_char(digit as nat)]);
    text
}

/// `number` in decimal.
pub fn decimal_text(number: u128) -> (text: String)
    ensures
        text@ == decimal(number as nat),
    decreases number,
{
    if number < 10 {
        owned(digit_text(number))
    } else {
        let text = join2(decimal_text(number / 10).as_str(), digit_text(number % 10));
        assert(text@ =~= decimal(number as nat));
        text
    }
}

/// Different numbers have different decimals.
pub proof fn lemma_decimal_injective(a: nat, b: nat)
    requires
        decimal(a) == decimal(b),
    ensures
        a == b,
    decreases a,
{
    assert(decimal(a).last() == digit_char(a % 10)) by {
        if a < 10 {
            assert(a % 10 == a);
        }
    }
    assert(decimal(b).last() == digit_char(b % 10)) by {
        if b < 10 {
            assert(b % 10 == b);
        }
    }
    lemma_decimal_len(a);
    lemma_decimal_len(b);
    if a >= 10 && b >= 10 {
        assert(decimal(a).drop_last() =~= decimal(a / 10));
        assert(decimal(b).drop_last() =~= decimal(b / 10));
        lemma_decimal_injective(a / 10, b / 10);
    }
}

/// A decimal is not empty, and has one digit only below ten.
pub proof fn lemma_decimal_len(number: nat)
    ensures
        decimal(number).len() >= 1,
        number >= 10 ==> decimal(number).len() >= 2,
        forall|i: int|
            0 <= i < decimal(number).len() ==> '0' <= #[trigger] decimal(number)[i] <= '9',
    decreases number,
{
    if number >= 10 {
        lemma_decimal_len(number / 10);
    }
}

/// `names` with `separator` between each two.
pub open spec fn joined(names: Seq<Seq<char>>, separator: Seq<char>) -> Seq<char>
    decreases names.len(),
{
    if names.len() == 0 {
        Seq::empty()
    } else if names.len() == 1 {
        names[0]
    } else {
        joined(names.drop_last(), separator) + separator + names.last()
    }
}

/// `names` with `separator` between each two.
pub fn join_all(names: &Vec<String>, separator: &str) -> (text: String)
    ensures
        text@ == joined(crate::lookup::texts(names@), separator@),
{
    let ghost all = crate::lookup::texts(names@);
    let mut text = String::new();
    let mut i: usize = 0;
    assert(text@ =~= joined(all.take(0), separator@));
    while i < names.len()
        invariant
            i <= names.len(),
            all == crate::lookup::texts(names@),
            text@ == joined(all.take(i as int), separator@),
        decreases names.len() - i,
    {
        assert(all.take(i + 1).drop_last() =~= all.take(i as int));
        assert(all.take(i + 1).last() == names@[i as int]@);
        if i > 0 {
            text.append(separator);
        }
        text.append(names[i].as_str());
        assert(text@ =~= joined(all.take(i + 1), separator@));
        i += 1;
    }
    assert(all.take(i as int) =~= all);
    text
}

/// What `text` holds before its first dot.
pub open spec fn before_dot(text: Seq<char>) -> Seq<char>
    decreases text.len(),
{
    if text.len() == 0 || text[0] == '.' {
        Seq::empty()
    } else {
        seq![text[0]] + before_dot(text.skip(1))
    }
}

/// What `text` holds before its first dot.
pub fn first_component(text: &str) -> (first: &str)
    ensures
        first@ == before_dot(text@),
{
    let length = text.unicode_len();
    let mut i: usize = 0;
    assert(text@.take(0) + before_dot(text@.skip(0)) =~= before_dot(text@)) by {
        assert(text@.skip(0) =~= text@);
    }
    while i < length && text.get_char(i) != '.'
        invariant
            i <= length,
            length == text@.len(),
            text@.take(i as int) + before_dot(text@.skip(i as int)) == before_dot(text@),
        decreases length - i,
    {
        assert(text@.skip(i as int)[0] == text@[i as int]);
        assert(text@.skip(i as int).skip(1) =~= text@.skip(i + 1));
        assert(text@.take(i + 1) + before_dot(text@.skip(i + 1)) =~= text@.take(i as int)
            + before_dot(text@.skip(i as int)));
        i += 1;
    }
    assert(i < length ==> text@.skip(i as int)[0] == text@[i as int]);
    let first = text.substring_char(0, i);
    assert(first@ =~= before_dot(text@));
    first
}

/// `text` repeated `count` times.
pub open spec fn repeated(text: Seq<char>, count: nat) -> Seq<char>
    decreases count,
{
    if count == 0 {
        Seq::empty()
    } else {
        repeated(text, (count - 1) as nat) + text
    }
}

/// Whether unicode counts `c` as whitespace, by `char::is_whitespace`.
pub uninterp spec fn is_white(c: char) -> bool;

/// `text` without the whitespace it ends with.
pub open spec fn without_trailing(text: Seq<char>) -> Seq<char>
    decreases text.len(),
{
    if text.len() > 0 && is_white(text.last()) {
        without_trailing(text.drop_last())
    } else {
        text
    }
}

/// `text` without the whitespace it starts with.
pub open spec fn without_leading(text: Seq<char>) -> Seq<char>
    decreases text.len(),
{
    if text.len() > 0 && is_white(text[0]) {
        without_leading(text.skip(1))
    } else {
        text
    }
}

/// `char::is_whitespace`: whether `c` has unicode's white space property.
#[verifier::external_body]
fn is_whitespace(c: char) -> (white: bool)
    ensures
        white == is_white(c),
{
    c.is_whitespace()
}

/// `text` without the whitespace it ends with.
pub fn trim_trailing(text: &str) -> (kept: &str)
    ensures
        kept@ == without_trailing(text@),
        kept@.len() <= text@.len(),
        kept@ == text@.take(kept@.len() as int),
{
    let mut end = text.unicode_len();
    assert(text@.take(end as int) =~= text@);
    while end > 0 && is_whitespace(text.get_char(end - 1))
        invariant
            end <= text@.len(),
            without_trailing(text@) == without_trailing(text@.take(end as int)),
        decreases end,
    {
        assert(text@.take(end as int).drop_last() =~= text@.take(end - 1));
        assert(text@.take(end as int).last() == text@[end - 1]);
        end -= 1;
    }
    assert(end > 0 ==> text@.take(end as int).last() == text@[end - 1]);
    let kept = text.substring_char(0, end);
    assert(kept@ =~= text@.take(end as int));
    kept
}

/// `text` without the whitespace it starts with.
pub fn trim_leading(text: &str) -> (kept: &str)
    ensures
        kept@ == without_leading(text@),
{
    let length = text.unicode_len();
    let mut start: usize = 0;
    assert(text@.skip(0) =~= text@);
    while start < length && is_whitespace(text.get_char(start))
        invariant
            start <= length,
            length == text@.len(),
            without_leading(text@) == without_leading(text@.skip(start as int)),
        decreases length - start,
    {
        assert(text@.skip(start as int)[0] == text@[start as int]);
        assert(text@.skip(start as int).skip(1) =~= text@.skip(start + 1));
        start += 1;
    }
    assert(start < length ==> text@.skip(start as int)[0] == text@[start as int]);
    let kept = text.substring_char(start, length);
    assert(kept@ =~= text@.skip(start as int));
    kept
}

/// Whether `a` comes no later than `b` in the order of their characters.
pub open spec fn at_most(a: Seq<char>, b: Seq<char>) -> bool
    decreases a.len(),
{
    if a.len() == 0 {
        true
    } else if b.len() == 0 {
        false
    } else if a[0] != b[0] {
        a[0] < b[0]
    } else {
        at_most(a.skip(1), b.skip(1))
    }
}

/// Of two texts one comes no later than the other, and only equal ones do so both ways.
pub proof fn lemma_at_most_total(a: Seq<char>, b: Seq<char>)
    ensures
        at_most(a, b) || at_most(b, a),
        at_most(a, b) && at_most(b, a) <==> a == b,
    decreases a.len(),
{
    if a.len() > 0 && b.len() > 0 && a[0] == b[0] {
        lemma_at_most_total(a.skip(1), b.skip(1));
        if a.skip(1) == b.skip(1) {
            assert(a =~= b) by {
                assert forall|i: int| 0 <= i < a.len() implies a[i] == b[i] by {
                    if i > 0 {
                        assert(a.skip(1)[i - 1] == b.skip(1)[i - 1]);
                    }
                }
                assert(a.skip(1).len() == b.skip(1).len());
            }
        }
    } else if a.len() == 0 && b.len() == 0 {
        assert(a =~= b);
    }
}

pub proof fn lemma_at_most_transitive(a: Seq<char>, b: Seq<char>, c: Seq<char>)
    requires
        at_most(a, b),
        at_most(b, c),
    ensures
        at_most(a, c),
    decreases a.len(),
{
    if a.len() > 0 && b.len() > 0 && c.len() > 0 && a[0] == b[0] && b[0] == c[0] {
        lemma_at_most_transitive(a.skip(1), b.skip(1), c.skip(1));
    }
}

/// Whether `a` comes no later than `b` in the order of their characters.
pub fn comes_by(a: &str, b: &str) -> (by: bool)
    ensures
        by == at_most(a@, b@),
{
    let a_length = a.unicode_len();
    let b_length = b.unicode_len();
    let mut i: usize = 0;
    assert(a@.skip(0) =~= a@ && b@.skip(0) =~= b@);
    while i < a_length && i < b_length
        invariant
            i <= a_length,
            i <= b_length,
            a_length == a@.len(),
            b_length == b@.len(),
            at_most(a@, b@) == at_most(a@.skip(i as int), b@.skip(i as int)),
        decreases a_length - i,
    {
        assert(a@.skip(i as int)[0] == a@[i as int] && b@.skip(i as int)[0] == b@[i as int]);
        assert(a@.skip(i as int).skip(1) =~= a@.skip(i + 1));
        assert(b@.skip(i as int).skip(1) =~= b@.skip(i + 1));
        let x = a.get_char(i);
        let y = b.get_char(i);
        if x != y {
            return x < y;
        }
        i += 1;
    }
    i == a_length
}

} // verus!

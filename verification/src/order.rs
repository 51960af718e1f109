//! The total order over JSON values that the sorted grid uses: numbers, then
//! strings, then booleans, then arrays and objects, nulls always last.

use vstd::prelude::*;
use std::cmp::Ordering;
use crate::json::{JsonData, JsonValue, NumberData, json_text};
use crate::number::{number_order_key, integer_of, number_units, lemma_integer_keys_ordered, lemma_number_keys_follow_value};
use crate::text::{chars_of, at, wide};

verus! {

/// The order of two integers.
pub open spec fn int_order(x: int, y: int) -> Ordering {
    if x < y {
        Ordering::Less
    } else if x > y {
        Ordering::Greater
    } else {
        Ordering::Equal
    }
}

/// The reverse of an order (`Ordering::reverse`).
pub open spec fn reversed(o: Ordering) -> Ordering {
    match o {
        Ordering::Less => Ordering::Greater,
        Ordering::Equal => Ordering::Equal,
        Ordering::Greater => Ordering::Less,
    }
}

/// Lexicographic order of character sequences by code point; for strings this
/// is the order of their UTF-8 bytes, which `String`'s `Ord` compares.
pub open spec fn seq_order(a: Seq<char>, b: Seq<char>) -> Ordering
    decreases a.len(),
{
    if a.len() == 0 && b.len() == 0 {
        Ordering::Equal
    } else if a.len() == 0 {
        Ordering::Less
    } else if b.len() == 0 {
        Ordering::Greater
    } else if a[0] < b[0] {
        Ordering::Less
    } else if a[0] > b[0] {
        Ordering::Greater
    } else {
        seq_order(a.drop_first(), b.drop_first())
    }
}

/// The order of booleans, `false` first.
pub open spec fn bool_order(x: bool, y: bool) -> Ordering {
    if x == y {
        Ordering::Equal
    } else if !x {
        Ordering::Less
    } else {
        Ordering::Greater
    }
}

/// The rank of a value's kind: numbers, strings, booleans, the rest, nulls.
pub open spec fn rank(v: JsonData) -> int {
    match v {
        JsonData::Number(_) => 0,
        JsonData::Str(_) => 1,
        JsonData::Bool(_) => 2,
        JsonData::Null => 4,
        _ => 3,
    }
}

/// The order of two values: numbers by their `f64` approximations, strings lexicographically, booleans `false` first,
/// values of different kinds by rank, and values of the same other kind by
/// their JSON texts.
pub open spec fn value_order(a: JsonData, b: JsonData) -> Ordering {
    match (a, b) {
        (JsonData::Number(x), JsonData::Number(y)) => int_order(x.order_key(), y.order_key()),
        (JsonData::Str(x), JsonData::Str(y)) => seq_order(x, y),
        (JsonData::Bool(x), JsonData::Bool(y)) => bool_order(x, y),
        _ => if rank(a) != rank(b) {
            int_order(rank(a), rank(b))
        } else {
            seq_order(json_text(a), json_text(b))
        },
    }
}

/// Lexicographic comparison of two character vectors.
fn compare_chars(a: &Vec<char>, b: &Vec<char>) -> (r: Ordering)
    ensures
        r == seq_order(a@, b@),
{
    let mut i: usize = 0;
    assert(a@.skip(0) =~= a@);
    assert(b@.skip(0) =~= b@);
    while i < a.len() && i < b.len()
        invariant
            i <= a.len(),
            i <= b.len(),
            seq_order(a@, b@) == seq_order(a@.skip(at(i)), b@.skip(at(i))),
        decreases a.len() - i,
    {
        let x = a[i];
        let y = b[i];
        proof {
            assert(a@.skip(at(i))[0] == x);
            assert(b@.skip(at(i))[0] == y);
            assert(a@.skip(at(i)).drop_first() =~= a@.skip(at(i) + 1));
            assert(b@.skip(at(i)).drop_first() =~= b@.skip(at(i) + 1));
        }
        if x < y {
            return Ordering::Less;
        }
        if x > y {
            return Ordering::Greater;
        }
        i += 1;
    }
    if i == a.len() && i == b.len() {
        Ordering::Equal
    } else if i == a.len() {
        Ordering::Less
    } else {
        Ordering::Greater
    }
}

/// Lexicographic comparison of two strings (`String::cmp`).
pub fn compare_strings(a: &str, b: &str) -> (r: Ordering)
    ensures
        r == seq_order(a@, b@),
{
    let x = chars_of(a);
    let y = chars_of(b);
    compare_chars(&x, &y)
}

fn compare_ints(x: i128, y: i128) -> (r: Ordering)
    ensures
        r == int_order(wide(x), wide(y)),
{
    if x < y {
        Ordering::Less
    } else if x > y {
        Ordering::Greater
    } else {
        Ordering::Equal
    }
}

fn rank_of(v: &JsonValue) -> (r: i128)
    ensures
        wide(r) == rank(v@),
{
    match v {
        JsonValue::Number(_) => 0,
        JsonValue::Str(_) => 1,
        JsonValue::Bool(_) => 2,
        JsonValue::Null => 4,
        _ => 3,
    }
}

/// Compares two JSON values in the grid's sort order.
pub fn compare_values(a: &JsonValue, b: &JsonValue) -> (r: Ordering)
    ensures
        r == value_order(a@, b@),
{
    match (a, b) {
        (JsonValue::Number(x), JsonValue::Number(y)) => compare_ints(number_order_key(x), number_order_key(y)),
        (JsonValue::Str(x), JsonValue::Str(y)) => compare_strings(x.as_str(), y.as_str()),
        (JsonValue::Bool(x), JsonValue::Bool(y)) => {
            if *x == *y {
                Ordering::Equal
            } else if !*x {
                Ordering::Less
            } else {
                Ordering::Greater
            }
        },
        _ => {
            let ra = rank_of(a);
            let rb = rank_of(b);
            if ra != rb {
                compare_ints(ra, rb)
            } else {
                let ta = a.to_json_text();
                let tb = b.to_json_text();
                compare_strings(ta.as_str(), tb.as_str())
            }
        },
    }
}

pub proof fn lemma_seq_order_equal(a: Seq<char>, b: Seq<char>)
    ensures
        (seq_order(a, b) == Ordering::Equal) <==> (a == b),
        seq_order(a, b) == reversed(seq_order(b, a)),
    decreases a.len(),
{
    if a.len() > 0 && b.len() > 0 {
        lemma_seq_order_equal(a.drop_first(), b.drop_first());
        if a[0] == b[0] && a.drop_first() == b.drop_first() {
            assert(a =~= seq![a[0]] + a.drop_first());
            assert(b =~= seq![b[0]] + b.drop_first());
        }
        if a == b {
            assert(a.drop_first() == b.drop_first());
        }
    } else if a.len() == 0 && b.len() == 0 {
        assert(a =~= b);
    }
}

proof fn lemma_seq_order_transitive(a: Seq<char>, b: Seq<char>, c: Seq<char>)
    requires
        seq_order(a, b) != Ordering::Greater,
        seq_order(b, c) != Ordering::Greater,
    ensures
        seq_order(a, c) != Ordering::Greater,
    decreases a.len(),
{
    if a.len() > 0 && b.len() > 0 && c.len() > 0 {
        if a[0] == b[0] && b[0] == c[0] {
            lemma_seq_order_transitive(a.drop_first(), b.drop_first(), c.drop_first());
        }
    }
}

/// The grid's sort order is a total preorder: a value is equal to itself, comparing the other way round reverses
/// the result, and "not after" is transitive. Values of lower rank come first:
/// numbers, then strings, then booleans, then arrays and objects, and nulls
/// after everything else.
pub proof fn law_value_order_total_preorder(a: JsonData, b: JsonData, c: JsonData)
    ensures
        value_order(a, a) == Ordering::Equal,
        value_order(a, b) == reversed(value_order(b, a)),
        value_order(a, b) != Ordering::Greater && value_order(b, c) != Ordering::Greater
            ==> value_order(a, c) != Ordering::Greater,
        rank(a) < rank(b) ==> value_order(a, b) == Ordering::Less,
        b is Null && !(a is Null) ==> value_order(a, b) == Ordering::Less,
{
    lemma_value_order_antisymmetric(a, b);
    lemma_seq_order_equal(json_text(a), json_text(a));
    match a {
        JsonData::Str(x) => lemma_seq_order_equal(x, x),
        _ => {},
    }
    if value_order(a, b) != Ordering::Greater && value_order(b, c) != Ordering::Greater {
        lemma_value_order_transitive(a, b, c);
    }
}

/// Integers sort by their values: a smaller integer never comes after a
/// larger one, negative integers included. (Integers beyond 2^53 that round
/// to the same `f64` compare equal.)
pub proof fn law_integers_order_by_value(a: NumberData, b: NumberData)
    requires
        !(a is Float),
        !(b is Float),
    ensures
        integer_of(a) <= integer_of(b) ==> value_order(JsonData::Number(a), JsonData::Number(b))
            != Ordering::Greater,
        integer_of(a) < integer_of(b) ==> value_order(JsonData::Number(b), JsonData::Number(a))
            != Ordering::Less,
{
    if integer_of(a) <= integer_of(b) {
        lemma_integer_keys_ordered(a, b);
    }
}

/// Numbers sort by their values, integers and finite floats alike: a number
/// whose value is at most another's never comes after it, and numbers of
/// equal value compare equal.
pub proof fn law_numbers_order_by_value(a: NumberData, b: NumberData)
    ensures
        number_units(a) <= number_units(b) ==> value_order(JsonData::Number(a), JsonData::Number(b))
            != Ordering::Greater,
        number_units(a) == number_units(b) ==> value_order(JsonData::Number(a), JsonData::Number(b))
            == Ordering::Equal,
{
    if number_units(a) <= number_units(b) {
        lemma_number_keys_follow_value(a, b);
    }
    if number_units(b) <= number_units(a) {
        lemma_number_keys_follow_value(b, a);
    }
}

/// Strings sort by their characters: a proper prefix comes first, and
/// otherwise the string with the smaller character at the first place where
/// the two differ. `false` comes before `true`.
pub proof fn law_strings_and_booleans_order(a: Seq<char>, b: Seq<char>, i: int)
    ensures
        0 <= i < a.len() && i < b.len() && a.take(i) == b.take(i) && a[i] < b[i] ==> value_order(
            JsonData::Str(a),
            JsonData::Str(b),
        ) == Ordering::Less,
        a.len() < b.len() && (forall|j: int| 0 <= j < a.len() ==> a[j] == b[j]) ==> value_order(JsonData::Str(a), JsonData::Str(b))
            == Ordering::Less,
        value_order(JsonData::Bool(false), JsonData::Bool(true)) == Ordering::Less,
{
    if 0 <= i < a.len() && i < b.len() && a.take(i) == b.take(i) && a[i] < b[i] {
        lemma_seq_order_first_difference(a, b, i);
    }
    if a.len() < b.len() && (forall|j: int| 0 <= j < a.len() ==> a[j] == b[j]) {
        lemma_seq_order_prefix(a, b);
    }
}

proof fn lemma_seq_order_first_difference(a: Seq<char>, b: Seq<char>, i: int)
    requires
        0 <= i < a.len(),
        i < b.len(),
        a.take(i) == b.take(i),
        a[i] < b[i],
    ensures
        seq_order(a, b) == Ordering::Less,
    decreases i,
{
    if i > 0 {
        assert(a[0] == a.take(i)[0]);
        assert(b[0] == b.take(i)[0]);
        assert(a.drop_first().take(i - 1) =~= a.take(i).drop_first());
        assert(b.drop_first().take(i - 1) =~= b.take(i).drop_first());
        lemma_seq_order_first_difference(a.drop_first(), b.drop_first(), i - 1);
    }
}

proof fn lemma_seq_order_prefix(a: Seq<char>, b: Seq<char>)
    requires
        a.len() < b.len(),
        forall|j: int| 0 <= j < a.len() ==> a[j] == b[j],
    ensures
        seq_order(a, b) == Ordering::Less,
    decreases a.len(),
{
    if a.len() > 0 {
        assert(a[0] == b[0]);
        lemma_seq_order_prefix(a.drop_first(), b.drop_first());
    }
}

/// Comparing two values the other way round reverses the result.
proof fn lemma_value_order_antisymmetric(a: JsonData, b: JsonData)
    ensures
        value_order(a, b) == reversed(value_order(b, a)),
{
    lemma_seq_order_equal(json_text(a), json_text(b));
    match (a, b) {
        (JsonData::Str(x), JsonData::Str(y)) => lemma_seq_order_equal(x, y),
        _ => {},
    }
}

proof fn lemma_value_order_transitive(a: JsonData, b: JsonData, c: JsonData)
    requires
        value_order(a, b) != Ordering::Greater,
        value_order(b, c) != Ordering::Greater,
    ensures
        value_order(a, c) != Ordering::Greater,
{
    if rank(a) == rank(b) && rank(b) == rank(c) {
        match (a, b, c) {
            (JsonData::Str(x), JsonData::Str(y), JsonData::Str(z)) => lemma_seq_order_transitive(x, y, z),
            (JsonData::Number(_), JsonData::Number(_), JsonData::Number(_)) => {},
            (JsonData::Bool(_), JsonData::Bool(_), JsonData::Bool(_)) => {},
            _ => lemma_seq_order_transitive(json_text(a), json_text(b), json_text(c)),
        }
    }
}

} // verus!

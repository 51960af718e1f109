//! Stable sorting of sort values by the grid's order, ascending or
//! descending, as a permutation of their positions.

use vstd::prelude::*;
use std::cmp::Ordering;
use crate::json::{JsonData, JsonValue, items_view, lemma_items_view};
use crate::order::{value_order, reversed, compare_values, law_value_order_total_preorder};
use crate::text::at;

verus! {

broadcast use vstd::seq_lib::group_to_multiset_ensures;

/// An order, reversed when sorting in descending direction.
pub open spec fn directed(o: Ordering, descending: bool) -> Ordering {
    if descending {
        reversed(o)
    } else {
        o
    }
}

/// Position `i` comes before position `j` in the stable sort of `keys`: its
/// key is earlier in the direction of the sort, or the keys are equal and `i`
/// was first.
pub open spec fn precedes(keys: Seq<JsonData>, descending: bool, i: usize, j: usize) -> bool {
    let o = directed(value_order(keys[at(i)], keys[at(j)]), descending);
    o == Ordering::Less || (o == Ordering::Equal && i < j)
}

/// `i` is `j` or comes before it.
pub open spec fn not_after(keys: Seq<JsonData>, descending: bool, i: usize, j: usize) -> bool {
    i == j || precedes(keys, descending, i, j)
}

/// The positions in `perm` are in the order of the stable sort of `keys`.
pub open spec fn sorted_by(keys: Seq<JsonData>, descending: bool, perm: Seq<usize>) -> bool {
    forall|x: int, y: int|
        0 <= x < y < perm.len() ==> not_after(keys, descending, #[trigger] perm[x], #[trigger] perm[y])
}

/// What a sorted order means: ascending, no key comes after a greater one;
/// descending, no key comes after a smaller one; and of two equal keys the
/// one at the earlier position comes first.
pub proof fn law_sorted_order(keys: Seq<JsonData>, descending: bool, perm: Seq<usize>, x: int, y: int)
    requires
        sorted_by(keys, descending, perm),
        0 <= x < y < perm.len(),
        perm[x] != perm[y],
    ensures
        !descending ==> value_order(keys[at(perm[x])], keys[at(perm[y])]) != Ordering::Greater,
        descending ==> value_order(keys[at(perm[x])], keys[at(perm[y])]) != Ordering::Less,
        value_order(keys[at(perm[x])], keys[at(perm[y])]) == Ordering::Equal ==> perm[x] < perm[y],
{
    assert(not_after(keys, descending, perm[x], perm[y]));
}

/// All positions are in range.
pub open spec fn in_range(perm: Seq<usize>, n: nat) -> bool {
    forall|i: int| 0 <= i < perm.len() ==> #[trigger] perm[i] < n
}

proof fn lemma_precedes_order(keys: Seq<JsonData>, descending: bool, i: usize, j: usize, k: usize)
    requires
        i < keys.len(),
        j < keys.len(),
        k < keys.len(),
    ensures
        not_after(keys, descending, i, j) || not_after(keys, descending, j, i),
        not_after(keys, descending, i, j) && not_after(keys, descending, j, k) ==> not_after(
            keys,
            descending,
            i,
            k,
        ),
{
    let a = keys[at(i)];
    let b = keys[at(j)];
    let c = keys[at(k)];
    law_value_order_total_preorder(a, b, c);
    law_value_order_total_preorder(b, c, a);
    law_value_order_total_preorder(c, a, b);
    law_value_order_total_preorder(a, c, b);
    law_value_order_total_preorder(b, a, c);
    law_value_order_total_preorder(c, b, a);
}

/// Whether position `i` comes before position `j`.
fn precedes_at(vals: &Vec<JsonValue>, descending: bool, i: usize, j: usize) -> (r: bool)
    requires
        i < vals@.len(),
        j < vals@.len(),
    ensures
        r == precedes(items_view(vals@), descending, i, j),
{
    proof {
        lemma_items_view(vals@);
    }
    let o = compare_values(&vals[i], &vals[j]);
    let d = if descending {
        match o {
            Ordering::Less => Ordering::Greater,
            Ordering::Equal => Ordering::Equal,
            Ordering::Greater => Ordering::Less,
        }
    } else {
        o
    };
    match d {
        Ordering::Less => true,
        Ordering::Equal => i < j,
        Ordering::Greater => false,
    }
}

fn merge(vals: &Vec<JsonValue>, descending: bool, left: Vec<usize>, right: Vec<usize>) -> (r: Vec<usize>)
    requires
        in_range(left@, vals@.len()),
        in_range(right@, vals@.len()),
        sorted_by(items_view(vals@), descending, left@),
        sorted_by(items_view(vals@), descending, right@),
    ensures
        r@.to_multiset() == left@.to_multiset().add(right@.to_multiset()),
        in_range(r@, vals@.len()),
        sorted_by(items_view(vals@), descending, r@),
{
    let ghost keys = items_view(vals@);
    proof {
        lemma_items_view(vals@);
    }
    let mut out: Vec<usize> = Vec::new();
    let mut i: usize = 0;
    let mut j: usize = 0;
    while i < left.len() || j < right.len()
        invariant
            keys == items_view(vals@),
            keys.len() == vals@.len(),
            i <= left.len(),
            j <= right.len(),
            in_range(left@, vals@.len()),
            in_range(right@, vals@.len()),
            in_range(out@, vals@.len()),
            out@.to_multiset() == left@.take(at(i)).to_multiset().add(right@.take(at(j)).to_multiset()),
            sorted_by(keys, descending, left@),
            sorted_by(keys, descending, right@),
            sorted_by(keys, descending, out@),
            forall|x: int, y: int| 0 <= x < out@.len() && at(i) <= y < left@.len()
                ==> not_after(keys, descending, #[trigger] out@[x], #[trigger] left@[y]),
            forall|x: int, y: int| 0 <= x < out@.len() && at(j) <= y < right@.len()
                ==> not_after(keys, descending, #[trigger] out@[x], #[trigger] right@[y]),
        decreases left.len() + right.len() - i - j,
    {
        let take_left = if i < left.len() && j < right.len() {
            !precedes_at(vals, descending, right[j], left[i])
        } else {
            i < left.len()
        };
        let ghost before = out@;
        if take_left {
            let x = left[i];
            proof {
                if j < right.len() {
                    lemma_precedes_order(keys, descending, x, right@[at(j)], x);
                }
                assert forall|a: int, y: int| 0 <= a < out@.len() + 1 && at(i) + 1 <= y < left@.len()
                    implies not_after(keys, descending, #[trigger] before.push(x)[a], #[trigger] left@[y]) by {
                    if a < before.len() {
                        lemma_precedes_order(keys, descending, before[a], x, left@[y]);
                    }
                }
                assert forall|a: int, y: int| 0 <= a < out@.len() + 1 && at(j) <= y < right@.len()
                    implies not_after(keys, descending, #[trigger] before.push(x)[a], #[trigger] right@[y]) by {
                    lemma_precedes_order(keys, descending, x, right@[at(j)], right@[y]);
                    if a < before.len() {
                        lemma_precedes_order(keys, descending, before[a], x, right@[y]);
                    }
                }
            }
            out.push(x);
            proof {
                assert(left@.take(at(i) + 1) =~= left@.take(at(i)).push(x));
                assert(out@ =~= before.push(x));
            }
            i += 1;
        } else {
            let x = right[j];
            proof {
                if i < left.len() {
                    lemma_precedes_order(keys, descending, x, left@[at(i)], x);
                }
                assert forall|a: int, y: int| 0 <= a < out@.len() + 1 && at(j) + 1 <= y < right@.len()
                    implies not_after(keys, descending, #[trigger] before.push(x)[a], #[trigger] right@[y]) by {
                    if a < before.len() {
                        lemma_precedes_order(keys, descending, before[a], x, right@[y]);
                    }
                }
                assert forall|a: int, y: int| 0 <= a < out@.len() + 1 && at(i) <= y < left@.len()
                    implies not_after(keys, descending, #[trigger] before.push(x)[a], #[trigger] left@[y]) by {
                    lemma_precedes_order(keys, descending, x, left@[at(i)], left@[y]);
                    if a < before.len() {
                        lemma_precedes_order(keys, descending, before[a], x, left@[y]);
                    }
                }
            }
            out.push(x);
            proof {
                assert(right@.take(at(j) + 1) =~= right@.take(at(j)).push(x));
                assert(out@ =~= before.push(x));
            }
            j += 1;
        }
    }
    proof {
        assert(left@.take(at(i)) =~= left@);
        assert(right@.take(at(j)) =~= right@);
    }
    out
}

fn merge_sort(vals: &Vec<JsonValue>, descending: bool, v: Vec<usize>) -> (r: Vec<usize>)
    requires
        in_range(v@, vals@.len()),
    ensures
        r@.to_multiset() == v@.to_multiset(),
        in_range(r@, vals@.len()),
        sorted_by(items_view(vals@), descending, r@),
    decreases v@.len(),
{
    if v.len() <= 1 {
        return v;
    }
    let mid = v.len() / 2;
    let mut left = v;
    let ghost whole = left@;
    let right = left.split_off(mid);
    proof {
        assert(whole =~= left@ + right@);
        vstd::seq_lib::lemma_multiset_commutative(left@, right@);
    }
    let l = merge_sort(vals, descending, left);
    let r = merge_sort(vals, descending, right);
    merge(vals, descending, l, r)
}

/// The positions `0..n` in a sequence.
pub open spec fn positions(n: nat) -> Seq<usize> {
    Seq::new(n, |i: int| i as usize)
}

/// The positions of `vals` in the order of their stable sort (`slice::sort_by`
/// with the grid's order, reversed when descending): a permutation of
/// `0..vals.len()`, sorted.
pub fn stable_sort_order(vals: &Vec<JsonValue>, descending: bool) -> (r: Vec<usize>)
    ensures
        r@.to_multiset() == positions(vals@.len()).to_multiset(),
        r@.len() == vals@.len(),
        in_range(r@, vals@.len()),
        sorted_by(items_view(vals@), descending, r@),
{
    let mut v: Vec<usize> = Vec::new();
    let mut i: usize = 0;
    while i < vals.len()
        invariant
            i <= vals@.len(),
            v@ == positions(i as nat),
        decreases vals@.len() - i,
    {
        v.push(i);
        i += 1;
        assert(v@ =~= positions(i as nat));
    }
    let r = merge_sort(vals, descending, v);
    proof {
        assert(r@.len() == r@.to_multiset().len());
        assert(v@.len() == v@.to_multiset().len());
    }
    r
}

} // verus!

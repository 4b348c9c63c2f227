//! Sorting lists of names into listing order.
//!
//! A merge sort that moves the strings and never copies one.

use crate::order::{lemma_name_order_total, name_le, name_order, str_le};
use vstd::multiset::Multiset;
use vstd::prelude::*;
use vstd::relations::*;
use vstd::seq_lib::*;

verus! {

/// Every name of `low` is listed no later than every name of `high`.
spec fn all_le(low: Seq<Seq<char>>, high: Seq<Seq<char>>) -> bool {
    forall|i: int, k: int|
        0 <= i < low.len() && 0 <= k < high.len() ==> name_le(#[trigger] low[i], #[trigger] high[k])
}

/// The names of `s` run from the last listed to the first listed.
spec fn descending(s: Seq<Seq<char>>) -> bool {
    forall|i: int, j: int| 0 <= i < j < s.len() ==> name_le(#[trigger] s[j], #[trigger] s[i])
}

/// A list without names holds no name.
proof fn lemma_empty_holds_nothing(s: Seq<Seq<char>>)
    requires
        s.len() == 0,
    ensures
        s.to_multiset() == Multiset::<Seq<char>>::empty(),
{
    assert forall|a: Seq<char>| s.to_multiset().count(a) == 0 by {
        to_multiset_contains(s, a);
    }
    assert(s.to_multiset() =~= Multiset::<Seq<char>>::empty());
}

/// Moves the last name of `from` to the end of `to`.
fn move_last(from: &mut Vec<String>, to: &mut Vec<String>)
    requires
        old(from).len() > 0,
    ensures
        final(from).deep_view() == old(from).deep_view().drop_last(),
        final(to).deep_view() == old(to).deep_view().push(old(from).deep_view().last()),
{
    let ghost before = from.deep_view();
    let ghost target = to.deep_view();
    match from.pop() {
        Some(name) => {
            to.push(name);
        },
        None => {},
    }
    assert(from.deep_view() =~= before.drop_last());
    assert(to.deep_view() =~= target.push(before.last()));
}

/// Moves every name of `from` to the end of `to`, last name first.
fn drain_reversed(from: &mut Vec<String>, to: &mut Vec<String>)
    ensures
        final(from).len() == 0,
        final(to).deep_view() == old(to).deep_view() + old(from).deep_view().reverse(),
{
    let ghost source = from.deep_view();
    let ghost target = to.deep_view();
    while from.len() > 0
        invariant
            from.len() <= source.len(),
            from.deep_view() == source.take(from.len() as int),
            to.deep_view() == target + source.skip(from.len() as int).reverse(),
        decreases from.len(),
    {
        let ghost n = from.len() as int;
        move_last(from, to);
        assert(source.take(n).drop_last() =~= source.take(n - 1));
        assert(target + source.skip(n - 1).reverse() =~= (target + source.skip(n).reverse()).push(
            source[n - 1],
        ));
    }
    assert(source.skip(0) =~= source);
}

/// Merges two sorted lists into one sorted list that holds the names of both.
fn merge(left: Vec<String>, right: Vec<String>) -> (merged: Vec<String>)
    requires
        sorted_by(left.deep_view(), name_order()),
        sorted_by(right.deep_view(), name_order()),
    ensures
        sorted_by(merged.deep_view(), name_order()),
        merged.deep_view().to_multiset() == left.deep_view().to_multiset().add(
            right.deep_view().to_multiset(),
        ),
{
    broadcast use vstd::multiset::group_multiset_axioms;

    proof {
        lemma_name_order_total();
    }
    let ghost total = left.deep_view().to_multiset().add(right.deep_view().to_multiset());
    let mut left = left;
    let mut right = right;
    // The merged names, last listed first.
    let mut stack: Vec<String> = Vec::new();
    proof {
        lemma_empty_holds_nothing(stack.deep_view());
    }
    while left.len() > 0 && right.len() > 0
        invariant
            total_ordering(name_order()),
            sorted_by(left.deep_view(), name_order()),
            sorted_by(right.deep_view(), name_order()),
            descending(stack.deep_view()),
            all_le(left.deep_view(), stack.deep_view()),
            all_le(right.deep_view(), stack.deep_view()),
            left.deep_view().to_multiset().add(right.deep_view().to_multiset()).add(
                stack.deep_view().to_multiset(),
            ) == total,
        decreases left.len() + right.len(),
    {
        let ghost l = left.deep_view();
        let ghost r = right.deep_view();
        let ghost s = stack.deep_view();
        assert(name_order()(l.last(), r.last()) || name_order()(r.last(), l.last()));
        if str_le(left[left.len() - 1].as_str(), right[right.len() - 1].as_str()) {
            move_last(&mut right, &mut stack);
            assert(r =~= r.drop_last().push(r.last()));
            assert forall|i: int| 0 <= i < l.len() implies name_le(#[trigger] l[i], r.last()) by {
                assert(name_order()(l[i], l.last()) || i == l.len() - 1);
                assert(name_order()(l.last(), r.last()));
            }
            assert forall|i: int| 0 <= i < r.len() - 1 implies name_le(
                #[trigger] r[i],
                r.last(),
            ) by {
                assert(name_order()(r[i], r.last()));
            }
            proof {
                to_multiset_build(r.drop_last(), r.last());
                to_multiset_build(s, r.last());
            }
            assert(l.to_multiset().add(r.drop_last().to_multiset()).add(
                s.push(r.last()).to_multiset(),
            ) =~= total);
        } else {
            move_last(&mut left, &mut stack);
            assert(l =~= l.drop_last().push(l.last()));
            assert forall|i: int| 0 <= i < r.len() implies name_le(#[trigger] r[i], l.last()) by {
                assert(name_order()(r[i], r.last()) || i == r.len() - 1);
                assert(name_order()(r.last(), l.last()));
            }
            assert forall|i: int| 0 <= i < l.len() - 1 implies name_le(
                #[trigger] l[i],
                l.last(),
            ) by {
                assert(name_order()(l[i], l.last()));
            }
            proof {
                to_multiset_build(l.drop_last(), l.last());
                to_multiset_build(s, l.last());
            }
            assert(l.drop_last().to_multiset().add(r.to_multiset()).add(
                s.push(l.last()).to_multiset(),
            ) =~= total);
        }
    }
    let ghost l = left.deep_view();
    let ghost r = right.deep_view();
    let ghost s = stack.deep_view();
    // One of the two lists is used up; what is left of the other is the
    // start of the merged list.
    let mut merged = if left.len() > 0 {
        left
    } else {
        right
    };
    let ghost head = merged.deep_view();
    proof {
        lemma_empty_holds_nothing(
            if l.len() == 0 {
                l
            } else {
                r
            },
        );
        assert(l.to_multiset().add(r.to_multiset()) =~= head.to_multiset());
    }
    drain_reversed(&mut stack, &mut merged);
    proof {
        let m = merged.deep_view();
        lemma_multiset_commutative(head, s.reverse());
        s.lemma_reverse_to_multiset();
        assert forall|i: int, j: int| 0 <= i < j < m.len() implies #[trigger] name_order()(
            m[i],
            m[j],
        ) by {
            let back_i = s.len() - 1 - (i - head.len());
            let back_j = s.len() - 1 - (j - head.len());
            if j < head.len() {
                assert(name_order()(head[i], head[j]));
            } else if i < head.len() {
                assert(name_le(head[i], s[back_j]));
            } else {
                assert(name_le(s[back_i], s[back_j]));
            }
        }
    }
    merged
}

/// Sorts `names` into listing order.
///
/// The result holds each name as often as `names` does. There is one such
/// list, and it is `sort_by` of `names`.
pub fn sort(names: Vec<String>) -> (sorted: Vec<String>)
    ensures
        sorted_by(sorted.deep_view(), name_order()),
        sorted.deep_view().to_multiset() == names.deep_view().to_multiset(),
        sorted.deep_view() == names.deep_view().sort_by(name_order()),
        sorted.len() == names.len(),
    decreases names.len(),
{
    let ghost input = names.deep_view();
    proof {
        lemma_name_order_total();
        input.lemma_sort_by_ensures(name_order());
        to_multiset_len(input);
        to_multiset_len(input.sort_by(name_order()));
    }
    if names.len() <= 1 {
        proof {
            lemma_sorted_unique(input, input.sort_by(name_order()), name_order());
        }
        return names;
    }
    let mut left = names;
    let mid: usize = left.len() / 2;
    let right = left.split_off(mid);
    proof {
        assert(input =~= left.deep_view() + right.deep_view());
        lemma_multiset_commutative(left.deep_view(), right.deep_view());
    }
    let left = sort(left);
    let right = sort(right);
    let sorted = merge(left, right);
    proof {
        lemma_sorted_unique(sorted.deep_view(), input.sort_by(name_order()), name_order());
    }
    sorted
}

} // verus!

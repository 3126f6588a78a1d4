//! Sums over a sequence of records, and why the order of the records does not
//! matter to them.

use vstd::prelude::*;
use vstd::seq_lib::{to_multiset_build, to_multiset_contains, to_multiset_len, to_multiset_remove};

verus! {

/// The sum of `weight` over `items`.
pub open spec fn sum_by<T>(items: Seq<T>, weight: spec_fn(T) -> nat) -> nat
    decreases items.len(),
{
    if items.len() == 0 {
        0
    } else {
        sum_by(items.drop_last(), weight) + weight(items.last())
    }
}

/// The first `n + 1` items weigh what the first `n` do and the next one.
pub proof fn lemma_sum_by_take<T>(items: Seq<T>, n: int, weight: spec_fn(T) -> nat)
    requires
        0 <= n < items.len(),
    ensures
        sum_by(items.take(n + 1), weight) == sum_by(items.take(n), weight) + weight(items[n]),
{
    assert(items.take(n + 1).drop_last() =~= items.take(n));
}

/// Taking one item out takes its weight out.
pub proof fn lemma_sum_by_remove<T>(items: Seq<T>, at: int, weight: spec_fn(T) -> nat)
    requires
        0 <= at < items.len(),
    ensures
        sum_by(items, weight) == sum_by(items.remove(at), weight) + weight(items[at]),
    decreases items.len(),
{
    if at == items.len() - 1 {
        assert(items.remove(at) =~= items.drop_last());
    } else {
        lemma_sum_by_remove(items.drop_last(), at, weight);
        assert(items.remove(at).drop_last() =~= items.drop_last().remove(at));
        assert(items.remove(at).last() == items.last());
    }
}

/// A part never weighs more than the whole: a sum over the first items is at
/// most the sum over all.
pub proof fn lemma_sum_by_prefix<T>(items: Seq<T>, n: int, weight: spec_fn(T) -> nat)
    requires
        0 <= n <= items.len(),
    ensures
        sum_by(items.take(n), weight) <= sum_by(items, weight),
    decreases items.len() - n,
{
    if n < items.len() {
        lemma_sum_by_take(items, n, weight);
        lemma_sum_by_prefix(items, n + 1, weight);
    } else {
        assert(items.take(n) =~= items);
    }
}

/// Two sequences that hold the same items, each as often as the other, have
/// the same sum, in whatever order they hold them.
pub proof fn lemma_sum_by_permutation<T>(a: Seq<T>, b: Seq<T>, weight: spec_fn(T) -> nat)
    requires
        a.to_multiset() == b.to_multiset(),
    ensures
        sum_by(a, weight) == sum_by(b, weight),
    decreases a.len(),
{
    to_multiset_len(a);
    to_multiset_len(b);
    if a.len() > 0 {
        let last = a.last();
        let front = a.drop_last();
        assert(a.contains(last));
        to_multiset_contains(a, last);
        to_multiset_contains(b, last);
        let at = choose|at: int| 0 <= at < b.len() && b[at] == last;
        assert(front =~= a.remove(a.len() - 1));
        to_multiset_remove(a, a.len() - 1);
        to_multiset_remove(b, at);
        lemma_sum_by_permutation(front, b.remove(at), weight);
        lemma_sum_by_remove(b, at, weight);
    }
}

/// Two sequences that hold the same items hold a wanted item together or not
/// at all.
pub proof fn lemma_any_of_permutation<T>(a: Seq<T>, b: Seq<T>, wanted: spec_fn(T) -> bool)
    requires
        a.to_multiset() == b.to_multiset(),
    ensures
        any_of(a, wanted) == any_of(b, wanted),
{
    assert forall|x: T| a.contains(x) <==> b.contains(x) by {
        to_multiset_contains(a, x);
        to_multiset_contains(b, x);
    }
    if exists|i: int| 0 <= i < a.len() && wanted(#[trigger] a[i]) {
        let i = choose|i: int| 0 <= i < a.len() && wanted(#[trigger] a[i]);
        assert(a.contains(a[i]));
        let j = choose|j: int| 0 <= j < b.len() && b[j] == a[i];
        assert(wanted(b[j]));
    }
    if exists|j: int| 0 <= j < b.len() && wanted(#[trigger] b[j]) {
        let j = choose|j: int| 0 <= j < b.len() && wanted(#[trigger] b[j]);
        assert(b.contains(b[j]));
        let i = choose|i: int| 0 <= i < a.len() && a[i] == b[j];
        assert(wanted(a[i]));
    }
}

/// Whether some item of `items` is `wanted`.
pub open spec fn any_of<T>(items: Seq<T>, wanted: spec_fn(T) -> bool) -> bool {
    exists|i: int| 0 <= i < items.len() && wanted(#[trigger] items[i])
}

/// Among the first `n + 1` items one is wanted when one of the first `n` is,
/// or the next one.
pub proof fn lemma_any_of_take<T>(items: Seq<T>, n: int, wanted: spec_fn(T) -> bool)
    requires
        0 <= n < items.len(),
    ensures
        any_of(items.take(n + 1), wanted) == (any_of(items.take(n), wanted) || wanted(items[n])),
{
    let shorter = items.take(n);
    let longer = items.take(n + 1);
    if any_of(shorter, wanted) {
        let i = choose|i: int| 0 <= i < shorter.len() && wanted(#[trigger] shorter[i]);
        assert(wanted(longer[i]));
    }
    if wanted(items[n]) {
        assert(wanted(longer[n]));
    }
    if any_of(longer, wanted) {
        let i = choose|i: int| 0 <= i < longer.len() && wanted(#[trigger] longer[i]);
        if i < n {
            assert(wanted(shorter[i]));
        }
    }
}

/// Items that all weigh nothing sum to nothing.
pub proof fn lemma_sum_by_nothing<T>(items: Seq<T>, weight: spec_fn(T) -> nat)
    requires
        forall|i: int| 0 <= i < items.len() ==> weight(#[trigger] items[i]) == 0,
    ensures
        sum_by(items, weight) == 0,
    decreases items.len(),
{
    if items.len() > 0 {
        let front = items.drop_last();
        assert forall|i: int| 0 <= i < front.len() implies weight(#[trigger] front[i]) == 0 by {
            assert(front[i] == items[i]);
        }
        lemma_sum_by_nothing(front, weight);
        assert(weight(items[items.len() - 1]) == 0);
    }
}

/// Two sequences that hold the same items still hold the same items after
/// each item has been replaced by what `f` makes of it.
pub proof fn lemma_map_permutation<A, B>(a: Seq<A>, b: Seq<A>, f: spec_fn(A) -> B)
    requires
        a.to_multiset() == b.to_multiset(),
    ensures
        a.map_values(f).to_multiset() == b.map_values(f).to_multiset(),
    decreases a.len(),
{
    to_multiset_len(a);
    to_multiset_len(b);
    let mapped_a = a.map_values(f);
    let mapped_b = b.map_values(f);
    if a.len() == 0 {
        assert(mapped_a =~= mapped_b);
    } else {
        let last = a.last();
        let front = a.drop_last();
        assert(a.contains(last));
        to_multiset_contains(a, last);
        to_multiset_contains(b, last);
        let at = choose|at: int| 0 <= at < b.len() && b[at] == last;
        assert(front =~= a.remove(a.len() - 1));
        to_multiset_remove(a, a.len() - 1);
        to_multiset_remove(b, at);
        lemma_map_permutation(front, b.remove(at), f);
        assert(mapped_a =~= front.map_values(f).push(f(last)));
        to_multiset_build(front.map_values(f), f(last));
        assert(mapped_b.remove(at) =~= b.remove(at).map_values(f));
        to_multiset_remove(mapped_b, at);
        assert(mapped_b[at] == f(last));
        assert(mapped_b.contains(f(last)));
        to_multiset_contains(mapped_b, f(last));
        assert(mapped_b.to_multiset() =~= mapped_b.remove(at).to_multiset().insert(f(last)));
    }
}

} // verus!

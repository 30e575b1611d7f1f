//! Random orderings drawn from a seedable generator.

use rand::rngs::StdRng;
use rand::seq::SliceRandom;
use vstd::prelude::*;

verus! {

/// `rand::rngs::StdRng`, the seedable generator that the random operations
/// draw from. Nothing is known of its state.
#[verifier::external_type_specification]
#[verifier::external_body]
pub struct ExStdRng(StdRng);

/// The indices `0, 1, .., n - 1` in ascending order.
pub open spec fn identity_order(n: nat) -> Seq<usize> {
    Seq::new(n, |i: int| i as usize)
}

/// `order` holds each of the indices `0, 1, .., n - 1` exactly once.
pub open spec fn is_order_of(order: Seq<usize>, n: nat) -> bool {
    order.to_multiset() == identity_order(n).to_multiset()
}

/// The items of `items` taken in the order that `order` gives.
pub open spec fn reordered<A>(items: Seq<A>, order: Seq<usize>) -> Seq<A> {
    order.map_values(|j: usize| items[j as int])
}

/// Calls `rand::seq::SliceRandom::shuffle` on `order`. The call permutes the
/// slice in place by swapping pairs of its elements, so afterwards it holds
/// the same values, each as often as before; in which order is left to the
/// generator.
#[verifier::external_body]
fn shuffle_order(rng: &mut StdRng, order: &mut Vec<usize>)
    ensures
        final(order)@.to_multiset() == old(order)@.to_multiset(),
{
    order.shuffle(rng);
}

/// Draws a random ordering of the indices below `n`.
pub fn random_order(rng: &mut StdRng, n: usize) -> (order: Vec<usize>)
    ensures
        is_order_of(order@, n as nat),
{
    let mut order: Vec<usize> = Vec::with_capacity(n);
    for i in 0..n
        invariant
            order@ == identity_order(i as nat),
    {
        order.push(i);
        assert(order@ =~= identity_order((i + 1) as nat));
    }
    shuffle_order(rng, &mut order);
    order
}

/// An ordering of the indices below `n` has `n` entries, all below `n`.
pub proof fn lemma_order_in_range(order: Seq<usize>, n: nat)
    requires
        n <= usize::MAX,
        is_order_of(order, n),
    ensures
        order.len() == n,
        forall|i: int| 0 <= i < order.len() ==> (#[trigger] order[i]) < n,
{
    broadcast use vstd::seq_lib::group_to_multiset_ensures;

    let ident = identity_order(n);
    assert(order.len() == order.to_multiset().len());
    assert(ident.len() == ident.to_multiset().len());
    assert forall|i: int| 0 <= i < order.len() implies (#[trigger] order[i]) < n by {
        assert(order.contains(order[i]));
        assert(ident.to_multiset().count(order[i]) > 0);
        assert(ident.contains(order[i]));
        let j = choose|j: int| 0 <= j < ident.len() && ident[j] == order[i];
        assert(ident[j] == j as usize);
    }
}

/// Two sequences that hold the same items equally often still do so after
/// the same function was applied to every item.
pub proof fn lemma_map_keeps_multiset<A, B>(a: Seq<A>, b: Seq<A>, f: spec_fn(A) -> B)
    requires
        a.to_multiset() == b.to_multiset(),
    ensures
        a.map_values(f).to_multiset() == b.map_values(f).to_multiset(),
    decreases a.len(),
{
    broadcast use vstd::seq_lib::group_to_multiset_ensures;

    if a.len() == 0 {
        assert(a.len() == a.to_multiset().len());
        assert(b.len() == b.to_multiset().len());
        assert(a.map_values(f) =~= b.map_values(f));
    } else {
        let x = a.last();
        let shorter = a.drop_last();
        assert(a == shorter.push(x));
        assert(a.contains(x));
        assert(b.to_multiset().count(x) > 0);
        assert(b.contains(x));
        let k = choose|k: int| 0 <= k < b.len() && b[k] == x;
        let rest = b.remove(k);
        assert(shorter.to_multiset() =~= rest.to_multiset());
        lemma_map_keeps_multiset(shorter, rest, f);
        assert(a.map_values(f) =~= shorter.map_values(f).push(f(x)));
        assert(b.map_values(f).remove(k) =~= rest.map_values(f));
        assert(b.map_values(f)[k] == f(x));
        assert(b.map_values(f).contains(f(x)));
        assert(a.map_values(f).to_multiset() =~= b.map_values(f).to_multiset());
    }
}

/// Taking items in an ordering of all their indices gives the same items,
/// each as often as before.
pub proof fn lemma_reordered_is_permutation<A>(items: Seq<A>, order: Seq<usize>)
    requires
        items.len() <= usize::MAX,
        is_order_of(order, items.len()),
    ensures
        reordered(items, order).len() == items.len(),
        reordered(items, order).to_multiset() == items.to_multiset(),
{
    let f = |j: usize| items[j as int];
    lemma_order_in_range(order, items.len());
    lemma_map_keeps_multiset(order, identity_order(items.len()), f);
    assert(identity_order(items.len()).map_values(f) =~= items);
}

} // verus!

//! What a list holds, whatever its order.
use vstd::multiset::Multiset;
use vstd::prelude::*;
use vstd::seq_lib::{commutative_foldl, lemma_fold_left_permutation, to_multiset_build};

verus! {

broadcast use vstd::multiset::group_multiset_axioms;

/// One more summand.
pub open spec fn with_bag<A, B>(f: spec_fn(A) -> Multiset<B>) -> spec_fn(
    Multiset<B>,
    A,
) -> Multiset<B> {
    |acc: Multiset<B>, a: A| acc.add(f(a))
}

/// What the elements of a list contribute, all together.
pub open spec fn bag<A, B>(xs: Seq<A>, f: spec_fn(A) -> Multiset<B>) -> Multiset<B> {
    xs.fold_left(Multiset::empty(), with_bag(f))
}

/// The order of a list makes no difference to what its elements contribute.
pub proof fn lemma_bag_permutation<A, B>(x: Seq<A>, y: Seq<A>, f: spec_fn(A) -> Multiset<B>)
    requires
        x.to_multiset() == y.to_multiset(),
    ensures
        bag(x, f) == bag(y, f),
{
    let g = with_bag(f);
    assert forall|a: A, b: A, v: Multiset<B>| #[trigger] g(g(v, a), b) == g(g(v, b), a) by {
        assert(g(g(v, a), b) =~= g(g(v, b), a));
    }
    assert(commutative_foldl(g));
    lemma_fold_left_permutation(x, y, g, Multiset::empty());
}

/// One more element adds what it contributes.
pub proof fn lemma_bag_push<A, B>(xs: Seq<A>, a: A, f: spec_fn(A) -> Multiset<B>)
    ensures
        bag(xs.push(a), f) == bag(xs, f).add(f(a)),
{
    assert(xs.push(a).drop_last() =~= xs);
}

/// The bag of a single value for each element.
pub open spec fn single<A, B>(f: spec_fn(A) -> B) -> spec_fn(A) -> Multiset<B> {
    |a: A| Multiset::singleton(f(a))
}

/// The values of a mapped list are those that its elements are mapped to.
pub proof fn lemma_map_is_bag<A, B>(xs: Seq<A>, f: spec_fn(A) -> B)
    ensures
        xs.map_values(f).to_multiset() == bag(xs, single(f)),
    decreases xs.len(),
{
    if xs.len() == 0 {
        assert(xs.map_values(f) =~= Seq::<B>::empty());
        assert(Seq::<B>::empty().to_multiset() =~= Multiset::empty()) by {
            broadcast use vstd::seq_lib::group_to_multiset_ensures;

            assert(Seq::<B>::empty().to_multiset().len() == 0);
        }
    } else {
        let before = xs.drop_last();
        let a = xs.last();
        lemma_map_is_bag(before, f);
        assert(xs =~= before.push(a));
        lemma_bag_push(before, a, single(f));
        assert(xs.map_values(f) =~= before.map_values(f).push(f(a)));
        to_multiset_build(before.map_values(f), f(a));
        assert(xs.map_values(f).to_multiset() =~= bag(xs, single(f)));
    }
}

/// Mapping lists that differ only in their order gives such lists.
pub proof fn lemma_map_permutation<A, B>(x: Seq<A>, y: Seq<A>, f: spec_fn(A) -> B)
    requires
        x.to_multiset() == y.to_multiset(),
    ensures
        x.map_values(f).to_multiset() == y.map_values(f).to_multiset(),
{
    lemma_map_is_bag(x, f);
    lemma_map_is_bag(y, f);
    lemma_bag_permutation(x, y, single(f));
}

} // verus!

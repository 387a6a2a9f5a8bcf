//! Chains of steps that end, or never do.
use vstd::prelude::*;
use vstd::set_lib::lemma_len_subset;

verus! {

/// Where `k` steps from `p` lead.
pub open spec fn chain<A>(hop: spec_fn(A) -> Option<A>, p: Option<A>, k: nat) -> Option<A>
    decreases k,
{
    if k == 0 {
        p
    } else {
        match p {
            Some(x) => chain(hop, hop(x), (k - 1) as nat),
            None => None,
        }
    }
}

proof fn lemma_chain_splits<A>(hop: spec_fn(A) -> Option<A>, p: Option<A>, i: nat, j: nat)
    ensures
        chain(hop, p, i + j) == chain(hop, chain(hop, p, i), j),
    decreases i,
{
    if i > 0 {
        match p {
            Some(x) => {
                lemma_chain_splits(hop, hop(x), (i - 1) as nat, j);
                assert((i - 1) as nat + j == (i + j - 1) as nat);
            },
            None => {},
        }
    }
}

proof fn lemma_chain_prefix<A>(hop: spec_fn(A) -> Option<A>, p: Option<A>, i: nat, n: nat)
    requires
        i <= n,
        chain(hop, p, n) is Some,
    ensures
        chain(hop, p, i) is Some,
{
    lemma_chain_splits(hop, p, i, (n - i) as nat);
    if chain(hop, p, i) is None {
        assert(chain(hop, None::<A>, (n - i) as nat) is None);
    }
}

proof fn lemma_chain_stays<A>(
    hop: spec_fn(A) -> Option<A>,
    p: Option<A>,
    universe: Seq<A>,
    k: nat,
)
    requires
        forall|x: A| (#[trigger] hop(x) matches Some(y) ==> universe.contains(y)),
        p matches Some(x) ==> universe.contains(x),
    ensures
        chain(hop, p, k) matches Some(x) ==> universe.contains(x),
    decreases k,
{
    if k > 0 {
        if let Some(x) = p {
            lemma_chain_stays(hop, hop(x), universe, (k - 1) as nat);
        }
    }
}

proof fn lemma_repeat_never_ends<A>(
    hop: spec_fn(A) -> Option<A>,
    p: Option<A>,
    i: nat,
    j: nat,
    m: nat,
)
    requires
        i < j,
        chain(hop, p, j) is Some,
        chain(hop, p, i) == chain(hop, p, j),
    ensures
        chain(hop, p, m) is Some,
    decreases m,
{
    if m <= j {
        lemma_chain_prefix(hop, p, m, j);
    } else {
        let rest = (m - j) as nat;
        lemma_chain_splits(hop, p, j, rest);
        lemma_chain_splits(hop, p, i, rest);
        lemma_repeat_never_ends(hop, p, i, j, i + rest);
    }
}

/// A chain that takes as many steps as there are places has come to a place
/// twice, so it never ends.
pub proof fn lemma_long_chain_never_ends<A>(
    hop: spec_fn(A) -> Option<A>,
    p: Option<A>,
    universe: Seq<A>,
    m: nat,
)
    requires
        forall|x: A| (#[trigger] hop(x) matches Some(y) ==> universe.contains(y)),
        p matches Some(x) ==> universe.contains(x),
        chain(hop, p, universe.len()) is Some,
    ensures
        chain(hop, p, m) is Some,
{
    let n = universe.len();
    let places = Seq::new(n + 1, |k: int| chain(hop, p, k as nat)->0);
    assert forall|k: int| 0 <= k < places.len() implies universe.contains(#[trigger] places[k])
        && chain(hop, p, k as nat) == Some(places[k]) by {
        lemma_chain_prefix(hop, p, k as nat, n);
        lemma_chain_stays(hop, p, universe, k as nat);
    }
    if places.no_duplicates() {
        places.unique_seq_to_set();
        universe.lemma_cardinality_of_set();
        assert forall|x: A| places.to_set().contains(x) implies universe.to_set().contains(x) by {
            let k = choose|k: int| 0 <= k < places.len() && places[k] == x;
            assert(universe.contains(places[k]));
        }
        assert(places.to_set().subset_of(universe.to_set()));
        lemma_len_subset(places.to_set(), universe.to_set());
    } else {
        let (i, j) = choose|i: int, j: int|
            0 <= i < places.len() && 0 <= j < places.len() && i != j && places[i] == places[j];
        if i < j {
            lemma_repeat_never_ends(hop, p, i as nat, j as nat, m);
        } else {
            lemma_repeat_never_ends(hop, p, j as nat, i as nat, m);
        }
    }
}

} // verus!

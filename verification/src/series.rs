//! Sums and products of sequences of integers, and their independence of
//! the order of the sequence.

use vstd::prelude::*;
use vstd::seq_lib::*;

verus! {

/// The sum of the numbers of a sequence; zero for the empty sequence.
pub open spec fn seq_sum(s: Seq<int>) -> int
    decreases s.len(),
{
    if s.len() == 0 {
        0
    } else {
        seq_sum(s.drop_last()) + s.last()
    }
}

/// The product of the numbers of a sequence; one for the empty sequence.
pub open spec fn seq_product(s: Seq<int>) -> int
    decreases s.len(),
{
    if s.len() == 0 {
        1
    } else {
        seq_product(s.drop_last()) * s.last()
    }
}

/// A sum is the sum without one of its numbers, plus that number.
pub proof fn lemma_sum_remove(s: Seq<int>, k: int)
    requires
        0 <= k < s.len(),
    ensures
        seq_sum(s) == seq_sum(s.remove(k)) + s[k],
    decreases s.len(),
{
    if k == s.len() - 1 {
        assert(s.remove(k) =~= s.drop_last());
    } else {
        lemma_sum_remove(s.drop_last(), k);
        assert(s.remove(k).drop_last() =~= s.drop_last().remove(k));
        assert(s.remove(k).last() == s.last());
    }
}

/// A product is the product without one of its numbers, times that number.
pub proof fn lemma_product_remove(s: Seq<int>, k: int)
    requires
        0 <= k < s.len(),
    ensures
        seq_product(s) == seq_product(s.remove(k)) * s[k],
    decreases s.len(),
{
    if k == s.len() - 1 {
        assert(s.remove(k) =~= s.drop_last());
    } else {
        lemma_product_remove(s.drop_last(), k);
        assert(s.remove(k).drop_last() =~= s.drop_last().remove(k));
        assert(s.remove(k).last() == s.last());
        let rest = seq_product(s.drop_last().remove(k));
        let x = s[k];
        let y = s.last();
        assert((rest * x) * y == (rest * y) * x) by (nonlinear_arith);
    }
}

/// For two sequences with the same members, each as often in one as in the
/// other: the last member of the first stands somewhere in the second, and
/// without it the two still have the same members.
pub proof fn lemma_permutation_step<A>(a: Seq<A>, b: Seq<A>) -> (k: int)
    requires
        a.to_multiset() == b.to_multiset(),
        a.len() > 0,
    ensures
        0 <= k < b.len(),
        b[k] == a.last(),
        a.drop_last().to_multiset() == b.remove(k).to_multiset(),
{
    a.to_multiset_ensures();
    b.to_multiset_ensures();
    assert(a.contains(a.last()));
    assert(b.to_multiset().count(a.last()) > 0);
    assert(b.contains(a.last()));
    let k = choose|k: int| 0 <= k < b.len() && b[k] == a.last();
    assert(a.remove(a.len() - 1) =~= a.drop_last());
    assert(a.remove(a.len() - 1).to_multiset() =~= a.to_multiset().remove(a[a.len() - 1]));
    assert(b.remove(k).to_multiset() =~= b.to_multiset().remove(b[k]));
    k
}

/// Two sequences with the same members have the same length.
pub proof fn lemma_permutation_length<A>(a: Seq<A>, b: Seq<A>)
    requires
        a.to_multiset() == b.to_multiset(),
    ensures
        a.len() == b.len(),
{
    a.to_multiset_ensures();
    b.to_multiset_ensures();
}

/// The sum of a sequence does not depend on the order of its members.
pub proof fn lemma_sum_permutation(a: Seq<int>, b: Seq<int>)
    requires
        a.to_multiset() == b.to_multiset(),
    ensures
        seq_sum(a) == seq_sum(b),
    decreases a.len(),
{
    lemma_permutation_length(a, b);
    if a.len() > 0 {
        let k = lemma_permutation_step(a, b);
        lemma_sum_permutation(a.drop_last(), b.remove(k));
        lemma_sum_remove(b, k);
    }
}

/// The product of a sequence does not depend on the order of its members.
pub proof fn lemma_product_permutation(a: Seq<int>, b: Seq<int>)
    requires
        a.to_multiset() == b.to_multiset(),
    ensures
        seq_product(a) == seq_product(b),
    decreases a.len(),
{
    lemma_permutation_length(a, b);
    if a.len() > 0 {
        let k = lemma_permutation_step(a, b);
        lemma_product_permutation(a.drop_last(), b.remove(k));
        lemma_product_remove(b, k);
    }
}

/// Applying one function to every member of two sequences with the same
/// members gives two sequences with the same members.
pub proof fn lemma_map_permutation<A, B>(a: Seq<A>, b: Seq<A>, f: spec_fn(A) -> B)
    requires
        a.to_multiset() == b.to_multiset(),
    ensures
        a.map_values(f).to_multiset() == b.map_values(f).to_multiset(),
    decreases a.len(),
{
    lemma_permutation_length(a, b);
    let ma = a.map_values(f);
    let mb = b.map_values(f);
    if a.len() == 0 {
        assert(ma =~= mb);
    } else {
        let k = lemma_permutation_step(a, b);
        lemma_map_permutation(a.drop_last(), b.remove(k), f);
        assert(ma.drop_last() =~= a.drop_last().map_values(f));
        assert(mb.remove(k) =~= b.remove(k).map_values(f));
        assert(ma =~= ma.drop_last().push(ma.last()));
        ma.drop_last().to_multiset_ensures();
        mb.to_multiset_ensures();
        assert(mb.contains(mb[k]));
        assert(mb.to_multiset() =~= mb.remove(k).to_multiset().insert(mb[k]));
    }
}

} // verus!

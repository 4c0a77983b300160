use vstd::prelude::*;
use vstd::seq_lib::group_seq_properties;

verus! {

/// The combination operator of the whole pipeline: addition modulo
/// 2^128.  Row hashes, batch values and worker results are all folded
/// with this one operator, so the three reduction stages are a single
/// associative, commutative fold with identity 0.
pub open spec fn wadd(a: u128, b: u128) -> u128 {
    if a + b > u128::MAX {
        (a + b - 0x1_0000_0000_0000_0000_0000_0000_0000_0000) as u128
    } else {
        (a + b) as u128
    }
}

/// The sum, modulo 2^128, of a sequence of 128-bit values; the empty
/// sequence sums to the identity 0.
pub open spec fn sum128(s: Seq<u128>) -> u128
    decreases s.len(),
{
    if s.len() == 0 {
        0u128
    } else {
        wadd(sum128(s.drop_last()), s.last())
    }
}

/// Executable form of [`wadd`].
pub fn accumulate(a: u128, b: u128) -> (r: u128)
    ensures
        r == wadd(a, b),
{
    a.wrapping_add(b)
}

/// 0 is the identity of the combination operator.
pub proof fn lemma_wadd_identity(a: u128)
    ensures
        wadd(a, 0) == a,
        wadd(0, a) == a,
{
}

/// The combination operator is commutative.
pub proof fn lemma_wadd_commutative(a: u128, b: u128)
    ensures
        wadd(a, b) == wadd(b, a),
{
}

/// The combination operator is associative.
pub proof fn lemma_wadd_associative(a: u128, b: u128, c: u128)
    ensures
        wadd(wadd(a, b), c) == wadd(a, wadd(b, c)),
{
}

/// Summing a concatenation sums the parts.
pub proof fn lemma_sum128_append(s1: Seq<u128>, s2: Seq<u128>)
    ensures
        sum128(s1 + s2) == wadd(sum128(s1), sum128(s2)),
    decreases s2.len(),
{
    if s2.len() == 0 {
        assert(s1 + s2 =~= s1);
    } else {
        lemma_sum128_append(s1, s2.drop_last());
        assert((s1 + s2).drop_last() =~= s1 + s2.drop_last());
        assert((s1 + s2).last() == s2.last());
        lemma_wadd_associative(sum128(s1), sum128(s2.drop_last()), s2.last());
    }
}

/// Any one element can be taken out of a sum.
pub proof fn lemma_sum128_remove(s: Seq<u128>, i: int)
    requires
        0 <= i < s.len(),
    ensures
        sum128(s) == wadd(sum128(s.remove(i)), s[i]),
    decreases s.len(),
{
    if i == s.len() - 1 {
        assert(s.remove(i) =~= s.drop_last());
    } else {
        let s0 = s.drop_last();
        lemma_sum128_remove(s0, i);
        assert(s.remove(i).drop_last() =~= s0.remove(i));
        assert(s.remove(i).last() == s.last());
        let x = sum128(s0.remove(i));
        lemma_wadd_associative(x, s0[i], s.last());
        lemma_wadd_commutative(s0[i], s.last());
        lemma_wadd_associative(x, s.last(), s0[i]);
    }
}

/// Summing the images of a sequence's elements does not depend on the
/// order of the elements: any two sequences holding the same elements
/// with the same multiplicities sum to the same value.
pub proof fn lemma_sum128_map_permutation<A>(s1: Seq<A>, s2: Seq<A>, f: spec_fn(A) -> u128)
    requires
        s1.to_multiset() == s2.to_multiset(),
    ensures
        sum128(s1.map_values(f)) == sum128(s2.map_values(f)),
    decreases s1.len(),
{
    broadcast use group_seq_properties;

    s1.to_multiset_ensures();
    s2.to_multiset_ensures();
    if s1.len() == 0 {
        assert(s2.len() == 0);
        assert(s1.map_values(f) =~= s2.map_values(f));
    } else {
        let a = s1.last();
        assert(s1.contains(a));
        assert(s2.to_multiset().count(a) > 0);
        assert(s2.contains(a));
        let j = choose|j: int| 0 <= j < s2.len() && s2[j] == a;
        let s1d = s1.drop_last();
        let s2r = s2.remove(j);
        assert(s1d =~= s1.remove(s1.len() - 1));
        assert(s1d.to_multiset() =~= s1.to_multiset().remove(a));
        assert(s2r.to_multiset() =~= s2.to_multiset().remove(a));
        lemma_sum128_map_permutation(s1d, s2r, f);
        assert(s1.map_values(f).drop_last() =~= s1d.map_values(f));
        assert(s1.map_values(f).last() == f(a));
        assert(sum128(s1.map_values(f)) == wadd(sum128(s1d.map_values(f)), f(a)));
        lemma_sum128_remove(s2.map_values(f), j);
        assert(s2.map_values(f).remove(j) =~= s2r.map_values(f));
        assert(s2.map_values(f)[j] == f(a));
    }
}

} // verus!

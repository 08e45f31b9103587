//! Counting the occurrences of a value in a sequence.
use vstd::prelude::*;

verus! {

/// How many times `x` occurs in `s`.
pub open spec fn occ(s: Seq<usize>, x: usize) -> nat {
    s.to_multiset().count(x)
}

pub proof fn lemma_occ_empty(x: usize)
    ensures
        occ(Seq::<usize>::empty(), x) == 0,
{
    broadcast use vstd::seq_lib::group_to_multiset_ensures;

    assert(!Seq::<usize>::empty().contains(x));
}

pub proof fn lemma_occ_push(s: Seq<usize>, a: usize, x: usize)
    ensures
        occ(s.push(a), x) == occ(s, x) + if a == x {
            1nat
        } else {
            0nat
        },
{
    broadcast use vstd::seq_lib::group_to_multiset_ensures;
    broadcast use vstd::multiset::group_multiset_axioms;

}

pub proof fn lemma_occ_remove(s: Seq<usize>, i: int, x: usize)
    requires
        0 <= i < s.len(),
    ensures
        occ(s.remove(i), x) + (if s[i] == x {
            1nat
        } else {
            0nat
        }) == occ(s, x),
{
    broadcast use vstd::seq_lib::group_to_multiset_ensures;
    broadcast use vstd::multiset::group_multiset_axioms;

    assert(s.to_multiset().count(s[i]) > 0);
}

pub proof fn lemma_occ_drop_last(s: Seq<usize>, x: usize)
    requires
        s.len() > 0,
    ensures
        occ(s.drop_last(), x) + (if s.last() == x {
            1nat
        } else {
            0nat
        }) == occ(s, x),
{
    assert(s =~= s.drop_last().push(s.last()));
    lemma_occ_push(s.drop_last(), s.last(), x);
}

pub proof fn lemma_occ_contains(s: Seq<usize>, x: usize)
    ensures
        occ(s, x) > 0 <==> s.contains(x),
{
    broadcast use vstd::seq_lib::group_to_multiset_ensures;

}

pub proof fn lemma_occ_concat(a: Seq<usize>, b: Seq<usize>, x: usize)
    ensures
        occ(a + b, x) == occ(a, x) + occ(b, x),
{
    broadcast use vstd::seq_lib::lemma_multiset_commutative;
    broadcast use vstd::multiset::group_multiset_axioms;

}

} // verus!

//! The additive fingerprint of a word: a digest that ignores the order of
//! its bytes.

use vstd::prelude::*;

verus! {

/// The sum of the weights of the items of `s`, without any bound.
pub open spec fn total<A>(s: Seq<A>, weight: spec_fn(A) -> nat) -> nat
    decreases s.len(),
{
    if s.len() == 0 {
        0
    } else {
        total(s.drop_last(), weight) + weight(s.last())
    }
}

/// The weight of a byte: its value.
pub open spec fn byte_weight() -> spec_fn(u8) -> nat {
    |b: u8| b as nat
}

/// The sum of the byte values of `s`, without any bound.
pub open spec fn byte_sum(s: Seq<u8>) -> nat {
    total(s, byte_weight())
}

/// The fingerprint of `s`: its byte sum, wrapped round at 64 bits.
pub open spec fn fingerprint(s: Seq<u8>) -> u64 {
    (byte_sum(s) % 0x1_0000_0000_0000_0000) as u64
}

/// Computes the fingerprint of `s` as a wrapping sum of its bytes.
pub fn associative_hash(s: &[u8]) -> (h: u64)
    ensures
        h == fingerprint(s@),
{
    let mut h: u64 = 0;
    let mut i: usize = 0;
    while i < s.len()
        invariant
            i <= s.len(),
            h == fingerprint(s@.take(i as int)),
        decreases s.len() - i,
    {
        proof {
            assert(s@.take(i + 1).drop_last() =~= s@.take(i as int));
        }
        h = h.wrapping_add(s[i] as u64);
        i += 1;
    }
    proof {
        assert(s@.take(i as int) =~= s@);
    }
    h
}

/// Taking one item out of a sequence lowers its total by that item's
/// weight.
pub proof fn lemma_total_remove<A>(s: Seq<A>, weight: spec_fn(A) -> nat, j: int)
    requires
        0 <= j < s.len(),
    ensures
        total(s, weight) == total(s.remove(j), weight) + weight(s[j]),
    decreases s.len(),
{
    if j == s.len() - 1 {
        assert(s.remove(j) =~= s.drop_last());
    } else {
        lemma_total_remove(s.drop_last(), weight, j);
        assert(s.remove(j).drop_last() =~= s.drop_last().remove(j));
        assert(s.remove(j).last() == s.last());
    }
}

/// The total of a concatenation is the sum of the totals.
pub proof fn lemma_total_concat<A>(a: Seq<A>, b: Seq<A>, weight: spec_fn(A) -> nat)
    ensures
        total(a + b, weight) == total(a, weight) + total(b, weight),
    decreases b.len(),
{
    if b.len() == 0 {
        assert(a + b =~= a);
    } else {
        lemma_total_concat(a, b.drop_last(), weight);
        assert((a + b).drop_last() =~= a + b.drop_last());
        assert((a + b).last() == b.last());
    }
}

/// Two sequences that hold the same items, each as often, have the same
/// total.
pub proof fn lemma_total_permutation<A>(a: Seq<A>, b: Seq<A>, weight: spec_fn(A) -> nat)
    requires
        a.to_multiset() == b.to_multiset(),
    ensures
        total(a, weight) == total(b, weight),
    decreases a.len(),
{
    broadcast use vstd::multiset::group_multiset_axioms;

    a.to_multiset_ensures();
    b.to_multiset_ensures();
    if a.len() == 0 {
        assert(b.len() == 0);
    } else {
        let x = a.last();
        assert(a[a.len() - 1] == x);
        assert(a.contains(x));
        assert(b.to_multiset().count(x) > 0);
        assert(b.contains(x));
        let j = choose|j: int| 0 <= j < b.len() && b[j] == x;
        assert(a.remove(a.len() - 1) =~= a.drop_last());
        assert(a.drop_last().to_multiset() =~= b.remove(j).to_multiset());
        lemma_total_permutation(a.drop_last(), b.remove(j), weight);
        lemma_total_remove(b, weight, j);
    }
}

/// A byte sum is at most 255 for each byte, so the fingerprint of fewer
/// than 2^56 bytes is their sum itself.
pub proof fn lemma_byte_sum_bound(s: Seq<u8>)
    ensures
        byte_sum(s) <= 255 * s.len(),
        s.len() < 0x100_0000_0000_0000 ==> fingerprint(s) == byte_sum(s),
    decreases s.len(),
{
    if s.len() > 0 {
        lemma_byte_sum_bound(s.drop_last());
    }
}

/// The fingerprint does not depend on the order of the bytes: any
/// rearrangement of `w` has the fingerprint of `w`.
pub proof fn lemma_fingerprint_permutation(w: Seq<u8>, p: Seq<u8>)
    requires
        w.to_multiset() == p.to_multiset(),
    ensures
        fingerprint(w) == fingerprint(p),
{
    lemma_total_permutation(w, p, byte_weight());
}

} // verus!

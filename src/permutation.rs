use rand::seq::SliceRandom;
use vstd::prelude::*;

verus! {

/// `s` maps `[0, s.len())` into itself one to one and onto.
pub open spec fn is_permutation(s: Seq<usize>) -> bool {
    &&& forall|i: int| 0 <= i < s.len() ==> #[trigger] s[i] < s.len()
    &&& s.no_duplicates()
    &&& forall|j: int| 0 <= j < s.len() ==> s.contains(#[trigger] (j as usize))
}

/// The position at which `s` holds `j`.
pub open spec fn preimage(s: Seq<usize>, j: int) -> int {
    choose|p: int| 0 <= p < s.len() && s[p] == j
}

/// The sequence `0, 1, ..., n - 1`.
pub open spec fn identity_seq(n: nat) -> Seq<usize> {
    Seq::new(n, |i: int| i as usize)
}

/// In a permutation, the preimage of `j` is the one position holding `j`.
pub proof fn lemma_preimage_unique(s: Seq<usize>, j: int, p: int)
    requires
        is_permutation(s),
        0 <= p < s.len(),
        s[p] == j,
    ensures
        preimage(s, j) == p,
{
    let q = preimage(s, j);
    assert(0 <= q < s.len() && s[q] == j);
}

/// In a permutation every `j` in range has a preimage, and it is in range.
pub proof fn lemma_preimage_exists(s: Seq<usize>, j: int)
    requires
        is_permutation(s),
        0 <= j < s.len(),
        s.len() <= usize::MAX + 1,
    ensures
        0 <= preimage(s, j) < s.len(),
        s[preimage(s, j)] == j,
{
    assert(s.contains(j as usize));
    let p = choose|p: int| 0 <= p < s.len() && s[p] == j as usize;
    assert(j as usize == j);
    lemma_preimage_unique(s, j, p);
}

/// Any rearrangement of `0, 1, ..., n - 1` is a permutation.
pub proof fn lemma_rearranged_identity(s: Seq<usize>, n: nat)
    requires
        n <= usize::MAX + 1,
        s.to_multiset() == identity_seq(n).to_multiset(),
    ensures
        is_permutation(s),
        s.len() == n,
{
    broadcast use vstd::seq_lib::group_to_multiset_ensures;

    let id = identity_seq(n);
    assert(id.no_duplicates());
    id.lemma_multiset_has_no_duplicates();
    s.lemma_multiset_has_no_duplicates_conv();
    assert(s.len() == s.to_multiset().len());
    assert(id.len() == id.to_multiset().len());
    assert forall|i: int| 0 <= i < s.len() implies #[trigger] s[i] < s.len() by {
        assert(s.contains(s[i]));
        assert(s.to_multiset().count(s[i]) > 0);
        assert(id.to_multiset().count(s[i]) > 0);
        assert(id.contains(s[i]));
    }
    assert forall|j: int| 0 <= j < s.len() implies s.contains(#[trigger] (j as usize)) by {
        assert(id[j] == j as usize);
        assert(id.contains(j as usize));
        assert(id.to_multiset().count(j as usize) > 0);
    }
}

/// Builds `0, 1, ..., n - 1`.
pub fn identity_vec(n: usize) -> (r: Vec<usize>)
    ensures
        r@ == identity_seq(n as nat),
{
    let mut r: Vec<usize> = Vec::with_capacity(n);
    let mut i: usize = 0;
    while i < n
        invariant
            i <= n,
            r@ == identity_seq(i as nat),
        decreases n - i,
    {
        r.push(i);
        i = i + 1;
        assert(r@ =~= identity_seq(i as nat));
    }
    r
}

/// Relies on rand's `SliceRandom::shuffle` over `rand::thread_rng()`: it only
/// swaps elements in place, so the multiset of elements is kept.
#[verifier::external_body]
pub(crate) fn shuffle(v: &mut Vec<usize>)
    ensures
        final(v)@.to_multiset() == old(v)@.to_multiset(),
{
    v.shuffle(&mut rand::thread_rng());
}

/// A random permutation of `0, 1, ..., n - 1`.
pub fn random_permutation(n: usize) -> (r: Vec<usize>)
    ensures
        r@.len() == n,
        is_permutation(r@),
{
    let mut v = identity_vec(n);
    shuffle(&mut v);
    proof {
        lemma_rearranged_identity(v@, n as nat);
    }
    v
}

} // verus!

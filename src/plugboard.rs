use crate::error::EnigmaError;
use vstd::prelude::*;

verus! {

/// Two pairs share no index.
pub open spec fn pairs_disjoint(p: (usize, usize), q: (usize, usize)) -> bool {
    p.0 != q.0 && p.0 != q.1 && p.1 != q.0 && p.1 != q.1
}

/// Each pair joins two different indices, and no index is in two pairs.
pub open spec fn valid_pairs(s: Seq<(usize, usize)>) -> bool {
    &&& forall|k: int| 0 <= k < s.len() ==> (#[trigger] s[k]).0 != s[k].1
    &&& forall|k1: int, k2: int|
        0 <= k1 < s.len() && 0 <= k2 < s.len() && k1 != k2 ==> pairs_disjoint(
            #[trigger] s[k1],
            #[trigger] s[k2],
        )
}

/// Every index in the pairs is below `n`.
pub open spec fn pairs_below(s: Seq<(usize, usize)>, n: nat) -> bool {
    forall|k: int| 0 <= k < s.len() ==> (#[trigger] s[k]).0 < n && s[k].1 < n
}

/// The partner of `i` under the pairs `s`, or `i` itself when no pair holds it.
pub open spec fn swapped(s: Seq<(usize, usize)>, i: int) -> int {
    if exists|k: int| 0 <= k < s.len() && (#[trigger] s[k]).0 == i {
        s[choose|k: int| 0 <= k < s.len() && (#[trigger] s[k]).0 == i].1 as int
    } else if exists|k: int| 0 <= k < s.len() && (#[trigger] s[k]).1 == i {
        s[choose|k: int| 0 <= k < s.len() && (#[trigger] s[k]).1 == i].0 as int
    } else {
        i
    }
}

/// In valid pairs, the pair at `k` decides the partner of both its indices.
proof fn lemma_swapped_at(s: Seq<(usize, usize)>, k: int)
    requires
        valid_pairs(s),
        0 <= k < s.len(),
    ensures
        swapped(s, s[k].0 as int) == s[k].1,
        swapped(s, s[k].1 as int) == s[k].0,
{
    let a = s[k].0 as int;
    let b = s[k].1 as int;
    assert(exists|t: int| 0 <= t < s.len() && (#[trigger] s[t]).0 == a);
    let ka = choose|t: int| 0 <= t < s.len() && (#[trigger] s[t]).0 == a;
    if ka != k {
        assert(pairs_disjoint(s[ka], s[k]));
    }
    assert(exists|t: int| 0 <= t < s.len() && (#[trigger] s[t]).1 == b);
    if exists|t: int| 0 <= t < s.len() && (#[trigger] s[t]).0 == b {
        let t = choose|t: int| 0 <= t < s.len() && (#[trigger] s[t]).0 == b;
        if t != k {
            assert(pairs_disjoint(s[t], s[k]));
        }
    }
    let kb = choose|t: int| 0 <= t < s.len() && (#[trigger] s[t]).1 == b;
    if kb != k {
        assert(pairs_disjoint(s[kb], s[k]));
    }
}

/// The plugboard swaps each index of a pair for the other, both ways:
/// applying it twice gives back the index.
pub proof fn lemma_swap_involution(s: Seq<(usize, usize)>, i: int)
    requires
        valid_pairs(s),
    ensures
        swapped(s, swapped(s, i)) == i,
{
    if exists|k: int| 0 <= k < s.len() && (#[trigger] s[k]).0 == i {
        let k = choose|k: int| 0 <= k < s.len() && (#[trigger] s[k]).0 == i;
        lemma_swapped_at(s, k);
    } else if exists|k: int| 0 <= k < s.len() && (#[trigger] s[k]).1 == i {
        let k = choose|k: int| 0 <= k < s.len() && (#[trigger] s[k]).1 == i;
        lemma_swapped_at(s, k);
    }
}

/// With every paired index below `n`, the plugboard maps `[0, n)` into itself.
pub proof fn lemma_swap_in_range(s: Seq<(usize, usize)>, n: nat, i: int)
    requires
        pairs_below(s, n),
        0 <= i < n,
    ensures
        0 <= swapped(s, i) < n,
{
    if exists|k: int| 0 <= k < s.len() && (#[trigger] s[k]).0 == i {
        let k = choose|k: int| 0 <= k < s.len() && (#[trigger] s[k]).0 == i;
        assert(s[k].1 < n);
    } else if exists|k: int| 0 <= k < s.len() && (#[trigger] s[k]).1 == i {
        let k = choose|k: int| 0 <= k < s.len() && (#[trigger] s[k]).1 == i;
        assert(s[k].0 < n);
    }
}

/// A static swap table applied before and after the rotors.
#[derive(Clone, Debug)]
pub struct Plugboard {
    pairs: Vec<(usize, usize)>,
}

impl Plugboard {
    /// The configured pairs.
    pub closed spec fn pairs(&self) -> Seq<(usize, usize)> {
        self.pairs@
    }

    pub closed spec fn wf(&self) -> bool {
        valid_pairs(self.pairs@)
    }

    /// What a well-formed plugboard is, seen from outside.
    pub proof fn lemma_wf(&self)
        requires
            self.wf(),
        ensures
            valid_pairs(self.pairs()),
    {
    }

    /// A plugboard with the given pairs. Refused when a pair joins an index
    /// to itself or an index is used twice.
    pub fn new(a: &Vec<(usize, usize)>) -> (r: Result<Plugboard, EnigmaError>)
        ensures
            r is Ok <==> valid_pairs(a@),
            r matches Ok(pb) ==> pb.wf() && pb.pairs() == a@,
            r matches Err(e) ==> e == EnigmaError::ConstructionError,
    {
        let mut pairs: Vec<(usize, usize)> = Vec::new();
        let mut k: usize = 0;
        while k < a.len()
            invariant
                k <= a@.len(),
                pairs@ == a@.subrange(0, k as int),
                valid_pairs(pairs@),
            decreases a@.len() - k,
        {
            let p = a[k];
            if p.0 == p.1 {
                return Err(EnigmaError::ConstructionError);
            }
            let mut t: usize = 0;
            while t < k
                invariant
                    k < a@.len(),
                    t <= k,
                    p == a@[k as int],
                    forall|u: int| 0 <= u < t ==> pairs_disjoint(#[trigger] a@[u], p),
                decreases k - t,
            {
                let q = a[t];
                if q.0 == p.0 || q.0 == p.1 || q.1 == p.0 || q.1 == p.1 {
                    assert(!pairs_disjoint(a@[t as int], a@[k as int]));
                    return Err(EnigmaError::ConstructionError);
                }
                t = t + 1;
            }
            pairs.push(p);
            k = k + 1;
            assert(pairs@ =~= a@.subrange(0, k as int));
            assert forall|k1: int, k2: int|
                0 <= k1 < pairs@.len() && 0 <= k2 < pairs@.len() && k1 != k2 implies pairs_disjoint(
                #[trigger] pairs@[k1],
                #[trigger] pairs@[k2],
            ) by {
                if k2 == k - 1 {
                    assert(pairs_disjoint(a@[k1], p));
                } else if k1 == k - 1 {
                    assert(pairs_disjoint(a@[k2], p));
                }
            }
        }
        assert(a@.subrange(0, a@.len() as int) =~= a@);
        Ok(Plugboard { pairs })
    }

    /// A copy with the same pairs.
    pub fn clone_pairs(&self) -> (r: Plugboard)
        requires
            self.wf(),
        ensures
            r.wf(),
            r.pairs() == self.pairs(),
    {
        let mut pairs: Vec<(usize, usize)> = Vec::new();
        let mut k: usize = 0;
        while k < self.pairs.len()
            invariant
                k <= self.pairs@.len(),
                pairs@ == self.pairs@.subrange(0, k as int),
            decreases self.pairs@.len() - k,
        {
            pairs.push(self.pairs[k]);
            k = k + 1;
            assert(pairs@ =~= self.pairs@.subrange(0, k as int));
        }
        assert(self.pairs@.subrange(0, self.pairs@.len() as int) =~= self.pairs@);
        Plugboard { pairs }
    }

    /// The partner of `i`, or `i` when no pair holds it.
    pub fn input(&self, i: usize) -> (r: usize)
        requires
            self.wf(),
        ensures
            r as int == swapped(self.pairs(), i as int),
    {
        let n = self.pairs.len();
        let mut k: usize = 0;
        while k < n
            invariant
                n == self.pairs@.len(),
                valid_pairs(self.pairs@),
                k <= n,
                forall|t: int|
                    0 <= t < k ==> (#[trigger] self.pairs@[t]).0 != i && self.pairs@[t].1 != i,
            decreases n - k,
        {
            let p = self.pairs[k];
            if p.0 == i || p.1 == i {
                proof {
                    lemma_swapped_at(self.pairs@, k as int);
                }
                return if p.0 == i {
                    p.1
                } else {
                    p.0
                };
            }
            k = k + 1;
        }
        i
    }

    /// Whether every paired index is below `n`.
    pub fn fits_within(&self, n: usize) -> (r: bool)
        ensures
            r == pairs_below(self.pairs(), n as nat),
    {
        let mut k: usize = 0;
        while k < self.pairs.len()
            invariant
                k <= self.pairs@.len(),
                forall|t: int|
                    0 <= t < k ==> (#[trigger] self.pairs@[t]).0 < n && self.pairs@[t].1 < n,
            decreases self.pairs@.len() - k,
        {
            let p = self.pairs[k];
            if p.0 >= n || p.1 >= n {
                return false;
            }
            k = k + 1;
        }
        true
    }
}

impl Default for Plugboard {
    /// A plugboard without pairs: every index stays as it is.
    fn default() -> (r: Plugboard)
        ensures
            r.wf(),
            r.pairs() == Seq::<(usize, usize)>::empty(),
    {
        Plugboard { pairs: Vec::new() }
    }
}

} // verus!

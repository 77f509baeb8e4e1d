use crate::error::EnigmaError;
use crate::permutation::{
    identity_seq, is_permutation, lemma_preimage_exists, lemma_preimage_unique, preimage,
    random_permutation,
};
use vstd::arithmetic::div_mod::{
    lemma_add_mod_noop_right, lemma_mod_multiples_vanish, lemma_small_mod, lemma_sub_mod_noop_right,
};
use vstd::prelude::*;

verus! {

/// The contact that a wiring `w` rotated by `o` steps gives for entry `i`:
/// `(w[(i + o) mod N] - o) mod N`.
pub open spec fn shift_forward(w: Seq<usize>, i: int, o: int) -> int {
    let n = w.len() as int;
    (w[(i + o) % n] - o) % n
}

/// The same rotation applied to the inverse wiring:
/// `(w⁻¹[(i + o) mod N] - o) mod N`.
pub open spec fn shift_inverse(w: Seq<usize>, i: int, o: int) -> int {
    let n = w.len() as int;
    (preimage(w, (i + o) % n) - o) % n
}

/// `x mod n` computed from a reduced offset is the same as from the whole one.
proof fn lemma_reduced_offset(x: int, o: int, n: int)
    requires
        n > 0,
    ensures
        (x + o % n) % n == (x + o) % n,
        (x - o % n) % n == (x - o) % n,
{
    lemma_add_mod_noop_right(x, o, n);
    lemma_sub_mod_noop_right(x, o, n);
}

/// Adds `o` to a contact `i` modulo `n` without leaving `usize`.
fn add_mod(i: usize, o: usize, n: usize) -> (r: usize)
    requires
        i < n,
    ensures
        r as int == (i + o) % (n as int),
        r < n,
{
    let o1 = o % n;
    proof {
        lemma_reduced_offset(i as int, o as int, n as int);
    }
    if i >= n - o1 {
        proof {
            lemma_mod_multiples_vanish(1, i + o1 - n, n as int);
            lemma_small_mod((i + o1 - n) as nat, n as nat);
        }
        i - (n - o1)
    } else {
        proof {
            lemma_small_mod((i + o1) as nat, n as nat);
        }
        i + o1
    }
}

/// Subtracts `o` from a contact `b` modulo `n` without leaving `usize`.
fn sub_mod(b: usize, o: usize, n: usize) -> (r: usize)
    requires
        b < n,
    ensures
        r as int == (b - o) % (n as int),
{
    let o1 = o % n;
    proof {
        lemma_reduced_offset(b as int, o as int, n as int);
    }
    if b >= o1 {
        proof {
            lemma_small_mod((b - o1) as nat, n as nat);
        }
        b - o1
    } else {
        proof {
            lemma_mod_multiples_vanish(1, b - o1, n as int);
            lemma_small_mod((n + b - o1) as nat, n as nat);
        }
        b + (n - o1)
    }
}

/// A wired disk: a bijection of `[0, N)` onto itself, with its inverse kept
/// beside it.
#[derive(Clone, Debug)]
pub struct Rotor {
    len: usize,
    /// `output_vec[i]` is the contact that entry `i` is wired to.
    output_vec: Vec<usize>,
    /// `inverse_vec[j]` is the entry wired to contact `j`.
    inverse_vec: Vec<usize>,
}

/// Builds the inverse table of `w`, or refuses `w` if it is not a
/// permutation of `[0, w.len())`.
fn invert(w: &Vec<usize>) -> (r: Result<Vec<usize>, EnigmaError>)
    ensures
        r is Ok <==> is_permutation(w@),
        r matches Ok(inv) ==> inv@.len() == w@.len() && forall|j: int|
            0 <= j < w@.len() ==> #[trigger] inv@[j] < w@.len() && w@[inv@[j] as int] == j,
{
    let n = w.len();
    let mut inv: Vec<usize> = vec![n; n];
    let mut k: usize = 0;
    while k < n
        invariant
            n == w@.len(),
            k <= n,
            inv@.len() == n,
            forall|j: int|
                0 <= j < n ==> #[trigger] inv@[j] == n || (inv@[j] < k && w@[inv@[j] as int]
                    == j),
            forall|i: int| 0 <= i < k ==> #[trigger] w@[i] < n && inv@[w@[i] as int] == i,
        decreases n - k,
    {
        let c = w[k];
        if c >= n {
            return Err(EnigmaError::ConstructionError);
        }
        if inv[c] != n {
            proof {
                let p = inv@[c as int] as int;
                assert(w@[p] == w@[k as int]);
                assert(!w@.no_duplicates());
            }
            return Err(EnigmaError::ConstructionError);
        }
        inv.set(c, k);
        k = k + 1;
    }
    let mut j: usize = 0;
    while j < n
        invariant
            n == w@.len(),
            inv@.len() == n,
            forall|t: int|
                0 <= t < n ==> #[trigger] inv@[t] == n || (inv@[t] < n && w@[inv@[t] as int]
                    == t),
            forall|i: int| 0 <= i < n ==> #[trigger] w@[i] < n && inv@[w@[i] as int] == i,
            forall|t: int| 0 <= t < j ==> #[trigger] inv@[t] < n,
        decreases n - j,
    {
        if inv[j] == n {
            proof {
                if w@.contains(j) {
                    let p = choose|p: int| 0 <= p < n && w@[p] == j;
                    assert(inv@[w@[p] as int] == p);
                }
                assert(!w@.contains((j as int) as usize));
            }
            return Err(EnigmaError::ConstructionError);
        }
        j = j + 1;
    }
    proof {
        assert forall|i1: int, i2: int|
            0 <= i1 < n && 0 <= i2 < n && i1 != i2 implies w@[i1] != w@[i2] by {
            assert(inv@[w@[i1] as int] == i1);
            assert(inv@[w@[i2] as int] == i2);
        }
        assert forall|t: int| 0 <= t < n implies w@.contains(#[trigger] (t as usize)) by {
            assert(inv@[t] < n);
            assert(w@[inv@[t] as int] == t);
        }
    }
    Ok(inv)
}

impl Rotor {
    /// The wiring: entry `i` is connected to contact `wiring()[i]`.
    pub closed spec fn wiring(&self) -> Seq<usize> {
        self.output_vec@
    }

    /// The rotor's contact count.
    pub closed spec fn size(&self) -> nat {
        self.len as nat
    }

    pub closed spec fn wf(&self) -> bool {
        &&& self.len == self.output_vec@.len()
        &&& self.len == self.inverse_vec@.len()
        &&& self.len % 2 == 0
        &&& is_permutation(self.output_vec@)
        &&& forall|j: int|
            0 <= j < self.len ==> #[trigger] self.inverse_vec@[j] < self.len
                && self.output_vec@[self.inverse_vec@[j] as int] == j
    }

    /// What a well-formed rotor is, seen from outside.
    pub proof fn lemma_wf(&self)
        requires
            self.wf(),
        ensures
            is_permutation(self.wiring()),
            self.wiring().len() == self.size(),
            self.size() % 2 == 0,
            self.size() <= usize::MAX,
    {
    }

    /// A rotor with the given wiring. Refused when the length is odd or the
    /// wiring is not a permutation of `[0, N)`.
    pub fn from_wiring(output: Vec<usize>) -> (r: Result<Rotor, EnigmaError>)
        ensures
            r is Ok <==> output@.len() % 2 == 0 && is_permutation(output@),
            r matches Ok(rot) ==> rot.wf() && rot.wiring() == output@ && rot.size()
                == output@.len(),
            r matches Err(e) ==> e == EnigmaError::ConstructionError,
    {
        if output.len() % 2 != 0 {
            return Err(EnigmaError::ConstructionError);
        }
        match invert(&output) {
            Ok(inv) => Ok(Rotor { len: output.len(), output_vec: output, inverse_vec: inv }),
            Err(_) => Err(EnigmaError::ConstructionError),
        }
    }

    /// A rotor of `contactor_len` contacts with a uniformly random wiring.
    /// Refused when `contactor_len` is odd.
    pub fn init(contactor_len: usize) -> (r: Result<Rotor, EnigmaError>)
        ensures
            r is Ok <==> contactor_len % 2 == 0,
            r matches Ok(rot) ==> rot.wf() && rot.size() == contactor_len,
            r matches Err(e) ==> e == EnigmaError::ConstructionError,
    {
        if contactor_len % 2 != 0 {
            return Err(EnigmaError::ConstructionError);
        }
        let w = random_permutation(contactor_len);
        Rotor::from_wiring(w)
    }

    pub fn len(&self) -> (r: usize)
        ensures
            r == self.size(),
    {
        self.len
    }

    /// Replaces the wiring. Refused, leaving the rotor as it was, when the
    /// length is odd or the wiring is not a permutation of `[0, N)`.
    pub fn set(&mut self, output: Vec<usize>) -> (r: Result<(), EnigmaError>)
        requires
            old(self).wf(),
        ensures
            final(self).wf(),
            r is Ok <==> output@.len() % 2 == 0 && is_permutation(output@),
            r is Ok ==> final(self).wiring() == output@ && final(self).size() == output@.len(),
            r is Err ==> *final(self) == *old(self),
            r matches Err(e) ==> e == EnigmaError::ConstructionError,
    {
        match Rotor::from_wiring(output) {
            Ok(rot) => {
                *self = rot;
                Ok(())
            },
            Err(e) => Err(e),
        }
    }

    /// A copy with the same wiring.
    pub fn duplicate(&self) -> (r: Rotor)
        requires
            self.wf(),
        ensures
            r.wf(),
            r.wiring() == self.wiring(),
            r.size() == self.size(),
    {
        let output_vec = self.output_vec.clone();
        let inverse_vec = self.inverse_vec.clone();
        assert(output_vec@ =~= self.output_vec@);
        assert(inverse_vec@ =~= self.inverse_vec@);
        Rotor { len: self.len, output_vec, inverse_vec }
    }

    /// The contact that entry `i` is wired to; `RangeError` when `i >= N`.
    pub fn input(&self, i: usize) -> (r: Result<usize, EnigmaError>)
        requires
            self.wf(),
        ensures
            r is Ok <==> i < self.size(),
            r matches Ok(o) ==> o == self.wiring()[i as int],
            r matches Err(e) ==> e == EnigmaError::RangeError,
    {
        if i >= self.len {
            Err(EnigmaError::RangeError)
        } else {
            Ok(self.output_vec[i])
        }
    }

    /// The entry wired to contact `i`; `RangeError` when `i >= N`.
    pub fn rev_input(&self, i: usize) -> (r: Result<usize, EnigmaError>)
        requires
            self.wf(),
        ensures
            r is Ok <==> i < self.size(),
            r matches Ok(p) ==> p as int == preimage(self.wiring(), i as int) && p < self.size(),
            r matches Err(e) ==> e == EnigmaError::RangeError,
    {
        if i >= self.len {
            Err(EnigmaError::RangeError)
        } else {
            let p = self.inverse_vec[i];
            proof {
                lemma_preimage_unique(self.output_vec@, i as int, p as int);
            }
            Ok(p)
        }
    }

    /// The rotor turned by `offset` steps: entry `i` gives
    /// `(wiring[(i + offset) mod N] - offset) mod N`; `RangeError` when `i >= N`.
    pub fn input_with_offset(&self, i: usize, offset: usize) -> (r: Result<usize, EnigmaError>)
        requires
            self.wf(),
        ensures
            r is Ok <==> i < self.size(),
            r matches Ok(o) ==> o as int == shift_forward(self.wiring(), i as int, offset as int)
                && o < self.size(),
            r matches Err(e) ==> e == EnigmaError::RangeError,
    {
        if i >= self.len {
            return Err(EnigmaError::RangeError);
        }
        let n = self.len;
        let a = add_mod(i, offset, n);
        let b = self.output_vec[a];
        Ok(sub_mod(b, offset, n))
    }

    /// The turned rotor traversed backwards: contact `i` gives
    /// `(wiring⁻¹[(i + offset) mod N] - offset) mod N`; `RangeError` when `i >= N`.
    pub fn rev_input_with_offset(&self, i: usize, offset: usize) -> (r: Result<
        usize,
        EnigmaError,
    >)
        requires
            self.wf(),
        ensures
            r is Ok <==> i < self.size(),
            r matches Ok(o) ==> o as int == shift_inverse(self.wiring(), i as int, offset as int)
                && o < self.size(),
            r matches Err(e) ==> e == EnigmaError::RangeError,
    {
        if i >= self.len {
            return Err(EnigmaError::RangeError);
        }
        let n = self.len;
        let a = add_mod(i, offset, n);
        let b = self.inverse_vec[a];
        proof {
            lemma_preimage_unique(self.output_vec@, a as int, b as int);
        }
        Ok(sub_mod(b, offset, n))
    }
}

impl Default for Rotor {
    /// A random rotor of 26 contacts.
    fn default() -> (r: Rotor)
        ensures
            r.wf(),
            r.size() == 26,
    {
        match Rotor::init(26) {
            Ok(r) => r,
            Err(_) => {
                assert(false);
                Rotor { len: 0, output_vec: Vec::new(), inverse_vec: Vec::new() }
            },
        }
    }
}

/// `s` is an involution of `[0, s.len())` without fixed points, over an even
/// number of contacts.
pub open spec fn is_reflection(s: Seq<usize>) -> bool {
    &&& s.len() % 2 == 0
    &&& forall|i: int|
        0 <= i < s.len() ==> #[trigger] s[i] < s.len() && s[s[i] as int] == i && s[i] != i
}

/// A fixed wiring that pairs the contacts two by two.
#[derive(Clone, Debug)]
pub struct Reflector {
    /// `partner[i]` is the contact paired with `i`.
    partner: Vec<usize>,
}

impl Reflector {
    /// The pairing: contact `i` is connected to `wiring()[i]`.
    pub closed spec fn wiring(&self) -> Seq<usize> {
        self.partner@
    }

    pub closed spec fn wf(&self) -> bool {
        is_reflection(self.partner@)
    }

    /// What a well-formed reflector is, seen from outside.
    pub proof fn lemma_wf(&self)
        requires
            self.wf(),
        ensures
            is_reflection(self.wiring()),
            self.wiring().len() <= usize::MAX,
    {
        assert(self.partner@.len() == self.partner.len());
    }

    /// A reflector of `length` contacts paired at random. Refused when
    /// `length` is odd.
    pub fn init(length: usize) -> (r: Result<Reflector, EnigmaError>)
        ensures
            r is Ok <==> length % 2 == 0,
            r matches Ok(re) ==> re.wf() && re.wiring().len() == length,
            r matches Err(e) ==> e == EnigmaError::ConstructionError,
    {
        if length % 2 != 0 {
            return Err(EnigmaError::ConstructionError);
        }
        let order = random_permutation(length);
        let n = length;
        let mut partner: Vec<usize> = vec![0; n];
        let mut p: usize = 0;
        while p < n
            invariant
                n == order@.len(),
                is_permutation(order@),
                p <= n,
                partner@.len() == n,
                forall|q: int|
                    0 <= q < p ==> #[trigger] partner@[order@[q] as int] == order@[n - 1 - q],
            decreases n - p,
        {
            partner.set(order[p], order[n - 1 - p]);
            p = p + 1;
        }
        proof {
            assert forall|i: int| 0 <= i < n implies #[trigger] partner@[i] < n
                && partner@[partner@[i] as int] == i && partner@[i] != i by {
                lemma_preimage_exists(order@, i);
                let q = preimage(order@, i);
                assert(partner@[order@[q] as int] == order@[n - 1 - q]);
                assert(partner@[order@[n - 1 - q] as int] == order@[n - 1 - (n - 1 - q)]);
                assert(n - 1 - q != q);
            }
        }
        Ok(Reflector { partner })
    }

    /// A reflector with the given pairing. Refused unless the pairing is an
    /// involution of `[0, N)` without fixed points and `N` is even.
    pub fn from_wiring(wiring: Vec<usize>) -> (r: Result<Reflector, EnigmaError>)
        ensures
            r is Ok <==> is_reflection(wiring@),
            r matches Ok(re) ==> re.wf() && re.wiring() == wiring@,
            r matches Err(e) ==> e == EnigmaError::ConstructionError,
    {
        let n = wiring.len();
        if n % 2 != 0 {
            return Err(EnigmaError::ConstructionError);
        }
        let mut i: usize = 0;
        while i < n
            invariant
                n == wiring@.len(),
                i <= n,
                forall|t: int|
                    0 <= t < i ==> #[trigger] wiring@[t] < n && wiring@[wiring@[t] as int] == t
                        && wiring@[t] != t,
            decreases n - i,
        {
            let j = wiring[i];
            if j >= n || wiring[j] != i || j == i {
                return Err(EnigmaError::ConstructionError);
            }
            i = i + 1;
        }
        Ok(Reflector { partner: wiring })
    }

    /// A copy with the same pairing.
    pub fn duplicate(&self) -> (r: Reflector)
        requires
            self.wf(),
        ensures
            r.wf(),
            r.wiring() == self.wiring(),
    {
        let partner = self.partner.clone();
        assert(partner@ =~= self.partner@);
        Reflector { partner }
    }

    /// The contact paired with `i`; `RangeError` when `i >= N`.
    pub fn input(&self, i: usize) -> (r: Result<usize, EnigmaError>)
        requires
            self.wf(),
        ensures
            r is Ok <==> i < self.wiring().len(),
            r matches Ok(o) ==> o == self.wiring()[i as int],
            r matches Err(e) ==> e == EnigmaError::RangeError,
    {
        if i >= self.partner.len() {
            Err(EnigmaError::RangeError)
        } else {
            Ok(self.partner[i])
        }
    }

    pub fn len(&self) -> (r: usize)
        ensures
            r == self.wiring().len(),
    {
        self.partner.len()
    }
}

/// Rotor wirings `ws` and a reflection `refl` that fit together: every wiring
/// is a permutation over as many contacts as the reflection has.
pub open spec fn valid_chain(ws: Seq<Seq<usize>>, refl: Seq<usize>) -> bool {
    &&& is_reflection(refl)
    &&& refl.len() <= usize::MAX
    &&& forall|k: int|
        0 <= k < ws.len() ==> is_permutation(#[trigger] ws[k]) && ws[k].len() == refl.len()
}

/// One offset per rotor, each below the contact count.
pub open spec fn valid_offsets(offs: Seq<usize>, count: nat, n: nat) -> bool {
    &&& offs.len() == count
    &&& forall|j: int| 0 <= j < offs.len() ==> #[trigger] offs[j] < n
}

/// Entry `i` carried through the first `k` turned rotors, left to right.
pub open spec fn forward_pass(ws: Seq<Seq<usize>>, offs: Seq<usize>, i: int, k: nat) -> int
    decreases k,
{
    if k == 0 {
        i
    } else {
        shift_forward(ws[k - 1], forward_pass(ws, offs, i, (k - 1) as nat), offs[k - 1] as int)
    }
}

/// Contact `x` carried back through the first `k` turned rotors, right to left.
pub open spec fn backward_pass(ws: Seq<Seq<usize>>, offs: Seq<usize>, x: int, k: nat) -> int
    decreases k,
{
    if k == 0 {
        x
    } else {
        backward_pass(ws, offs, shift_inverse(ws[k - 1], x, offs[k - 1] as int), (k - 1) as nat)
    }
}

/// The whole traversal of a chain under offsets `offs`: forward through all
/// rotors, through the reflector, and back through all rotors.
pub open spec fn chain_map(ws: Seq<Seq<usize>>, refl: Seq<usize>, offs: Seq<usize>, i: int) -> int {
    backward_pass(ws, offs, refl[forward_pass(ws, offs, i, ws.len())] as int, ws.len())
}

/// Every offset before position `j` stands at its largest value `n - 1`.
pub open spec fn carries_into(s: Seq<usize>, n: nat, j: int) -> bool {
    forall|t: int| 0 <= t < j ==> #[trigger] s[t] == n - 1
}

/// The odometer step in base `n`: a position turns (from `n - 1` back to `0`,
/// or up by one) exactly when every position before it stands at `n - 1`.
pub open spec fn advance(s: Seq<usize>, n: nat) -> Seq<usize> {
    Seq::new(
        s.len(),
        |j: int|
            if carries_into(s, n, j) {
                ((s[j] + 1) % (n as int)) as usize
            } else {
                s[j]
            },
    )
}

/// `count` offsets at zero.
pub open spec fn zeros(count: nat) -> Seq<usize> {
    Seq::new(count, |j: int| 0usize)
}

/// Stepping keeps every offset below `n`.
pub proof fn lemma_advance_valid(s: Seq<usize>, n: nat)
    requires
        n > 0,
        forall|j: int| 0 <= j < s.len() ==> #[trigger] s[j] < n,
    ensures
        valid_offsets(advance(s, n), s.len(), n),
{
    assert forall|j: int| 0 <= j < s.len() implies #[trigger] advance(s, n)[j] < n by {
        if carries_into(s, n, j) {
            assert(0 <= (s[j] + 1) % (n as int) < n);
        }
    }
}

/// Steps the offsets `s` as an odometer in base `n`.
fn step_odometer(s: &mut Vec<usize>, n: usize)
    requires
        forall|j: int| 0 <= j < old(s)@.len() ==> #[trigger] old(s)@[j] < n,
    ensures
        final(s)@ == advance(old(s)@, n as nat),
{
    let ghost s0 = s@;
    let k = s.len();
    let mut ind: usize = 0;
    while ind < k
        invariant
            k == s@.len(),
            k == s0.len(),
            s0 == old(s)@,
            ind <= k,
            forall|j: int| 0 <= j < k ==> #[trigger] s0[j] < n,
            carries_into(s0, n as nat, ind as int),
            forall|j: int| 0 <= j < ind ==> #[trigger] s@[j] == 0,
            forall|j: int| ind <= j < k ==> #[trigger] s@[j] == s0[j],
        decreases k - ind,
    {
        let v = s[ind] + 1;
        if v == n {
            s.set(ind, 0);
            proof {
                assert forall|t: int| 0 <= t < ind + 1 implies #[trigger] s0[t] == n - 1 by {
                    if t < ind {
                        assert(carries_into(s0, n as nat, ind as int));
                    }
                }
            }
            ind = ind + 1;
        } else {
            s.set(ind, v);
            proof {
                assert forall|j: int| 0 <= j < k implies #[trigger] s@[j] == advance(
                    s0,
                    n as nat,
                )[j] by {
                    if j < ind {
                        assert(s0[j] == n - 1);
                        vstd::arithmetic::div_mod::lemma_mod_self_0(n as int);
                    } else if j == ind {
                        lemma_small_mod(v as nat, n as nat);
                    } else {
                        assert(!carries_into(s0, n as nat, j));
                    }
                }
                assert(s@ =~= advance(s0, n as nat));
            }
            return;
        }
    }
    proof {
        assert forall|j: int| 0 <= j < k implies #[trigger] s@[j] == advance(s0, n as nat)[j] by {
            assert(s0[j] == n - 1);
            vstd::arithmetic::div_mod::lemma_mod_self_0(n as int);
        }
        assert(s@ =~= advance(s0, n as nat));
    }
}

/// Rotors in order, a reflector, and the current offset of each rotor.
#[derive(Debug)]
pub struct RotorChain {
    /// The offset by which each rotor is turned; stepped as an odometer after
    /// each symbol.
    pub spin_status: Vec<usize>,
    chain: Vec<Rotor>,
    reflect: Reflector,
}

impl RotorChain {
    /// The wirings of the rotors, in order.
    pub closed spec fn wirings(&self) -> Seq<Seq<usize>> {
        self.chain@.map_values(|r: Rotor| r.wiring())
    }

    /// The reflector's pairing.
    pub closed spec fn reflection(&self) -> Seq<usize> {
        self.reflect.wiring()
    }

    /// The contact count shared by every part of the chain.
    pub open spec fn size(&self) -> nat {
        self.reflection().len()
    }

    /// The current offsets.
    pub closed spec fn spin(&self) -> Seq<usize> {
        self.spin_status@
    }

    pub closed spec fn wf(&self) -> bool {
        &&& self.reflect.wf()
        &&& forall|k: int|
            0 <= k < self.chain@.len() ==> #[trigger] self.chain@[k].wf() && self.chain@[k].size()
                == self.reflect.wiring().len()
    }

    /// What a well-formed chain is, seen from outside.
    pub proof fn lemma_wf(&self)
        requires
            self.wf(),
        ensures
            valid_chain(self.wirings(), self.reflection()),
    {
        self.reflect.lemma_wf();
        assert forall|k: int| 0 <= k < self.wirings().len() implies is_permutation(
            #[trigger] self.wirings()[k],
        ) && self.wirings()[k].len() == self.reflection().len() by {
            assert(self.wirings()[k] == self.chain@[k].wiring());
            assert(self.chain@[k].wf());
            self.chain@[k].lemma_wf();
        }
    }

    /// A chain of copies of `rotors` and `reflect`, with every offset at zero.
    /// Refused when some rotor's size differs from the reflector's.
    pub fn new(rotors: &Vec<Rotor>, reflect: &Reflector) -> (r: Result<RotorChain, EnigmaError>)
        requires
            forall|k: int| 0 <= k < rotors@.len() ==> (#[trigger] rotors@[k]).wf(),
            reflect.wf(),
        ensures
            r is Ok <==> forall|k: int|
                0 <= k < rotors@.len() ==> (#[trigger] rotors@[k]).size()
                    == reflect.wiring().len(),
            r matches Ok(c) ==> c.wf() && c.wirings() == rotors@.map_values(|x: Rotor| x.wiring())
                && c.reflection() == reflect.wiring() && c.spin() == zeros(rotors@.len()),
            r matches Err(e) ==> e == EnigmaError::ConstructionError,
    {
        let n = reflect.len();
        let mut chain: Vec<Rotor> = Vec::new();
        let mut spin_status: Vec<usize> = Vec::new();
        let mut k: usize = 0;
        while k < rotors.len()
            invariant
                n == reflect.wiring().len(),
                forall|t: int| 0 <= t < rotors@.len() ==> (#[trigger] rotors@[t]).wf(),
                k <= rotors@.len(),
                chain@.len() == k,
                forall|t: int|
                    0 <= t < k ==> (#[trigger] chain@[t]).wf() && chain@[t].size() == n
                        && chain@[t].wiring() == rotors@[t].wiring(),
                forall|t: int| 0 <= t < k ==> (#[trigger] rotors@[t]).size() == n,
                spin_status@ == zeros(k as nat),
            decreases rotors@.len() - k,
        {
            if rotors[k].len() != n {
                return Err(EnigmaError::ConstructionError);
            }
            chain.push(rotors[k].duplicate());
            spin_status.push(0);
            k = k + 1;
            assert(spin_status@ =~= zeros(k as nat));
        }
        let c = RotorChain { spin_status, chain, reflect: reflect.duplicate() };
        assert(c.wirings() =~= rotors@.map_values(|x: Rotor| x.wiring()));
        Ok(c)
    }

    /// Carries `i` through the chain under the current offsets, then steps the
    /// offsets as an odometer. `RangeError`, with nothing changed, when
    /// `i >= N` or the offsets are not one per rotor, each below `N`.
    #[verifier::loop_isolation(false)]
    pub fn input(&mut self, i: usize) -> (r: Result<usize, EnigmaError>)
        requires
            old(self).wf(),
        ensures
            final(self).wf(),
            final(self).wirings() == old(self).wirings(),
            final(self).reflection() == old(self).reflection(),
            r is Ok <==> i < old(self).size() && valid_offsets(
                old(self).spin(),
                old(self).wirings().len(),
                old(self).size(),
            ),
            r matches Ok(o) ==> o as int == chain_map(
                old(self).wirings(),
                old(self).reflection(),
                old(self).spin(),
                i as int,
            ) && o < old(self).size() && final(self).spin() == advance(
                old(self).spin(),
                old(self).size(),
            ),
            r is Err ==> final(self).spin() == old(self).spin(),
            r matches Err(e) ==> e == EnigmaError::RangeError,
    {
        let n = self.reflect.len();
        let k = self.chain.len();
        let ghost ws = self.wirings();
        let ghost offs = self.spin();
        if i >= n || self.spin_status.len() != k {
            return Err(EnigmaError::RangeError);
        }
        let mut j: usize = 0;
        while j < k
            invariant
                k == self.spin_status@.len(),
                j <= k,
                forall|t: int| 0 <= t < j ==> #[trigger] self.spin_status@[t] < n,
            decreases k - j,
        {
            if self.spin_status[j] >= n {
                return Err(EnigmaError::RangeError);
            }
            j = j + 1;
        }
        let mut temp = i;
        let mut ind: usize = 0;
        while ind < k
            invariant
                self.wf(),
                n == self.reflect.wiring().len(),
                k == self.chain@.len(),
                k == self.spin_status@.len(),
                ws == self.wirings(),
                offs == self.spin(),
                ind <= k,
                temp < n,
                temp as int == forward_pass(ws, offs, i as int, ind as nat),
            decreases k - ind,
        {
            assert(self.chain@[ind as int].wf());
            temp = match self.chain[ind].input_with_offset(temp, self.spin_status[ind]) {
                Ok(v) => v,
                Err(e) => return Err(e),
            };
            ind = ind + 1;
        }
        temp = match self.reflect.input(temp) {
            Ok(v) => v,
            Err(e) => return Err(e),
        };
        proof {
            self.reflect.lemma_wf();
        }
        let ghost mid = temp as int;
        let mut ind: usize = k;
        while ind > 0
            invariant
                self.wf(),
                n == self.reflect.wiring().len(),
                k == self.chain@.len(),
                k == self.spin_status@.len(),
                ws == self.wirings(),
                offs == self.spin(),
                ind <= k,
                temp < n,
                backward_pass(ws, offs, temp as int, ind as nat) == backward_pass(
                    ws,
                    offs,
                    mid,
                    k as nat,
                ),
            decreases ind,
        {
            ind = ind - 1;
            assert(self.chain@[ind as int].wf());
            temp = match self.chain[ind].rev_input_with_offset(temp, self.spin_status[ind]) {
                Ok(v) => v,
                Err(e) => return Err(e),
            };
        }
        step_odometer(&mut self.spin_status, n);
        Ok(temp)
    }

    /// Puts every offset back to zero.
    pub fn reset_spin_status(&mut self)
        requires
            old(self).wf(),
        ensures
            final(self).wf(),
            final(self).wirings() == old(self).wirings(),
            final(self).reflection() == old(self).reflection(),
            final(self).spin() == zeros(old(self).wirings().len()),
    {
        let k = self.chain.len();
        let mut s: Vec<usize> = Vec::new();
        let mut j: usize = 0;
        while j < k
            invariant
                j <= k,
                s@ == zeros(j as nat),
            decreases k - j,
        {
            s.push(0);
            j = j + 1;
            assert(s@ =~= zeros(j as nat));
        }
        self.spin_status = s;
    }

    /// Replaces the offsets. Refused with `ConstructionError`, with nothing
    /// changed, unless there is one offset per rotor, each below `N`.
    #[verifier::loop_isolation(false)]
    pub fn set_spin_status(&mut self, a: Vec<usize>) -> (r: Result<(), EnigmaError>)
        requires
            old(self).wf(),
        ensures
            final(self).wf(),
            final(self).wirings() == old(self).wirings(),
            final(self).reflection() == old(self).reflection(),
            r is Ok <==> valid_offsets(a@, old(self).wirings().len(), old(self).size()),
            r is Ok ==> final(self).spin() == a@,
            r is Err ==> final(self).spin() == old(self).spin(),
            r matches Err(e) ==> e == EnigmaError::ConstructionError,
    {
        let n = self.reflect.len();
        if a.len() != self.chain.len() {
            return Err(EnigmaError::ConstructionError);
        }
        let mut j: usize = 0;
        while j < a.len()
            invariant
                j <= a@.len(),
                forall|t: int| 0 <= t < j ==> #[trigger] a@[t] < n,
            decreases a@.len() - j,
        {
            if a[j] >= n {
                return Err(EnigmaError::ConstructionError);
            }
            j = j + 1;
        }
        self.spin_status = a;
        Ok(())
    }

    /// The contact count.
    pub fn len(&self) -> (r: usize)
        ensures
            r == self.size(),
    {
        self.reflect.len()
    }
}

} // verus!

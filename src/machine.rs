use crate::error::EnigmaError;
use crate::plugboard::{lemma_swap_in_range, pairs_below, swapped, valid_pairs, Plugboard};
use crate::rotor::{
    advance, chain_map, valid_chain, valid_offsets, zeros, Reflector, Rotor, RotorChain,
};
use vstd::prelude::*;

verus! {

/// One symbol through the whole machine under offsets `offs`: plugboard,
/// rotor chain, plugboard.
pub open spec fn encipher(
    ws: Seq<Seq<usize>>,
    refl: Seq<usize>,
    pairs: Seq<(usize, usize)>,
    offs: Seq<usize>,
    i: int,
) -> int {
    swapped(pairs, chain_map(ws, refl, offs, swapped(pairs, i)))
}

/// A rotor cipher machine: a plugboard around a chain of rotors closed by a
/// reflector.
#[derive(Debug)]
pub struct EnigmaM {
    /// The contact count, shared by every rotor and the reflector.
    cap: usize,
    rc: RotorChain,
    /// Every paired index is below `cap`.
    plugboard: Plugboard,
}

impl EnigmaM {
    /// The contact count.
    pub closed spec fn size(&self) -> nat {
        self.cap as nat
    }

    /// The wirings of the rotors, in order.
    pub closed spec fn wirings(&self) -> Seq<Seq<usize>> {
        self.rc.wirings()
    }

    /// The reflector's pairing.
    pub closed spec fn reflection(&self) -> Seq<usize> {
        self.rc.reflection()
    }

    /// The plugboard's pairs.
    pub closed spec fn pairs(&self) -> Seq<(usize, usize)> {
        self.plugboard.pairs()
    }

    /// The current offset of each rotor.
    pub closed spec fn spin(&self) -> Seq<usize> {
        self.rc.spin()
    }

    pub closed spec fn wf(&self) -> bool {
        &&& self.rc.wf()
        &&& self.plugboard.wf()
        &&& self.cap == self.rc.size()
        &&& pairs_below(self.plugboard.pairs(), self.cap as nat)
        &&& self.cap > 0 ==> valid_offsets(self.rc.spin(), self.rc.wirings().len(), self.cap as nat)
    }

    /// What a well-formed machine is, seen from outside.
    pub proof fn lemma_wf(&self)
        requires
            self.wf(),
        ensures
            valid_chain(self.wirings(), self.reflection()),
            self.reflection().len() == self.size(),
            valid_pairs(self.pairs()),
            pairs_below(self.pairs(), self.size()),
            self.size() > 0 ==> valid_offsets(self.spin(), self.wirings().len(), self.size()),
    {
        self.rc.lemma_wf();
        self.plugboard.lemma_wf();
    }

    /// A machine of `cap` contacts with `rotor_num` random rotors, a random
    /// reflector, a copy of `pb`, and every offset at zero. Refused when `cap`
    /// is odd or `pb` pairs an index at or beyond `cap`.
    pub fn new(cap: usize, rotor_num: usize, pb: &Plugboard) -> (r: Result<EnigmaM, EnigmaError>)
        requires
            pb.wf(),
        ensures
            r is Ok <==> cap % 2 == 0 && pairs_below(pb.pairs(), cap as nat),
            r matches Ok(m) ==> m.wf() && m.size() == cap && m.wirings().len() == rotor_num
                && m.pairs() == pb.pairs() && m.spin() == zeros(rotor_num as nat),
            r matches Err(e) ==> e == EnigmaError::ConstructionError,
    {
        if cap % 2 != 0 || !pb.fits_within(cap) {
            return Err(EnigmaError::ConstructionError);
        }
        let mut rotors: Vec<Rotor> = Vec::new();
        let mut k: usize = 0;
        while k < rotor_num
            invariant
                cap % 2 == 0,
                k <= rotor_num,
                rotors@.len() == k,
                forall|t: int|
                    0 <= t < k ==> (#[trigger] rotors@[t]).wf() && rotors@[t].size() == cap,
            decreases rotor_num - k,
        {
            match Rotor::init(cap) {
                Ok(r) => rotors.push(r),
                Err(e) => return Err(e),
            }
            k = k + 1;
        }
        let reflector = match Reflector::init(cap) {
            Ok(re) => re,
            Err(e) => return Err(e),
        };
        let rc = match RotorChain::new(&rotors, &reflector) {
            Ok(c) => c,
            Err(e) => return Err(e),
        };
        proof {
            rc.lemma_wf();
            assert(rc.wirings().len() == rotors@.len());
            assert(cap > 0 ==> valid_offsets(rc.spin(), rc.wirings().len(), cap as nat));
        }
        Ok(EnigmaM { cap, rc, plugboard: pb.clone_pairs() })
    }

    /// Enciphers (or deciphers) one index, then steps the rotor offsets as an
    /// odometer. `RangeError`, with nothing changed, when `i >= N`.
    pub fn input(&mut self, i: usize) -> (r: Result<usize, EnigmaError>)
        requires
            old(self).wf(),
        ensures
            final(self).wf(),
            final(self).size() == old(self).size(),
            final(self).wirings() == old(self).wirings(),
            final(self).reflection() == old(self).reflection(),
            final(self).pairs() == old(self).pairs(),
            r is Ok <==> i < old(self).size(),
            r matches Ok(o) ==> o as int == encipher(
                old(self).wirings(),
                old(self).reflection(),
                old(self).pairs(),
                old(self).spin(),
                i as int,
            ) && final(self).spin() == advance(old(self).spin(), old(self).size()),
            r is Err ==> final(self).spin() == old(self).spin(),
            r matches Err(e) ==> e == EnigmaError::RangeError,
    {
        if i >= self.cap {
            return Err(EnigmaError::RangeError);
        }
        let a = self.plugboard.input(i);
        proof {
            lemma_swap_in_range(self.plugboard.pairs(), self.cap as nat, i as int);
        }
        let b = match self.rc.input(a) {
            Ok(v) => v,
            Err(e) => return Err(e),
        };
        proof {
            lemma_swap_in_range(self.plugboard.pairs(), self.cap as nat, b as int);
            crate::rotor::lemma_advance_valid(old(self).rc.spin(), self.cap as nat);
        }
        Ok(self.plugboard.input(b))
    }

    /// Replaces the rotor offsets. `ConstructionError`, with nothing changed,
    /// unless there is one offset per rotor, each below `N`.
    pub fn set_spin_status(&mut self, a: Vec<usize>) -> (r: Result<(), EnigmaError>)
        requires
            old(self).wf(),
        ensures
            final(self).wf(),
            final(self).size() == old(self).size(),
            final(self).wirings() == old(self).wirings(),
            final(self).reflection() == old(self).reflection(),
            final(self).pairs() == old(self).pairs(),
            r is Ok <==> valid_offsets(a@, old(self).wirings().len(), old(self).size()),
            r is Ok ==> final(self).spin() == a@,
            r is Err ==> final(self).spin() == old(self).spin(),
            r matches Err(e) ==> e == EnigmaError::ConstructionError,
    {
        self.rc.set_spin_status(a)
    }
}

} // verus!

use crate::machine::{encipher, EnigmaM};
use crate::permutation::{is_permutation, lemma_preimage_exists, lemma_preimage_unique, preimage};
use crate::plugboard::{lemma_swap_in_range, lemma_swap_involution, pairs_below, valid_pairs};
use crate::rotor::{
    advance, backward_pass, carries_into, chain_map, forward_pass, is_reflection, shift_forward,
    shift_inverse, valid_chain, valid_offsets, zeros,
};
use vstd::arithmetic::div_mod::{lemma_add_mod_noop_right, lemma_small_mod};
use vstd::prelude::*;

verus! {

/// The outputs of a machine with rotor wirings `ws`, reflection `refl`,
/// plugboard pairs `pairs` and offsets `offs`, fed `inputs` one at a time,
/// the offsets stepping after each symbol.
pub open spec fn run(
    ws: Seq<Seq<usize>>,
    refl: Seq<usize>,
    pairs: Seq<(usize, usize)>,
    offs: Seq<usize>,
    inputs: Seq<int>,
) -> Seq<int>
    decreases inputs.len(),
{
    if inputs.len() == 0 {
        Seq::empty()
    } else {
        seq![encipher(ws, refl, pairs, offs, inputs[0])] + run(
            ws,
            refl,
            pairs,
            advance(offs, refl.len()),
            inputs.drop_first(),
        )
    }
}

/// The reflector is an involution without fixed points.
pub proof fn lemma_reflector_involution(refl: Seq<usize>, i: int)
    requires
        is_reflection(refl),
        0 <= i < refl.len(),
    ensures
        refl[refl[i] as int] == i,
        refl[i] != i,
{
}

/// A rotor's inverse lookup undoes its forward lookup.
pub proof fn lemma_rotor_inverse(w: Seq<usize>, i: int)
    requires
        is_permutation(w),
        0 <= i < w.len(),
    ensures
        preimage(w, w[i] as int) == i,
{
    lemma_preimage_unique(w, w[i] as int, i);
}

/// `((x mod n) + y) mod n == (x + y) mod n` and the same for `-`.
proof fn lemma_mod_left(x: int, y: int, n: int)
    requires
        n > 0,
    ensures
        (x % n + y) % n == (x + y) % n,
        (x % n - y) % n == (x - y) % n,
{
    lemma_add_mod_noop_right(y, x, n);
    assert(y + x % n == x % n + y);
    vstd::arithmetic::div_mod::lemma_sub_mod_noop(x, y, n);
    vstd::arithmetic::div_mod::lemma_sub_mod_noop(x % n, y, n);
    vstd::arithmetic::div_mod::lemma_mod_twice(x, n);
}

proof fn lemma_mod_range(x: int, n: int)
    requires
        n > 0,
    ensures
        0 <= x % n < n,
{
}

/// A turned rotor maps `[0, N)` into itself, and its backward traversal under
/// the same offset undoes it, in both orders.
pub proof fn lemma_shift_inverse(w: Seq<usize>, i: int, o: int)
    requires
        is_permutation(w),
        w.len() <= usize::MAX,
        0 <= i < w.len(),
    ensures
        0 <= shift_forward(w, i, o) < w.len(),
        0 <= shift_inverse(w, i, o) < w.len(),
        shift_inverse(w, shift_forward(w, i, o), o) == i,
        shift_forward(w, shift_inverse(w, i, o), o) == i,
{
    let n = w.len() as int;
    let a = (i + o) % n;
    let b = w[a] as int;
    lemma_mod_range(i + o, n);
    lemma_mod_range(b - o, n);
    let y = (b - o) % n;
    lemma_mod_left(b - o, o, n);
    lemma_small_mod(b as nat, n as nat);
    assert((y + o) % n == b);
    lemma_preimage_unique(w, b, a);
    lemma_mod_left(i + o, o, n);
    lemma_small_mod(i as nat, n as nat);
    assert((a - o) % n == i);

    lemma_preimage_exists(w, a);
    let p = preimage(w, a);
    lemma_mod_range(p - o, n);
    let z = (p - o) % n;
    lemma_mod_left(p - o, o, n);
    lemma_small_mod(p as nat, n as nat);
    assert((z + o) % n == p);
    assert(shift_inverse(w, i, o) == z);
    assert(shift_forward(w, z, o) == (a - o) % n);
}

/// The forward pass through `k` rotors stays in `[0, N)`, and the backward
/// pass undoes it, in both orders.
pub proof fn lemma_pass_inverse(
    ws: Seq<Seq<usize>>,
    refl: Seq<usize>,
    offs: Seq<usize>,
    x: int,
    k: nat,
)
    requires
        valid_chain(ws, refl),
        k <= ws.len(),
        k <= offs.len(),
        0 <= x < refl.len(),
    ensures
        0 <= forward_pass(ws, offs, x, k) < refl.len(),
        0 <= backward_pass(ws, offs, x, k) < refl.len(),
        backward_pass(ws, offs, forward_pass(ws, offs, x, k), k) == x,
        forward_pass(ws, offs, backward_pass(ws, offs, x, k), k) == x,
    decreases k,
{
    if k > 0 {
        let j = k - 1;
        let w = ws[j];
        let o = offs[j] as int;
        assert(is_permutation(ws[j]) && ws[j].len() == refl.len());
        lemma_pass_inverse(ws, refl, offs, x, j as nat);
        let f = forward_pass(ws, offs, x, j as nat);
        lemma_shift_inverse(w, f, o);
        let y = shift_inverse(w, x, o);
        lemma_shift_inverse(w, x, o);
        lemma_pass_inverse(ws, refl, offs, y, j as nat);
    }
}

/// The chain's traversal is an involution of `[0, N)`.
pub proof fn lemma_chain_involution(
    ws: Seq<Seq<usize>>,
    refl: Seq<usize>,
    offs: Seq<usize>,
    i: int,
)
    requires
        valid_chain(ws, refl),
        offs.len() == ws.len(),
        0 <= i < refl.len(),
    ensures
        0 <= chain_map(ws, refl, offs, i) < refl.len(),
        chain_map(ws, refl, offs, chain_map(ws, refl, offs, i)) == i,
{
    let k = ws.len();
    lemma_pass_inverse(ws, refl, offs, i, k);
    let f = forward_pass(ws, offs, i, k);
    let m = refl[f] as int;
    lemma_pass_inverse(ws, refl, offs, m, k);
    let t = chain_map(ws, refl, offs, i);
    assert(forward_pass(ws, offs, t, k) == m);
    assert(refl[m] == f);
}

/// One symbol through a machine: the result is in `[0, N)`, and the same
/// machine state sends the result back to the symbol.
pub proof fn lemma_encipher_involution(
    ws: Seq<Seq<usize>>,
    refl: Seq<usize>,
    pairs: Seq<(usize, usize)>,
    offs: Seq<usize>,
    i: int,
)
    requires
        valid_chain(ws, refl),
        valid_pairs(pairs),
        pairs_below(pairs, refl.len()),
        offs.len() == ws.len(),
        0 <= i < refl.len(),
    ensures
        0 <= encipher(ws, refl, pairs, offs, i) < refl.len(),
        encipher(ws, refl, pairs, offs, encipher(ws, refl, pairs, offs, i)) == i,
{
    let n = refl.len();
    lemma_swap_in_range(pairs, n, i);
    let a = crate::plugboard::swapped(pairs, i);
    lemma_chain_involution(ws, refl, offs, a);
    let b = chain_map(ws, refl, offs, a);
    lemma_swap_in_range(pairs, n, b);
    lemma_swap_involution(pairs, b);
    lemma_swap_involution(pairs, i);
}

/// Feeding a machine's output back through the same machine, started from
/// the same offsets, gives back the input.
pub proof fn lemma_self_reciprocal(
    ws: Seq<Seq<usize>>,
    refl: Seq<usize>,
    pairs: Seq<(usize, usize)>,
    offs: Seq<usize>,
    inputs: Seq<int>,
)
    requires
        valid_chain(ws, refl),
        valid_pairs(pairs),
        pairs_below(pairs, refl.len()),
        valid_offsets(offs, ws.len(), refl.len()),
        forall|j: int| 0 <= j < inputs.len() ==> 0 <= #[trigger] inputs[j] < refl.len(),
    ensures
        run(ws, refl, pairs, offs, run(ws, refl, pairs, offs, inputs)) == inputs,
    decreases inputs.len(),
{
    if inputs.len() > 0 {
        let out = run(ws, refl, pairs, offs, inputs);
        let next = advance(offs, refl.len());
        lemma_encipher_involution(ws, refl, pairs, offs, inputs[0]);
        crate::rotor::lemma_advance_valid(offs, refl.len());
        let rest = inputs.drop_first();
        lemma_self_reciprocal(ws, refl, pairs, next, rest);
        assert(out.drop_first() == run(ws, refl, pairs, next, rest));
        assert(run(ws, refl, pairs, offs, out) =~= inputs);
    }
}

/// A machine's output, fed back through the machine reset to the offsets it
/// started from, gives back the input.
pub proof fn lemma_machine_self_reciprocal(m: &EnigmaM, inputs: Seq<int>)
    requires
        m.wf(),
        forall|j: int| 0 <= j < inputs.len() ==> 0 <= #[trigger] inputs[j] < m.size(),
    ensures
        run(
            m.wirings(),
            m.reflection(),
            m.pairs(),
            m.spin(),
            run(m.wirings(), m.reflection(), m.pairs(), m.spin(), inputs),
        ) == inputs,
{
    m.lemma_wf();
    if inputs.len() > 0 {
        assert(0 <= inputs[0] < m.size());
        lemma_self_reciprocal(m.wirings(), m.reflection(), m.pairs(), m.spin(), inputs);
    }
}

/// Two machines with the same wiring, plugboard and offsets give the same
/// outputs for the same inputs.
pub proof fn lemma_deterministic(a: &EnigmaM, b: &EnigmaM, inputs: Seq<int>)
    requires
        a.wirings() == b.wirings(),
        a.reflection() == b.reflection(),
        a.pairs() == b.pairs(),
        a.spin() == b.spin(),
    ensures
        run(a.wirings(), a.reflection(), a.pairs(), a.spin(), inputs) == run(
            b.wirings(),
            b.reflection(),
            b.pairs(),
            b.spin(),
            inputs,
        ),
{
}

/// From every offset at `n - 1`, one step puts every offset back to zero.
pub proof fn lemma_full_carry(s: Seq<usize>, n: nat)
    requires
        n > 0,
        forall|j: int| 0 <= j < s.len() ==> #[trigger] s[j] == n - 1,
    ensures
        advance(s, n) == zeros(s.len()),
{
    assert forall|j: int| 0 <= j < s.len() implies #[trigger] advance(s, n)[j] == zeros(
        s.len(),
    )[j] by {
        assert(carries_into(s, n, j));
        vstd::arithmetic::div_mod::lemma_mod_self_0(n as int);
    }
    assert(advance(s, n) =~= zeros(s.len()));
}

/// With more than one contact, a step changes an offset exactly when every
/// offset before it stands at `n - 1`.
pub proof fn lemma_turns_only_on_carry(s: Seq<usize>, n: nat, j: int)
    requires
        1 < n <= usize::MAX,
        forall|t: int| 0 <= t < s.len() ==> #[trigger] s[t] < n,
        0 <= j < s.len(),
    ensures
        advance(s, n)[j] != s[j] <==> carries_into(s, n, j),
{
    if carries_into(s, n, j) {
        if s[j] + 1 < n {
            lemma_small_mod((s[j] + 1) as nat, n);
        } else {
            vstd::arithmetic::div_mod::lemma_mod_self_0(n as int);
        }
    }
}

} // verus!

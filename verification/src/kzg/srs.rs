//! The scalars of the development structured reference string: the powers of
//! a fixed trapdoor `tau`, whose multiples of the G1 generator form the SRS.
use vstd::prelude::*;
use vstd::arithmetic::power::*;
use vstd::arithmetic::power2::*;
use vstd::arithmetic::div_mod::*;
use vstd::bits::*;
use crate::kzg::field::{Fr, modulus};

verus! {

/// The development trapdoor. Its discrete logarithm is public, so a reference
/// string built from it gives no security; a real one comes from a trusted setup.
pub const DEV_TAU: u64 = 7;

/// `tau^i` in the scalar field.
pub open spec fn tau_power(i: nat) -> nat {
    (pow(DEV_TAU as int, i) % (modulus() as int)) as nat
}

/// The first SRS scalar is one, so the first SRS point is the generator.
pub proof fn lemma_first_tau_power_is_one()
    ensures
        tau_power(0) == 1,
{
    lemma_pow0(DEV_TAU as int);
    lemma_small_mod(1, modulus());
}

/// Powers of the trapdoor below the modulus are pairwise distinct, so the
/// corresponding SRS points differ.
pub proof fn lemma_tau_powers_distinct(i: nat, j: nat)
    requires
        i < j,
        pow(DEV_TAU as int, j) < modulus(),
    ensures
        tau_power(i) != tau_power(j),
{
    lemma_pow_strictly_increases(DEV_TAU as nat, i, j);
    lemma_pow_positive(DEV_TAU as int, i);
    lemma_small_mod(pow(DEV_TAU as int, i) as nat, modulus());
    lemma_small_mod(pow(DEV_TAU as int, j) as nat, modulus());
}

/// The SRS scalars for `num_vars` variables: `[tau^0, tau^1, ..., tau^(2^num_vars - 1)]`.
/// The SRS is the G1 generator multiplied by each of them.
pub fn tau_powers(num_vars: usize) -> (powers: Vec<Fr>)
    requires
        num_vars < usize::BITS,
    ensures
        powers.len() == pow2(num_vars as nat),
        forall|i: int| 0 <= i < powers.len() ==> (#[trigger] powers@[i])@ == tau_power(i as nat),
{
    let size: usize = 1usize << num_vars;
    proof {
        lemma_usize_pow2_no_overflow(num_vars as nat);
        lemma_usize_shl_is_mul(1, num_vars);
        lemma_pow0(DEV_TAU as int);
        lemma_small_mod(1, modulus());
    }
    let tau = Fr::from_u64(DEV_TAU);
    let mut powers: Vec<Fr> = Vec::with_capacity(size);
    let mut tau_power_i = Fr::one();
    let mut i: usize = 0;
    while i < size
        invariant
            size == pow2(num_vars as nat),
            i <= size,
            powers.len() == i,
            tau@ == DEV_TAU,
            tau_power_i@ == tau_power(i as nat),
            forall|k: int| 0 <= k < i ==> (#[trigger] powers@[k])@ == tau_power(k as nat),
        decreases size - i,
    {
        powers.push(tau_power_i);
        let ghost prev = pow(DEV_TAU as int, i as nat);
        tau_power_i = tau_power_i.mul(&tau);
        proof {
            lemma_pow_positive(DEV_TAU as int, i as nat);
            lemma_mul_mod_noop_left(prev, DEV_TAU as int, modulus() as int);
            reveal(pow);
            assert(pow(DEV_TAU as int, (i + 1) as nat) == DEV_TAU * prev);
        }
        i = i + 1;
    }
    powers
}

} // verus!

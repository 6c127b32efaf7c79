//! The terms of a commitment `sum table[i] * srs[i]`: the non-zero entries of
//! the table, with their positions and coefficients.
use vstd::prelude::*;
use crate::kzg::field::{Fr, fr_values, limbs_value, lemma_limbs_injective};

verus! {

/// The non-zero entries among the first `n`, as (position, value), in increasing position.
pub open spec fn nonzero_terms(vals: Seq<nat>, n: nat) -> Seq<(usize, nat)>
    decreases n,
{
    if n == 0 {
        Seq::empty()
    } else {
        nonzero_terms(vals, (n - 1) as nat) + (if vals[n - 1] != 0 {
            seq![((n - 1) as usize, vals[n - 1])]
        } else {
            Seq::empty()
        })
    }
}

/// In a 0/1 table every term has coefficient one, so the commitment is the
/// plain sum of the SRS points at the positions holding one.
pub proof fn lemma_indicator_terms_are_unit(vals: Seq<nat>, n: nat)
    requires
        n <= vals.len(),
        forall|i: int| 0 <= i < n ==> #[trigger] vals[i] <= 1,
    ensures
        forall|k: int|
            0 <= k < nonzero_terms(vals, n).len() ==> (#[trigger] nonzero_terms(vals, n)[k]).1
                == 1,
    decreases n,
{
    if n > 0 {
        let prev = nonzero_terms(vals, (n - 1) as nat);
        lemma_indicator_terms_are_unit(vals, (n - 1) as nat);
        assert forall|k: int| 0 <= k < nonzero_terms(vals, n).len() implies (
        #[trigger] nonzero_terms(vals, n)[k]).1 == 1 by {
            if k >= prev.len() {
                assert(vals[n - 1] != 0);
            } else {
                assert(nonzero_terms(vals, n)[k] == prev[k]);
            }
        }
    }
}

/// The terms are exactly the non-zero entries: every term sits at an index of
/// the table and carries the (non-zero) value held there, every non-zero entry
/// has a term at its own index, and positions strictly increase.
pub proof fn lemma_nonzero_terms_are_the_entries(vals: Seq<nat>, n: nat)
    requires
        n <= vals.len(),
        n <= usize::MAX + 1,
    ensures
        forall|k: int|
            0 <= k < nonzero_terms(vals, n).len() ==> {
                let t = #[trigger] nonzero_terms(vals, n)[k];
                &&& t.0 < n
                &&& t.1 == vals[t.0 as int]
                &&& t.1 != 0
            },
        forall|i: int|
            0 <= i < n && vals[i] != 0 ==> exists|k: int|
                0 <= k < nonzero_terms(vals, n).len() && (#[trigger] nonzero_terms(vals, n)[k]).0
                    == i,
        forall|k1: int, k2: int|
            0 <= k1 < k2 < nonzero_terms(vals, n).len() ==> (#[trigger] nonzero_terms(
                vals,
                n,
            )[k1]).0 < (#[trigger] nonzero_terms(vals, n)[k2]).0,
    decreases n,
{
    if n > 0 {
        let m = (n - 1) as nat;
        let prev = nonzero_terms(vals, m);
        let cur = nonzero_terms(vals, n);
        lemma_nonzero_terms_are_the_entries(vals, m);
        assert forall|k: int| 0 <= k < cur.len() implies {
            let t = #[trigger] cur[k];
            &&& t.0 < n
            &&& t.1 == vals[t.0 as int]
            &&& t.1 != 0
        } by {
            if k < prev.len() {
                assert(cur[k] == prev[k]);
            }
        }
        assert forall|i: int| 0 <= i < n && vals[i] != 0 implies exists|k: int|
            0 <= k < cur.len() && (#[trigger] cur[k]).0 == i by {
            if i < m {
                let k = choose|k: int| 0 <= k < prev.len() && (#[trigger] prev[k]).0 == i;
                assert(cur[k] == prev[k]);
            } else {
                assert(cur[prev.len() as int].0 == i);
            }
        }
        assert forall|k1: int, k2: int| 0 <= k1 < k2 < cur.len() implies (#[trigger] cur[k1]).0
            < (#[trigger] cur[k2]).0 by {
            assert(cur[k1] == prev[k1]);
            if k2 < prev.len() {
                assert(cur[k2] == prev[k2]);
            }
        }
    }
}

/// The positions and residues of a list of terms.
pub open spec fn term_values(terms: Seq<(usize, Fr)>) -> Seq<(usize, nat)> {
    terms.map_values(|t: (usize, Fr)| (t.0, t.1@))
}

/// The terms of the commitment `sum table[i] * srs[i]`: each position `i`
/// with `table[i] != 0`, with `table[i]` as its coefficient, in increasing
/// order. Zero entries contribute the identity and are left out.
///
/// The commitment is the sum of `coefficient * srs[position]` over them.
pub fn commitment_terms(table: &[Fr]) -> (terms: Vec<(usize, Fr)>)
    ensures
        term_values(terms@) == nonzero_terms(fr_values(table@), table.len() as nat),
        forall|k: int|
            0 <= k < terms.len() ==> {
                let t = #[trigger] terms@[k];
                &&& t.0 < table.len()
                &&& t.1@ == table@[t.0 as int]@
                &&& t.1@ != 0
            },
        forall|i: int|
            0 <= i < table.len() && table@[i]@ != 0 ==> exists|k: int|
                0 <= k < terms.len() && (#[trigger] terms@[k]).0 == i,
        forall|k1: int, k2: int|
            0 <= k1 < k2 < terms.len() ==> (#[trigger] terms@[k1]).0 < (#[trigger] terms@[k2]).0,
{
    let mut terms: Vec<(usize, Fr)> = Vec::new();
    let mut i: usize = 0;
    while i < table.len()
        invariant
            i <= table.len(),
            term_values(terms@) == nonzero_terms(fr_values(table@), i as nat),
        decreases table.len() - i,
    {
        let coefficient = table[i];
        let limbs = coefficient.limbs();
        let is_zero = limbs[0] == 0 && limbs[1] == 0 && limbs[2] == 0 && limbs[3] == 0;
        proof {
            if limbs_value(limbs) == 0 {
                assert(limbs_value([0u64, 0u64, 0u64, 0u64]) == 0);
                lemma_limbs_injective(limbs, [0u64, 0u64, 0u64, 0u64]);
            }
            assert(is_zero <==> limbs_value(limbs) == 0);
        }
        if !is_zero {
            terms.push((i, coefficient));
        }
        i = i + 1;
        assert(term_values(terms@) =~= nonzero_terms(fr_values(table@), i as nat));
    }
    proof {
        let vals = fr_values(table@);
        let n = table.len() as nat;
        lemma_nonzero_terms_are_the_entries(vals, n);
        let tv = term_values(terms@);
        assert forall|k: int| 0 <= k < terms.len() implies {
            let t = #[trigger] terms@[k];
            &&& t.0 < table.len()
            &&& t.1@ == table@[t.0 as int]@
            &&& t.1@ != 0
        } by {
            assert(tv[k] == nonzero_terms(vals, n)[k]);
        }
        assert forall|i: int| 0 <= i < table.len() && table@[i]@ != 0 implies exists|k: int|
            0 <= k < terms.len() && (#[trigger] terms@[k]).0 == i by {
            assert(vals[i] == table@[i]@);
            let k = choose|k: int|
                0 <= k < nonzero_terms(vals, n).len() && (#[trigger] nonzero_terms(vals, n)[k]).0
                    == i;
            assert(tv[k] == nonzero_terms(vals, n)[k]);
        }
        assert forall|k1: int, k2: int| 0 <= k1 < k2 < terms.len() implies (
        #[trigger] terms@[k1]).0 < (#[trigger] terms@[k2]).0 by {
            assert(tv[k1] == nonzero_terms(vals, n)[k1]);
            assert(tv[k2] == nonzero_terms(vals, n)[k2]);
        }
    }
    terms
}

} // verus!

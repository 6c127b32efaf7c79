use kzg_prover::kzg::commit::commitment_terms;
use kzg_prover::kzg::field::Fr;

#[test]
fn test_commit_empty_table() {
    // An all-zero table has no term: the commitment is the identity.
    let n = 3;
    let table = vec![Fr::zero(); 1 << n];
    assert!(commitment_terms(&table).is_empty());
}

#[test]
fn test_commit_single_entry() {
    // Only index 2 set: the commitment is 1 * srs[2].
    let n = 3;
    let mut table = vec![Fr::zero(); 1 << n];
    table[2] = Fr::one();
    assert_eq!(commitment_terms(&table), vec![(2, Fr::one())]);
}

#[test]
fn test_commit_two_entries() {
    // Indices 1 and 3 set: the commitment is srs[1] + srs[3].
    let n = 3;
    let mut table = vec![Fr::zero(); 1 << n];
    table[1] = Fr::one();
    table[3] = Fr::one();
    assert_eq!(commitment_terms(&table), vec![(1, Fr::one()), (3, Fr::one())]);
}

#[test]
fn coefficients_other_than_one_are_kept() {
    let minus_one = Fr::zero().sub(&Fr::one());
    let table = vec![Fr::from_u64(2), Fr::zero(), minus_one, Fr::one()];
    assert_eq!(
        commitment_terms(&table),
        vec![(0, Fr::from_u64(2)), (2, minus_one), (3, Fr::one())]
    );
}

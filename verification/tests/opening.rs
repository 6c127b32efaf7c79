use kzg_prover::kzg::encoding::{address_to_hypercube_bits, build_table, hypercube_index};
use kzg_prover::kzg::field::Fr;
use kzg_prover::kzg::opening::{encode_hookdata, evaluate, opening_quotients};

fn setup(num_vars: usize) -> Vec<Fr> {
    let addresses = vec!["0x0000000000000000000000000000000000000001".to_string()];
    build_table(&addresses, num_vars)
}

#[test]
fn test_evaluate_whitelisted() {
    let num_vars = 4;
    let table = setup(num_vars);
    let addr = "0x0000000000000000000000000000000000000001";
    let point = address_to_hypercube_bits(addr);
    let point_n: Vec<bool> = point[..num_vars].to_vec();
    let eval = evaluate(&point_n, &table);
    assert_eq!(eval, Fr::one(), "whitelisted address should evaluate to 1");
}

#[test]
fn test_evaluate_not_whitelisted() {
    let num_vars = 4;
    let table = setup(num_vars);
    let addr = "0x0000000000000000000000000000000000000002"; // not whitelisted
    let point = address_to_hypercube_bits(addr);
    let point_n: Vec<bool> = point[..num_vars].to_vec();
    let eval = evaluate(&point_n, &table);
    assert_eq!(eval, Fr::zero(), "non-whitelisted address should evaluate to 0");
}

#[test]
fn test_proof_length() {
    let num_vars = 4;
    let table = setup(num_vars);
    let addr = "0x0000000000000000000000000000000000000001";
    let point = address_to_hypercube_bits(addr);
    let point_n: Vec<bool> = point[..num_vars].to_vec();
    let quotients = opening_quotients(&point_n, &table);
    assert_eq!(quotients.len(), num_vars);
}

fn small_table() -> Vec<Fr> {
    (0..8u64).map(|v| Fr::from_u64(10 * v + 1)).collect()
}

#[test]
fn evaluate_is_lookup_at_index() {
    let table = small_table();
    for k in 0..8usize {
        let point = vec![k & 1 == 1, k & 2 == 2, k & 4 == 4];
        assert_eq!(hypercube_index(&point, 3), k);
        assert_eq!(evaluate(&point, &table), table[k]);
    }
}

#[test]
fn quotients_are_differences_of_folded_tables() {
    let table = small_table();
    // point (1, 0, 1)
    let point = vec![true, false, true];
    let q = opening_quotients(&point, &table);
    assert_eq!(q.len(), 3);
    // round 0: odd minus even entries, all 10.
    assert_eq!(q[0], vec![Fr::from_u64(10); 4]);
    // after fixing x0 = 1: [11, 31, 51, 71]; round 1: 31-11, 71-51.
    assert_eq!(q[1], vec![Fr::from_u64(20); 2]);
    // after fixing x1 = 0: [11, 51]; round 2: 51-11.
    assert_eq!(q[2], vec![Fr::from_u64(40)]);
}

#[test]
fn quotient_of_decreasing_entries_wraps() {
    let table = vec![Fr::from_u64(5), Fr::from_u64(3)];
    let q = opening_quotients(&[false], &table);
    let minus_two = Fr::zero().sub(&Fr::from_u64(2));
    assert_eq!(q[0], vec![minus_two]);
}

#[test]
fn hookdata_layout() {
    let point: Vec<bool> = (0..20).map(|i| i % 3 == 0).collect();
    let commitments: Vec<[u8; 48]> = (0..20u8).map(|i| [i + 1; 48]).collect();
    let out = encode_hookdata(&point, &commitments);
    assert_eq!(out.len(), 3264);
    // claimed value 1
    assert!(out[..31].iter().all(|&b| b == 0));
    assert_eq!(out[31], 1);
    // coordinates
    for i in 0..20 {
        let word = &out[32 + 32 * i..64 + 32 * i];
        assert!(word[..31].iter().all(|&b| b == 0));
        assert_eq!(word[31], if i % 3 == 0 { 1 } else { 0 });
    }
    // offset of the bytes array, the head size: 704 = 0x02c0
    assert_eq!(&out[672..704][28..], &[0, 0, 0x02, 0xc0]);
    // element offsets 640 + 96 i
    for i in 0..20usize {
        let off = 640 + 96 * i;
        let word = &out[704 + 32 * i..736 + 32 * i];
        assert_eq!(&word[28..], &(off as u32).to_be_bytes());
    }
    // elements: length 48, data, padding
    for i in 0..20usize {
        let base = 1344 + 96 * i;
        assert_eq!(&out[base + 28..base + 32], &[0, 0, 0, 48]);
        assert!(out[base + 32..base + 80].iter().all(|&b| b == i as u8 + 1));
        assert!(out[base + 80..base + 96].iter().all(|&b| b == 0));
    }
}

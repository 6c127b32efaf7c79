use kzg_prover::kzg::field::Fr;
use kzg_prover::kzg::srs::tau_powers;

#[test]
fn test_srs_length() {
    let srs = tau_powers(3);
    assert_eq!(srs.len(), 8);
}

#[test]
fn test_srs_first_element_is_generator() {
    // srs[0] = G1 * τ^0 = G1 * 1: its scalar is one.
    let srs = tau_powers(2);
    assert_eq!(srs[0], Fr::one());
}

#[test]
fn test_srs_elements_differ() {
    let srs = tau_powers(4);
    assert_ne!(srs[0], srs[1]);
    assert_ne!(srs[1], srs[2]);
}

#[test]
fn tau_powers_values() {
    let srs = tau_powers(4);
    let mut expected: u64 = 1;
    for p in srs.iter() {
        assert_eq!(*p, Fr::from_u64(expected));
        expected *= 7;
    }
}

#[test]
fn tau_powers_wrap_modulo_r() {
    // 7^96 exceeds r: compare against repeated multiplication.
    let srs = tau_powers(7);
    let seven = Fr::from_u64(7);
    let mut acc = Fr::one();
    for p in srs.iter() {
        assert_eq!(*p, acc);
        acc = acc.mul(&seven);
    }
}

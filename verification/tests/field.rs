use kzg_prover::kzg::field::Fr;

fn minus(v: u64) -> Fr {
    Fr::zero().sub(&Fr::from_u64(v))
}

const R_LIMBS: [u64; 4] =
    [0xffffffff00000001, 0x53bda402fffe5bfe, 0x3339d80809a1d805, 0x73eda753299d7d48];

#[test]
fn constants_and_small_values() {
    assert_eq!(Fr::zero().limbs(), [0, 0, 0, 0]);
    assert_eq!(Fr::one().limbs(), [1, 0, 0, 0]);
    assert_eq!(Fr::from_u64(u64::MAX).limbs(), [u64::MAX, 0, 0, 0]);
}

#[test]
fn addition_carries_and_reduces() {
    let a = Fr::from_u64(u64::MAX);
    assert_eq!(a.add(&Fr::one()).limbs(), [0, 1, 0, 0]);
    // (r - 1) + 1 = 0, (r - 1) + 2 = 1
    assert_eq!(minus(1).add(&Fr::one()), Fr::zero());
    assert_eq!(minus(1).add(&Fr::from_u64(2)), Fr::one());
}

#[test]
fn subtraction_wraps_below_zero() {
    let m1 = minus(1);
    assert_eq!(m1.limbs(), [R_LIMBS[0] - 1, R_LIMBS[1], R_LIMBS[2], R_LIMBS[3]]);
    assert_eq!(Fr::from_u64(5).sub(&Fr::from_u64(3)), Fr::from_u64(2));
    assert_eq!(Fr::from_u64(3).sub(&Fr::from_u64(5)), minus(2));
    assert_eq!(Fr::from_u64(7).sub(&Fr::from_u64(7)), Fr::zero());
}

#[test]
fn multiplication() {
    assert_eq!(Fr::from_u64(6).mul(&Fr::from_u64(7)), Fr::from_u64(42));
    let a = Fr::from_u64(u64::MAX);
    // (2^64 - 1)^2 = 2^128 - 2^65 + 1
    assert_eq!(a.mul(&a).limbs(), [1, u64::MAX - 1, 0, 0]);
    // (-1)(-1) = 1, (-1) * 5 = -5
    assert_eq!(minus(1).mul(&minus(1)), Fr::one());
    assert_eq!(minus(1).mul(&Fr::from_u64(5)), minus(5));
    assert_eq!(Fr::from_u64(5).mul(&minus(1)), minus(5));
    assert_eq!(minus(3).mul(&Fr::zero()), Fr::zero());
}

#[test]
fn sub_undoes_add() {
    let a = minus(12345);
    let b = Fr::from_u64(u64::MAX).mul(&Fr::from_u64(999));
    assert_eq!(a.add(&b).sub(&b), a);
}

#[test]
fn byte_serialisations() {
    let x = Fr::from_u64(0x0102030405060708).add(&Fr::from_u64(u64::MAX)).add(&Fr::one());
    // x = 0x0102030405060708 + 2^64
    assert_eq!(x.limbs(), [0x0102030405060708, 1, 0, 0]);
    let le = x.to_bytes_le();
    assert_eq!(&le[..9], &[8, 7, 6, 5, 4, 3, 2, 1, 1]);
    assert!(le[9..].iter().all(|&b| b == 0));
    let be = x.to_bytes_be();
    let mut rev = le;
    rev.reverse();
    assert_eq!(be, rev);
    assert_eq!(be[31], 8);
    assert_eq!(be[23], 1);
}

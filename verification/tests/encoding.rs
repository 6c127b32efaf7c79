use kzg_prover::kzg::encoding::{
    address_bytes_to_hex, address_to_hypercube_bits, build_table, hypercube_bits_from_hash,
    hypercube_index, table_from_points,
};
use kzg_prover::kzg::field::Fr;

#[test]
fn test_bits_length() {
    let bits = address_to_hypercube_bits("0xd8dA6BF26964aF9D7eEd9e03E53415D37aA96045");
    assert_eq!(bits.len(), 20);
}

#[test]
fn test_same_address_same_bits() {
    let addr = "0xd8dA6BF26964aF9D7eEd9e03E53415D37aA96045";
    let bits1 = address_to_hypercube_bits(addr);
    let bits2 = address_to_hypercube_bits(addr);
    assert_eq!(bits1, bits2);
}

#[test]
fn test_different_addresses_different_bits() {
    let bits1 = address_to_hypercube_bits("0x0000000000000000000000000000000000000001");
    let bits2 = address_to_hypercube_bits("0x0000000000000000000000000000000000000002");
    assert_ne!(bits1, bits2);
}

#[test]
fn test_build_table_single_address() {
    let addr = "0x0000000000000000000000000000000000000001".to_string();
    let table = build_table(&[addr.clone()], 20);
    assert_eq!(table.len(), 1 << 20);
    // Exactly one entry should be 1
    let ones: usize = table.iter().filter(|&&ref x| *x == Fr::one()).count();
    assert_eq!(ones, 1);
}

#[test]
fn test_build_table_empty() {
    let table = build_table(&[], 4);
    let ones: usize = table.iter().filter(|&&ref x| *x == Fr::one()).count();
    assert_eq!(ones, 0);
}

// Keccak-256 of the empty input is
// c5d2460186f7233c927e7db2dcc703c0e500b653ca82273b7bfad8045d85a470.
fn empty_input_hash() -> [u8; 32] {
    [
        0xc5, 0xd2, 0x46, 0x01, 0x86, 0xf7, 0x23, 0x3c, 0x92, 0x7e, 0x7d, 0xb2, 0xdc, 0xc7, 0x03,
        0xc0, 0xe5, 0x00, 0xb6, 0x53, 0xca, 0x82, 0x27, 0x3b, 0x7b, 0xfa, 0xd8, 0x04, 0x5d, 0x85,
        0xa4, 0x70,
    ]
}

#[test]
fn bits_from_hash_read_least_significant_first() {
    let bits = hypercube_bits_from_hash(&empty_input_hash());
    let expected = vec![
        false, false, false, false, true, true, true, false, // 0x70
        false, false, true, false, false, true, false, true, // 0xa4
        true, false, true, false, // low nibble of 0x85
    ];
    assert_eq!(bits, expected);
}

#[test]
fn empty_address_hashes_no_bytes() {
    // "0x" carries no digits: the vertex is read off keccak256 of no bytes.
    let bits = address_to_hypercube_bits("0x");
    assert_eq!(bits, hypercube_bits_from_hash(&empty_input_hash()));
}

#[test]
fn invalid_hex_hashes_no_bytes() {
    let expected = hypercube_bits_from_hash(&empty_input_hash());
    assert_eq!(address_to_hypercube_bits("0xzz"), expected);
    assert_eq!(address_to_hypercube_bits("0x123"), expected);
    assert_ne!(address_to_hypercube_bits("0x00"), expected);
}

#[test]
fn prefix_and_letter_case_do_not_matter() {
    let a = address_to_hypercube_bits("0xd8dA6BF26964aF9D7eEd9e03E53415D37aA96045");
    let b = address_to_hypercube_bits("d8da6bf26964af9d7eed9e03e53415d37aa96045");
    let c = address_to_hypercube_bits("0x0xD8DA6BF26964AF9D7EED9E03E53415D37AA96045");
    assert_eq!(a, b);
    assert_eq!(a, c);
}

#[test]
fn hex_address_maps_to_its_bytes() {
    let mut raw = [0u8; 20];
    raw[19] = 1;
    let text = address_bytes_to_hex(&raw);
    assert_eq!(text, "0x0000000000000000000000000000000000000001");
    assert_eq!(
        address_to_hypercube_bits(&text),
        address_to_hypercube_bits("0x0000000000000000000000000000000000000001")
    );
    let raw2: [u8; 20] = [
        0xd8, 0xda, 0x6b, 0xf2, 0x69, 0x64, 0xaf, 0x9d, 0x7e, 0xed, 0x9e, 0x03, 0xe5, 0x34, 0x15,
        0xd3, 0x7a, 0xa9, 0x60, 0x45,
    ];
    assert_eq!(address_bytes_to_hex(&raw2), "0xd8da6bf26964af9d7eed9e03e53415d37aa96045");
}

#[test]
fn index_is_binary_number_of_prefix() {
    let bits = vec![true, false, true, true, false];
    assert_eq!(hypercube_index(&bits, 5), 13);
    assert_eq!(hypercube_index(&bits, 3), 5);
    assert_eq!(hypercube_index(&bits, 9), 13);
    assert_eq!(hypercube_index(&bits, 0), 0);
}

#[test]
fn table_marks_each_vertex() {
    let points = vec![vec![true, false, true], vec![false, true, false], vec![true, false, true]];
    let table = table_from_points(&points, 3);
    assert_eq!(table.len(), 8);
    for (k, v) in table.iter().enumerate() {
        if k == 5 || k == 2 {
            assert_eq!(*v, Fr::one());
        } else {
            assert_eq!(*v, Fr::zero());
        }
    }
}

//! Mapping Ethereum addresses to vertices of the boolean hypercube, and the
//! whitelist indicator table over those vertices.
//!
//! An address is hashed with Keccak-256 over its raw bytes; bit `i` of the
//! vertex is bit `i` of the hash read as a big-endian 256-bit integer, which is
//! the extraction the on-chain verifier performs.
use vstd::prelude::*;
use vstd::arithmetic::power2::*;
use vstd::bits::*;
use vstd::arithmetic::div_mod::*;
use crate::kzg::field::{Fr, fr_values, bytes_le_value, bytes_be_value, pow256};
use tiny_keccak::{Hasher, Keccak};

verus! {

/// Number of hypercube coordinates derived from one address.
pub const ADDRESS_BITS: usize = 20;

// ---------------------------------------------------------------------------
// Text handling
// ---------------------------------------------------------------------------

/// `s` with every leading `"0x"` removed.
pub open spec fn trim_0x(s: Seq<char>) -> Seq<char>
    decreases s.len(),
{
    if s.len() >= 2 && s[0] == '0' && s[1] == 'x' {
        trim_0x(s.subrange(2, s.len() as int))
    } else {
        s
    }
}

/// Whether `c` is one of `0-9`, `a-f`, `A-F`.
pub open spec fn is_hex_digit(c: char) -> bool {
    let n = c as u32;
    (48 <= n <= 57) || (97 <= n <= 102) || (65 <= n <= 70)
}

/// The value of a hexadecimal digit.
pub open spec fn hex_digit_value(c: char) -> nat {
    let n = c as u32;
    if 48 <= n <= 57 {
        (n - 48) as nat
    } else if 97 <= n <= 102 {
        (n - 87) as nat
    } else {
        (n - 55) as nat
    }
}

/// Whether `s` is an even number of hexadecimal digits.
pub open spec fn is_hex_text(s: Seq<char>) -> bool {
    &&& s.len() % 2 == 0
    &&& forall|i: int| 0 <= i < s.len() ==> is_hex_digit(#[trigger] s[i])
}

/// The bytes that a text of hexadecimal digit pairs spells, high digit first.
pub open spec fn hex_text_bytes(s: Seq<char>) -> Seq<u8> {
    Seq::new(
        s.len() / 2,
        |i: int| (hex_digit_value(s[2 * i]) * 16 + hex_digit_value(s[2 * i + 1])) as u8,
    )
}

/// The lower-case hexadecimal digit for `v < 16`.
pub open spec fn lower_hex_digit(v: nat) -> char {
    if v < 10 {
        (48 + v) as char
    } else {
        (87 + v) as char
    }
}

/// Lower-case hexadecimal text of `bytes`, two digits per byte, high digit first.
pub open spec fn lower_hex_text(bytes: Seq<u8>) -> Seq<char> {
    Seq::new(
        2 * bytes.len(),
        |i: int|
            if i % 2 == 0 {
                lower_hex_digit((bytes[i / 2] / 16) as nat)
            } else {
                lower_hex_digit((bytes[i / 2] % 16) as nat)
            },
    )
}

/// The bytes that an address string denotes: the hexadecimal digits after any
/// leading `"0x"`, or no bytes when they are not valid hexadecimal.
pub open spec fn address_bytes(address: Seq<char>) -> Seq<u8> {
    if is_hex_text(trim_0x(address)) {
        hex_text_bytes(trim_0x(address))
    } else {
        Seq::empty()
    }
}

/// Removing leading `"0x"` from `s` starting at an even position `k` that
/// only skipped `"0x"` pairs gives the same result as from the start.
pub proof fn lemma_trim_0x_from(s: Seq<char>, k: int)
    requires
        0 <= k <= s.len(),
        k % 2 == 0,
        forall|j: int| 0 <= j < k ==> #[trigger] s[j] == (if j % 2 == 0 {
            '0'
        } else {
            'x'
        }),
    ensures
        trim_0x(s) == trim_0x(s.subrange(k, s.len() as int)),
    decreases k,
{
    if k > 0 {
        let t = s.subrange(2, s.len() as int);
        assert forall|j: int| 0 <= j < k - 2 implies #[trigger] t[j] == (if j % 2 == 0 {
            '0'
        } else {
            'x'
        }) by {
            assert(t[j] == s[j + 2]);
        }
        lemma_trim_0x_from(t, k - 2);
        assert(t.subrange(k - 2, t.len() as int) =~= s.subrange(k, s.len() as int));
        assert(s[0] == '0' && s[1] == 'x');
    } else {
        assert(s.subrange(0, s.len() as int) =~= s);
    }
}

/// `address` with every leading `"0x"` removed, as `trim_start_matches("0x")` does.
fn trim_0x_prefixes(address: &str) -> (digits: &str)
    ensures
        digits@ == trim_0x(address@),
{
    let n = address.unicode_len();
    let mut k: usize = 0;
    while k + 1 < n && address.get_char(k) == '0' && address.get_char(k + 1) == 'x'
        invariant
            n == address@.len(),
            k <= n,
            k % 2 == 0,
            forall|j: int| 0 <= j < k ==> #[trigger] address@[j] == (if j % 2 == 0 {
                '0'
            } else {
                'x'
            }),
        decreases n - k,
    {
        k = k + 2;
    }
    proof {
        lemma_trim_0x_from(address@, k as int);
        let rest = address@.subrange(k as int, n as int);
        if rest.len() >= 2 {
            assert(rest[0] == address@[k as int] && rest[1] == address@[k + 1]);
        }
    }
    address.substring_char(k, n)
}

/// The error type of `hex::decode`.
#[verifier::external_type_specification]
#[verifier::external_body]
pub struct ExFromHexError(hex::FromHexError);

/// `hex::decode` on a string: it succeeds exactly on an even number of
/// hexadecimal digits (either case) and returns the bytes the digit pairs
/// spell. A character outside ASCII is not a digit, and its UTF-8 bytes are
/// rejected as well, so the statement over characters matches the crate's
/// check over bytes.
#[verifier::external_body]
fn hex_decode(s: &str) -> (res: Result<Vec<u8>, hex::FromHexError>)
    ensures
        res is Ok <==> is_hex_text(s@),
        res matches Ok(v) ==> v@ == hex_text_bytes(s@),
{
    hex::decode(s)
}

/// `hex::encode`: lower-case hexadecimal text, two digits per byte.
#[verifier::external_body]
fn hex_encode(bytes: &[u8]) -> (res: String)
    ensures
        res@ == lower_hex_text(bytes@),
{
    hex::encode(bytes)
}

// ---------------------------------------------------------------------------
// Hashing
// ---------------------------------------------------------------------------

/// The Keccak-256 digest of `data`.
pub uninterp spec fn keccak256_digest(data: Seq<u8>) -> Seq<u8>;

/// Keccak-256 of the empty input.
pub open spec fn keccak256_of_empty() -> Seq<u8> {
    seq![
        0xc5u8, 0xd2, 0x46, 0x01, 0x86, 0xf7, 0x23, 0x3c, 0x92, 0x7e, 0x7d, 0xb2, 0xdc, 0xc7, 0x03,
        0xc0, 0xe5, 0x00, 0xb6, 0x53, 0xca, 0x82, 0x27, 0x3b, 0x7b, 0xfa, 0xd8, 0x04, 0x5d, 0x85,
        0xa4, 0x70,
    ]
}

/// Keccak-256 of the five bytes `01 02 03 04 05`.
pub open spec fn keccak256_of_one_to_five() -> Seq<u8> {
    seq![
        0x7du8, 0x87, 0xc5, 0xea, 0x75, 0xf7, 0x37, 0x8b, 0xb7, 0x01, 0xe4, 0x04, 0xc5, 0x06, 0x39,
        0x16, 0x1a, 0xf3, 0xef, 0xf6, 0x62, 0x93, 0xe9, 0xf3, 0x75, 0xb5, 0xf1, 0x7e, 0xb5, 0x04,
        0x76, 0xf4,
    ]
}

/// Keccak-256 of `data`, by `tiny_keccak::Keccak::v256`, one `update` with
/// exactly the input bytes and `finalize` into a 32-byte buffer. The digest in
/// general is left unstated (it is a function of the input alone); it is
/// stated for the two inputs whose digests tiny-keccak's own tests give
/// (`tests/keccak.rs`): the empty input and `01 02 03 04 05`.
#[verifier::external_body]
fn keccak256(data: &[u8]) -> (hash: [u8; 32])
    ensures
        hash@ == keccak256_digest(data@),
        data@ == Seq::<u8>::empty() ==> hash@ == keccak256_of_empty(),
        data@ == seq![1u8, 2u8, 3u8, 4u8, 5u8] ==> hash@ == keccak256_of_one_to_five(),
{
    let mut hasher = Keccak::v256();
    hasher.update(data);
    let mut hash = [0u8; 32];
    hasher.finalize(&mut hash);
    hash
}

// ---------------------------------------------------------------------------
// Hypercube coordinates
// ---------------------------------------------------------------------------

/// Bit `i` of a 32-byte hash read as a big-endian 256-bit integer.
pub open spec fn hash_bit(hash: Seq<u8>, i: int) -> bool {
    (hash[31 - i / 8] >> ((i % 8) as u8)) & 1u8 == 1u8
}

/// The first `ADDRESS_BITS` bits of a hash, least significant first.
pub open spec fn hash_bits(hash: Seq<u8>) -> Seq<bool> {
    Seq::new(ADDRESS_BITS as nat, |i: int| hash_bit(hash, i))
}

/// The hypercube vertex of an address string.
pub open spec fn address_bits(address: Seq<char>) -> Seq<bool> {
    hash_bits(keccak256_digest(address_bytes(address)))
}

/// The vertex coordinates of a 32-byte hash: bit `i` is `(uint256(hash) >> i) & 1`.
pub fn hypercube_bits_from_hash(hash: &[u8; 32]) -> (bits: Vec<bool>)
    ensures
        bits@ == hash_bits(hash@),
{
    let mut bits: Vec<bool> = Vec::with_capacity(ADDRESS_BITS);
    let mut i: usize = 0;
    while i < ADDRESS_BITS
        invariant
            i <= ADDRESS_BITS,
            bits.len() == i,
            forall|j: int| 0 <= j < i ==> bits@[j] == hash_bit(hash@, j),
        decreases ADDRESS_BITS - i,
    {
        let byte_idx = 31 - (i / 8);
        let bit_idx = (i % 8) as u8;
        let bit = (hash[byte_idx] >> bit_idx) & 1u8;
        bits.push(bit == 1u8);
        i = i + 1;
    }
    assert(bits@ =~= hash_bits(hash@));
    bits
}

/// The number whose binary digits, least significant first, are the first `i` coordinates.
pub open spec fn index_prefix(bits: Seq<bool>, i: nat) -> nat
    decreases i,
{
    if i == 0 {
        0
    } else {
        index_prefix(bits, (i - 1) as nat) + (if bits[i - 1] {
            pow2((i - 1) as nat)
        } else {
            0
        })
    }
}

/// How many coordinates of a vertex take part in its index.
pub open spec fn used_bits(bits: Seq<bool>, num_vars: nat) -> nat {
    if num_vars < bits.len() {
        num_vars
    } else {
        bits.len()
    }
}

/// The table index of a vertex: `sum bits[i] * 2^i` over the first `num_vars` coordinates.
pub open spec fn vertex_index(bits: Seq<bool>, num_vars: nat) -> nat {
    index_prefix(bits, used_bits(bits, num_vars))
}

/// An index built from `i` binary digits lies below `2^i`.
pub proof fn lemma_index_prefix_bound(bits: Seq<bool>, i: nat)
    ensures
        index_prefix(bits, i) < pow2(i),
    decreases i,
{
    if i > 0 {
        lemma_index_prefix_bound(bits, (i - 1) as nat);
        lemma_pow2_unfold(i);
    } else {
        lemma2_to64();
    }
}

/// `2^e` fits the range of `usize` for `e` up to its width.
proof fn lemma_pow2_fits_usize(e: nat)
    requires
        e <= usize::BITS,
    ensures
        pow2(e) <= usize::MAX + 1,
{
    lemma2_to64();
    lemma2_to64_rest();
    if e < usize::BITS {
        lemma_pow2_strictly_increases(e, usize::BITS as nat);
    }
}

/// The index of a vertex in the evaluation table of `num_vars` variables.
pub fn hypercube_index(bits: &[bool], num_vars: usize) -> (idx: usize)
    requires
        used_bits(bits@, num_vars as nat) <= usize::BITS,
    ensures
        idx == vertex_index(bits@, num_vars as nat),
{
    let m = if num_vars < bits.len() {
        num_vars
    } else {
        bits.len()
    };
    proof {
        lemma_pow2_fits_usize(m as nat);
        lemma2_to64();
    }
    let mut idx: usize = 0;
    let mut p: usize = 1;
    let mut i: usize = 0;
    while i < m
        invariant
            m == used_bits(bits@, num_vars as nat),
            m <= bits.len(),
            pow2(m as nat) <= usize::MAX + 1,
            i <= m,
            idx == index_prefix(bits@, i as nat),
            idx < pow2(i as nat),
            i < m ==> p == pow2(i as nat),
        decreases m - i,
    {
        proof {
            lemma_pow2_unfold((i + 1) as nat);
            if i + 1 < m {
                lemma_pow2_strictly_increases((i + 1) as nat, m as nat);
            }
            if i + 1 == m {
                assert(pow2((i + 1) as nat) == pow2(m as nat));
            }
        }
        if bits[i] {
            idx = idx + p;
        }
        if i + 1 < m {
            p = p * 2;
        }
        i = i + 1;
    }
    idx
}

/// Maps an Ethereum address string to its vertex on the hypercube.
///
/// The text after any leading `"0x"` is decoded as hexadecimal (no bytes if
/// that fails) and hashed with Keccak-256; the vertex is read off the hash.
pub fn address_to_hypercube_bits(address: &str) -> (bits: Vec<bool>)
    ensures
        bits@ == address_bits(address@),
{
    let digits = trim_0x_prefixes(address);
    let addr_bytes = match hex_decode(digits) {
        Ok(v) => v,
        Err(_) => Vec::new(),
    };
    let hash = keccak256(addr_bytes.as_slice());
    hypercube_bits_from_hash(&hash)
}

/// The coordinate sequences of a list of vertices.
pub open spec fn point_views(points: Seq<Vec<bool>>) -> Seq<Seq<bool>> {
    points.map_values(|v: Vec<bool>| v@)
}

/// Whether some vertex among `points` has table index `k`.
pub open spec fn is_marked(points: Seq<Seq<bool>>, num_vars: nat, k: nat) -> bool {
    exists|j: int| 0 <= j < points.len() && vertex_index(#[trigger] points[j], num_vars) == k
}

/// The indicator table of a set of vertices: `2^num_vars` entries, 1 at the
/// index of each vertex and 0 elsewhere.
pub open spec fn indicator_table(points: Seq<Seq<bool>>, num_vars: nat) -> Seq<nat> {
    Seq::new(
        pow2(num_vars),
        |k: int|
            if is_marked(points, num_vars, k as nat) {
                1nat
            } else {
                0nat
            },
    )
}

/// The hypercube vertices of a list of address strings.
pub open spec fn address_points(addresses: Seq<String>) -> Seq<Seq<bool>> {
    addresses.map_values(|a: String| address_bits(a@))
}

/// Builds the evaluation table of the indicator polynomial of a set of vertices:
/// `table[idx]` is one if some vertex has index `idx`, zero otherwise.
pub fn table_from_points(points: &[Vec<bool>], num_vars: usize) -> (table: Vec<Fr>)
    requires
        num_vars < usize::BITS,
    ensures
        fr_values(table@) == indicator_table(point_views(points@), num_vars as nat),
{
    let ghost pts = point_views(points@);
    let size: usize = 1usize << num_vars;
    proof {
        lemma_usize_pow2_no_overflow(num_vars as nat);
        lemma_usize_shl_is_mul(1, num_vars);
    }
    let mut table: Vec<Fr> = Vec::with_capacity(size);
    while table.len() < size
        invariant
            size == pow2(num_vars as nat),
            table.len() <= size,
            forall|k: int| 0 <= k < table.len() ==> (#[trigger] table@[k])@ == 0,
        decreases size - table.len(),
    {
        table.push(Fr::zero());
    }
    let mut j: usize = 0;
    while j < points.len()
        invariant
            pts == point_views(points@),
            num_vars < usize::BITS,
            size == pow2(num_vars as nat),
            table.len() == size,
            j <= points.len(),
            forall|k: int|
                0 <= k < size ==> (#[trigger] table@[k])@ == (if is_marked(
                    pts.take(j as int),
                    num_vars as nat,
                    k as nat,
                ) {
                    1nat
                } else {
                    0nat
                }),
        decreases points.len() - j,
    {
        let idx = hypercube_index(points[j].as_slice(), num_vars);
        proof {
            let u = used_bits(pts[j as int], num_vars as nat);
            lemma_index_prefix_bound(pts[j as int], u);
            if u < num_vars {
                lemma_pow2_strictly_increases(u, num_vars as nat);
            }
        }
        if idx < size {
            table[idx] = Fr::one();
        }
        proof {
            assert forall|k: int| 0 <= k < size implies (#[trigger] table@[k])@ == (if is_marked(
                pts.take(j + 1),
                num_vars as nat,
                k as nat,
            ) {
                1nat
            } else {
                0nat
            }) by {
                let before = pts.take(j as int);
                let after = pts.take(j + 1);
                if is_marked(before, num_vars as nat, k as nat) {
                    let w = choose|w: int|
                        0 <= w < before.len() && vertex_index(#[trigger] before[w], num_vars as nat)
                            == k as nat;
                    assert(after[w] == before[w]);
                }
                if k == idx {
                    assert(after[j as int] == pts[j as int]);
                }
                if is_marked(after, num_vars as nat, k as nat) {
                    let w = choose|w: int|
                        0 <= w < after.len() && vertex_index(#[trigger] after[w], num_vars as nat)
                            == k as nat;
                    if w < j {
                        assert(before[w] == after[w]);
                    }
                }
            }
        }
        j = j + 1;
    }
    proof {
        assert(pts.take(points.len() as int) =~= pts);
        assert(fr_values(table@) =~= indicator_table(pts, num_vars as nat));
    }
    table
}

/// Builds the `2^num_vars`-entry evaluation table of the whitelist indicator
/// polynomial: `table[idx]` is one if some address maps to vertex `idx`, zero otherwise.
pub fn build_table(whitelisted_addresses: &[String], num_vars: usize) -> (table: Vec<Fr>)
    requires
        num_vars < usize::BITS,
    ensures
        fr_values(table@) == indicator_table(address_points(whitelisted_addresses@), num_vars as nat),
{
    let mut points: Vec<Vec<bool>> = Vec::with_capacity(whitelisted_addresses.len());
    let mut j: usize = 0;
    while j < whitelisted_addresses.len()
        invariant
            j <= whitelisted_addresses.len(),
            points.len() == j,
            forall|i: int|
                0 <= i < j ==> (#[trigger] points@[i])@ == address_bits(whitelisted_addresses@[i]@),
        decreases whitelisted_addresses.len() - j,
    {
        let bits = address_to_hypercube_bits(whitelisted_addresses[j].as_str());
        points.push(bits);
        j = j + 1;
    }
    proof {
        assert(point_views(points@) =~= address_points(whitelisted_addresses@));
    }
    table_from_points(points.as_slice(), num_vars)
}

// ---------------------------------------------------------------------------
// Properties
// ---------------------------------------------------------------------------

/// `c` with the upper-case hexadecimal letters `A-F` lowered.
pub open spec fn lower_hex_letter(c: char) -> char {
    let n = c as u32;
    if 65 <= n <= 70 {
        (n + 32) as char
    } else {
        c
    }
}

/// `s` with the upper-case hexadecimal letters `A-F` lowered.
pub open spec fn lower_hex_letters(s: Seq<char>) -> Seq<char> {
    s.map_values(|c: char| lower_hex_letter(c))
}

proof fn lemma_trim_0x_lower(s: Seq<char>)
    ensures
        trim_0x(lower_hex_letters(s)) == lower_hex_letters(trim_0x(s)),
    decreases s.len(),
{
    let l = lower_hex_letters(s);
    if s.len() >= 2 && s[0] == '0' && s[1] == 'x' {
        assert(l[0] == '0' && l[1] == 'x');
        assert(l.subrange(2, l.len() as int) =~= lower_hex_letters(s.subrange(2, s.len() as int)));
        lemma_trim_0x_lower(s.subrange(2, s.len() as int));
    } else {
        if s.len() >= 2 {
            assert(!(l[0] == '0' && l[1] == 'x'));
        }
    }
}

/// The vertex of an address does not depend on the case of its hexadecimal letters.
pub proof fn lemma_vertex_ignores_letter_case(address: Seq<char>)
    ensures
        address_bits(lower_hex_letters(address)) == address_bits(address),
{
    let t = trim_0x(address);
    lemma_trim_0x_lower(address);
    let lt = lower_hex_letters(t);
    if is_hex_text(t) {
        assert forall|i: int| 0 <= i < lt.len() implies is_hex_digit(#[trigger] lt[i]) by {
            assert(is_hex_digit(t[i]));
        }
        assert forall|i: int| 0 <= i < t.len() implies hex_digit_value(#[trigger] lt[i])
            == hex_digit_value(t[i]) by {
            assert(is_hex_digit(t[i]));
        }
        assert(hex_text_bytes(lt) =~= hex_text_bytes(t));
    } else {
        if lt.len() % 2 == 0 {
            let i = choose|i: int| 0 <= i < t.len() && !is_hex_digit(#[trigger] t[i]);
            assert(!is_hex_digit(lt[i]));
        }
    }
}

/// The vertex of an address does not depend on a leading `"0x"`.
pub proof fn lemma_vertex_ignores_0x_prefix(digits: Seq<char>)
    ensures
        address_bits(seq!['0', 'x'] + digits) == address_bits(digits),
{
    let s = seq!['0', 'x'] + digits;
    assert(s.subrange(2, s.len() as int) =~= digits);
}

/// Lower-case hexadecimal text decodes back to the bytes it was made from.
pub proof fn lemma_hex_text_roundtrip(bytes: Seq<u8>)
    ensures
        is_hex_text(lower_hex_text(bytes)),
        hex_text_bytes(lower_hex_text(bytes)) == bytes,
{
    let t = lower_hex_text(bytes);
    assert forall|i: int| 0 <= i < t.len() implies is_hex_digit(#[trigger] t[i]) by {
        assert(bytes[i / 2] / 16 < 16 && bytes[i / 2] % 16 < 16);
    }
    assert forall|k: int| 0 <= k < bytes.len() implies #[trigger] hex_text_bytes(t)[k]
        == bytes[k] by {
        assert(t[2 * k] == lower_hex_digit((bytes[k] / 16) as nat));
        assert(t[2 * k + 1] == lower_hex_digit((bytes[k] % 16) as nat));
    }
    assert(hex_text_bytes(t) =~= bytes);
}

/// The text that `address_bytes_to_hex` writes for a 20-byte address maps to
/// the vertex of the hash of those bytes.
pub proof fn lemma_hex_address_vertex(bytes: Seq<u8>)
    ensures
        address_bits(seq!['0', 'x'] + lower_hex_text(bytes)) == hash_bits(keccak256_digest(bytes)),
{
    let t = lower_hex_text(bytes);
    lemma_vertex_ignores_0x_prefix(t);
    lemma_hex_text_roundtrip(bytes);
    if t.len() >= 2 {
        assert(t[1] == lower_hex_digit((bytes[0] % 16) as nat));
        assert(t[1] != 'x');
    }
    assert(trim_0x(t) == t);
}

proof fn lemma_pow256_is_pow2(q: nat)
    ensures
        pow256(q) == pow2(8 * q),
    decreases q,
{
    lemma2_to64();
    if q > 0 {
        lemma_pow256_is_pow2((q - 1) as nat);
        lemma_pow2_adds(8, (8 * (q - 1)) as nat);
        assert(8 + 8 * (q - 1) == 8 * q);
    }
}

/// Byte `q` of little-endian bytes is digit `q` of their value in base 256.
proof fn lemma_le_byte_is_digit(r: Seq<u8>, q: nat)
    requires
        q < r.len(),
    ensures
        (bytes_le_value(r) / pow256(q)) % 256 == r[q as int],
    decreases q,
{
    let v = bytes_le_value(r) as int;
    let rest = bytes_le_value(r.drop_first()) as int;
    lemma_fundamental_div_mod_converse(v, 256, rest, r[0] as int);
    if q == 0 {
        assert(pow256(0) == 1);
        lemma_div_basics(v);
    } else {
        lemma_pow256_is_pow2((q - 1) as nat);
        lemma_pow2_pos((8 * (q - 1)) as nat);
        lemma_div_denominator(v, 256, pow256((q - 1) as nat) as int);
        assert(pow256(q) == 256 * pow256((q - 1) as nat));
        lemma_le_byte_is_digit(r.drop_first(), (q - 1) as nat);
        assert(r.drop_first()[q - 1] == r[q as int]);
    }
}

/// Bit `8q + s` of a number is bit `s` of its base-256 digit `q`.
proof fn lemma_bit_in_digit(x: nat, q: nat, s: nat)
    requires
        s < 8,
    ensures
        (x / pow2(8 * q + s)) % 2 == (((x / pow256(q)) % 256) / pow2(s)) % 2,
{
    lemma2_to64();
    lemma_pow256_is_pow2(q);
    lemma_pow2_adds(8 * q, s);
    lemma_pow2_adds(s, (8 - s) as nat);
    lemma_pow2_pos(8 * q);
    lemma_pow2_pos(s);
    lemma_pow2_unfold((8 - s) as nat);
    let ps = pow2(s) as int;
    let pr = pow2((8 - s - 1) as nat) as int;
    let y = (x / pow256(q)) as int;
    lemma_div_denominator(x as int, pow256(q) as int, ps);
    let z = y / 256;
    let b = y % 256;
    lemma_fundamental_div_mod(y, 256);
    let bq = b / ps;
    let br = b % ps;
    lemma_fundamental_div_mod(b, ps);
    lemma_mod_bound(b, ps);
    assert(ps * (2 * pr) == 256);
    assert(y == ps * (z * 2 * pr + bq) + br) by (nonlinear_arith)
        requires
            y == 256 * z + b,
            b == ps * bq + br,
            ps * (2 * pr) == 256,
    ;
    lemma_fundamental_div_mod_converse(y, ps, z * 2 * pr + bq, br);
    lemma_fundamental_div_mod(bq, 2);
    assert(z * 2 * pr + bq == (z * pr + bq / 2) * 2 + bq % 2) by (nonlinear_arith)
        requires
            bq == 2 * (bq / 2) + bq % 2,
    ;
    lemma_fundamental_div_mod_converse(
        z * 2 * pr + bq,
        2,
        z * pr + bq / 2,
        bq % 2,
    );
}

/// The extracted bit agrees with the hash read as a big-endian integer:
/// `hash_bit(hash, i) == ((uint256(hash) >> i) & 1 == 1)`.
pub proof fn lemma_hash_bit_is_integer_bit(hash: Seq<u8>, i: nat)
    requires
        hash.len() == 32,
        i < 256,
    ensures
        hash_bit(hash, i as int) == ((bytes_be_value(hash) / pow2(i)) % 2 == 1),
{
    let r = hash.reverse();
    let q = i / 8;
    let s = i % 8;
    lemma_le_byte_is_digit(r, q);
    lemma_bit_in_digit(bytes_le_value(r), q, s);
    assert(8 * q + s == i);
    let byte = hash[31 - q as int];
    assert(r[q as int] == byte);
    lemma_u8_shr_is_div(byte, s as u8);
    let shifted = byte >> (s as u8);
    assert((shifted & 1u8) == shifted % 2) by (bit_vector);
}

/// In the table of an empty whitelist every entry is zero.
pub proof fn lemma_empty_whitelist_table(num_vars: nat)
    ensures
        forall|k: int|
            0 <= k < pow2(num_vars) ==> #[trigger] indicator_table(Seq::empty(), num_vars)[k]
                == 0,
{
}

/// In the table of a one-address whitelist exactly one entry is one: the one
/// at the address's vertex.
pub proof fn lemma_single_address_table(point: Seq<bool>, num_vars: nat)
    ensures
        vertex_index(point, num_vars) < pow2(num_vars),
        forall|k: int|
            0 <= k < pow2(num_vars) ==> (#[trigger] indicator_table(seq![point], num_vars)[k]
                == 1 <==> k == vertex_index(point, num_vars)),
{
    let u = used_bits(point, num_vars);
    lemma_index_prefix_bound(point, u);
    if u < num_vars {
        lemma_pow2_strictly_increases(u, num_vars);
    }
    assert forall|k: int| 0 <= k < pow2(num_vars) implies (#[trigger] indicator_table(
        seq![point],
        num_vars,
    )[k] == 1 <==> k == vertex_index(point, num_vars)) by {
        let pts = seq![point];
        if k == vertex_index(point, num_vars) {
            assert(vertex_index(pts[0], num_vars) == k);
        }
    }
}

/// Cutting a vertex down to its first `n` coordinates keeps its index in the
/// table of `n` variables.
pub proof fn lemma_vertex_index_take(bits: Seq<bool>, n: nat)
    requires
        n <= bits.len(),
    ensures
        vertex_index(bits.take(n as int), n) == vertex_index(bits, n),
{
    lemma_index_prefix_take(bits, n, n);
}

proof fn lemma_index_prefix_take(bits: Seq<bool>, n: nat, i: nat)
    requires
        i <= n <= bits.len(),
    ensures
        index_prefix(bits.take(n as int), i) == index_prefix(bits, i),
    decreases i,
{
    if i > 0 {
        lemma_index_prefix_take(bits, n, (i - 1) as nat);
    }
}

/// Two vertices have the same index among the first `i` coordinates exactly
/// when they agree on those coordinates.
pub proof fn lemma_index_prefix_injective(a: Seq<bool>, b: Seq<bool>, i: nat)
    requires
        i <= a.len(),
        i <= b.len(),
    ensures
        index_prefix(a, i) == index_prefix(b, i) <==> a.take(i as int) == b.take(i as int),
    decreases i,
{
    if i == 0 {
        assert(a.take(0) =~= b.take(0));
    } else {
        let j = (i - 1) as nat;
        lemma_index_prefix_injective(a, b, j);
        lemma_index_prefix_bound(a, j);
        lemma_index_prefix_bound(b, j);
        assert(a.take(i as int) =~= a.take(j as int).push(a[j as int]));
        assert(b.take(i as int) =~= b.take(j as int).push(b[j as int]));
        if a.take(i as int) == b.take(i as int) {
            assert(a.take(i as int)[j as int] == b.take(i as int)[j as int]);
            assert(a.take(j as int) =~= a.take(i as int).take(j as int));
            assert(b.take(j as int) =~= b.take(i as int).take(j as int));
        }
    }
}

/// The table index of a vertex with at least `n` coordinates depends on its
/// first `n` coordinates only, and determines them.
pub proof fn lemma_vertex_index_is_prefix(a: Seq<bool>, b: Seq<bool>, n: nat)
    requires
        n <= a.len(),
        n <= b.len(),
    ensures
        vertex_index(a, n) == vertex_index(b, n) <==> a.take(n as int) == b.take(n as int),
{
    lemma_index_prefix_injective(a, b, n);
}

/// Encodes a raw 20-byte address as `"0x"` followed by lower-case hexadecimal.
pub fn address_bytes_to_hex(addr_bytes: &[u8; 20]) -> (s: String)
    ensures
        s@ == seq!['0', 'x'] + lower_hex_text(addr_bytes@),
{
    let digits = hex_encode(addr_bytes.as_slice());
    let mut s = String::from_str("0x");
    proof {
        reveal_strlit("0x");
    }
    s.append(digits.as_str());
    s
}

} // verus!

//! The multilinear opening: folding the evaluation table one coordinate at a
//! time, the quotient table of each round, and the ABI encoding of a proof as
//! the hook data that the on-chain verifier decodes.
//!
//! The table is laid out with coordinate 0 as the least significant bit of the
//! index: entries `2j` and `2j + 1` differ only in the coordinate folded next.
use vstd::prelude::*;
use vstd::arithmetic::power2::*;
use vstd::arithmetic::div_mod::*;
use crate::kzg::field::{
    Fr,
    fr_values,
    modulus,
    bytes_le_value,
    bytes_be_value,
    pow256,
    lemma_bytes_le_value_concat,
};
use crate::kzg::encoding::{
    index_prefix,
    vertex_index,
    indicator_table,
    is_marked,
    used_bits,
    address_bits,
    address_points,
    lemma_index_prefix_bound,
    lemma_vertex_index_take,
    lemma_vertex_index_is_prefix,
    ADDRESS_BITS,
};

verus! {

/// Fixes the lowest coordinate of a table to `z`.
pub open spec fn fold_once(t: Seq<nat>, z: bool) -> Seq<nat> {
    Seq::new(
        t.len() / 2,
        |j: int|
            if z {
                t[2 * j + 1]
            } else {
                t[2 * j]
            },
    )
}

/// The table left after fixing the first `i` coordinates to those of `point`.
pub open spec fn folded(t: Seq<nat>, point: Seq<bool>, i: nat) -> Seq<nat>
    decreases i,
{
    if i == 0 {
        t
    } else {
        fold_once(folded(t, point, (i - 1) as nat), point[i - 1])
    }
}

/// The quotient of one round: `q[j] = t[2j + 1] - t[2j]` in the field.
pub open spec fn quotient_of(t: Seq<nat>) -> Seq<nat> {
    Seq::new(
        t.len() / 2,
        |j: int| ((t[2 * j + 1] + modulus() - t[2 * j]) % (modulus() as int)) as nat,
    )
}

/// Each quotient entry is the field difference of the pair it comes from:
/// added to `f(0, j)` it gives `f(1, j)` back, modulo `r`.
pub proof fn lemma_quotient_is_difference(t: Seq<nat>)
    requires
        forall|k: int| 0 <= k < t.len() ==> #[trigger] t[k] < modulus(),
    ensures
        quotient_of(t).len() == t.len() / 2,
        forall|j: int|
            0 <= j < t.len() / 2 ==> (#[trigger] quotient_of(t)[j] + t[2 * j]) % modulus() == t[2
                * j + 1],
{
    assert forall|j: int| 0 <= j < t.len() / 2 implies (#[trigger] quotient_of(t)[j] + t[2 * j])
        % modulus() == t[2 * j + 1] by {
        crate::kzg::field::lemma_difference_adds_back(t[2 * j + 1], t[2 * j]);
    }
}

/// After fixing `i` coordinates, entry `j` of the folded table is entry
/// `j * 2^i + index_prefix(point, i)` of the unfolded table.
pub proof fn lemma_folded_entry(t: Seq<nat>, point: Seq<bool>, n: nat, i: nat)
    requires
        t.len() == pow2(n),
        i <= n,
        n <= point.len(),
    ensures
        folded(t, point, i).len() == pow2((n - i) as nat),
        forall|j: int|
            0 <= j < pow2((n - i) as nat) ==> #[trigger] folded(t, point, i)[j] == t[j * pow2(i)
                + index_prefix(point, i)],
    decreases i,
{
    if i == 0 {
        lemma2_to64();
    } else {
        let prev = (i - 1) as nat;
        lemma_folded_entry(t, point, n, prev);
        lemma_pow2_unfold((n - prev) as nat);
        lemma_pow2_unfold(i);
        let f = folded(t, point, prev);
        let p = pow2(prev);
        let b: int = if point[i - 1] {
            1
        } else {
            0
        };
        assert forall|j: int| 0 <= j < pow2((n - i) as nat) implies #[trigger] folded(
            t,
            point,
            i,
        )[j] == t[j * pow2(i) + index_prefix(point, i)] by {
            assert(0 <= 2 * j + b < pow2((n - prev) as nat));
            assert((2 * j + b) * p == j * (2 * p) + b * p) by (nonlinear_arith);
            assert(b * p == (if point[i - 1] {
                p
            } else {
                0
            })) by (nonlinear_arith)
                requires
                    b == (if point[i - 1] {
                        1int
                    } else {
                        0
                    }),
            ;
        }
    }
}

/// Folding a table along every coordinate of `point` leaves one entry: the
/// entry at the index of `point`.
pub proof fn lemma_fold_all_is_lookup(t: Seq<nat>, point: Seq<bool>)
    requires
        t.len() == pow2(point.len()),
    ensures
        folded(t, point, point.len()).len() == 1,
        folded(t, point, point.len())[0] == t[vertex_index(point, point.len()) as int],
{
    lemma_folded_entry(t, point, point.len(), point.len());
    lemma2_to64();
}

/// Opening the indicator table of a set of vertices at a point gives one
/// exactly when some vertex of the set has the point's index, and zero otherwise.
pub proof fn lemma_evaluation_is_membership(points: Seq<Seq<bool>>, point: Seq<bool>)
    ensures
        folded(indicator_table(points, point.len()), point, point.len())[0] == (if is_marked(
            points,
            point.len(),
            vertex_index(point, point.len()),
        ) {
            1nat
        } else {
            0nat
        }),
{
    let n = point.len();
    lemma_fold_all_is_lookup(indicator_table(points, n), point);
    lemma_index_prefix_bound(point, used_bits(point, n));
}

/// A whitelisted address, cut to the first `n` coordinates of its vertex,
/// opens the whitelist table to one.
pub proof fn lemma_whitelisted_address_evaluates_to_one(addresses: Seq<String>, j: int, n: nat)
    requires
        0 <= j < addresses.len(),
        n <= ADDRESS_BITS,
    ensures
        folded(
            indicator_table(address_points(addresses), n),
            address_bits(addresses[j]@).take(n as int),
            n,
        )[0] == 1,
{
    let bits = address_bits(addresses[j]@);
    let point = bits.take(n as int);
    let pts = address_points(addresses);
    lemma_vertex_index_take(bits, n);
    lemma_evaluation_is_membership(pts, point);
    assert(pts[j] == bits);
    assert(is_marked(pts, n, vertex_index(point, n)));
}

/// An address whose vertex index differs from that of every whitelisted
/// address opens the whitelist table to zero.
pub proof fn lemma_unlisted_address_evaluates_to_zero(
    addresses: Seq<String>,
    address: Seq<char>,
    n: nat,
)
    requires
        n <= ADDRESS_BITS,
        forall|j: int|
            0 <= j < addresses.len() ==> vertex_index(address_bits(#[trigger] addresses[j]@), n)
                != vertex_index(address_bits(address), n),
    ensures
        folded(
            indicator_table(address_points(addresses), n),
            address_bits(address).take(n as int),
            n,
        )[0] == 0,
{
    let bits = address_bits(address);
    let point = bits.take(n as int);
    let pts = address_points(addresses);
    lemma_vertex_index_take(bits, n);
    lemma_evaluation_is_membership(pts, point);
    if is_marked(pts, n, vertex_index(point, n)) {
        let j = choose|j: int| 0 <= j < pts.len() && vertex_index(#[trigger] pts[j], n)
            == vertex_index(point, n);
        assert(pts[j] == address_bits(addresses[j]@));
    }
}

/// Opening the whitelist table at the first `n` coordinates of an address's
/// vertex gives one exactly when some whitelisted address has a vertex with
/// the same first `n` coordinates, and zero otherwise.
pub proof fn lemma_evaluation_is_prefix_membership(
    addresses: Seq<String>,
    address: Seq<char>,
    n: nat,
)
    requires
        n <= ADDRESS_BITS,
    ensures
        folded(
            indicator_table(address_points(addresses), n),
            address_bits(address).take(n as int),
            n,
        )[0] == (if exists|j: int|
            0 <= j < addresses.len() && (#[trigger] address_bits(addresses[j]@)).take(n as int)
                == address_bits(address).take(n as int) {
            1nat
        } else {
            0nat
        }),
{
    let bits = address_bits(address);
    let point = bits.take(n as int);
    let pts = address_points(addresses);
    lemma_vertex_index_take(bits, n);
    lemma_evaluation_is_membership(pts, point);
    let same_prefix = exists|j: int|
        0 <= j < addresses.len() && (#[trigger] address_bits(addresses[j]@)).take(n as int)
            == bits.take(n as int);
    if same_prefix {
        let j = choose|j: int|
            0 <= j < addresses.len() && (#[trigger] address_bits(addresses[j]@)).take(n as int)
                == bits.take(n as int);
        lemma_vertex_index_is_prefix(address_bits(addresses[j]@), bits, n);
        assert(pts[j] == address_bits(addresses[j]@));
        assert(is_marked(pts, n, vertex_index(point, n)));
    }
    if is_marked(pts, n, vertex_index(point, n)) {
        let j = choose|j: int| 0 <= j < pts.len() && vertex_index(#[trigger] pts[j], n)
            == vertex_index(point, n);
        assert(pts[j] == address_bits(addresses[j]@));
        lemma_vertex_index_is_prefix(address_bits(addresses[j]@), bits, n);
        assert(same_prefix);
    }
}

/// Copies a table of field elements.
fn copy_table(table: &[Fr]) -> (out: Vec<Fr>)
    ensures
        out@ == table@,
{
    let mut out: Vec<Fr> = Vec::with_capacity(table.len());
    let mut j: usize = 0;
    while j < table.len()
        invariant
            j <= table.len(),
            out@ == table@.take(j as int),
        decreases table.len() - j,
    {
        out.push(table[j]);
        j = j + 1;
        assert(out@ =~= table@.take(j as int));
    }
    assert(table@.take(table.len() as int) =~= table@);
    out
}

/// Fixes the lowest coordinate of a table to `z`.
fn fold_table(current: &Vec<Fr>, z: bool) -> (next: Vec<Fr>)
    ensures
        fr_values(next@) == fold_once(fr_values(current@), z),
{
    let half = current.len() / 2;
    let mut next: Vec<Fr> = Vec::with_capacity(half);
    let mut j: usize = 0;
    while j < half
        invariant
            half == current.len() / 2,
            j <= half,
            next.len() == j,
            forall|k: int|
                0 <= k < j ==> (#[trigger] next@[k])@ == fold_once(fr_values(current@), z)[k],
        decreases half - j,
    {
        if z {
            next.push(current[2 * j + 1]);
        } else {
            next.push(current[2 * j]);
        }
        j = j + 1;
    }
    assert(fr_values(next@) =~= fold_once(fr_values(current@), z));
    next
}

/// The quotient table of one round: `q[j] = current[2j + 1] - current[2j]`.
fn round_quotient(current: &Vec<Fr>) -> (q: Vec<Fr>)
    ensures
        fr_values(q@) == quotient_of(fr_values(current@)),
        q.len() == current.len() / 2,
        forall|j: int|
            0 <= j < q.len() ==> ((#[trigger] q@[j])@ + current@[2 * j]@) % modulus()
                == current@[2 * j + 1]@,
{
    let half = current.len() / 2;
    let mut q: Vec<Fr> = Vec::with_capacity(half);
    let mut j: usize = 0;
    while j < half
        invariant
            half == current.len() / 2,
            j <= half,
            q.len() == j,
            forall|k: int|
                0 <= k < j ==> (#[trigger] q@[k])@ == quotient_of(fr_values(current@))[k],
            forall|k: int|
                0 <= k < j ==> ((#[trigger] q@[k])@ + current@[2 * k]@) % modulus()
                    == current@[2 * k + 1]@,
        decreases half - j,
    {
        q.push(current[2 * j + 1].sub(&current[2 * j]));
        j = j + 1;
    }
    assert(fr_values(q@) =~= quotient_of(fr_values(current@)));
    q
}

/// The quotient tables of the multilinear opening of `table` at `point`, one
/// per coordinate: round `i` takes the table folded along the first `i`
/// coordinates and returns `q_i[j] = f_i(1, j) - f_i(0, j)`.
///
/// Committing to each `q_i` gives the opening proof.
pub fn opening_quotients(point: &[bool], table: &[Fr]) -> (quotients: Vec<Vec<Fr>>)
    requires
        point.len() < usize::BITS,
        table.len() == pow2(point.len() as nat),
    ensures
        quotients.len() == point.len(),
        forall|i: int|
            0 <= i < point.len() ==> fr_values((#[trigger] quotients@[i])@) == quotient_of(
                folded(fr_values(table@), point@, i as nat),
            ),
        forall|i: int|
            0 <= i < point.len() ==> (#[trigger] quotients@[i]).len() == folded(
                fr_values(table@),
                point@,
                i as nat,
            ).len() / 2,
        forall|i: int, j: int|
            0 <= i < point.len() && 0 <= j < quotients@[i].len() ==> ((
            #[trigger] quotients@[i]@[j])@ + folded(fr_values(table@), point@, i as nat)[2 * j])
                % modulus() == folded(fr_values(table@), point@, i as nat)[2 * j + 1],
{
    let num_vars = point.len();
    let ghost t = fr_values(table@);
    let mut current = copy_table(table);
    let mut quotients: Vec<Vec<Fr>> = Vec::with_capacity(num_vars);
    let mut i: usize = 0;
    while i < num_vars
        invariant
            num_vars == point.len(),
            t == fr_values(table@),
            i <= num_vars,
            quotients.len() == i,
            fr_values(current@) == folded(t, point@, i as nat),
            forall|k: int|
                0 <= k < i ==> fr_values((#[trigger] quotients@[k])@) == quotient_of(
                    folded(t, point@, k as nat),
                ),
            forall|k: int|
                0 <= k < i ==> (#[trigger] quotients@[k]).len() == folded(t, point@, k as nat).len()
                    / 2,
            forall|k: int, j: int|
                0 <= k < i && 0 <= j < quotients@[k].len() ==> ((
                #[trigger] quotients@[k]@[j])@ + folded(t, point@, k as nat)[2 * j]) % modulus()
                    == folded(t, point@, k as nat)[2 * j + 1],
        decreases num_vars - i,
    {
        let q = round_quotient(&current);
        proof {
            assert forall|j: int| 0 <= j < q.len() implies ((#[trigger] q@[j])@ + folded(
                t,
                point@,
                i as nat,
            )[2 * j]) % modulus() == folded(t, point@, i as nat)[2 * j + 1] by {
                assert(fr_values(current@)[2 * j] == current@[2 * j]@);
                assert(fr_values(current@)[2 * j + 1] == current@[2 * j + 1]@);
            }
        }
        quotients.push(q);
        current = fold_table(&current, point[i]);
        i = i + 1;
    }
    quotients
}

/// Evaluates the table's polynomial at a boolean point by folding along
/// every coordinate; the result is the table entry at the point's index.
pub fn evaluate(point: &[bool], table: &[Fr]) -> (value: Fr)
    requires
        point.len() < usize::BITS,
        table.len() == pow2(point.len() as nat),
    ensures
        value@ == folded(fr_values(table@), point@, point.len() as nat)[0],
        value@ == fr_values(table@)[vertex_index(point@, point.len() as nat) as int],
{
    let num_vars = point.len();
    let ghost t = fr_values(table@);
    proof {
        lemma_fold_all_is_lookup(t, point@);
    }
    let mut current = copy_table(table);
    let mut i: usize = 0;
    while i < num_vars
        invariant
            num_vars == point.len(),
            t == fr_values(table@),
            i <= num_vars,
            fr_values(current@) == folded(t, point@, i as nat),
        decreases num_vars - i,
    {
        current = fold_table(&current, point[i]);
        i = i + 1;
    }
    assert(fr_values(current@).len() == 1);
    current[0]
}

// ---------------------------------------------------------------------------
// Hook data
// ---------------------------------------------------------------------------

/// Number of coordinates, and of quotient commitments, in hook data.
pub const HOOK_POINTS: usize = 20;

/// Length of a compressed G1 point.
pub const COMPRESSED_G1_LEN: usize = 48;

/// A 32-byte ABI word holding `v < 2^32`, big-endian.
pub open spec fn abi_word(v: nat) -> Seq<u8> {
    Seq::new(
        32,
        |k: int|
            if k == 28 {
                ((v / 0x100_0000) % 256) as u8
            } else if k == 29 {
                ((v / 0x1_0000) % 256) as u8
            } else if k == 30 {
                ((v / 0x100) % 256) as u8
            } else if k == 31 {
                (v % 256) as u8
            } else {
                0u8
            },
    )
}

/// The ABI words of the first `n` coordinates of a point, one `uint256` (0 or 1) each.
pub open spec fn point_words(point: Seq<bool>, n: nat) -> Seq<u8>
    decreases n,
{
    if n == 0 {
        Seq::empty()
    } else {
        point_words(point, (n - 1) as nat) + abi_word(
            if point[n - 1] {
                1
            } else {
                0
            },
        )
    }
}

/// The first `n` offsets of the `bytes[20]` array: element `i` starts
/// `640 + 96 * i` bytes after the offset block.
pub open spec fn offset_words(n: nat) -> Seq<u8>
    decreases n,
{
    if n == 0 {
        Seq::empty()
    } else {
        offset_words((n - 1) as nat) + abi_word((640 + 96 * (n - 1)) as nat)
    }
}

/// The first `n` elements of the `bytes[20]` array: a length word (48), the
/// compressed point, and 16 bytes of zero padding.
pub open spec fn element_words(commitments: Seq<[u8; 48]>, n: nat) -> Seq<u8>
    decreases n,
{
    if n == 0 {
        Seq::empty()
    } else {
        element_words(commitments, (n - 1) as nat) + abi_word(48) + commitments[n - 1]@ + Seq::new(
            16,
            |k: int| 0u8,
        )
    }
}

/// `abi.encode(uint256 claimedValue = 1, uint256[20] evalPoint, bytes[20] quotientCommitments)`:
/// the head holds the claimed value, the twenty coordinates and the offset of
/// the dynamic `bytes[20]` tail, which starts right after the head, at
/// `32 + 640 + 32 = 704`.
pub open spec fn hookdata_bytes(point: Seq<bool>, commitments: Seq<[u8; 48]>) -> Seq<u8> {
    abi_word(1) + point_words(point, 20) + abi_word(704) + offset_words(20) + element_words(
        commitments,
        20,
    )
}

/// Appends the ABI word of `v`.
fn push_word(out: &mut Vec<u8>, v: u32)
    ensures
        final(out)@ == old(out)@ + abi_word(v as nat),
{
    let ghost start = out@;
    let mut k: usize = 0;
    while k < 28
        invariant
            k <= 28,
            out@ == start + abi_word(v as nat).take(k as int),
        decreases 28 - k,
    {
        out.push(0u8);
        k = k + 1;
        assert(out@ =~= start + abi_word(v as nat).take(k as int));
    }
    out.push(((v / 0x100_0000) % 256) as u8);
    out.push(((v / 0x1_0000) % 256) as u8);
    out.push(((v / 0x100) % 256) as u8);
    out.push((v % 256) as u8);
    assert(out@ =~= start + abi_word(v as nat));
}

/// ABI-encodes an opening proof as the hook data of a swap:
/// `(uint256 claimedValue, uint256[20] evalPoint, bytes[20] quotientCommitments)`
/// with the claimed value 1, each coordinate as a word, and each compressed
/// quotient commitment as a `bytes` element padded to 64 bytes.
pub fn encode_hookdata(point: &[bool], quotient_commitments: &[[u8; 48]]) -> (out: Vec<u8>)
    requires
        point.len() == HOOK_POINTS,
        quotient_commitments.len() == HOOK_POINTS,
    ensures
        out@ == hookdata_bytes(point@, quotient_commitments@),
        out.len() == 3264,
{
    let mut out: Vec<u8> = Vec::new();
    push_word(&mut out, 1);
    let ghost head = out@;
    let mut i: usize = 0;
    while i < point.len()
        invariant
            i <= point.len(),
            head == abi_word(1),
            out@ == head + point_words(point@, i as nat),
        decreases point.len() - i,
    {
        if point[i] {
            push_word(&mut out, 1);
        } else {
            push_word(&mut out, 0);
        }
        i = i + 1;
        assert(out@ =~= head + point_words(point@, i as nat));
    }
    let element_size: usize = COMPRESSED_G1_LEN;
    let element_padded: usize = ((element_size + 31) / 32) * 32;
    let per_element_encoded: usize = 32 + element_padded;
    // The tail starts after the head: claimed value, coordinates and this offset word.
    push_word(&mut out, 32 + 640 + 32);
    let ghost head2 = out@;
    let mut i: usize = 0;
    while i < HOOK_POINTS
        invariant
            i <= HOOK_POINTS,
            per_element_encoded == 96,
            out@ == head2 + offset_words(i as nat),
        decreases HOOK_POINTS - i,
    {
        let elem_offset = HOOK_POINTS * 32 + i * per_element_encoded;
        push_word(&mut out, elem_offset as u32);
        i = i + 1;
        assert(out@ =~= head2 + offset_words(i as nat));
    }
    let ghost head3 = out@;
    let mut i: usize = 0;
    while i < quotient_commitments.len()
        invariant
            i <= quotient_commitments.len(),
            element_size == 48,
            out@ == head3 + element_words(quotient_commitments@, i as nat),
        decreases quotient_commitments.len() - i,
    {
        let compressed = quotient_commitments[i];
        push_word(&mut out, element_size as u32);
        let ghost with_len = out@;
        let mut k: usize = 0;
        while k < 64
            invariant
                k <= 64,
                element_size == 48,
                compressed@.len() == 48,
                out@ == with_len + Seq::new(
                    k as nat,
                    |m: int|
                        if m < 48 {
                            compressed@[m]
                        } else {
                            0u8
                        },
                ),
            decreases 64 - k,
        {
            if k < element_size {
                out.push(compressed[k]);
            } else {
                out.push(0u8);
            }
            k = k + 1;
            assert(out@ =~= with_len + Seq::new(
                k as nat,
                |m: int|
                    if m < 48 {
                        compressed@[m]
                    } else {
                        0u8
                    },
            ));
        }
        i = i + 1;
        assert(out@ =~= head3 + element_words(quotient_commitments@, i as nat));
    }
    proof {
        lemma_hookdata_length(point@, quotient_commitments@);
    }
    out
}

/// Hook data is 3264 bytes long.
proof fn lemma_hookdata_length(point: Seq<bool>, commitments: Seq<[u8; 48]>)
    ensures
        hookdata_bytes(point, commitments).len() == 3264,
{
    lemma_point_words_len(point, 20);
    lemma_offset_words_len(20);
    lemma_element_words_len(commitments, 20);
}

proof fn lemma_point_words_len(point: Seq<bool>, n: nat)
    ensures
        point_words(point, n).len() == 32 * n,
    decreases n,
{
    if n > 0 {
        lemma_point_words_len(point, (n - 1) as nat);
    }
}

proof fn lemma_offset_words_len(n: nat)
    ensures
        offset_words(n).len() == 32 * n,
    decreases n,
{
    if n > 0 {
        lemma_offset_words_len((n - 1) as nat);
    }
}

proof fn lemma_element_words_len(commitments: Seq<[u8; 48]>, n: nat)
    ensures
        element_words(commitments, n).len() == 96 * n,
    decreases n,
{
    if n > 0 {
        lemma_element_words_len(commitments, (n - 1) as nat);
    }
}

// ---------------------------------------------------------------------------
// Reading hook data back
// ---------------------------------------------------------------------------

/// The unsigned integer in the 32-byte word at byte `pos`.
pub open spec fn word_at(b: Seq<u8>, pos: int) -> nat {
    bytes_be_value(b.subrange(pos, pos + 32))
}

/// The claimed value, as `abi.decode` reads it: the first word.
pub open spec fn decoded_claim(h: Seq<u8>) -> nat {
    word_at(h, 0)
}

/// Coordinate `i` of the evaluation point, as `abi.decode` reads it.
pub open spec fn decoded_coordinate(h: Seq<u8>, i: int) -> nat {
    word_at(h, 32 + 32 * i)
}

/// Element `i` of the `bytes[20]` array, as `abi.decode` reads it: the array
/// starts at the offset in its head slot, element `i` at the offset in the
/// array's `i`-th word, and holds the number of bytes its length word gives.
pub open spec fn decoded_element(h: Seq<u8>, i: int) -> Seq<u8> {
    let tail = word_at(h, 672) as int;
    let start = tail + word_at(h, tail + 32 * i) as int;
    let len = word_at(h, start) as int;
    h.subrange(start + 32, start + 32 + len)
}

proof fn lemma_zeros_value(n: nat)
    ensures
        bytes_le_value(Seq::new(n, |k: int| 0u8)) == 0,
    decreases n,
{
    if n > 0 {
        assert(Seq::new(n, |k: int| 0u8).drop_first() =~= Seq::new((n - 1) as nat, |k: int| 0u8));
        lemma_zeros_value((n - 1) as nat);
    }
}

/// An ABI word holds the number it was made from.
proof fn lemma_abi_word_value(v: nat)
    requires
        v < 0x1_0000_0000,
    ensures
        bytes_be_value(abi_word(v)) == v,
{
    let w = abi_word(v);
    let low = seq![w[31], w[30], w[29], w[28]];
    let zeros = Seq::new(28, |k: int| 0u8);
    assert(w.reverse() =~= low + zeros);
    lemma_bytes_le_value_concat(low, zeros);
    lemma_zeros_value(28);
    reveal_with_fuel(bytes_le_value, 5);
    assert(low.drop_first() =~= seq![w[30], w[29], w[28]]);
    assert(low.drop_first().drop_first() =~= seq![w[29], w[28]]);
    assert(low.drop_first().drop_first().drop_first() =~= seq![w[28]]);
    assert(low.drop_first().drop_first().drop_first().drop_first() =~= Seq::<u8>::empty());
    let vi = v as int;
    lemma_fundamental_div_mod(vi, 256);
    lemma_fundamental_div_mod(vi / 256, 256);
    lemma_fundamental_div_mod(vi / 256 / 256, 256);
    lemma_div_denominator(vi, 256, 256);
    lemma_div_denominator(vi / 256, 256, 256);
    lemma_div_denominator(vi, 256, 0x1_0000);
    lemma_small_mod((vi / 0x100_0000) as nat, 256);
}

proof fn lemma_point_word(point: Seq<bool>, n: nat, i: int)
    requires
        0 <= i < n <= point.len(),
    ensures
        point_words(point, n).subrange(32 * i, 32 * i + 32) == abi_word(
            if point[i] {
                1
            } else {
                0
            },
        ),
    decreases n,
{
    lemma_point_words_len(point, (n - 1) as nat);
    if i < n - 1 {
        lemma_point_word(point, (n - 1) as nat, i);
        assert(point_words(point, n).subrange(32 * i, 32 * i + 32) =~= point_words(
            point,
            (n - 1) as nat,
        ).subrange(32 * i, 32 * i + 32));
    } else {
        assert(point_words(point, n).subrange(32 * i, 32 * i + 32) =~= abi_word(
            if point[i] {
                1
            } else {
                0
            },
        ));
    }
}

proof fn lemma_offset_word(n: nat, i: int)
    requires
        0 <= i < n,
    ensures
        offset_words(n).subrange(32 * i, 32 * i + 32) == abi_word((640 + 96 * i) as nat),
    decreases n,
{
    lemma_offset_words_len((n - 1) as nat);
    if i < n - 1 {
        lemma_offset_word((n - 1) as nat, i);
        assert(offset_words(n).subrange(32 * i, 32 * i + 32) =~= offset_words(
            (n - 1) as nat,
        ).subrange(32 * i, 32 * i + 32));
    } else {
        assert(offset_words(n).subrange(32 * i, 32 * i + 32) =~= abi_word((640 + 96 * i) as nat));
    }
}

proof fn lemma_element_word(commitments: Seq<[u8; 48]>, n: nat, i: int)
    requires
        0 <= i < n <= commitments.len(),
    ensures
        element_words(commitments, n).subrange(96 * i, 96 * i + 96) == abi_word(48)
            + commitments[i]@ + Seq::new(16, |k: int| 0u8),
    decreases n,
{
    lemma_element_words_len(commitments, (n - 1) as nat);
    if i < n - 1 {
        lemma_element_word(commitments, (n - 1) as nat, i);
        assert(element_words(commitments, n).subrange(96 * i, 96 * i + 96) =~= element_words(
            commitments,
            (n - 1) as nat,
        ).subrange(96 * i, 96 * i + 96));
    } else {
        assert(element_words(commitments, n).subrange(96 * i, 96 * i + 96) =~= abi_word(48)
            + commitments[i]@ + Seq::new(16, |k: int| 0u8));
    }
}

/// Decoding hook data as `(uint256, uint256[20], bytes[20])` gives back the
/// claimed value 1, the coordinates of the point as 0/1 words, and the
/// compressed commitments.
pub proof fn lemma_hookdata_decodes(point: Seq<bool>, commitments: Seq<[u8; 48]>)
    requires
        point.len() == 20,
        commitments.len() == 20,
    ensures
        hookdata_bytes(point, commitments).len() == 3264,
        decoded_claim(hookdata_bytes(point, commitments)) == 1,
        forall|i: int|
            0 <= i < 20 ==> #[trigger] decoded_coordinate(hookdata_bytes(point, commitments), i)
                == (if point[i] {
                1nat
            } else {
                0nat
            }),
        forall|i: int|
            0 <= i < 20 ==> #[trigger] decoded_element(hookdata_bytes(point, commitments), i)
                == commitments[i]@,
{
    let h = hookdata_bytes(point, commitments);
    let a = abi_word(1);
    let p = point_words(point, 20);
    let b = abi_word(704);
    let o = offset_words(20);
    let e = element_words(commitments, 20);
    lemma_hookdata_length(point, commitments);
    lemma_point_words_len(point, 20);
    lemma_offset_words_len(20);
    lemma_element_words_len(commitments, 20);
    assert(h =~= a + p + b + o + e);
    assert(h.subrange(0, 32) =~= a);
    lemma_abi_word_value(1);
    assert(h.subrange(672, 704) =~= b);
    lemma_abi_word_value(704);
    assert forall|i: int| 0 <= i < 20 implies #[trigger] decoded_coordinate(h, i) == (if point[i] {
        1nat
    } else {
        0nat
    }) by {
        lemma_point_word(point, 20, i);
        assert(h.subrange(32 + 32 * i, 64 + 32 * i) =~= p.subrange(32 * i, 32 * i + 32));
        lemma_abi_word_value(
            if point[i] {
                1
            } else {
                0
            },
        );
    }
    assert forall|i: int| 0 <= i < 20 implies #[trigger] decoded_element(h, i)
        == commitments[i]@ by {
        lemma_offset_word(20, i);
        assert(h.subrange(704 + 32 * i, 736 + 32 * i) =~= o.subrange(32 * i, 32 * i + 32));
        lemma_abi_word_value((640 + 96 * i) as nat);
        let start = 704 + 640 + 96 * i;
        lemma_element_word(commitments, 20, i);
        let el = e.subrange(96 * i, 96 * i + 96);
        assert(h.subrange(start, start + 96) =~= el);
        assert(h.subrange(start, start + 32) =~= el.subrange(0, 32));
        assert(el.subrange(0, 32) =~= abi_word(48));
        lemma_abi_word_value(48);
        assert(commitments[i]@.len() == 48);
        assert(el.subrange(32, 80) =~= commitments[i]@);
        assert(h.subrange(start + 32, start + 80) =~= el.subrange(32, 80));
    }
}

} // verus!

//! Elements of the BLS12-381 scalar field, held as four canonical 64-bit limbs.
//!
//! Addition, subtraction and multiplication are computed modulo the group
//! order `r` and proved against that statement.
use vstd::prelude::*;
use vstd::arithmetic::div_mod::*;
use vstd::arithmetic::mul::*;

verus! {

/// The radix of one limb, 2^64.
pub open spec fn limb_base() -> nat {
    0x1_0000_0000_0000_0000nat
}

/// 2^256, one more than the largest number that four limbs can hold.
pub open spec fn limbs_range() -> nat {
    0x1_0000000000000000_0000000000000000_0000000000000000_0000000000000000nat
}

/// The order `r` of the BLS12-381 scalar field.
pub open spec fn modulus() -> nat {
    0x73eda753299d7d483339d80809a1d80553bda402fffe5bfeffffffff00000001nat
}

/// The number that four little-endian limbs denote.
pub open spec fn limbs_value(l: [u64; 4]) -> nat {
    (l[0] + limb_base() * (l[1] + limb_base() * (l[2] + limb_base() * l[3]))) as nat
}

/// Byte `k` (counting from the least significant) of a limb.
pub open spec fn limb_byte(w: u64, k: int) -> u8 {
    (w >> ((8 * k) as u64)) as u8
}

/// The little-endian bytes of four limbs: byte `8 * i + k` is byte `k` of limb `i`.
pub open spec fn limbs_le_bytes(l: [u64; 4]) -> Seq<u8> {
    Seq::new(32, |n: int| limb_byte(l[n / 8], n % 8))
}

/// The big-endian bytes of four limbs: the limbs most significant first,
/// each written most significant byte first.
pub open spec fn limbs_be_bytes(l: [u64; 4]) -> Seq<u8> {
    Seq::new(32, |n: int| limb_byte(l[3 - n / 8], 7 - n % 8))
}

/// The residues that a sequence of field elements stands for.
pub open spec fn fr_values(s: Seq<Fr>) -> Seq<nat> {
    s.map_values(|f: Fr| f@)
}

/// The number that little-endian bytes denote.
pub open spec fn bytes_le_value(b: Seq<u8>) -> nat
    decreases b.len(),
{
    if b.len() == 0 {
        0
    } else {
        (b[0] + 256 * bytes_le_value(b.drop_first())) as nat
    }
}

/// The number that big-endian bytes denote.
pub open spec fn bytes_be_value(b: Seq<u8>) -> nat {
    bytes_le_value(b.reverse())
}

/// `256^n`.
pub open spec fn pow256(n: nat) -> nat
    decreases n,
{
    if n == 0 {
        1
    } else {
        256 * pow256((n - 1) as nat)
    }
}

/// The little-endian bytes of one limb.
pub open spec fn limb_le_bytes(w: u64) -> Seq<u8> {
    Seq::new(8, |k: int| limb_byte(w, k))
}

/// The value of concatenated little-endian bytes.
pub proof fn lemma_bytes_le_value_concat(a: Seq<u8>, b: Seq<u8>)
    ensures
        bytes_le_value(a + b) == bytes_le_value(a) + pow256(a.len()) * bytes_le_value(b),
    decreases a.len(),
{
    if a.len() == 0 {
        assert(a + b =~= b);
        assert(1 * bytes_le_value(b) == bytes_le_value(b)) by (nonlinear_arith);
    } else {
        assert((a + b).drop_first() =~= a.drop_first() + b);
        assert((a + b)[0] == a[0]);
        lemma_bytes_le_value_concat(a.drop_first(), b);
        let x = bytes_le_value(a.drop_first());
        let y = bytes_le_value(b);
        let p = pow256((a.len() - 1) as nat);
        assert(256 * (x + p * y) == 256 * x + (256 * p) * y) by (nonlinear_arith);
    }
}

proof fn lemma_limb_le_bytes_value(w: u64)
    ensures
        bytes_le_value(limb_le_bytes(w)) == w,
{
    let s = limb_le_bytes(w);
    reveal_with_fuel(bytes_le_value, 9);
    assert(s.drop_first() =~= seq![s[1], s[2], s[3], s[4], s[5], s[6], s[7]]);
    assert(s =~= seq![s[0], s[1], s[2], s[3], s[4], s[5], s[6], s[7]]);
    let b0 = (w >> 0u64) as u8;
    let b1 = (w >> 8u64) as u8;
    let b2 = (w >> 16u64) as u8;
    let b3 = (w >> 24u64) as u8;
    let b4 = (w >> 32u64) as u8;
    let b5 = (w >> 40u64) as u8;
    let b6 = (w >> 48u64) as u8;
    let b7 = (w >> 56u64) as u8;
    assert(w == b0 + 256 * (b1 + 256 * (b2 + 256 * (b3 + 256 * (b4 + 256 * (b5 + 256 * (b6
        + 256 * b7))))))) by (bit_vector)
        requires
            b0 == (w >> 0u64) as u8,
            b1 == (w >> 8u64) as u8,
            b2 == (w >> 16u64) as u8,
            b3 == (w >> 24u64) as u8,
            b4 == (w >> 32u64) as u8,
            b5 == (w >> 40u64) as u8,
            b6 == (w >> 48u64) as u8,
            b7 == (w >> 56u64) as u8,
    ;
    assert(s[0] == b0 && s[1] == b1 && s[2] == b2 && s[3] == b3);
    assert(s[4] == b4 && s[5] == b5 && s[6] == b6 && s[7] == b7);
    let t = s.drop_first();
    assert(t.drop_first() =~= seq![s[2], s[3], s[4], s[5], s[6], s[7]]);
    assert(t.drop_first().drop_first() =~= seq![s[3], s[4], s[5], s[6], s[7]]);
    assert(t.drop_first().drop_first().drop_first() =~= seq![s[4], s[5], s[6], s[7]]);
    assert(t.drop_first().drop_first().drop_first().drop_first() =~= seq![s[5], s[6], s[7]]);
    assert(t.drop_first().drop_first().drop_first().drop_first().drop_first() =~= seq![
        s[6],
        s[7],
    ]);
    assert(t.drop_first().drop_first().drop_first().drop_first().drop_first().drop_first()
        =~= seq![s[7]]);
    assert(t.drop_first().drop_first().drop_first().drop_first().drop_first().drop_first().drop_first()
        =~= Seq::<u8>::empty());
}

/// The little-endian bytes of four limbs denote the number the limbs denote.
pub proof fn lemma_le_bytes_value(l: [u64; 4])
    ensures
        bytes_le_value(limbs_le_bytes(l)) == limbs_value(l),
        bytes_be_value(limbs_be_bytes(l)) == limbs_value(l),
{
    let c0 = limb_le_bytes(l[0]);
    let c1 = limb_le_bytes(l[1]);
    let c2 = limb_le_bytes(l[2]);
    let c3 = limb_le_bytes(l[3]);
    assert(limbs_le_bytes(l) =~= c0 + (c1 + (c2 + c3)));
    lemma_limb_le_bytes_value(l[0]);
    lemma_limb_le_bytes_value(l[1]);
    lemma_limb_le_bytes_value(l[2]);
    lemma_limb_le_bytes_value(l[3]);
    reveal_with_fuel(pow256, 9);
    lemma_bytes_le_value_concat(c2, c3);
    lemma_bytes_le_value_concat(c1, c2 + c3);
    lemma_bytes_le_value_concat(c0, c1 + (c2 + c3));
    lemma_be_bytes_reverse_le(l);
    assert(limbs_le_bytes(l).reverse().reverse() =~= limbs_le_bytes(l));
}

/// Four limbs denote a number below 2^256.
proof fn lemma_limbs_bound(l: [u64; 4])
    ensures
        limbs_value(l) < limbs_range(),
{
}

/// Distinct limb arrays denote distinct numbers.
pub proof fn lemma_limbs_injective(a: [u64; 4], b: [u64; 4])
    requires
        limbs_value(a) == limbs_value(b),
    ensures
        a == b,
{
    let x = limbs_value(a) as int;
    let base = limb_base() as int;
    lemma_fundamental_div_mod_converse(x, base, (a[1] + base * (a[2] + base * a[3])), a[0] as int);
    lemma_fundamental_div_mod_converse(x, base, (b[1] + base * (b[2] + base * b[3])), b[0] as int);
    let x1 = a[1] + base * (a[2] + base * a[3]);
    lemma_fundamental_div_mod_converse(x1, base, (a[2] + base * a[3]), a[1] as int);
    lemma_fundamental_div_mod_converse(x1, base, (b[2] + base * b[3]), b[1] as int);
    let x2 = a[2] + base * a[3];
    lemma_fundamental_div_mod_converse(x2, base, a[3] as int, a[2] as int);
    lemma_fundamental_div_mod_converse(x2, base, b[3] as int, b[2] as int);
    assert(a =~= b);
}

/// Adds two limbs and a carry; the carry out is 0 or 1.
fn add_with_carry(a: u64, b: u64, carry: u64) -> (res: (u64, u64))
    requires
        carry <= 1,
    ensures
        res.0 + res.1 * limb_base() == a + b + carry,
        res.1 <= 1,
{
    let t: u128 = a as u128 + b as u128 + carry as u128;
    let lo = (t % 0x1_0000_0000_0000_0000u128) as u64;
    let hi = (t / 0x1_0000_0000_0000_0000u128) as u64;
    (lo, hi)
}

/// Subtracts a limb and a borrow from a limb; the borrow out is 0 or 1.
fn sub_with_borrow(a: u64, b: u64, borrow: u64) -> (res: (u64, u64))
    requires
        borrow <= 1,
    ensures
        res.0 - res.1 * limb_base() == a - b - borrow,
        res.1 <= 1,
{
    if a as u128 >= b as u128 + borrow as u128 {
        (a - b - borrow, 0)
    } else {
        let d: u128 = a as u128 + 0x1_0000_0000_0000_0000u128 - b as u128 - borrow as u128;
        (d as u64, 1)
    }
}

/// 256-bit addition with the carry out of the top limb.
fn add_limbs(a: [u64; 4], b: [u64; 4]) -> (res: ([u64; 4], u64))
    ensures
        limbs_value(res.0) + res.1 * limbs_range() == limbs_value(a) + limbs_value(b),
        res.1 <= 1,
{
    let (s0, c0) = add_with_carry(a[0], b[0], 0);
    let (s1, c1) = add_with_carry(a[1], b[1], c0);
    let (s2, c2) = add_with_carry(a[2], b[2], c1);
    let (s3, c3) = add_with_carry(a[3], b[3], c2);
    ([s0, s1, s2, s3], c3)
}

/// 256-bit subtraction with the borrow out of the top limb.
fn sub_limbs(a: [u64; 4], b: [u64; 4]) -> (res: ([u64; 4], u64))
    ensures
        limbs_value(res.0) - res.1 * limbs_range() == limbs_value(a) - limbs_value(b),
        res.1 <= 1,
{
    let (d0, b0) = sub_with_borrow(a[0], b[0], 0);
    let (d1, b1) = sub_with_borrow(a[1], b[1], b0);
    let (d2, b2) = sub_with_borrow(a[2], b[2], b1);
    let (d3, b3) = sub_with_borrow(a[3], b[3], b2);
    ([d0, d1, d2, d3], b3)
}

/// Halves a 256-bit number, rounding down.
fn halve_limbs(l: [u64; 4]) -> (h: [u64; 4])
    ensures
        limbs_value(h) == limbs_value(l) / 2,
        limbs_value(l) % 2 == l[0] % 2,
{
    let h = [
        l[0] / 2 + (l[1] % 2) * 0x8000_0000_0000_0000u64,
        l[1] / 2 + (l[2] % 2) * 0x8000_0000_0000_0000u64,
        l[2] / 2 + (l[3] % 2) * 0x8000_0000_0000_0000u64,
        l[3] / 2,
    ];
    proof {
        assert(limbs_value(l) == 2 * limbs_value(h) + l[0] % 2);
        lemma_fundamental_div_mod_converse(
            limbs_value(l) as int,
            2,
            limbs_value(h) as int,
            (l[0] % 2) as int,
        );
    }
    h
}

/// The limbs of the modulus `r`.
fn modulus_limbs() -> (m: [u64; 4])
    ensures
        limbs_value(m) == modulus(),
{
    [0xffffffff00000001u64, 0x53bda402fffe5bfeu64, 0x3339d80809a1d805u64, 0x73eda753299d7d48u64]
}

/// `x mod m` for `m <= x < 2m`.
proof fn lemma_mod_once(x: nat, m: nat)
    requires
        0 < m <= x < 2 * m,
    ensures
        x % m == x - m,
{
    lemma_fundamental_div_mod_converse(x as int, m as int, 1, x - m);
}

/// One round of right-to-left double-and-add keeps `acc + base * rem` unchanged modulo `m`.
proof fn lemma_double_and_add_step(acc: nat, base: nat, rem: nat, m: nat)
    requires
        m > 0,
    ensures
        ((acc + base * (rem % 2)) % m + ((base + base) % m) * (rem / 2)) % m == (acc + base
            * rem) % m,
{
    let bit = rem % 2;
    let q = rem / 2;
    let x = (acc + base * bit) as int;
    let y = ((base + base) % m) * q;
    let z = (base + base) * q;
    lemma_fundamental_div_mod(rem as int, 2);
    lemma_add_mod_noop_right(y as int, x, m as int);
    lemma_mul_mod_noop_left((base + base) as int, q as int, m as int);
    lemma_add_mod_noop_right(x, y as int, m as int);
    lemma_add_mod_noop_right(x, z as int, m as int);
    assert(x + z == acc + base * rem) by (nonlinear_arith)
        requires
            x == acc + base * bit,
            z == (base + base) * q,
            rem == 2 * q + bit,
    ;
}

/// The invariant of double-and-add survives one round.
proof fn lemma_double_and_add_invariant(
    acc0: nat,
    base0: nat,
    rem0: nat,
    acc1: nat,
    base1: nat,
    rem1: nat,
    m: nat,
    target: nat,
)
    requires
        m > 0,
        acc0 < m,
        (acc0 + base0 * rem0) % m == target,
        rem1 == rem0 / 2,
        base1 == (base0 + base0) % m,
        acc1 == (if rem0 % 2 == 1 {
            (acc0 + base0) % m
        } else {
            acc0
        }),
    ensures
        (acc1 + base1 * rem1) % m == target,
{
    if rem0 % 2 == 1 {
        lemma_mul_basics_3(base0 as int);
    } else {
        lemma_mul_basics_2(base0 as int);
        lemma_small_mod(acc0, m);
    }
    lemma_double_and_add_step(acc0, base0, rem0, m);
}

/// The big-endian serialisation is the little-endian one read backwards.
pub proof fn lemma_be_bytes_reverse_le(l: [u64; 4])
    ensures
        limbs_be_bytes(l) == limbs_le_bytes(l).reverse(),
{
    assert(limbs_be_bytes(l) =~= limbs_le_bytes(l).reverse());
}

/// Subtracting what was added gives back the starting residue.
pub proof fn lemma_sub_undoes_add(a: nat, b: nat)
    requires
        a < modulus(),
        b < modulus(),
    ensures
        ((a + b) % modulus() + modulus() - b) % (modulus() as int) == a,
{
    let m = modulus() as int;
    lemma_add_mod_noop_right((m - b) as int, (a + b) as int, m);
    lemma_mod_add_multiples_vanish(a as int, m);
    lemma_small_mod(a, modulus());
}

/// The field difference is the residue that, added to the subtrahend, gives
/// the minuend back: `((a - b) + b) mod r == a`.
pub proof fn lemma_difference_adds_back(a: nat, b: nat)
    requires
        a < modulus(),
        b < modulus(),
    ensures
        ((a + modulus() - b) % (modulus() as int) + b) % (modulus() as int) == a,
        (a + modulus() - b) % (modulus() as int) < modulus(),
{
    let m = modulus() as int;
    let d = (a + m - b) as int;
    lemma_add_mod_noop(d, b as int, m);
    lemma_mod_self_0(m);
    lemma_small_mod(b, modulus());
    lemma_mod_add_multiples_vanish(a as int, m);
    lemma_small_mod(a, modulus());
    lemma_mod_twice(d + b, m);
    lemma_add_mod_noop_right(d % m, b as int, m);
    lemma_mod_bound(d, m);
}

/// An element of the BLS12-381 scalar field, in canonical form.
#[derive(Clone, Copy, Debug, PartialEq, Eq, Structural)]
pub struct Fr {
    l0: u64,
    l1: u64,
    l2: u64,
    l3: u64,
}

impl View for Fr {
    type V = nat;

    /// The residue in `[0, r)` that this element stands for.
    open spec fn view(&self) -> nat {
        limbs_value(self.limb_array())
    }
}

impl Fr {
    /// The canonical limbs of this element, least significant first.
    pub closed spec fn limb_array(self) -> [u64; 4] {
        [self.l0, self.l1, self.l2, self.l3]
    }

    /// Elements are always reduced below the modulus.
    #[verifier::type_invariant]
    spec fn is_canonical(self) -> bool {
        limbs_value(self.limb_array()) < modulus()
    }

    /// The additive identity.
    pub fn zero() -> (z: Self)
        ensures
            z@ == 0,
    {
        Fr { l0: 0, l1: 0, l2: 0, l3: 0 }
    }

    /// The multiplicative identity.
    pub fn one() -> (o: Self)
        ensures
            o@ == 1,
    {
        Fr { l0: 1, l1: 0, l2: 0, l3: 0 }
    }

    /// The element that a 64-bit integer stands for.
    pub fn from_u64(val: u64) -> (f: Self)
        ensures
            f@ == val,
    {
        Fr { l0: val, l1: 0, l2: 0, l3: 0 }
    }

    /// The four 64-bit limbs of this element in canonical form, least significant first.
    pub fn limbs(&self) -> (out: [u64; 4])
        ensures
            out == self.limb_array(),
            limbs_value(out) == self@,
    {
        [self.l0, self.l1, self.l2, self.l3]
    }

    /// Builds an element from limbs that are already reduced.
    fn from_reduced_limbs(l: [u64; 4]) -> (f: Self)
        requires
            limbs_value(l) < modulus(),
        ensures
            f.limb_array() == l,
    {
        Fr { l0: l[0], l1: l[1], l2: l[2], l3: l[3] }
    }

    /// Field addition.
    pub fn add(&self, other: &Self) -> (sum: Self)
        ensures
            sum@ == (self@ + other@) % modulus(),
    {
        proof {
            use_type_invariant(self);
            use_type_invariant(other);
        }
        let (s, _carry) = add_limbs(self.limbs(), other.limbs());
        let (d, borrow) = sub_limbs(s, modulus_limbs());
        proof {
            lemma_limbs_bound(s);
            lemma_limbs_bound(d);
        }
        if borrow == 0 {
            proof {
                lemma_mod_once(self@ + other@, modulus());
            }
            Fr::from_reduced_limbs(d)
        } else {
            proof {
                lemma_small_mod(self@ + other@, modulus());
            }
            Fr::from_reduced_limbs(s)
        }
    }

    /// Field subtraction (`self - other`).
    pub fn sub(&self, other: &Self) -> (diff: Self)
        ensures
            diff@ == (self@ + modulus() - other@) % (modulus() as int),
            diff@ < modulus(),
            (diff@ + other@) % modulus() == self@,
    {
        proof {
            use_type_invariant(self);
            use_type_invariant(other);
            lemma_difference_adds_back(self@, other@);
        }
        let (d, borrow) = sub_limbs(self.limbs(), other.limbs());
        proof {
            lemma_limbs_bound(d);
        }
        if borrow == 0 {
            proof {
                lemma_mod_once((self@ + modulus() - other@) as nat, modulus());
            }
            Fr::from_reduced_limbs(d)
        } else {
            let (e, _carry) = add_limbs(d, modulus_limbs());
            proof {
                lemma_limbs_bound(e);
                lemma_small_mod((self@ + modulus() - other@) as nat, modulus());
            }
            Fr::from_reduced_limbs(e)
        }
    }

    /// Field multiplication, by right-to-left double-and-add over the bits of `other`.
    pub fn mul(&self, other: &Self) -> (prod: Self)
        ensures
            prod@ == (self@ * other@) % modulus(),
    {
        proof {
            use_type_invariant(self);
            use_type_invariant(other);
        }
        let mut acc = Fr::zero();
        let mut base = *self;
        let mut rem = other.limbs();
        while !(rem[0] == 0 && rem[1] == 0 && rem[2] == 0 && rem[3] == 0)
            invariant
                acc@ < modulus(),
                base@ < modulus(),
                (acc@ + base@ * limbs_value(rem)) % modulus() == (self@ * other@) % modulus(),
            decreases limbs_value(rem),
        {
            let ghost acc0 = acc@;
            let ghost base0 = base@;
            let ghost rem0 = limbs_value(rem);
            if rem[0] % 2 == 1 {
                acc = acc.add(&base);
            } else {
                proof {
                    lemma_small_mod(acc0, modulus());
                }
            }
            base = base.add(&base);
            rem = halve_limbs(rem);
            proof {
                lemma_double_and_add_invariant(
                    acc0,
                    base0,
                    rem0,
                    acc@,
                    base@,
                    limbs_value(rem),
                    modulus(),
                    (self@ * other@) % modulus(),
                );
            }
        }
        proof {
            assert(limbs_value(rem) == 0);
            lemma_mul_basics_2(base@ as int);
            lemma_small_mod(acc@, modulus());
        }
        acc
    }

    /// Serialises to 32 bytes, big-endian.
    pub fn to_bytes_be(&self) -> (out: [u8; 32])
        ensures
            out@ == limbs_be_bytes(self.limb_array()),
            bytes_be_value(out@) == self@,
    {
        let limbs = self.limbs();
        let mut out = [0u8; 32];
        let mut i: usize = 0;
        while i < 4
            invariant
                i <= 4,
                forall|n: int|
                    32 - 8 * i <= n < 32 ==> out@[n] == limb_byte(limbs[3 - n / 8], 7 - n % 8),
            decreases 4 - i,
        {
            let limb = limbs[i];
            let start = (3 - i) * 8;
            let mut m: usize = 0;
            while m < 8
                invariant
                    i < 4,
                    m <= 8,
                    start == (3 - i) * 8,
                    limb == limbs[i as int],
                    forall|n: int|
                        32 - 8 * i <= n < 32 ==> out@[n] == limb_byte(limbs[3 - n / 8], 7 - n % 8),
                    forall|n: int|
                        start <= n < start + m ==> out@[n] == limb_byte(limbs[3 - n / 8], 7 - n % 8),
                decreases 8 - m,
            {
                out[start + m] = (limb >> (8 * (7 - m) as u64)) as u8;
                m = m + 1;
            }
            i = i + 1;
        }
        assert(out@ =~= limbs_be_bytes(limbs));
        proof {
            lemma_le_bytes_value(limbs);
        }
        out
    }

    /// Serialises to 32 bytes, little-endian.
    pub fn to_bytes_le(&self) -> (out: [u8; 32])
        ensures
            out@ == limbs_le_bytes(self.limb_array()),
            bytes_le_value(out@) == self@,
    {
        let limbs = self.limbs();
        let mut out = [0u8; 32];
        let mut i: usize = 0;
        while i < 4
            invariant
                i <= 4,
                forall|n: int| 0 <= n < 8 * i ==> out@[n] == limb_byte(limbs[n / 8], n % 8),
            decreases 4 - i,
        {
            let limb = limbs[i];
            let mut k: usize = 0;
            while k < 8
                invariant
                    i < 4,
                    k <= 8,
                    limb == limbs[i as int],
                    forall|n: int|
                        0 <= n < 8 * i + k ==> out@[n] == limb_byte(limbs[n / 8], n % 8),
                decreases 8 - k,
            {
                out[8 * i + k] = (limb >> (8 * k as u64)) as u8;
                k = k + 1;
            }
            i = i + 1;
        }
        assert(out@ =~= limbs_le_bytes(limbs));
        proof {
            lemma_le_bytes_value(limbs);
        }
        out
    }
}

} // verus!

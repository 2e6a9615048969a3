//! Single bits of machine words, and bytes put together from bits.
use vstd::prelude::*;

verus! {

/// Bit `i` of `w`, counted from the least significant one.
#[verifier::opaque]
pub open spec fn bit(w: u64, i: int) -> bool {
    (w >> (i as u64)) & 1 == 1
}

/// Bit `i` of the byte `x`, counted from the least significant one.
#[verifier::opaque]
pub open spec fn bit8(x: u8, i: int) -> bool {
    (x >> (i as u8)) & 1 == 1
}

/// The byte with the given bits, the least significant one first.
#[verifier::opaque]
pub open spec fn pack8(
    b0: bool,
    b1: bool,
    b2: bool,
    b3: bool,
    b4: bool,
    b5: bool,
    b6: bool,
    b7: bool,
) -> u8 {
    (if b0 { 0x01u8 } else { 0 }) | (if b1 { 0x02u8 } else { 0 }) | (if b2 { 0x04u8 } else { 0 })
        | (if b3 { 0x08u8 } else { 0 }) | (if b4 { 0x10u8 } else { 0 }) | (if b5 { 0x20u8 } else { 0 })
        | (if b6 { 0x40u8 } else { 0 }) | (if b7 { 0x80u8 } else { 0 })
}

/// Bit `i` of `w` as a number.
#[verifier::opaque]
pub open spec fn unit(w: u64, i: int) -> u8 {
    if bit(w, i) {
        1
    } else {
        0
    }
}

/// The byte with the given bits, each of them a number, the least significant
/// one first.
#[verifier::opaque]
pub open spec fn pack_units(
    u0: u8,
    u1: u8,
    u2: u8,
    u3: u8,
    u4: u8,
    u5: u8,
    u6: u8,
    u7: u8,
) -> u8 {
    u0 | (u1 << 1) | (u2 << 2) | (u3 << 3) | (u4 << 4) | (u5 << 5) | (u6 << 6) | (u7 << 7)
}

/// The byte whose bits stand at position `q` of eight words, the least
/// significant one in the first word.
pub open spec fn slice_byte(w: Seq<u64>, q: int) -> u8 {
    pack8(
        bit(w[0], q),
        bit(w[1], q),
        bit(w[2], q),
        bit(w[3], q),
        bit(w[4], q),
        bit(w[5], q),
        bit(w[6], q),
        bit(w[7], q),
    )
}

pub broadcast proof fn lemma_bit_xor(a: u64, b: u64, i: int)
    ensures
        #[trigger] bit(a ^ b, i) == (bit(a, i) ^ bit(b, i)),
{
    reveal(bit);
    let j = i as u64;
    assert((((a ^ b) >> j) & 1 == 1) == (((a >> j) & 1 == 1) ^ ((b >> j) & 1 == 1))) by (bit_vector);
}

pub broadcast proof fn lemma_bit_and(a: u64, b: u64, i: int)
    ensures
        #[trigger] bit(a & b, i) == (bit(a, i) && bit(b, i)),
{
    reveal(bit);
    let j = i as u64;
    assert((((a & b) >> j) & 1 == 1) == (((a >> j) & 1 == 1) && ((b >> j) & 1 == 1))) by (bit_vector);
}

pub broadcast proof fn lemma_bit_or(a: u64, b: u64, i: int)
    ensures
        #[trigger] bit(a | b, i) == (bit(a, i) || bit(b, i)),
{
    reveal(bit);
    let j = i as u64;
    assert((((a | b) >> j) & 1 == 1) == (((a >> j) & 1 == 1) || ((b >> j) & 1 == 1))) by (bit_vector);
}

pub broadcast proof fn lemma_bit_not(a: u64, i: int)
    requires
        0 <= i < 64,
    ensures
        #[trigger] bit(!a, i) == !bit(a, i),
{
    reveal(bit);
    let j = i as u64;
    assert(j < 64 ==> (((!a) >> j) & 1 == 1) == !((a >> j) & 1 == 1)) by (bit_vector);
}

pub broadcast proof fn lemma_bit_shl(a: u64, s: u64, i: int)
    requires
        0 <= i < 64,
        s < 64,
    ensures
        #[trigger] bit(a << s, i) == (s <= i && bit(a, i - s)),
{
    reveal(bit);
    let j = i as u64;
    let k = (j - s) as u64;
    if s <= i {
        assert((((a << s) >> j) & 1 == 1) == ((a >> k) & 1 == 1)) by (bit_vector)
            requires
                j < 64,
                s <= j,
                k == j - s,
        ;
    } else {
        assert(!(((a << s) >> j) & 1 == 1)) by (bit_vector)
            requires
                s < 64,
                j < s,
        ;
    }
}

pub broadcast proof fn lemma_bit_shr(a: u64, s: u64, i: int)
    requires
        0 <= i < 64,
        s < 64,
    ensures
        #[trigger] bit(a >> s, i) == (i + s < 64 && bit(a, i + s)),
{
    reveal(bit);
    let j = i as u64;
    let k = (j + s) as u64;
    assert((((a >> s) >> j) & 1 == 1) == (k < 64 && (a >> k) & 1 == 1)) by (bit_vector)
        requires
            j < 64,
            s < 64,
            k == j + s,
    ;
}

/// A byte is put together from its own bits.
pub proof fn lemma_pack8_bits(x: u8)
    ensures
        x == pack8(
            bit8(x, 0),
            bit8(x, 1),
            bit8(x, 2),
            bit8(x, 3),
            bit8(x, 4),
            bit8(x, 5),
            bit8(x, 6),
            bit8(x, 7),
        ),
{
    reveal(bit8);
    reveal(pack8);
    assert(x == pack8(
        (x >> 0) & 1 == 1,
        (x >> 1) & 1 == 1,
        (x >> 2) & 1 == 1,
        (x >> 3) & 1 == 1,
        (x >> 4) & 1 == 1,
        (x >> 5) & 1 == 1,
        (x >> 6) & 1 == 1,
        (x >> 7) & 1 == 1,
    )) by (bit_vector);
}

/// Zero has no bits, and without bits there is zero.
pub proof fn lemma_no_bits()
    ensures
        forall|i: int| !#[trigger] bit(0, i),
        pack8(false, false, false, false, false, false, false, false) == 0,
{
    reveal(bit);
    reveal(pack8);
    assert(forall|j: u64| #[trigger] (0u64 >> j) & 1 != 1) by (bit_vector);
    assert(pack8(false, false, false, false, false, false, false, false) == 0) by (bit_vector);
}

/// The bits of a byte that is widened to a word.
pub proof fn lemma_bit_widen(x: u8, i: int)
    requires
        0 <= i < 64,
    ensures
        bit(x as u64, i) == (i < 8 && bit8(x, i)),
{
    reveal(bit);
    reveal(bit8);
    let j = i as u64;
    let k = i as u8;
    assert((((x as u64) >> j) & 1 == 1) == (j < 8 && (x >> k) & 1 == 1)) by (bit_vector)
        requires
            j < 64,
            k as u64 == j,
    ;
}

/// The bits of a word that is cut down to its lowest byte.
pub proof fn lemma_bit_truncate(w: u64, i: int)
    requires
        0 <= i < 8,
    ensures
        bit8(w as u8, i) == bit(w, i),
{
    reveal(bit);
    reveal(bit8);
    let j = i as u64;
    let k = i as u8;
    assert((((w as u8) >> k) & 1 == 1) == ((w >> j) & 1 == 1)) by (bit_vector)
        requires
            j < 8,
            k as u64 == j,
    ;
}

/// The bits at one position as numbers.
pub proof fn lemma_slice_units(w: Seq<u64>, q: int)
    ensures
        slice_byte(w, q) == pack_units(
            unit(w[0], q),
            unit(w[1], q),
            unit(w[2], q),
            unit(w[3], q),
            unit(w[4], q),
            unit(w[5], q),
            unit(w[6], q),
            unit(w[7], q),
        ),
{
    reveal(pack8);
    reveal(pack_units);
    reveal(unit);
    let b0 = bit(w[0], q);
    let b1 = bit(w[1], q);
    let b2 = bit(w[2], q);
    let b3 = bit(w[3], q);
    let b4 = bit(w[4], q);
    let b5 = bit(w[5], q);
    let b6 = bit(w[6], q);
    let b7 = bit(w[7], q);
    let u0 = unit(w[0], q);
    let u1 = unit(w[1], q);
    let u2 = unit(w[2], q);
    let u3 = unit(w[3], q);
    let u4 = unit(w[4], q);
    let u5 = unit(w[5], q);
    let u6 = unit(w[6], q);
    let u7 = unit(w[7], q);
    assert(pack8(b0, b1, b2, b3, b4, b5, b6, b7) == pack_units(u0, u1, u2, u3, u4, u5, u6, u7))
        by (bit_vector)
        requires
            u0 == if b0 { 1u8 } else { 0u8 },
            u1 == if b1 { 1u8 } else { 0u8 },
            u2 == if b2 { 1u8 } else { 0u8 },
            u3 == if b3 { 1u8 } else { 0u8 },
            u4 == if b4 { 1u8 } else { 0u8 },
            u5 == if b5 { 1u8 } else { 0u8 },
            u6 == if b6 { 1u8 } else { 0u8 },
            u7 == if b7 { 1u8 } else { 0u8 },
    ;
}

pub proof fn lemma_unit_eq(a: u64, i: int, b: u64, j: int)
    requires
        bit(a, i) == bit(b, j),
    ensures
        unit(a, i) == unit(b, j),
{
    reveal(unit);
}

pub broadcast proof fn lemma_unit_xor(a: u64, b: u64, i: int)
    ensures
        #[trigger] unit(a ^ b, i) == unit(a, i) ^ unit(b, i),
{
    reveal(unit);
    lemma_bit_xor(a, b, i);
    assert(1u8 ^ 1u8 == 0u8 && 1u8 ^ 0u8 == 1u8 && 0u8 ^ 1u8 == 1u8 && 0u8 ^ 0u8 == 0u8)
        by (bit_vector);
}

pub broadcast proof fn lemma_unit_bound(w: u64, i: int)
    ensures
        #[trigger] unit(w, i) <= 1,
{
    reveal(unit);
}

/// The byte of the sums of bits is the sum of the bytes.
pub proof fn lemma_pack_units_xor(
    a0: u8,
    a1: u8,
    a2: u8,
    a3: u8,
    a4: u8,
    a5: u8,
    a6: u8,
    a7: u8,
    b0: u8,
    b1: u8,
    b2: u8,
    b3: u8,
    b4: u8,
    b5: u8,
    b6: u8,
    b7: u8,
)
    requires
        a0 <= 1, a1 <= 1, a2 <= 1, a3 <= 1, a4 <= 1, a5 <= 1, a6 <= 1, a7 <= 1,
        b0 <= 1, b1 <= 1, b2 <= 1, b3 <= 1, b4 <= 1, b5 <= 1, b6 <= 1, b7 <= 1,
    ensures
        pack_units(
            a0 ^ b0,
            a1 ^ b1,
            a2 ^ b2,
            a3 ^ b3,
            a4 ^ b4,
            a5 ^ b5,
            a6 ^ b6,
            a7 ^ b7,
        ) == pack_units(a0, a1, a2, a3, a4, a5, a6, a7) ^ pack_units(b0, b1, b2, b3, b4, b5, b6, b7),
{
    reveal(pack_units);
    assert(pack_units(
        a0 ^ b0,
        a1 ^ b1,
        a2 ^ b2,
        a3 ^ b3,
        a4 ^ b4,
        a5 ^ b5,
        a6 ^ b6,
        a7 ^ b7,
    ) == pack_units(a0, a1, a2, a3, a4, a5, a6, a7) ^ pack_units(b0, b1, b2, b3, b4, b5, b6, b7)) by (bit_vector)
        requires
            a0 <= 1, a1 <= 1, a2 <= 1, a3 <= 1, a4 <= 1, a5 <= 1, a6 <= 1, a7 <= 1,
            b0 <= 1, b1 <= 1, b2 <= 1, b3 <= 1, b4 <= 1, b5 <= 1, b6 <= 1, b7 <= 1,
    ;
}

/// Equal bits make equal bytes.
pub proof fn lemma_slice_eq(w1: Seq<u64>, q1: int, w2: Seq<u64>, q2: int)
    requires
        forall|k: int| 0 <= k < 8 ==> #[trigger] bit(w1[k], q1) == bit(w2[k], q2),
    ensures
        slice_byte(w1, q1) == slice_byte(w2, q2),
{
    lemma_slice_units(w1, q1);
    lemma_slice_units(w2, q2);
    assert forall|k: int| 0 <= k < 8 implies #[trigger] unit(w1[k], q1) == unit(w2[k], q2) by {
        lemma_unit_eq(w1[k], q1, w2[k], q2);
    }
}

/// Words with equal bits from position `n` on are equal, shifted down by `n`.
proof fn lemma_bits_eq_from(a: u64, b: u64, n: u64)
    requires
        n <= 64,
        forall|i: int| n <= i < 64 ==> #[trigger] bit(a, i) == bit(b, i),
    ensures
        a >> n == b >> n,
    decreases 64 - n,
{
    if n == 64 {
        assert(a >> 64 == b >> 64) by (bit_vector);
    } else {
        let m = (n + 1) as u64;
        lemma_bits_eq_from(a, b, m);
        assert(bit(a, n as int) == bit(b, n as int));
        reveal(bit);
        assert(a >> n == b >> n) by (bit_vector)
            requires
                n < 64,
                m == n + 1,
                a >> m == b >> m,
                ((a >> n) & 1 == 1) == ((b >> n) & 1 == 1),
        ;
    }
}

/// Words with equal bits are equal.
pub proof fn lemma_bits_eq(a: u64, b: u64)
    requires
        forall|i: int| 0 <= i < 64 ==> #[trigger] bit(a, i) == bit(b, i),
    ensures
        a == b,
{
    lemma_bits_eq_from(a, b, 0);
    assert(a >> 0 == a && b >> 0 == b) by (bit_vector);
}

pub broadcast group group_bits {
    lemma_bit_xor,
    lemma_bit_and,
    lemma_bit_or,
    lemma_bit_not,
    lemma_bit_shl,
    lemma_bit_shr,
}

} // verus!

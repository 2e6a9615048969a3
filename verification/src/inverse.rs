//! The steps that undo the cipher.
//!
//! No code runs them. They say what the cipher is in a second way: as what they
//! undo, for every key and every number of rounds.
use vstd::prelude::*;
use crate::cipher::{
    add_round_key, cipher, full_rounds, mix_byte, mix_columns, shift_rows, sub_bytes,
};
use crate::field::{gf_inv, gf_mul, law_mul_commutes, lemma_inverse_unique, lemma_xtime_distributes, xtime};
use crate::sbox::{affine_inverse, law_inverse, lemma_affine_inverse, sub_byte};

verus! {

/// The byte whose image under the byte substitution is `y`.
pub open spec fn unsub_byte(y: u8) -> u8 {
    gf_inv(affine_inverse(y))
}

/// Substitutes every byte of the state back.
pub open spec fn unsub_bytes(t: Seq<u8>) -> Seq<u8> {
    Seq::new(16, |i: int| unsub_byte(t[i]))
}

/// Rotates row `r` of the state back by `r` columns.
pub open spec fn unshift_rows(t: Seq<u8>) -> Seq<u8> {
    Seq::new(16, |i: int| t[4 * ((i / 4 + 4 - i % 4) % 4) + i % 4])
}

/// A byte of a column that was mixed, from the byte of the mixed column at its
/// place and the three below it.
pub open spec fn unmix_byte(m0: u8, m1: u8, m2: u8, m3: u8) -> u8 {
    gf_mul(m0, 14) ^ gf_mul(m1, 11) ^ gf_mul(m2, 13) ^ gf_mul(m3, 9)
}

/// Mixes every column of the state back.
pub open spec fn unmix_columns(t: Seq<u8>) -> Seq<u8> {
    Seq::new(
        16,
        |i: int|
            unmix_byte(
                t[4 * (i / 4) + i % 4],
                t[4 * (i / 4) + (i + 1) % 4],
                t[4 * (i / 4) + (i + 2) % 4],
                t[4 * (i / 4) + (i + 3) % 4],
            ),
    )
}

/// Takes the round key `k` off the state.
pub open spec fn take_round_key(t: Seq<u8>, k: Seq<u8>) -> Seq<u8> {
    Seq::new(16, |i: int| t[i] ^ k[i])
}

/// Undoes full round `n`, and then those before it down to the first, and takes
/// off the first round key.
pub open spec fn undo_rounds(t: Seq<u8>, keys: Seq<Seq<u8>>, n: nat) -> Seq<u8>
    decreases n,
{
    if n == 0 {
        take_round_key(t, keys[0])
    } else {
        undo_rounds(
            unsub_bytes(unshift_rows(unmix_columns(take_round_key(t, keys[n as int])))),
            keys,
            (n - 1) as nat,
        )
    }
}

/// Undoes an encryption in `rounds` rounds: first the last round, which does not
/// mix columns, and then the full rounds.
pub open spec fn decipher(t: Seq<u8>, keys: Seq<Seq<u8>>, rounds: nat) -> Seq<u8>
    recommends
        1 <= rounds < keys.len(),
{
    undo_rounds(
        unsub_bytes(unshift_rows(take_round_key(t, keys[rounds as int]))),
        keys,
        (rounds - 1) as nat,
    )
}

/// Substituting back undoes the byte substitution.
pub proof fn law_unsub_byte(x: u8)
    ensures
        unsub_byte(sub_byte(x)) == x,
{
    let y = gf_inv(x);
    lemma_affine_inverse(y);
    if x != 0 {
        law_inverse(x);
        law_mul_commutes(x, y);
        lemma_inverse_unique(y, x);
    }
}

proof fn lemma_unsub_bytes(s: Seq<u8>)
    requires
        s.len() == 16,
    ensures
        unsub_bytes(sub_bytes(s)) == s,
{
    assert forall|i: int| 0 <= i < 16 implies unsub_bytes(sub_bytes(s))[i] == s[i] by {
        law_unsub_byte(s[i]);
    }
    assert(unsub_bytes(sub_bytes(s)) =~= s);
}

proof fn lemma_unshift_rows(s: Seq<u8>)
    requires
        s.len() == 16,
    ensures
        unshift_rows(shift_rows(s)) == s,
{
    assert forall|i: int| 0 <= i < 16 implies unshift_rows(shift_rows(s))[i] == s[i] by {
        let r = i % 4;
        let j = 4 * ((i / 4 + 4 - r) % 4) + r;
        assert(4 * ((j / 4 + j % 4) % 4) + j % 4 == i);
    }
    assert(unshift_rows(shift_rows(s)) =~= s);
}

proof fn lemma_take_round_key(s: Seq<u8>, k: Seq<u8>)
    requires
        s.len() == 16,
    ensures
        take_round_key(add_round_key(s, k), k) == s,
{
    assert forall|i: int| 0 <= i < 16 implies take_round_key(add_round_key(s, k), k)[i]
        == s[i] by {
        lemma_xor_twice(s[i], k[i]);
    }
    assert(take_round_key(add_round_key(s, k), k) =~= s);
}

/// What was added twice is gone.
pub proof fn lemma_xor_twice(a: u8, c: u8)
    ensures
        (a ^ c) ^ c == a,
{
    assert((a ^ c) ^ c == a) by (bit_vector);
}

/// The first byte of the column that was mixed to a column, by doubling alone.
/// The mixing keeps the sum of a column; beyond it, a mixed byte holds the byte
/// at its place and the double of the sum of that byte and the next.
spec fn unmix_by_doubling(m0: u8, m1: u8, m2: u8, m3: u8) -> u8 {
    let sum = m0 ^ m1 ^ m2 ^ m3;
    let sum02 = m0 ^ m2 ^ xtime(sum);
    let sum01 = m0 ^ m1 ^ xtime(sum02);
    m0 ^ sum ^ xtime(sum01)
}

proof fn lemma_unmix(a0: u8, a1: u8, a2: u8, a3: u8, m0: u8, m1: u8, m2: u8, m3: u8)
    requires
        m0 == mix_byte(a0, a1, a2, a3),
        m1 == mix_byte(a1, a2, a3, a0),
        m2 == mix_byte(a2, a3, a0, a1),
        m3 == mix_byte(a3, a0, a1, a2),
    ensures
        unmix_byte(m0, m1, m2, m3) == a0,
{
    reveal(mix_byte);
    reveal(gf_mul);
    assert(unmix_by_doubling(m0, m1, m2, m3) == a0) by (bit_vector)
        requires
            m0 == mix_byte(a0, a1, a2, a3),
            m1 == mix_byte(a1, a2, a3, a0),
            m2 == mix_byte(a2, a3, a0, a1),
            m3 == mix_byte(a3, a0, a1, a2),
    ;
    lemma_unmix_by_doubling(m0, m1, m2, m3);
}

proof fn lemma_mul_unmix(m: u8)
    ensures
        gf_mul(m, 9) == xtime(xtime(xtime(m))) ^ m,
        gf_mul(m, 11) == xtime(xtime(xtime(m))) ^ xtime(m) ^ m,
        gf_mul(m, 13) == xtime(xtime(xtime(m))) ^ xtime(xtime(m)) ^ m,
        gf_mul(m, 14) == xtime(xtime(xtime(m))) ^ xtime(xtime(m)) ^ xtime(m),
{
    reveal(gf_mul);
    assert({
        &&& gf_mul(m, 9) == xtime(xtime(xtime(m))) ^ m
        &&& gf_mul(m, 11) == xtime(xtime(xtime(m))) ^ xtime(m) ^ m
        &&& gf_mul(m, 13) == xtime(xtime(xtime(m))) ^ xtime(xtime(m)) ^ m
        &&& gf_mul(m, 14) == xtime(xtime(xtime(m))) ^ xtime(xtime(m)) ^ xtime(m)
    }) by (bit_vector);
}

proof fn lemma_xtime_sum(a: u8, b: u8, c: u8, d: u8)
    ensures
        xtime(a ^ b ^ c ^ d) == xtime(a) ^ xtime(b) ^ xtime(c) ^ xtime(d),
{
    lemma_xtime_distributes(a, b);
    lemma_xtime_distributes(a ^ b, c);
    lemma_xtime_distributes(a ^ b ^ c, d);
}

proof fn lemma_unmix_by_doubling(m0: u8, m1: u8, m2: u8, m3: u8)
    ensures
        unmix_by_doubling(m0, m1, m2, m3) == unmix_byte(m0, m1, m2, m3),
{
    lemma_mul_unmix(m0);
    lemma_mul_unmix(m1);
    lemma_mul_unmix(m2);
    lemma_mul_unmix(m3);
    let (a0, a1, a2, a3) = (xtime(m0), xtime(m1), xtime(m2), xtime(m3));
    let (b0, b1, b2, b3) = (xtime(a0), xtime(a1), xtime(a2), xtime(a3));
    let (c0, c1, c2, c3) = (xtime(b0), xtime(b1), xtime(b2), xtime(b3));
    let sum = m0 ^ m1 ^ m2 ^ m3;
    let a = a0 ^ a1 ^ a2 ^ a3;
    let b = b0 ^ b1 ^ b2 ^ b3;
    lemma_xtime_sum(m0, m1, m2, m3);
    lemma_xtime_sum(a0, a1, a2, a3);
    lemma_xtime_sum(b0, b1, b2, b3);
    lemma_xtime_distributes(m0 ^ m2, a);
    lemma_xtime_distributes(m0, m2);
    lemma_xtime_distributes(m0 ^ m1, a0 ^ a2 ^ b);
    lemma_xtime_distributes(m0, m1);
    lemma_xtime_distributes(a0 ^ a2, b);
    lemma_xtime_distributes(a0, a2);
    assert(m0 ^ (m0 ^ m1 ^ m2 ^ m3) ^ (a0 ^ a1 ^ (b0 ^ b2 ^ (c0 ^ c1 ^ c2 ^ c3))) == (c0 ^ b0
        ^ a0) ^ (c1 ^ a1 ^ m1) ^ (c2 ^ b2 ^ m2) ^ (c3 ^ m3)) by (bit_vector);
}

/// The bytes of a mixed column, from the byte `i` on and round the column.
proof fn lemma_mixed_column(s: Seq<u8>, i: int)
    requires
        s.len() == 16,
        0 <= i < 16,
    ensures
        ({
            let c = 4 * (i / 4);
            let (i0, i1, i2, i3) = (i, c + (i + 1) % 4, c + (i + 2) % 4, c + (i + 3) % 4);
            let m = mix_columns(s);
            &&& m[i0] == mix_byte(s[i0], s[i1], s[i2], s[i3])
            &&& m[i1] == mix_byte(s[i1], s[i2], s[i3], s[i0])
            &&& m[i2] == mix_byte(s[i2], s[i3], s[i0], s[i1])
            &&& m[i3] == mix_byte(s[i3], s[i0], s[i1], s[i2])
        }),
{
    let c = i / 4;
    let r = i % 4;
    assert(i == 4 * c + r);
    if r == 0 {
    } else if r == 1 {
    } else if r == 2 {
    } else {
        assert(r == 3);
    }
}

proof fn lemma_unmix_columns(s: Seq<u8>)
    requires
        s.len() == 16,
    ensures
        unmix_columns(mix_columns(s)) == s,
{
    let m = mix_columns(s);
    assert forall|i: int| 0 <= i < 16 implies unmix_columns(m)[i] == s[i] by {
        let c = 4 * (i / 4);
        let (i0, i1, i2, i3) = (i, c + (i + 1) % 4, c + (i + 2) % 4, c + (i + 3) % 4);
        lemma_mixed_column(s, i);
        lemma_unmix(s[i0], s[i1], s[i2], s[i3], m[i0], m[i1], m[i2], m[i3]);
        assert(4 * (i / 4) + i % 4 == i0);
    }
    assert(unmix_columns(m) =~= s);
}

proof fn lemma_undo_rounds(s: Seq<u8>, keys: Seq<Seq<u8>>, n: nat)
    requires
        s.len() == 16,
    ensures
        full_rounds(s, keys, n).len() == 16,
        undo_rounds(full_rounds(s, keys, n), keys, n) == s,
    decreases n,
{
    if n == 0 {
        lemma_take_round_key(s, keys[0]);
    } else {
        lemma_undo_rounds(s, keys, (n - 1) as nat);
        let x = full_rounds(s, keys, (n - 1) as nat);
        lemma_take_round_key(mix_columns(shift_rows(sub_bytes(x))), keys[n as int]);
        lemma_unmix_columns(shift_rows(sub_bytes(x)));
        lemma_unshift_rows(sub_bytes(x));
        lemma_unsub_bytes(x);
    }
}

/// Undoing an encryption step by step gives the block back, for all round keys
/// and every number of rounds.
pub proof fn law_decipher(s: Seq<u8>, keys: Seq<Seq<u8>>, rounds: nat)
    requires
        s.len() == 16,
    ensures
        decipher(cipher(s, keys, rounds), keys, rounds) == s,
{
    let n = (rounds - 1) as nat;
    lemma_undo_rounds(s, keys, n);
    let x = full_rounds(s, keys, n);
    lemma_take_round_key(shift_rows(sub_bytes(x)), keys[rounds as int]);
    lemma_unshift_rows(sub_bytes(x));
    lemma_unsub_bytes(x);
}

} // verus!

//! The AES block cipher on bytes: what the bitsliced code computes.
//!
//! A block is a sequence of sixteen bytes. Byte `4 * c + r` stands in column
//! `c` and row `r` of the cipher's state.
use vstd::prelude::*;
use crate::field::gf_mul;
use crate::sbox::sub_byte;

verus! {

/// The byte substitution on every byte of the state.
pub open spec fn sub_bytes(s: Seq<u8>) -> Seq<u8> {
    Seq::new(16, |i: int| sub_byte(s[i]))
}

/// Rotates row `r` of the state by `r` columns.
pub open spec fn shift_rows(s: Seq<u8>) -> Seq<u8> {
    Seq::new(16, |i: int| s[4 * ((i / 4 + i % 4) % 4) + i % 4])
}

/// A byte of a mixed column: from the byte at its place and the three below
/// it in the column.
#[verifier::opaque]
pub open spec fn mix_byte(a0: u8, a1: u8, a2: u8, a3: u8) -> u8 {
    gf_mul(a0, 2) ^ gf_mul(a1, 3) ^ a2 ^ a3
}

/// Mixes every column of the state.
pub open spec fn mix_columns(s: Seq<u8>) -> Seq<u8> {
    Seq::new(
        16,
        |i: int|
            mix_byte(
                s[4 * (i / 4) + i % 4],
                s[4 * (i / 4) + (i + 1) % 4],
                s[4 * (i / 4) + (i + 2) % 4],
                s[4 * (i / 4) + (i + 3) % 4],
            ),
    )
}

/// The sum of two blocks.
pub open spec fn add_round_key(s: Seq<u8>, k: Seq<u8>) -> Seq<u8> {
    Seq::new(16, |i: int| s[i] ^ k[i])
}

/// One full round with the round key `k`.
pub open spec fn full_round(s: Seq<u8>, k: Seq<u8>) -> Seq<u8> {
    add_round_key(mix_columns(shift_rows(sub_bytes(s))), k)
}

/// The state after the first round key was added and `n` full rounds were made.
pub open spec fn full_rounds(s: Seq<u8>, keys: Seq<Seq<u8>>, n: nat) -> Seq<u8>
    decreases n,
{
    if n == 0 {
        add_round_key(s, keys[0])
    } else {
        full_round(full_rounds(s, keys, (n - 1) as nat), keys[n as int])
    }
}

/// The cipher of the block `s` with `rounds` rounds, the last one without the
/// mixing of columns.
pub open spec fn cipher(s: Seq<u8>, keys: Seq<Seq<u8>>, rounds: nat) -> Seq<u8>
    recommends
        1 <= rounds < keys.len(),
{
    add_round_key(
        shift_rows(sub_bytes(full_rounds(s, keys, (rounds - 1) as nat))),
        keys[rounds as int],
    )
}

} // verus!

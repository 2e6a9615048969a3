//! What the terms of the contracts mean, in bits, bytes and numbers.
//!
//! The contracts speak of blocks that words hold, of steps of the cipher, of
//! counter blocks and of buffers. Each law here says of one of these terms what
//! stands at every place of it, with operations of the language alone, or with
//! terms that another law speaks of.
use vstd::prelude::*;
use crate::batch::{zero_block, Batch};
use crate::bits::{bit, bit8, pack8, slice_byte};
use crate::block::{compact_byte, compact_view};
use crate::cipher::{
    add_round_key, cipher, full_round, full_rounds, mix_byte, mix_columns, shift_rows, sub_bytes,
};
use crate::expansion::{column, first_byte, rot_word, sub_word, xor_word};
use crate::field::{law_mul, xtime};
use crate::key::{joined, KeyBytes, AES_KEY};
use crate::sbox::sub_byte;
use crate::schedule::Schedule;
use crate::word::{bits_swapped, repeat_byte};

verus! {

/// The bits of a byte that was put together from bits.
proof fn lemma_unpack8(
    b0: bool,
    b1: bool,
    b2: bool,
    b3: bool,
    b4: bool,
    b5: bool,
    b6: bool,
    b7: bool,
)
    ensures
        ({
            let x = pack8(b0, b1, b2, b3, b4, b5, b6, b7);
            &&& bit8(x, 0) == b0
            &&& bit8(x, 1) == b1
            &&& bit8(x, 2) == b2
            &&& bit8(x, 3) == b3
            &&& bit8(x, 4) == b4
            &&& bit8(x, 5) == b5
            &&& bit8(x, 6) == b6
            &&& bit8(x, 7) == b7
        }),
{
    reveal(pack8);
    reveal(bit8);
    let x = pack8(b0, b1, b2, b3, b4, b5, b6, b7);
    assert({
        &&& ((x >> 0) & 1 == 1) == b0
        &&& ((x >> 1) & 1 == 1) == b1
        &&& ((x >> 2) & 1 == 1) == b2
        &&& ((x >> 3) & 1 == 1) == b3
        &&& ((x >> 4) & 1 == 1) == b4
        &&& ((x >> 5) & 1 == 1) == b5
        &&& ((x >> 6) & 1 == 1) == b6
        &&& ((x >> 7) & 1 == 1) == b7
    }) by (bit_vector)
        requires
            x == pack8(b0, b1, b2, b3, b4, b5, b6, b7),
    ;
}

/// The bits of a byte in compact form.
pub proof fn lemma_compact_bits(w: Seq<u64>, p: int, k: int)
    requires
        0 <= k < 4,
    ensures
        bit8(compact_byte(w, p), k) == bit(w[0], 4 * p + k),
        bit8(compact_byte(w, p), 4 + k) == bit(w[1], 4 * p + k),
{
    lemma_unpack8(
        bit(w[0], 4 * p),
        bit(w[0], 4 * p + 1),
        bit(w[0], 4 * p + 2),
        bit(w[0], 4 * p + 3),
        bit(w[1], 4 * p),
        bit(w[1], 4 * p + 1),
        bit(w[1], 4 * p + 2),
        bit(w[1], 4 * p + 3),
    );
    assert(k == 0 || k == 1 || k == 2 || k == 3);
}

/// The bits of a byte in bitsliced form.
pub proof fn lemma_slice_bits(w: Seq<u64>, q: int, k: int)
    requires
        0 <= k < 8,
    ensures
        bit8(slice_byte(w, q), k) == bit(w[k], q),
{
    lemma_unpack8(
        bit(w[0], q),
        bit(w[1], q),
        bit(w[2], q),
        bit(w[3], q),
        bit(w[4], q),
        bit(w[5], q),
        bit(w[6], q),
        bit(w[7], q),
    );
    assert(k == 0 || k == 1 || k == 2 || k == 3 || k == 4 || k == 5 || k == 6 || k == 7);
}

/// Bit `i` is what is left at the low end of a word, or of a byte, that is
/// shifted down by `i`.
pub proof fn law_bit(w: u64, x: u8, i: int)
    requires
        0 <= i,
    ensures
        i < 64 ==> bit(w, i) == ((w >> (i as u64)) & 1 == 1),
        i < 8 ==> bit8(x, i) == ((x >> (i as u8)) & 1 == 1),
{
    reveal(bit);
    reveal(bit8);
}

/// Bit `k` of the byte at position `q` of eight words is the bit at that
/// position of word `k`.
pub proof fn law_slice_byte(w: Seq<u64>, q: int, k: int)
    requires
        0 <= q < 64,
        0 <= k < 8,
    ensures
        ((slice_byte(w, q) >> (k as u8)) & 1 == 1) == ((w[k] >> (q as u64)) & 1 == 1),
{
    lemma_slice_bits(w, q, k);
    law_bit(w[k], slice_byte(w, q), q);
    law_bit(w[k], slice_byte(w, q), k);
}

/// Bit `k` of byte `p` of a block in compact form is bit `4 * p + k % 4` of the
/// first word, if `k` is below four, and of the second otherwise.
pub proof fn law_compact_view(w: Seq<u64>, p: int, k: int)
    requires
        0 <= p < 16,
        0 <= k < 8,
    ensures
        compact_view(w).len() == 16,
        ((compact_view(w)[p] >> (k as u8)) & 1 == 1) == ((w[k / 4] >> ((4 * p + k % 4) as u64)) & 1
            == 1),
{
    lemma_compact_bits(w, p, k % 4);
    law_bit(w[k / 4], compact_view(w)[p], 4 * p + k % 4);
    law_bit(w[k / 4], compact_view(w)[p], k);
}

/// Where the bits of the blocks of a batch stand, in either form: bit `k` of
/// byte `p` of block `b`.
pub proof fn law_blocks(batch: Batch, b: int, p: int, k: int)
    requires
        0 <= b < 4,
        0 <= p < 16,
        0 <= k < 8,
    ensures
        batch.blocks().len() == 4,
        batch.blocks()[b].len() == 16,
        ((batch.blocks()[b][p] >> (k as u8)) & 1 == 1) == ((batch.w@[k] >> ((4 * p + b) as u64)) & 1
            == 1),
        batch.compact_blocks().len() == 4,
        batch.compact_blocks()[b].len() == 16,
        ((batch.compact_blocks()[b][p] >> (k as u8)) & 1 == 1) == ((batch.w@[b + 4 * (k / 4)] >> ((4
            * p + k % 4) as u64)) & 1 == 1),
{
    law_slice_byte(batch.w@, 4 * p + b, k);
    law_compact_view(seq![batch.w@[b], batch.w@[b + 4]], p, k);
}

/// The zero block has sixteen bytes, and they are zero.
pub proof fn law_zero_block(p: int)
    requires
        0 <= p < 16,
    ensures
        zero_block().len() == 16,
        zero_block()[p] == 0,
{
}

/// Two words of 64 bits are joined from four of 32 bits, the low halves first.
pub proof fn law_joined(halves: Seq<u32>)
    ensures
        joined(halves).len() == 2,
        joined(halves)[0] as int == halves[0] + halves[1] * 0x1_0000_0000,
        joined(halves)[1] as int == halves[2] + halves[3] * 0x1_0000_0000,
{
}

/// The round keys of an expanded key are the blocks that its fields hold in
/// compact form, and the numbers of rounds that can be made are those from one
/// to fourteen.
pub proof fn law_round_key(key: AES_KEY, n: int)
    requires
        0 <= n < 15,
    ensures
        key.round_keys().len() == 15,
        key.round_keys()[n] == key.round_key(n),
        key.round_key(n) == compact_view(joined(key.rd_key@[n]@)),
        key.rounds_valid() <==> 1 <= key.rounds <= 14,
{
}

/// Round key `n` of a schedule for block `b` is block `b` of batch `n`.
pub proof fn law_block_keys(schedule: Schedule, b: int, n: int)
    requires
        0 <= b < 4,
        0 <= n < 15,
    ensures
        schedule.block_keys(b).len() == 15,
        schedule.block_keys(b)[n] == schedule.keys@[n].blocks()[b],
{
}

/// The bytes of a key are those that it was given.
pub proof fn law_key_bytes(short: &[u8; 16], long: &[u8; 32])
    ensures
        KeyBytes::AES_128(short).bytes() == short@,
        KeyBytes::AES_256(long).bytes() == long@,
{
}

/// What a swap of bits leaves at position `i` of the two words.
pub proof fn law_bits_swapped(
    a0: u64,
    b0: u64,
    a1: u64,
    b1: u64,
    mask: u8,
    shift: int,
    i: int,
)
    requires
        bits_swapped(a0, b0, a1, b1, mask, shift),
        0 <= shift < 64,
        0 <= i < 64,
    ensures
        i < shift ==> bit(a1, i) == bit(a0, i),
        i >= shift && bit8(mask, (i - shift) % 8) ==> bit(a1, i) == bit(b0, i - shift),
        i >= shift && !bit8(mask, (i - shift) % 8) ==> bit(a1, i) == bit(a0, i),
        !bit8(mask, i % 8) ==> bit(b1, i) == bit(b0, i),
        bit8(mask, i % 8) && i + shift < 64 ==> bit(b1, i) == bit(a0, i + shift),
        bit8(mask, i % 8) && i + shift >= 64 ==> !bit(b1, i),
{
}

/// A repeated byte stands in all eight places of a word.
pub proof fn law_repeat_byte(m: u8)
    ensures
        repeat_byte(m) as int == m + m * 0x100 + m * 0x1_0000 + m * 0x100_0000 + m * 0x1_0000_0000
            + m * 0x100_0000_0000 + m * 0x1_0000_0000_0000 + m * 0x100_0000_0000_0000,
{
}

/// The steps of the cipher, byte by byte: in column `c` and row `r` of the state.
pub proof fn law_steps(s: Seq<u8>, k: Seq<u8>, c: int, r: int)
    requires
        0 <= c < 4,
        0 <= r < 4,
    ensures
        sub_bytes(s).len() == 16,
        shift_rows(s).len() == 16,
        mix_columns(s).len() == 16,
        add_round_key(s, k).len() == 16,
        sub_bytes(s)[4 * c + r] == sub_byte(s[4 * c + r]),
        shift_rows(s)[4 * c + r] == s[4 * ((c + r) % 4) + r],
        mix_columns(s)[4 * c + r] == xtime(s[4 * c + r]) ^ (xtime(s[4 * c + (r + 1) % 4]) ^ s[4 * c
            + (r + 1) % 4]) ^ s[4 * c + (r + 2) % 4] ^ s[4 * c + (r + 3) % 4],
        add_round_key(s, k)[4 * c + r] == s[4 * c + r] ^ k[4 * c + r],
{
    let i = 4 * c + r;
    assert(i / 4 == c && i % 4 == r);
    assert((i + 1) % 4 == (r + 1) % 4 && (i + 2) % 4 == (r + 2) % 4 && (i + 3) % 4 == (r + 3) % 4);
    reveal(mix_byte);
    law_mul(s[4 * c + r], 0, 0);
    law_mul(s[4 * c + (r + 1) % 4], 0, 0);
}

/// The steps on words of four bytes that the key expansion makes, byte by byte.
pub proof fn law_words(a: Seq<u8>, b: Seq<u8>, x: u8, s: Seq<u8>, c: int, r: int)
    requires
        0 <= c < 4,
        0 <= r < 4,
    ensures
        xor_word(a, b).len() == 4,
        rot_word(a).len() == 4,
        sub_word(a).len() == 4,
        first_byte(x).len() == 4,
        column(s, c).len() == 4,
        xor_word(a, b)[r] == a[r] ^ b[r],
        rot_word(a)[r] == a[(r + 1) % 4],
        sub_word(a)[r] == sub_byte(a[r]),
        first_byte(x)[r] == if r == 0 {
            x
        } else {
            0
        },
        column(s, c)[r] == s[4 * c + r],
{
}

/// A byte of the state after the substitution and the rotation of rows: the one
/// in column `c` and row `r`.
proof fn lemma_shifted_byte(s: Seq<u8>, c: int, r: int)
    requires
        0 <= c < 4,
        0 <= r < 4,
    ensures
        shift_rows(sub_bytes(s))[4 * c + r] == sub_byte(s[4 * ((c + r) % 4) + r]),
{
    law_steps(s, s, (c + r) % 4, r);
    law_steps(sub_bytes(s), s, c, r);
}

/// The states that an encryption goes through. The first is the sum of the block
/// and round key 0. Each of the following has, in column `c` and row `r`, the sum
/// of the round key with its number and of four substituted bytes of the state
/// before, in different columns: that of row `r`, doubled, that of the next row,
/// tripled, and those of the two rows after that. The result is made from the
/// last state, by substitution and with the last round key, without the sum of
/// four.
pub proof fn law_cipher_states(s: Seq<u8>, keys: Seq<Seq<u8>>, rounds: nat) -> (t: Seq<Seq<u8>>)
    requires
        s.len() == 16,
        rounds >= 1,
    ensures
        t.len() == rounds,
        forall|i: int| 0 <= i < 16 ==> #[trigger] t[0][i] == s[i] ^ keys[0][i],
        forall|m: int, n: int, i: int|
            0 <= m && n == m + 1 && n < rounds && 0 <= i < 16 ==> #[trigger] t[n][i] == ({
                let (c, r) = (i / 4, i % 4);
                let u = #[trigger] t[m];
                let a0 = sub_byte(u[4 * ((c + r) % 4) + r]);
                let a1 = sub_byte(u[4 * ((c + (r + 1) % 4) % 4) + (r + 1) % 4]);
                let a2 = sub_byte(u[4 * ((c + (r + 2) % 4) % 4) + (r + 2) % 4]);
                let a3 = sub_byte(u[4 * ((c + (r + 3) % 4) % 4) + (r + 3) % 4]);
                (xtime(a0) ^ (xtime(a1) ^ a1) ^ a2 ^ a3) ^ keys[n][i]
            }),
        cipher(s, keys, rounds).len() == 16,
        forall|i: int|
            0 <= i < 16 ==> #[trigger] cipher(s, keys, rounds)[i] == sub_byte(
                t[rounds - 1][4 * ((i / 4 + i % 4) % 4) + i % 4],
            ) ^ keys[rounds as int][i],
{
    let t = Seq::new(rounds, |n: int| full_rounds(s, keys, n as nat));
    assert forall|i: int| 0 <= i < 16 implies #[trigger] t[0][i] == s[i] ^ keys[0][i] by {
        law_steps(s, keys[0], i / 4, i % 4);
    }
    assert forall|m: int, n: int, i: int|
        0 <= m && n == m + 1 && n < rounds && 0 <= i < 16 implies #[trigger] t[n][i] == ({
        let (c, r) = (i / 4, i % 4);
        let u = #[trigger] t[m];
        let a0 = sub_byte(u[4 * ((c + r) % 4) + r]);
        let a1 = sub_byte(u[4 * ((c + (r + 1) % 4) % 4) + (r + 1) % 4]);
        let a2 = sub_byte(u[4 * ((c + (r + 2) % 4) % 4) + (r + 2) % 4]);
        let a3 = sub_byte(u[4 * ((c + (r + 3) % 4) % 4) + (r + 3) % 4]);
        (xtime(a0) ^ (xtime(a1) ^ a1) ^ a2 ^ a3) ^ keys[n][i]
    }) by {
        let (c, r) = (i / 4, i % 4);
        let x = shift_rows(sub_bytes(t[m]));
        assert(t[n] == full_round(t[m], keys[n]));
        law_steps(mix_columns(x), keys[n], c, r);
        law_steps(x, keys[n], c, r);
        lemma_shifted_byte(t[m], c, r);
        lemma_shifted_byte(t[m], c, (r + 1) % 4);
        lemma_shifted_byte(t[m], c, (r + 2) % 4);
        lemma_shifted_byte(t[m], c, (r + 3) % 4);
    }
    let last = t[rounds - 1];
    assert forall|i: int| 0 <= i < 16 implies #[trigger] cipher(s, keys, rounds)[i] == sub_byte(
        last[4 * ((i / 4 + i % 4) % 4) + i % 4],
    ) ^ keys[rounds as int][i] by {
        law_steps(shift_rows(sub_bytes(last)), keys[rounds as int], i / 4, i % 4);
        lemma_shifted_byte(last, i / 4, i % 4);
    }
    t
}

} // verus!

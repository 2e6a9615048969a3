//! Operations on a single machine word of a batch.
//!
//! A word holds one bit of each of 64 bytes: the bit of byte `p` of block `b`
//! stands at position `4 * p + b`. A byte `p = 4 * c + r` of a block is in
//! column `c` and row `r` of the cipher's state, so a column is 16 positions
//! wide and a row within it 4.
use vstd::prelude::*;
use crate::bits::{bit, bit8};

verus! {

/// A machine word of a batch.
pub type Word = u64;

/// The number of blocks that are worked on together.
pub const BATCH_SIZE: usize = 4;

pub const BATCH_SIZE_U32: u32 = 4;

/// The number of words that hold one block.
pub const BLOCK_WORDS: usize = 2;

/// The number of bytes in a block.
pub const BLOCK_LEN: usize = 16;

/// Moves every bit of `a` up by `I` bytes of the state.
#[inline(always)]
pub fn shift_left<const I: u32>(a: Word) -> (r: Word)
    requires
        I < 16,
    ensures
        r == a << ((4 * I) as u64),
        forall|q: int| 0 <= q < 64 ==> #[trigger] bit(r, q) == (4 * I <= q && bit(a, q - 4 * I)),
{
    broadcast use crate::bits::group_bits;

    a << (I * BATCH_SIZE_U32)
}

/// Moves every bit of `a` down by `I` bytes of the state.
#[inline(always)]
pub fn shift_right<const I: u32>(a: Word) -> (r: Word)
    requires
        I < 16,
    ensures
        r == a >> ((4 * I) as u64),
        forall|q: int| 0 <= q < 64 ==> #[trigger] bit(r, q) == (q + 4 * I < 64 && bit(a, q + 4 * I)),
{
    broadcast use crate::bits::group_bits;

    a >> (I * BATCH_SIZE_U32)
}

/// The word whose bytes are all `m`.
pub open spec fn repeat_byte(m: u8) -> u64 {
    (m * 0x0101_0101_0101_0101) as u64
}

proof fn lemma_repeat_byte(m: u8, i: int)
    requires
        0 <= i < 64,
    ensures
        bit(repeat_byte(m), i) == bit8(m, i % 8),
{
    reveal(bit);
    reveal(bit8);
    let j = i as u64;
    let k = (i % 8) as u8;
    let w = repeat_byte(m);
    assert(((w >> j) & 1 == 1) == ((m >> k) & 1 == 1)) by (bit_vector)
        requires
            j < 64,
            k as u64 == j % 8,
            w == m * 0x0101_0101_0101_0101,
    ;
}

/// The bits of the word that hold row `r` of every column.
pub proof fn lemma_row_masks(i: int)
    requires
        0 <= i < 64,
    ensures
        bit(0x000f_000f_000f_000f, i) == (i % 16 < 4),
        bit(0x00f0_00f0_00f0_00f0, i) == (4 <= i % 16 < 8),
        bit(0x0f00_0f00_0f00_0f00, i) == (8 <= i % 16 < 12),
        bit(0xf000_f000_f000_f000, i) == (12 <= i % 16),
        bit(0x0fff_0fff_0fff_0fff, i) == (i % 16 < 12),
        bit(0x00ff_00ff_00ff_00ff, i) == (i % 16 < 8),
        bit(0xff00_ff00_ff00_ff00, i) == (8 <= i % 16),
{
    reveal(bit);
    let j = i as u64;
    assert({
        &&& ((0x000f_000f_000f_000fu64 >> j) & 1 == 1) == (j % 16 < 4)
        &&& ((0x00f0_00f0_00f0_00f0u64 >> j) & 1 == 1) == (4 <= j % 16 && j % 16 < 8)
        &&& ((0x0f00_0f00_0f00_0f00u64 >> j) & 1 == 1) == (8 <= j % 16 && j % 16 < 12)
        &&& ((0xf000_f000_f000_f000u64 >> j) & 1 == 1) == (12 <= j % 16)
        &&& ((0x0fff_0fff_0fff_0fffu64 >> j) & 1 == 1) == (j % 16 < 12)
        &&& ((0x00ff_00ff_00ff_00ffu64 >> j) & 1 == 1) == (j % 16 < 8)
        &&& ((0xff00_ff00_ff00_ff00u64 >> j) & 1 == 1) == (8 <= j % 16)
    }) by (bit_vector)
        requires
            j < 64,
    ;
}

/// Rotates every column by one row: row `r` receives row `r + 1`, the last row
/// the first.
#[inline(always)]
pub fn rotate_rows_down(v: Word) -> (r: Word)
    ensures
        forall|q: int|
            0 <= q < 64 ==> #[trigger] bit(r, q) == bit(v, 16 * (q / 16) + (q + 4) % 16),
{
    let r: Word = ((v >> 4) & 0x0fff_0fff_0fff_0fff) | ((v << 12) & 0xf000_f000_f000_f000);
    proof {
        assert forall|q: int| 0 <= q < 64 implies #[trigger] bit(r, q) == bit(
            v,
            16 * (q / 16) + (q + 4) % 16,
        ) by {
            broadcast use crate::bits::group_bits;

            lemma_row_masks(q);
        }
    }
    r
}

/// Rotates every column by two rows: row `r` is exchanged with row `r + 2`.
#[inline(always)]
pub fn rotate_rows_twice(v: Word) -> (r: Word)
    ensures
        forall|q: int|
            0 <= q < 64 ==> #[trigger] bit(r, q) == bit(v, 16 * (q / 16) + (q + 8) % 16),
{
    let r: Word = ((v >> 8) & 0x00ff_00ff_00ff_00ff) | ((v << 8) & 0xff00_ff00_ff00_ff00);
    proof {
        assert forall|q: int| 0 <= q < 64 implies #[trigger] bit(r, q) == bit(
            v,
            16 * (q / 16) + (q + 8) % 16,
        ) by {
            broadcast use crate::bits::group_bits;

            lemma_row_masks(q);
        }
    }
    r
}

/// Whether `a1` and `b1` are `a0` and `b0` with the bits of `a0` at the
/// positions of `mask << shift` exchanged for the bits of `b0` at the positions
/// of `mask`, `mask` being a byte that is repeated.
pub open spec fn bits_swapped(a0: u64, b0: u64, a1: u64, b1: u64, mask: u8, shift: int) -> bool {
    &&& forall|i: int|
        0 <= i < 64 ==> #[trigger] bit(a1, i) == if shift <= i && bit8(mask, (i - shift) % 8) {
            bit(b0, i - shift)
        } else {
            bit(a0, i)
        }
    &&& forall|i: int|
        0 <= i < 64 ==> #[trigger] bit(b1, i) == if bit8(mask, i % 8) {
            i + shift < 64 && bit(a0, i + shift)
        } else {
            bit(b0, i)
        }
}

/// A variation on a delta swap: exchanges the bits of `w[A]` at the positions
/// of the mask, moved up by `SHIFT`, with the bits of `w[B]` at the positions
/// of the mask. The mask is `MASK_BYTE`, repeated to the width of a word.
pub fn swap_bits<const A: usize, const B: usize, const MASK_BYTE: u8, const SHIFT: u8>(
    w: &mut [Word; 8],
)
    requires
        A < 8,
        B < 8,
        SHIFT < 64,
    ensures
        forall|k: int| 0 <= k < 8 && k != A && k != B ==> #[trigger] final(w)@[k] == old(w)@[k],
        A != B ==> bits_swapped(
            old(w)@[A as int],
            old(w)@[B as int],
            final(w)@[A as int],
            final(w)@[B as int],
            MASK_BYTE,
            SHIFT as int,
        ),
        A == B ==> ({
            let v = old(w)@[A as int];
            let swap = ((v >> SHIFT) ^ v) & repeat_byte(MASK_BYTE);
            final(w)@[A as int] == v ^ (swap << SHIFT) ^ swap
        }),
{
    let mask: Word = (MASK_BYTE as Word) * 0x0101_0101_0101_0101;
    let swap: Word = ((w[A] >> SHIFT) ^ w[B]) & mask;
    let ghost a0 = w@[A as int];
    let ghost b0 = w@[B as int];
    w[A] = w[A] ^ (swap << SHIFT);
    w[B] = w[B] ^ swap;
    proof {
        if A != B {
            let a1 = w@[A as int];
            let b1 = w@[B as int];
            assert forall|i: int| 0 <= i < 64 implies #[trigger] bit(a1, i) == if SHIFT <= i
                && bit8(MASK_BYTE, (i - SHIFT) % 8) {
                bit(b0, i - SHIFT)
            } else {
                bit(a0, i)
            } by {
                broadcast use crate::bits::group_bits;

                if SHIFT <= i {
                    lemma_repeat_byte(MASK_BYTE, i - SHIFT);
                }
            }
            assert forall|i: int| 0 <= i < 64 implies #[trigger] bit(b1, i) == if bit8(
                MASK_BYTE,
                i % 8,
            ) {
                i + SHIFT < 64 && bit(a0, i + SHIFT)
            } else {
                bit(b0, i)
            } by {
                broadcast use crate::bits::group_bits;

                lemma_repeat_byte(MASK_BYTE, i);
            }
        }
    }
}

} // verus!

//! A single block in compact form: two words, the first with the low halves of
//! the sixteen bytes, the second with the high halves, four bits to each byte.
use vstd::prelude::*;
use crate::bits::{bit, bit8, pack8, pack_units, unit};
use crate::word::{Word, BLOCK_LEN, BLOCK_WORDS};

verus! {

/// Byte `p` of the block that the two words hold in compact form.
pub open spec fn compact_byte(w: Seq<u64>, p: int) -> u8 {
    pack8(
        bit(w[0], 4 * p),
        bit(w[0], 4 * p + 1),
        bit(w[0], 4 * p + 2),
        bit(w[0], 4 * p + 3),
        bit(w[1], 4 * p),
        bit(w[1], 4 * p + 1),
        bit(w[1], 4 * p + 2),
        bit(w[1], 4 * p + 3),
    )
}

/// The block that the two words hold in compact form.
pub open spec fn compact_view(w: Seq<u64>) -> Seq<u8> {
    Seq::new(16, |p: int| compact_byte(w, p))
}

/// The bits of a byte in compact form as numbers.
proof fn lemma_compact_units(w: Seq<u64>, p: int)
    ensures
        compact_byte(w, p) == pack_units(
            unit(w[0], 4 * p),
            unit(w[0], 4 * p + 1),
            unit(w[0], 4 * p + 2),
            unit(w[0], 4 * p + 3),
            unit(w[1], 4 * p),
            unit(w[1], 4 * p + 1),
            unit(w[1], 4 * p + 2),
            unit(w[1], 4 * p + 3),
        ),
{
    reveal(pack8);
    reveal(pack_units);
    reveal(unit);
    let b0 = bit(w[0], 4 * p);
    let u0 = unit(w[0], 4 * p);
    let b1 = bit(w[0], 4 * p + 1);
    let u1 = unit(w[0], 4 * p + 1);
    let b2 = bit(w[0], 4 * p + 2);
    let u2 = unit(w[0], 4 * p + 2);
    let b3 = bit(w[0], 4 * p + 3);
    let u3 = unit(w[0], 4 * p + 3);
    let b4 = bit(w[1], 4 * p);
    let u4 = unit(w[1], 4 * p);
    let b5 = bit(w[1], 4 * p + 1);
    let u5 = unit(w[1], 4 * p + 1);
    let b6 = bit(w[1], 4 * p + 2);
    let u6 = unit(w[1], 4 * p + 2);
    let b7 = bit(w[1], 4 * p + 3);
    let u7 = unit(w[1], 4 * p + 3);
    assert(pack8(b0, b1, b2, b3, b4, b5, b6, b7) == pack_units(u0, u1, u2, u3, u4, u5, u6, u7))
        by (bit_vector)
        requires
            u0 == if b0 { 1u8 } else { 0u8 },
            u1 == if b1 { 1u8 } else { 0u8 },
            u2 == if b2 { 1u8 } else { 0u8 },
            u3 == if b3 { 1u8 } else { 0u8 },
            u4 == if b4 { 1u8 } else { 0u8 },
            u5 == if b5 { 1u8 } else { 0u8 },
            u6 == if b6 { 1u8 } else { 0u8 },
            u7 == if b7 { 1u8 } else { 0u8 },
    ;
}

/// The bytes of a word by word sum are the sums of the bytes.
pub proof fn lemma_compact_xor(a: Seq<u64>, b: Seq<u64>, r: Seq<u64>, p: int)
    requires
        r[0] == a[0] ^ b[0],
        r[1] == a[1] ^ b[1],
    ensures
        compact_byte(r, p) == compact_byte(a, p) ^ compact_byte(b, p),
{
    broadcast use {crate::bits::lemma_unit_xor, crate::bits::lemma_unit_bound};

    lemma_compact_units(a, p);
    lemma_compact_units(b, p);
    lemma_compact_units(r, p);
    crate::bits::lemma_pack_units_xor(
        unit(a[0], 4 * p),
        unit(a[0], 4 * p + 1),
        unit(a[0], 4 * p + 2),
        unit(a[0], 4 * p + 3),
        unit(a[1], 4 * p),
        unit(a[1], 4 * p + 1),
        unit(a[1], 4 * p + 2),
        unit(a[1], 4 * p + 3),
        unit(b[0], 4 * p),
        unit(b[0], 4 * p + 1),
        unit(b[0], 4 * p + 2),
        unit(b[0], 4 * p + 3),
        unit(b[1], 4 * p),
        unit(b[1], 4 * p + 1),
        unit(b[1], 4 * p + 2),
        unit(b[1], 4 * p + 3),
    );
}

/// Equal bits make equal bytes.
pub proof fn lemma_compact_eq(a: Seq<u64>, p: int, b: Seq<u64>, n: int)
    requires
        forall|j: int, k: int|
            0 <= j < 2 && 0 <= k < 4 ==> #[trigger] bit(a[j], 4 * p + k) == bit(b[j], 4 * n + k),
    ensures
        compact_byte(a, p) == compact_byte(b, n),
{
    lemma_compact_units(a, p);
    lemma_compact_units(b, n);
    assert forall|j: int, k: int| 0 <= j < 2 && 0 <= k < 4 implies #[trigger] unit(a[j], 4 * p + k)
        == unit(b[j], 4 * n + k) by {
        crate::bits::lemma_unit_eq(a[j], 4 * p + k, b[j], 4 * n + k);
    }
    assert(unit(a[0], 4 * p + 0) == unit(b[0], 4 * n + 0));
    assert(unit(a[1], 4 * p + 0) == unit(b[1], 4 * n + 0));
}

/// A byte without bits is zero.
pub proof fn lemma_compact_zero(a: Seq<u64>, p: int)
    requires
        forall|j: int, k: int| 0 <= j < 2 && 0 <= k < 4 ==> !#[trigger] bit(a[j], 4 * p + k),
    ensures
        compact_byte(a, p) == 0,
{
    assert(!bit(a[0], 4 * p + 0));
    assert(!bit(a[1], 4 * p + 0));
    crate::bits::lemma_no_bits();
}

/// Exchanges the bits of `a` at the positions of `mask` with those `shift`
/// positions above.
fn delta_swap(a: Word, mask: Word, shift: u32) -> (r: Word)
    requires
        shift < 64,
        forall|i: int| shift <= i < 64 && #[trigger] bit(mask, i) ==> !bit(mask, i - shift),
    ensures
        forall|i: int|
            0 <= i < 64 ==> #[trigger] bit(r, i) == if bit(mask, i) {
                i + shift < 64 && bit(a, i + shift)
            } else if shift <= i && bit(mask, i - shift) {
                bit(a, i - shift)
            } else {
                bit(a, i)
            },
{
    broadcast use crate::bits::group_bits;

    let b: Word = (a ^ (a >> shift)) & mask;
    a ^ b ^ (b << shift)
}

proof fn lemma_swap_masks(i: int)
    requires
        0 <= i < 64,
    ensures
        bit(0x00f0_00f0_00f0_00f0, i) == (4 <= i % 16 < 8),
        bit(0x0000_ff00_0000_ff00, i) == (8 <= i % 32 < 16),
        bit(0x0000_0000_ffff_0000, i) == (16 <= i < 32),
        bit(0x0000_0000_ffff_ffff, i) == (i < 32),
        bit(0xffff_ffff_0000_0000, i) == (32 <= i),
{
    reveal(bit);
    let j = i as u64;
    assert({
        &&& ((0x00f0_00f0_00f0_00f0u64 >> j) & 1 == 1) == (4 <= j % 16 && j % 16 < 8)
        &&& ((0x0000_ff00_0000_ff00u64 >> j) & 1 == 1) == (8 <= j % 32 && j % 32 < 16)
        &&& ((0x0000_0000_ffff_0000u64 >> j) & 1 == 1) == (16 <= j && j < 32)
        &&& ((0x0000_0000_ffff_ffffu64 >> j) & 1 == 1) == (j < 32)
        &&& ((0xffff_ffff_0000_0000u64 >> j) & 1 == 1) == (32 <= j)
    }) by (bit_vector)
        requires
            j < 64,
    ;
}

/// Where `swap_fours` takes the bit at position `i` from.
#[verifier::opaque]
spec fn fours_source(i: int) -> int {
    if 4 <= i % 16 < 8 {
        i + 4
    } else if 8 <= i % 16 < 12 {
        i - 4
    } else {
        i
    }
}

/// Where `swap_eights` takes the bit at position `i` from.
#[verifier::opaque]
spec fn eights_source(i: int) -> int {
    if 8 <= i % 32 < 16 {
        i + 8
    } else if 16 <= i % 32 < 24 {
        i - 8
    } else {
        i
    }
}

/// Where `swap_sixteens` takes the bit at position `i` from.
#[verifier::opaque]
spec fn sixteens_source(i: int) -> int {
    if 16 <= i < 32 {
        i + 16
    } else if 32 <= i < 48 {
        i - 16
    } else {
        i
    }
}

/// Exchanges the middle two of every four groups of four bits.
fn swap_fours(a: Word) -> (r: Word)
    ensures
        forall|i: int| 0 <= i < 64 ==> #[trigger] bit(r, i) == bit(a, fours_source(i)),
{
    proof {
        reveal(fours_source);
        assert forall|i: int| 0 <= i < 64 implies #[trigger] bit(0x00f0_00f0_00f0_00f0, i) == (4
            <= i % 16 < 8) by {
            lemma_swap_masks(i);
        }
    }
    delta_swap(a, 0x00f0_00f0_00f0_00f0, 4)
}

/// Exchanges the middle two of every four groups of eight bits.
fn swap_eights(a: Word) -> (r: Word)
    ensures
        forall|i: int| 0 <= i < 64 ==> #[trigger] bit(r, i) == bit(a, eights_source(i)),
{
    proof {
        reveal(eights_source);
        assert forall|i: int| 0 <= i < 64 implies #[trigger] bit(0x0000_ff00_0000_ff00, i) == (8
            <= i % 32 < 16) by {
            lemma_swap_masks(i);
        }
    }
    delta_swap(a, 0x0000_ff00_0000_ff00, 8)
}

/// Exchanges the middle two of the four groups of sixteen bits.
fn swap_sixteens(a: Word) -> (r: Word)
    ensures
        forall|i: int| 0 <= i < 64 ==> #[trigger] bit(r, i) == bit(a, sixteens_source(i)),
{
    proof {
        reveal(sixteens_source);
        assert forall|i: int| 0 <= i < 64 implies #[trigger] bit(0x0000_0000_ffff_0000, i) == (16
            <= i < 32) by {
            lemma_swap_masks(i);
        }
    }
    delta_swap(a, 0x0000_0000_ffff_0000, 16)
}

proof fn lemma_compact_source(i: int)
    requires
        0 <= i < 64,
    ensures
        0 <= sixteens_source(i) < 64,
        0 <= eights_source(sixteens_source(i)) < 64,
        fours_source(eights_source(sixteens_source(i))) == if i < 32 {
            8 * (i / 4) + i % 4
        } else {
            8 * ((i - 32) / 4) + 4 + i % 4
        },
{
    reveal(fours_source);
    reveal(eights_source);
    reveal(sixteens_source);
    let n = i / 4;
    let k = i % 4;
    assert(i == 4 * n + k);
    assert(0 <= n < 16);
    if n == 0 || n == 1 || n == 2 || n == 3 || n == 4 || n == 5 || n == 6 || n == 7 {
    } else {
        assert(n == 8 || n == 9 || n == 10 || n == 11 || n == 12 || n == 13 || n == 14 || n == 15);
    }
}

/// Moves the low halves of the eight bytes of `a` to its low half, and the
/// high halves to its high half.
fn compact_word(a: Word) -> (r: Word)
    ensures
        forall|i: int| 0 <= i < 32 ==> #[trigger] bit(r, i) == bit(a, 8 * (i / 4) + i % 4),
        forall|i: int|
            32 <= i < 64 ==> #[trigger] bit(r, i) == bit(a, 8 * ((i - 32) / 4) + 4 + i % 4),
{
    let a1: Word = swap_fours(a);
    let a2: Word = swap_eights(a1);
    let r: Word = swap_sixteens(a2);
    proof {
        assert forall|i: int| 0 <= i < 64 implies #[trigger] bit(r, i) == bit(
            a,
            if i < 32 { 8 * (i / 4) + i % 4 } else { 8 * ((i - 32) / 4) + 4 + i % 4 },
        ) by {
            lemma_compact_source(i);
            let i2 = sixteens_source(i);
            let i1 = eights_source(i2);
            assert(bit(r, i) == bit(a2, i2));
            assert(bit(a2, i2) == bit(a1, i1));
        }
    }
    r
}

proof fn lemma_uncompact_source(i: int)
    requires
        0 <= i < 64,
    ensures
        0 <= fours_source(i) < 64,
        0 <= eights_source(fours_source(i)) < 64,
        sixteens_source(eights_source(fours_source(i))) == if i % 8 < 4 {
            4 * (i / 8) + i % 8
        } else {
            32 + 4 * (i / 8) + i % 8 - 4
        },
{
    reveal(fours_source);
    reveal(eights_source);
    reveal(sixteens_source);
    let n = i / 4;
    let k = i % 4;
    assert(i == 4 * n + k);
    assert(0 <= n < 16);
    if n == 0 || n == 1 || n == 2 || n == 3 || n == 4 || n == 5 || n == 6 || n == 7 {
    } else {
        assert(n == 8 || n == 9 || n == 10 || n == 11 || n == 12 || n == 13 || n == 14 || n == 15);
    }
}

/// Undoes `compact_word`.
fn uncompact_word(a: Word) -> (r: Word)
    ensures
        forall|i: int|
            0 <= i < 64 ==> #[trigger] bit(r, i) == if i % 8 < 4 {
                bit(a, 4 * (i / 8) + i % 8)
            } else {
                bit(a, 32 + 4 * (i / 8) + i % 8 - 4)
            },
{
    let a1: Word = swap_sixteens(a);
    let a2: Word = swap_eights(a1);
    let r: Word = swap_fours(a2);
    proof {
        assert forall|i: int| 0 <= i < 64 implies #[trigger] bit(r, i) == if i % 8 < 4 {
            bit(a, 4 * (i / 8) + i % 8)
        } else {
            bit(a, 32 + 4 * (i / 8) + i % 8 - 4)
        } by {
            lemma_uncompact_source(i);
            let i2 = fours_source(i);
            let i1 = eights_source(i2);
            assert(bit(r, i) == bit(a2, i2));
            assert(bit(a2, i2) == bit(a1, i1));
        }
    }
    r
}

/// The word whose bytes are the eight bytes from `start` on, the least
/// significant one first.
fn load_word(input: &[u8; 16], start: usize) -> (r: Word)
    requires
        start <= 8,
    ensures
        forall|i: int| 0 <= i < 64 ==> #[trigger] bit(r, i) == bit8(input@[start + i / 8], i % 8),
{
    let mut r: Word = 0;
    let mut n: usize = 0;
    proof {
        crate::bits::lemma_no_bits();
    }
    while n < 8
        invariant
            n <= 8,
            start <= 8,
            forall|i: int|
                0 <= i < 64 ==> #[trigger] bit(r, i) == (i < 8 * n && bit8(
                    input@[start + i / 8],
                    i % 8,
                )),
        decreases 8 - n,
    {
        let x: u8 = input[start + n];
        let shift: u32 = 8 * n as u32;
        let ghost r0 = r;
        r = r | ((x as Word) << shift);
        n = n + 1;
        proof {
            assert forall|i: int| 0 <= i < 64 implies #[trigger] bit(r, i) == (i < 8 * n && bit8(
                input@[start + i / 8],
                i % 8,
            )) by {
                broadcast use crate::bits::group_bits;

                assert(bit(r0, i) == (i < 8 * (n - 1) && bit8(input@[start + i / 8], i % 8)));
                if shift <= i {
                    crate::bits::lemma_bit_widen(x, i - shift);
                }
            }
        }
    }
    r
}

/// The byte of `w` that `n` bytes stand below.
fn word_byte(w: Word, n: usize) -> (r: u8)
    requires
        n < 8,
    ensures
        forall|k: int| 0 <= k < 8 ==> #[trigger] bit8(r, k) == bit(w, 8 * n + k),
{
    let shift: u32 = 8 * n as u32;
    let r: u8 = #[verifier::truncate] ((w >> shift) as u8);
    proof {
        assert forall|k: int| 0 <= k < 8 implies #[trigger] bit8(r, k) == bit(w, 8 * n + k) by {
            broadcast use crate::bits::group_bits;

            crate::bits::lemma_bit_truncate(w >> shift, k);
        }
    }
    r
}

/// Joins the low halves of two words, and the high halves.
fn join_halves(a0: Word, a1: Word) -> (r: (Word, Word))
    ensures
        forall|i: int|
            0 <= i < 64 ==> #[trigger] bit(r.0, i) == if i < 32 {
                bit(a0, i)
            } else {
                bit(a1, i - 32)
            },
        forall|i: int|
            0 <= i < 64 ==> #[trigger] bit(r.1, i) == if i < 32 {
                bit(a0, i + 32)
            } else {
                bit(a1, i)
            },
{
    let r: (Word, Word) = (
        (a0 & 0x0000_0000_ffff_ffff) | (a1 << 32),
        (a1 & 0xffff_ffff_0000_0000) | (a0 >> 32),
    );
    proof {
        assert forall|i: int| 0 <= i < 64 implies #[trigger] bit(r.0, i) == if i < 32 {
            bit(a0, i)
        } else {
            bit(a1, i - 32)
        } by {
            broadcast use crate::bits::group_bits;

            lemma_swap_masks(i);
        }
        assert forall|i: int| 0 <= i < 64 implies #[trigger] bit(r.1, i) == if i < 32 {
            bit(a0, i + 32)
        } else {
            bit(a1, i)
        } by {
            broadcast use crate::bits::group_bits;

            lemma_swap_masks(i);
        }
    }
    r
}

/// Brings a block into compact form.
pub fn compact_block(input: &[u8; 16]) -> (r: [Word; BLOCK_WORDS])
    ensures
        compact_view(r@) == input@,
{
    let a0: Word = compact_word(load_word(input, 0));
    let a1: Word = compact_word(load_word(input, 8));
    let (low, high) = join_halves(a0, a1);
    let r: [Word; BLOCK_WORDS] = [low, high];
    proof {
        assert forall|p: int| 0 <= p < 16 implies #[trigger] compact_byte(r@, p) == input@[p] by {
            assert forall|k: int| 0 <= k < 4 implies #[trigger] bit(r@[0], 4 * p + k) == bit8(
                input@[p],
                k,
            ) && bit(r@[1], 4 * p + k) == bit8(input@[p], k + 4) by {
                assert(bit(low, 4 * p + k) == bit(r@[0], 4 * p + k));
                assert(bit(high, 4 * p + k) == bit(r@[1], 4 * p + k));
            }
            crate::bits::lemma_pack8_bits(input@[p]);
            assert(bit(r@[0], 4 * p + 0) == bit8(input@[p], 0));
        }
        assert(compact_view(r@) =~= input@);
    }
    r
}

/// Writes the block that `input` holds in compact form to `out`.
pub fn uncompact_block(input: &[Word; BLOCK_WORDS], out: &mut [u8; BLOCK_LEN])
    ensures
        final(out)@ == compact_view(input@),
{
    let (low, high) = join_halves(input[0], input[1]);
    let a0: Word = uncompact_word(low);
    let a1: Word = uncompact_word(high);
    let mut n: usize = 0;
    while n < 8
        invariant
            n <= 8,
            forall|p: int, k: int|
                0 <= p < n && 0 <= k < 8 ==> #[trigger] bit8(out@[p], k) == bit(a0, 8 * p + k),
            forall|p: int, k: int|
                8 <= p < 8 + n && 0 <= k < 8 ==> #[trigger] bit8(out@[p], k) == bit(
                    a1,
                    8 * (p - 8) + k,
                ),
        decreases 8 - n,
    {
        out[n] = word_byte(a0, n);
        out[n + 8] = word_byte(a1, n);
        n = n + 1;
    }
    proof {
        assert forall|p: int| 0 <= p < 16 implies out@[p] == #[trigger] compact_byte(input@, p) by {
            assert forall|k: int| 0 <= k < 4 implies #[trigger] bit8(out@[p], k) == bit(
                input@[0],
                4 * p + k,
            ) && bit8(out@[p], k + 4) == bit(input@[1], 4 * p + k) by {
                let a = if p < 8 { a0 } else { a1 };
                let m = if p < 8 { p } else { p - 8 };
                assert(bit8(out@[p], k) == bit(a, 8 * m + k));
                assert(bit8(out@[p], k + 4) == bit(a, 8 * m + (k + 4)));
            }
            crate::bits::lemma_pack8_bits(out@[p]);
            assert(bit8(out@[p], 0) == bit(input@[0], 4 * p + 0));
            assert(bit8(out@[p], 4) == bit(input@[1], 4 * p + 0));
        }
        assert(out@ =~= compact_view(input@));
    }
}

} // verus!

//! Four blocks that are worked on together.
use vstd::prelude::*;
use crate::bits::{
    bit, bit8, lemma_slice_eq, lemma_slice_units, lemma_unit_eq, pack_units, slice_byte, unit,
};
use crate::block::{compact_block, compact_byte, compact_view, uncompact_block};
use crate::cipher::{add_round_key, mix_byte, mix_columns, shift_rows, sub_bytes};
use crate::field::gf_mul;
use crate::sbox::sub_words;
use crate::word::{
    bits_swapped, lemma_row_masks, rotate_rows_down, rotate_rows_twice, shift_left, shift_right, swap_bits, Word,
    BATCH_SIZE, BLOCK_LEN, BLOCK_WORDS,
};

verus! {

/// The block of sixteen zero bytes.
pub open spec fn zero_block() -> Seq<u8> {
    Seq::new(16, |p: int| 0u8)
}

/// Four blocks in eight words. They are in bitsliced form, unless something
/// else is said: word `k` holds bit `k` of all bytes.
#[derive(Clone, Copy)]
pub struct Batch {
    pub w: [Word; 8],
}

impl Batch {
    /// The blocks of a batch in bitsliced form: the bits of byte `p` of block
    /// `b` stand at position `4 * p + b` of the words.
    pub open spec fn blocks(&self) -> Seq<Seq<u8>> {
        Seq::new(4, |b: int| Seq::new(16, |p: int| slice_byte(self.w@, 4 * p + b)))
    }

    /// The blocks of a batch in compact form: words `b` and `b + 4` hold the
    /// low and the high halves of the bytes of block `b`.
    pub open spec fn compact_blocks(&self) -> Seq<Seq<u8>> {
        Seq::new(4, |b: int| compact_view(seq![self.w@[b], self.w@[b + 4]]))
    }

    /// A batch of the blocks of `input`. The blocks that are left over are
    /// zero.
    pub fn from_bytes(input: &[[u8; BLOCK_LEN]]) -> (r: Self)
        requires
            input@.len() <= BATCH_SIZE,
        ensures
            r.blocks() == Seq::new(
                4,
                |b: int|
                    if b < input@.len() {
                        input@[b]@
                    } else {
                        zero_block()
                    },
            ),
            forall|b: int, p: int|
                0 <= b < input@.len() && 0 <= p < 16 ==> #[trigger] r.blocks()[b][p]
                    == input@[b]@[p],
            forall|b: int, p: int|
                input@.len() <= b < 4 && 0 <= p < 16 ==> #[trigger] r.blocks()[b][p] == 0,
    {
        let mut r: Batch = Batch { w: [0; 8] };
        proof {
            r.lemma_zero();
        }
        let mut i: usize = 0;
        while i < input.len()
            invariant
                i <= input@.len() <= BATCH_SIZE,
                r.compact_blocks() == Seq::new(
                    4,
                    |b: int|
                        if b < i {
                            input@[b]@
                        } else {
                            zero_block()
                        },
                ),
            decreases input@.len() - i,
        {
            let block = compact_block(&input[i]);
            r.set(&block, i);
            i = i + 1;
            proof {
                assert(r.compact_blocks() =~= Seq::new(
                    4,
                    |b: int|
                        if b < i {
                            input@[b]@
                        } else {
                            zero_block()
                        },
                ));
            }
        }
        r.transpose();
        r
    }

    /// A batch of zero words in compact form holds zero blocks.
    proof fn lemma_zero(&self)
        requires
            forall|k: int| 0 <= k < 8 ==> #[trigger] self.w@[k] == 0,
        ensures
            self.compact_blocks() == Seq::new(4, |b: int| zero_block()),
    {
        crate::bits::lemma_no_bits();
        assert forall|b: int| 0 <= b < 4 implies #[trigger] self.compact_blocks()[b]
            == zero_block() by {
            assert(self.compact_blocks()[b] =~= zero_block());
        }
        assert(self.compact_blocks() =~= Seq::new(4, |b: int| zero_block()));
    }

    /// Writes the first blocks of the batch to `out`, as many as it has room for.
    pub fn into_bytes(self, out: &mut [[u8; BLOCK_LEN]])
        requires
            old(out)@.len() <= BATCH_SIZE,
        ensures
            final(out)@.len() == old(out)@.len(),
            forall|b: int|
                0 <= b < final(out)@.len() ==> #[trigger] final(out)@[b]@ == self.blocks()[b],
    {
        let mut copy: Batch = self;
        copy.transpose();
        let mut i: usize = 0;
        while i < out.len()
            invariant
                i <= out@.len() <= BATCH_SIZE,
                out@.len() == old(out)@.len(),
                copy.compact_blocks() == self.blocks(),
                forall|b: int| 0 <= b < i ==> #[trigger] out@[b]@ == self.blocks()[b],
            decreases out@.len() - i,
        {
            let block = copy.get(i);
            let mut bytes: [u8; BLOCK_LEN] = [0; BLOCK_LEN];
            uncompact_block(&block, &mut bytes);
            out[i] = bytes;
            i = i + 1;
        }
    }

    /// Sets block `i` of a batch in compact form to `input`.
    pub fn set(&mut self, input: &[Word; BLOCK_WORDS], i: usize)
        requires
            i < BATCH_SIZE,
        ensures
            final(self).w@ == old(self).w@.update(i as int, input@[0]).update(i + 4, input@[1]),
            final(self).compact_blocks() == old(self).compact_blocks().update(
                i as int,
                compact_view(input@),
            ),
    {
        self.w[i] = input[0];
        self.w[i + 4] = input[1];
        proof {
            assert(seq![input@[0], input@[1]] =~= input@);
            assert(self.compact_blocks() =~= old(self).compact_blocks().update(
                i as int,
                compact_view(input@),
            ));
        }
    }

    /// Block `i` of a batch in compact form.
    pub fn get(&self, i: usize) -> (r: [Word; BLOCK_WORDS])
        requires
            i < BATCH_SIZE,
        ensures
            r@ == seq![self.w@[i as int], self.w@[i + 4]],
            compact_view(r@) == self.compact_blocks()[i as int],
    {
        let r: [Word; BLOCK_WORDS] = [self.w[i], self.w[i + 4]];
        assert(r@ =~= seq![self.w@[i as int], self.w@[i + 4]]);
        r
    }

    /// Applies the byte substitution to all blocks.
    pub fn sub_bytes(&mut self)
        ensures
            final(self).blocks() == old(self).blocks().map_values(|s: Seq<u8>| sub_bytes(s)),
    {
        self.w = sub_words(&self.w);
        proof {
            assert forall|b: int| 0 <= b < 4 implies #[trigger] self.blocks()[b] == sub_bytes(
                old(self).blocks()[b],
            ) by {
                assert(self.blocks()[b] =~= sub_bytes(old(self).blocks()[b]));
            }
            assert(self.blocks() =~= old(self).blocks().map_values(|s: Seq<u8>| sub_bytes(s)));
        }
    }

    /// Adds to every block the block at the same place in `key`.
    pub fn add_round_key(&mut self, key: &Batch)
        ensures
            final(self).blocks() == Seq::new(
                4,
                |b: int| add_round_key(old(self).blocks()[b], key.blocks()[b]),
            ),
    {
        let mut k: usize = 0;
        while k < 8
            invariant
                k <= 8,
                forall|j: int| 0 <= j < k ==> #[trigger] self.w@[j] == old(self).w@[j] ^ key.w@[j],
                forall|j: int| k <= j < 8 ==> #[trigger] self.w@[j] == old(self).w@[j],
            decreases 8 - k,
        {
            self.w[k] = self.w[k] ^ key.w[k];
            k = k + 1;
        }
        proof {
            assert forall|q: int| #[trigger] slice_byte(self.w@, q) == slice_byte(old(self).w@, q)
                ^ slice_byte(key.w@, q) by {
                lemma_slice_xor(old(self).w@, key.w@, self.w@, q);
            }
            assert forall|b: int| 0 <= b < 4 implies #[trigger] self.blocks()[b] == add_round_key(
                old(self).blocks()[b],
                key.blocks()[b],
            ) by {
                assert(self.blocks()[b] =~= add_round_key(old(self).blocks()[b], key.blocks()[b]));
            }
            assert(self.blocks() =~= Seq::new(
                4,
                |b: int| add_round_key(old(self).blocks()[b], key.blocks()[b]),
            ));
        }
    }

    /// Rotates the rows of all blocks.
    pub fn shift_rows(&mut self)
        ensures
            final(self).blocks() == old(self).blocks().map_values(|s: Seq<u8>| shift_rows(s)),
    {
        let mut k: usize = 0;
        while k < 8
            invariant
                k <= 8,
                forall|j: int, q: int|
                    0 <= j < k && 0 <= q < 64 ==> #[trigger] bit(self.w@[j], q) == bit(
                        old(self).w@[j],
                        shift_source(q),
                    ),
                forall|j: int| k <= j < 8 ==> #[trigger] self.w@[j] == old(self).w@[j],
            decreases 8 - k,
        {
            self.w[k] = shift_rows_word(self.w[k]);
            k = k + 1;
        }
        proof {
            assert forall|b: int| 0 <= b < 4 implies #[trigger] self.blocks()[b] == shift_rows(
                old(self).blocks()[b],
            ) by {
                assert forall|p: int| 0 <= p < 16 implies #[trigger] self.blocks()[b][p]
                    == shift_rows(old(self).blocks()[b])[p] by {
                    let from = 4 * ((p / 4 + p % 4) % 4) + p % 4;
                    let q = 4 * p + b;
                    lemma_shift_source(b, p);
                    lemma_slice_eq(self.w@, q, old(self).w@, 4 * from + b);
                }
                assert(self.blocks()[b] =~= shift_rows(old(self).blocks()[b]));
            }
            assert(self.blocks() =~= old(self).blocks().map_values(|s: Seq<u8>| shift_rows(s)));
        }
    }

    /// Mixes the columns of all blocks.
    pub fn mix_columns(&mut self)
        ensures
            final(self).blocks() == old(self).blocks().map_values(|s: Seq<u8>| mix_columns(s)),
    {
        let a0: Word = self.w[0];
        let a1: Word = self.w[1];
        let a2: Word = self.w[2];
        let a3: Word = self.w[3];
        let a4: Word = self.w[4];
        let a5: Word = self.w[5];
        let a6: Word = self.w[6];
        let a7: Word = self.w[7];

        let r0: Word = rotate_rows_down(a0);
        let a0_r0: Word = a0 ^ r0;
        let r1: Word = rotate_rows_down(a1);
        let a1_r1: Word = a1 ^ r1;
        let r2: Word = rotate_rows_down(a2);
        let a2_r2: Word = a2 ^ r2;
        let r3: Word = rotate_rows_down(a3);
        let a3_r3: Word = a3 ^ r3;
        let r4: Word = rotate_rows_down(a4);
        let a4_r4: Word = a4 ^ r4;
        let r5: Word = rotate_rows_down(a5);
        let a5_r5: Word = a5 ^ r5;
        let r6: Word = rotate_rows_down(a6);
        let a6_r6: Word = a6 ^ r6;
        let r7: Word = rotate_rows_down(a7);
        let a7_r7: Word = a7 ^ r7;

        let t0: Word = rotate_rows_twice(a0_r0);
        let t1: Word = rotate_rows_twice(a1_r1);
        let t2: Word = rotate_rows_twice(a2_r2);
        let t3: Word = rotate_rows_twice(a3_r3);
        let t4: Word = rotate_rows_twice(a4_r4);
        let t5: Word = rotate_rows_twice(a5_r5);
        let t6: Word = rotate_rows_twice(a6_r6);
        let t7: Word = rotate_rows_twice(a7_r7);

        // A byte of a mixed column is the double of the sum of the byte and the
        // one below, plus the one below, plus the sum of the two after that.
        // Doubling moves bit `k` to bit `k + 1`, and bit 7 to the bits of 0x1b.
        self.w = [
            a7_r7 ^ r0 ^ t0,
            a0_r0 ^ a7_r7 ^ r1 ^ t1,
            a1_r1 ^ r2 ^ t2,
            a2_r2 ^ a7_r7 ^ r3 ^ t3,
            a3_r3 ^ a7_r7 ^ r4 ^ t4,
            a4_r4 ^ r5 ^ t5,
            a5_r5 ^ r6 ^ t6,
            a6_r6 ^ r7 ^ t7,
        ];
        proof {
            assert forall|q: int| 0 <= q < 64 implies #[trigger] slice_byte(self.w@, q)
                == mix_byte(
                slice_byte(old(self).w@, q),
                slice_byte(old(self).w@, 16 * (q / 16) + (q + 4) % 16),
                slice_byte(old(self).w@, 16 * (q / 16) + (q + 8) % 16),
                slice_byte(old(self).w@, 16 * (q / 16) + (q + 12) % 16),
            ) by {
                broadcast use {crate::bits::lemma_unit_xor, crate::bits::lemma_unit_bound};

                let w = old(self).w@;
                let q1 = 16 * (q / 16) + (q + 4) % 16;
                let q2 = 16 * (q / 16) + (q + 8) % 16;
                let q3 = 16 * (q / 16) + (q + 12) % 16;
                lemma_row_positions(q);
                lemma_unit_eq(r0, q, a0, q1);
                lemma_unit_eq(r0, q2, a0, q3);
                lemma_unit_eq(t0, q, a0_r0, q2);
                lemma_unit_eq(r1, q, a1, q1);
                lemma_unit_eq(r1, q2, a1, q3);
                lemma_unit_eq(t1, q, a1_r1, q2);
                lemma_unit_eq(r2, q, a2, q1);
                lemma_unit_eq(r2, q2, a2, q3);
                lemma_unit_eq(t2, q, a2_r2, q2);
                lemma_unit_eq(r3, q, a3, q1);
                lemma_unit_eq(r3, q2, a3, q3);
                lemma_unit_eq(t3, q, a3_r3, q2);
                lemma_unit_eq(r4, q, a4, q1);
                lemma_unit_eq(r4, q2, a4, q3);
                lemma_unit_eq(t4, q, a4_r4, q2);
                lemma_unit_eq(r5, q, a5, q1);
                lemma_unit_eq(r5, q2, a5, q3);
                lemma_unit_eq(t5, q, a5_r5, q2);
                lemma_unit_eq(r6, q, a6, q1);
                lemma_unit_eq(r6, q2, a6, q3);
                lemma_unit_eq(t6, q, a6_r6, q2);
                lemma_unit_eq(r7, q, a7, q1);
                lemma_unit_eq(r7, q2, a7, q3);
                lemma_unit_eq(t7, q, a7_r7, q2);
                lemma_slice_units(w, q);
                lemma_slice_units(w, q1);
                lemma_slice_units(w, q2);
                lemma_slice_units(w, q3);
                lemma_slice_units(self.w@, q);
                lemma_mix_units(
                    unit(a0, q),
                    unit(a1, q),
                    unit(a2, q),
                    unit(a3, q),
                    unit(a4, q),
                    unit(a5, q),
                    unit(a6, q),
                    unit(a7, q),
                    unit(a0, q1),
                    unit(a1, q1),
                    unit(a2, q1),
                    unit(a3, q1),
                    unit(a4, q1),
                    unit(a5, q1),
                    unit(a6, q1),
                    unit(a7, q1),
                    unit(a0, q2),
                    unit(a1, q2),
                    unit(a2, q2),
                    unit(a3, q2),
                    unit(a4, q2),
                    unit(a5, q2),
                    unit(a6, q2),
                    unit(a7, q2),
                    unit(a0, q3),
                    unit(a1, q3),
                    unit(a2, q3),
                    unit(a3, q3),
                    unit(a4, q3),
                    unit(a5, q3),
                    unit(a6, q3),
                    unit(a7, q3),
                    slice_byte(w, q),
                    slice_byte(w, q1),
                    slice_byte(w, q2),
                    slice_byte(w, q3),
                );
            }
            assert forall|b: int| 0 <= b < 4 implies #[trigger] self.blocks()[b] == mix_columns(
                old(self).blocks()[b],
            ) by {
                assert forall|p: int| 0 <= p < 16 implies #[trigger] self.blocks()[b][p]
                    == mix_columns(old(self).blocks()[b])[p] by {
                    let q = 4 * p + b;
                    lemma_column_positions(b, p);
                    assert(slice_byte(self.w@, q) == self.blocks()[b][p]);
                }
                assert(self.blocks()[b] =~= mix_columns(old(self).blocks()[b]));
            }
            assert(self.blocks() =~= old(self).blocks().map_values(|s: Seq<u8>| mix_columns(s)));
        }
    }

    /// Converts a batch from compact to bitsliced form, and from bitsliced to
    /// compact form: transposes the squares of four by four bits that four
    /// words make up.
    pub fn transpose(&mut self)
        ensures
            final(self).blocks() == old(self).compact_blocks(),
            final(self).compact_blocks() == old(self).blocks(),
    {
        let ghost w0 = self.w@;

        // Swap bits with index 0 and 1 mod 2 (0x55 = 0b01010101).
        swap_bits::<0, 1, 0x55, 1>(&mut self.w);
        swap_bits::<2, 3, 0x55, 1>(&mut self.w);
        swap_bits::<4, 5, 0x55, 1>(&mut self.w);
        swap_bits::<6, 7, 0x55, 1>(&mut self.w);
        let ghost w1 = self.w@;

        // Swap bits with index 0-1 and 2-3 mod 4 (0x33 = 0b00110011).
        swap_bits::<0, 2, 0x33, 2>(&mut self.w);
        swap_bits::<1, 3, 0x33, 2>(&mut self.w);
        swap_bits::<4, 6, 0x33, 2>(&mut self.w);
        swap_bits::<5, 7, 0x33, 2>(&mut self.w);
        let ghost w2 = self.w@;

        proof {
            assert forall|b: int, p: int| 0 <= b < 4 && 0 <= p < 16 implies #[trigger] slice_byte(
                w2,
                4 * p + b,
            ) == compact_byte(seq![w0[b], w0[b + 4]], p) && compact_byte(
                seq![w2[b], w2[b + 4]],
                p,
            ) == slice_byte(w0, 4 * p + b) by {
                lemma_square(w0, w1, w2, 0, p);
                lemma_square(w0, w1, w2, 4, p);
                assert(b == 0 || b == 1 || b == 2 || b == 3);
            }
            assert forall|b: int| 0 <= b < 4 implies #[trigger] self.blocks()[b]
                == old(self).compact_blocks()[b] by {
                assert(self.blocks()[b] =~= old(self).compact_blocks()[b]);
            }
            assert forall|b: int| 0 <= b < 4 implies #[trigger] self.compact_blocks()[b]
                == old(self).blocks()[b] by {
                assert forall|p: int| 0 <= p < 16 implies self.compact_blocks()[b][p]
                    == old(self).blocks()[b][p] by {
                    assert(slice_byte(w2, 4 * p + b) == compact_byte(seq![w0[b], w0[b + 4]], p));
                }
                assert(self.compact_blocks()[b] =~= old(self).blocks()[b]);
            }
            assert(self.blocks() =~= old(self).compact_blocks());
            assert(self.compact_blocks() =~= old(self).blocks());
        }
    }
}

/// The position that `Batch::shift_rows` moves to position `q`: in the row of
/// `q`, as many columns further as the row's number says.
#[verifier::opaque]
spec fn shift_source(q: int) -> int {
    (q + 16 * ((q % 16) / 4)) % 64
}

proof fn lemma_shift_source(b: int, p: int)
    requires
        0 <= b < 4,
        0 <= p < 16,
    ensures
        shift_source(4 * p + b) == 4 * (4 * ((p / 4 + p % 4) % 4) + p % 4) + b,
{
    reveal(shift_source);
    let c = p / 4;
    let r = p % 4;
    assert(c == 0 || c == 1 || c == 2 || c == 3);
    assert(r == 0 || r == 1 || r == 2 || r == 3);
}

/// The positions of the bytes below byte `p` of block `b` in its column.
proof fn lemma_column_positions(b: int, p: int)
    requires
        0 <= b < 4,
        0 <= p < 16,
    ensures
        ({
            let q = 4 * p + b;
            &&& q == 4 * (4 * (p / 4) + p % 4) + b
            &&& 16 * (q / 16) + (q + 4) % 16 == 4 * (4 * (p / 4) + (p + 1) % 4) + b
            &&& 16 * (q / 16) + (q + 8) % 16 == 4 * (4 * (p / 4) + (p + 2) % 4) + b
            &&& 16 * (q / 16) + (q + 12) % 16 == 4 * (4 * (p / 4) + (p + 3) % 4) + b
        }),
{
    let (c, r) = (p / 4, p % 4);
    assert(p == 4 * c + r);
    assert(r == 0 || r == 1 || r == 2 || r == 3);
}

/// A row further than two rows further is three rows further.
proof fn lemma_row_positions(q: int)
    requires
        0 <= q < 64,
    ensures
        ({
            let q2 = 16 * (q / 16) + (q + 8) % 16;
            &&& 0 <= q2 < 64
            &&& 16 * (q2 / 16) + (q2 + 4) % 16 == 16 * (q / 16) + (q + 12) % 16
        }),
{
}

/// Rotates row `r` of all blocks by `r` columns, in one word.
fn shift_rows_word(w: Word) -> (r: Word)
    ensures
        forall|q: int|
            0 <= q < 64 ==> #[trigger] bit(r, q) == bit(w, shift_source(q)),
{
    let row0: Word = w & 0x000f_000f_000f_000f;
    let row1: Word = w & 0x00f0_00f0_00f0_00f0;
    let row2: Word = w & 0x0f00_0f00_0f00_0f00;
    let row3: Word = w & 0xf000_f000_f000_f000;
    let shifted1: Word = shift_right::<4>(row1) | shift_left::<12>(row1);
    let shifted2: Word = shift_right::<8>(row2) | shift_left::<8>(row2);
    let shifted3: Word = shift_right::<12>(row3) | shift_left::<4>(row3);
    let r: Word = (row0 | shifted1) | (shifted2 | shifted3);
    proof {
        assert forall|q: int| 0 <= q < 64 implies #[trigger] bit(r, q) == bit(
            w,
            shift_source(q),
        ) by {
            broadcast use {
                crate::bits::lemma_bit_and,
                crate::bits::lemma_bit_or,
            };

            reveal(shift_source);
            let q1 = if q < 48 { q + 16 } else { q - 48 };
            let q2 = if q < 32 { q + 32 } else { q - 32 };
            let q3 = if q < 16 { q + 48 } else { q - 16 };
            lemma_row_masks(q);
            lemma_row_masks(q1);
            lemma_row_masks(q2);
            lemma_row_masks(q3);
            assert(q1 % 16 == q % 16 && q2 % 16 == q % 16 && q3 % 16 == q % 16);
            assert(shift_source(q) == if q % 16 < 4 {
                q
            } else if q % 16 < 8 {
                q1
            } else if q % 16 < 12 {
                q2
            } else {
                q3
            });
            assert(bit(shifted1, q) == bit(row1, q1));
            assert(bit(shifted2, q) == bit(row2, q2));
            assert(bit(shifted3, q) == bit(row3, q3));
        }
    }
    r
}

/// The bytes of a word by word sum are the sums of the bytes.
proof fn lemma_slice_xor(a: Seq<u64>, b: Seq<u64>, r: Seq<u64>, q: int)
    requires
        forall|k: int| 0 <= k < 8 ==> #[trigger] r[k] == a[k] ^ b[k],
    ensures
        slice_byte(r, q) == slice_byte(a, q) ^ slice_byte(b, q),
{
    broadcast use {crate::bits::lemma_unit_xor, crate::bits::lemma_unit_bound};

    lemma_slice_units(a, q);
    lemma_slice_units(b, q);
    lemma_slice_units(r, q);
    crate::bits::lemma_pack_units_xor(
        unit(a[0], q),
        unit(a[1], q),
        unit(a[2], q),
        unit(a[3], q),
        unit(a[4], q),
        unit(a[5], q),
        unit(a[6], q),
        unit(a[7], q),
        unit(b[0], q),
        unit(b[1], q),
        unit(b[2], q),
        unit(b[3], q),
        unit(b[4], q),
        unit(b[5], q),
        unit(b[6], q),
        unit(b[7], q),
    );
}

/// The gates of the column mixing, on the bits of the four bytes of a column.
proof fn lemma_mix_units(
    a0: u8,
    a1: u8,
    a2: u8,
    a3: u8,
    a4: u8,
    a5: u8,
    a6: u8,
    a7: u8,
    b0: u8,
    b1: u8,
    b2: u8,
    b3: u8,
    b4: u8,
    b5: u8,
    b6: u8,
    b7: u8,
    c0: u8,
    c1: u8,
    c2: u8,
    c3: u8,
    c4: u8,
    c5: u8,
    c6: u8,
    c7: u8,
    d0: u8,
    d1: u8,
    d2: u8,
    d3: u8,
    d4: u8,
    d5: u8,
    d6: u8,
    d7: u8,
    a: u8,
    b: u8,
    c: u8,
    d: u8,
)
    requires
        a0 <= 1, a1 <= 1, a2 <= 1, a3 <= 1, a4 <= 1, a5 <= 1, a6 <= 1, a7 <= 1,
        b0 <= 1, b1 <= 1, b2 <= 1, b3 <= 1, b4 <= 1, b5 <= 1, b6 <= 1, b7 <= 1,
        c0 <= 1, c1 <= 1, c2 <= 1, c3 <= 1, c4 <= 1, c5 <= 1, c6 <= 1, c7 <= 1,
        d0 <= 1, d1 <= 1, d2 <= 1, d3 <= 1, d4 <= 1, d5 <= 1, d6 <= 1, d7 <= 1,
        a == pack_units(a0, a1, a2, a3, a4, a5, a6, a7),
        b == pack_units(b0, b1, b2, b3, b4, b5, b6, b7),
        c == pack_units(c0, c1, c2, c3, c4, c5, c6, c7),
        d == pack_units(d0, d1, d2, d3, d4, d5, d6, d7),
    ensures
        pack_units(
            (a7 ^ b7) ^ b0 ^ (c0 ^ d0),
            (a0 ^ b0) ^ (a7 ^ b7) ^ b1 ^ (c1 ^ d1),
            (a1 ^ b1) ^ b2 ^ (c2 ^ d2),
            (a2 ^ b2) ^ (a7 ^ b7) ^ b3 ^ (c3 ^ d3),
            (a3 ^ b3) ^ (a7 ^ b7) ^ b4 ^ (c4 ^ d4),
            (a4 ^ b4) ^ b5 ^ (c5 ^ d5),
            (a5 ^ b5) ^ b6 ^ (c6 ^ d6),
            (a6 ^ b6) ^ b7 ^ (c7 ^ d7),
        ) == mix_byte(a, b, c, d),
{
    reveal(pack_units);
    reveal(mix_byte);
    reveal(gf_mul);
    assert(pack_units(
        (a7 ^ b7) ^ b0 ^ (c0 ^ d0),
        (a0 ^ b0) ^ (a7 ^ b7) ^ b1 ^ (c1 ^ d1),
        (a1 ^ b1) ^ b2 ^ (c2 ^ d2),
        (a2 ^ b2) ^ (a7 ^ b7) ^ b3 ^ (c3 ^ d3),
        (a3 ^ b3) ^ (a7 ^ b7) ^ b4 ^ (c4 ^ d4),
        (a4 ^ b4) ^ b5 ^ (c5 ^ d5),
        (a5 ^ b5) ^ b6 ^ (c6 ^ d6),
        (a6 ^ b6) ^ b7 ^ (c7 ^ d7),
    ) == mix_byte(a, b, c, d)) by (bit_vector)
        requires
            a0 <= 1, a1 <= 1, a2 <= 1, a3 <= 1, a4 <= 1, a5 <= 1, a6 <= 1, a7 <= 1,
            b0 <= 1, b1 <= 1, b2 <= 1, b3 <= 1, b4 <= 1, b5 <= 1, b6 <= 1, b7 <= 1,
            c0 <= 1, c1 <= 1, c2 <= 1, c3 <= 1, c4 <= 1, c5 <= 1, c6 <= 1, c7 <= 1,
            d0 <= 1, d1 <= 1, d2 <= 1, d3 <= 1, d4 <= 1, d5 <= 1, d6 <= 1, d7 <= 1,
            a == pack_units(a0, a1, a2, a3, a4, a5, a6, a7),
            b == pack_units(b0, b1, b2, b3, b4, b5, b6, b7),
            c == pack_units(c0, c1, c2, c3, c4, c5, c6, c7),
            d == pack_units(d0, d1, d2, d3, d4, d5, d6, d7),
    ;
}

/// What an exchange of neighbouring bits does to four bits of two words.
proof fn lemma_swap_neighbours(a0: u64, b0: u64, a1: u64, b1: u64, p: int)
    requires
        0 <= p < 16,
        bits_swapped(a0, b0, a1, b1, 0x55, 1),
    ensures
        bit(a1, 4 * p) == bit(a0, 4 * p),
        bit(a1, 4 * p + 1) == bit(b0, 4 * p),
        bit(a1, 4 * p + 2) == bit(a0, 4 * p + 2),
        bit(a1, 4 * p + 3) == bit(b0, 4 * p + 2),
        bit(b1, 4 * p) == bit(a0, 4 * p + 1),
        bit(b1, 4 * p + 1) == bit(b0, 4 * p + 1),
        bit(b1, 4 * p + 2) == bit(a0, 4 * p + 3),
        bit(b1, 4 * p + 3) == bit(b0, 4 * p + 3),
{
    assert forall|i: int| 0 <= i < 8 implies #[trigger] bit8(0x55, i) == (i % 2 == 0) by {
        reveal(bit8);
        let k = i as u8;
        assert(k < 8 ==> ((0x55u8 >> k) & 1 == 1) == (k % 2 == 0)) by (bit_vector);
    }
}

/// What an exchange of neighbouring pairs does to four bits of two words.
proof fn lemma_swap_pairs(a0: u64, b0: u64, a1: u64, b1: u64, p: int)
    requires
        0 <= p < 16,
        bits_swapped(a0, b0, a1, b1, 0x33, 2),
    ensures
        bit(a1, 4 * p) == bit(a0, 4 * p),
        bit(a1, 4 * p + 1) == bit(a0, 4 * p + 1),
        bit(a1, 4 * p + 2) == bit(b0, 4 * p),
        bit(a1, 4 * p + 3) == bit(b0, 4 * p + 1),
        bit(b1, 4 * p) == bit(a0, 4 * p + 2),
        bit(b1, 4 * p + 1) == bit(a0, 4 * p + 3),
        bit(b1, 4 * p + 2) == bit(b0, 4 * p + 2),
        bit(b1, 4 * p + 3) == bit(b0, 4 * p + 3),
{
    assert forall|i: int| 0 <= i < 8 implies #[trigger] bit8(0x33, i) == (i % 4 < 2) by {
        reveal(bit8);
        let k = i as u8;
        assert(k < 8 ==> ((0x33u8 >> k) & 1 == 1) == (k % 4 < 2)) by (bit_vector);
    }
}

/// The two exchanges transpose the square of bits that the four words from `h`
/// on have at position `4 * p`.
proof fn lemma_square(w0: Seq<u64>, w1: Seq<u64>, w2: Seq<u64>, h: int, p: int)
    requires
        0 <= p < 16,
        bits_swapped(w0[h], w0[h + 1], w1[h], w1[h + 1], 0x55, 1),
        bits_swapped(w0[h + 2], w0[h + 3], w1[h + 2], w1[h + 3], 0x55, 1),
        bits_swapped(w1[h], w1[h + 2], w2[h], w2[h + 2], 0x33, 2),
        bits_swapped(w1[h + 1], w1[h + 3], w2[h + 1], w2[h + 3], 0x33, 2),
    ensures
        bit(w2[h], 4 * p) == bit(w0[h], 4 * p),
        bit(w2[h], 4 * p + 1) == bit(w0[h + 1], 4 * p),
        bit(w2[h], 4 * p + 2) == bit(w0[h + 2], 4 * p),
        bit(w2[h], 4 * p + 3) == bit(w0[h + 3], 4 * p),
        bit(w2[h + 1], 4 * p) == bit(w0[h], 4 * p + 1),
        bit(w2[h + 1], 4 * p + 1) == bit(w0[h + 1], 4 * p + 1),
        bit(w2[h + 1], 4 * p + 2) == bit(w0[h + 2], 4 * p + 1),
        bit(w2[h + 1], 4 * p + 3) == bit(w0[h + 3], 4 * p + 1),
        bit(w2[h + 2], 4 * p) == bit(w0[h], 4 * p + 2),
        bit(w2[h + 2], 4 * p + 1) == bit(w0[h + 1], 4 * p + 2),
        bit(w2[h + 2], 4 * p + 2) == bit(w0[h + 2], 4 * p + 2),
        bit(w2[h + 2], 4 * p + 3) == bit(w0[h + 3], 4 * p + 2),
        bit(w2[h + 3], 4 * p) == bit(w0[h], 4 * p + 3),
        bit(w2[h + 3], 4 * p + 1) == bit(w0[h + 1], 4 * p + 3),
        bit(w2[h + 3], 4 * p + 2) == bit(w0[h + 2], 4 * p + 3),
        bit(w2[h + 3], 4 * p + 3) == bit(w0[h + 3], 4 * p + 3),
{
    lemma_swap_neighbours(w0[h], w0[h + 1], w1[h], w1[h + 1], p);
    lemma_swap_neighbours(w0[h + 2], w0[h + 3], w1[h + 2], w1[h + 3], p);
    lemma_swap_pairs(w1[h], w1[h + 2], w2[h], w2[h + 2], p);
    lemma_swap_pairs(w1[h + 1], w1[h + 3], w2[h + 1], w2[h + 3], p);
}

} // verus!

//! Expanded keys.
use vstd::prelude::*;
use crate::batch::Batch;
use crate::bits::{bit, bit8, lemma_bit_widen, lemma_pack8_bits};
use crate::block::{
    compact_block, compact_byte, compact_view, lemma_compact_eq, lemma_compact_xor,
    lemma_compact_zero,
};
use crate::cipher::sub_bytes;
use crate::expansion::{
    chained, chained_column, column, expanded_key, expanded_round_key, first_byte, key_rounds,
    law_rcon, lemma_step_128, lemma_step_256_even, lemma_step_256_odd, rcon, rot_word, sub_word, xor_word,
};
use crate::word::{rotate_rows_down, shift_left, shift_right, Word, BLOCK_WORDS};

verus! {

/// The largest number of rounds that a key can ask for.
pub const MAX_ROUNDS: usize = 14;

/// The number of round keys that the largest number of rounds takes.
pub const MAX_ROUND_KEYS: usize = 15;

/// An expanded key: the round keys, each a block in compact form, and the
/// number of rounds. The words of a block are cut into halves, the low half
/// first.
#[allow(non_camel_case_types)]
#[derive(Clone, Copy)]
pub struct AES_KEY {
    pub rd_key: [[u32; 4]; MAX_ROUND_KEYS],
    pub rounds: u32,
}

/// The words of a block whose halves are given.
pub open spec fn joined(halves: Seq<u32>) -> Seq<u64> {
    seq![
        (halves[0] + halves[1] * 0x1_0000_0000) as u64,
        (halves[2] + halves[3] * 0x1_0000_0000) as u64,
    ]
}

impl AES_KEY {
    /// Round key `i`.
    pub open spec fn round_key(&self, i: int) -> Seq<u8> {
        compact_view(joined(self.rd_key@[i]@))
    }

    /// All round keys.
    pub open spec fn round_keys(&self) -> Seq<Seq<u8>> {
        Seq::new(15, |i: int| self.round_key(i))
    }

    /// Whether the key asks for a number of rounds that can be made.
    pub open spec fn rounds_valid(&self) -> bool {
        1 <= self.rounds <= 14
    }
}

/// Whether `key` is the expansion of the key `bytes`: it asks for the right
/// number of rounds and has the right round keys for them.
pub open spec fn is_expansion(key: AES_KEY, bytes: Seq<u8>) -> bool {
    &&& key.rounds == key_rounds(bytes)
    &&& forall|n: int|
        0 <= n <= key.rounds ==> #[trigger] key.round_key(n) == expanded_key(bytes)[n]
}

/// Joins the halves of the words of a block.
pub fn join_words(halves: &[u32; 4]) -> (r: [Word; BLOCK_WORDS])
    ensures
        r@ == joined(halves@),
        r@[0] as int == halves@[0] + halves@[1] * 0x1_0000_0000,
        r@[1] as int == halves@[2] + halves@[3] * 0x1_0000_0000,
{
    let r: [Word; BLOCK_WORDS] = [
        halves[0] as Word + halves[1] as Word * 0x1_0000_0000,
        halves[2] as Word + halves[3] as Word * 0x1_0000_0000,
    ];
    assert(r@ =~= joined(halves@));
    r
}

/// Cuts the words of a block into halves.
pub fn split_words(w: &[Word; BLOCK_WORDS]) -> (r: [u32; 4])
    ensures
        joined(r@) == w@,
        r@[0] + r@[1] * 0x1_0000_0000 == w@[0],
        r@[2] + r@[3] * 0x1_0000_0000 == w@[1],
{
    let r: [u32; 4] = [
        (w[0] % 0x1_0000_0000) as u32,
        (w[0] / 0x1_0000_0000) as u32,
        (w[1] % 0x1_0000_0000) as u32,
        (w[1] / 0x1_0000_0000) as u32,
    ];
    assert(joined(r@) =~= w@);
    r
}

/// The bytes of a key.
#[allow(non_camel_case_types)]
pub enum KeyBytes<'a> {
    AES_128(&'a [u8; 16]),
    AES_256(&'a [u8; 32]),
}

impl<'a> KeyBytes<'a> {
    /// The bytes as a sequence.
    pub open spec fn bytes(&self) -> Seq<u8> {
        match self {
            KeyBytes::AES_128(bytes) => bytes@,
            KeyBytes::AES_256(bytes) => bytes@,
        }
    }
}

/// The constants of the steps of a key expansion: the powers of `x`.
pub const RCON: [u8; 10] = [0x01, 0x02, 0x04, 0x08, 0x10, 0x20, 0x40, 0x80, 0x1b, 0x36];

proof fn lemma_rcon()
    ensures
        forall|i: int| 0 <= i < 10 ==> #[trigger] RCON@[i] == rcon((i + 1) as nat),
{
    assert forall|i: int| 0 <= i < 10 implies #[trigger] RCON@[i] == rcon((i + 1) as nat) by {
        law_rcon(i + 1);
    }
}

/// Group `i` of four bits of `rcon`, in the lowest bits of a word.
#[inline(always)]
pub fn rcon_slice(rcon: u8, i: usize) -> (r: Word)
    requires
        i < BLOCK_WORDS,
    ensures
        r < 16,
        r == (rcon >> ((4 * i) as u8)) & 0x0f,
        forall|q: int| 0 <= q < 64 ==> #[trigger] bit(r, q) == (q < 4 && bit8(rcon, 4 * i + q)),
{
    let shift: u32 = 4 * i as u32;
    let x: u8 = (rcon >> shift) & 0x0f;
    let r: Word = x as Word;
    proof {
        let s = shift as u8;
        assert((rcon >> s) & 0x0f < 16) by (bit_vector);
        assert forall|q: int| 0 <= q < 64 implies #[trigger] bit(r, q) == (q < 4 && bit8(
            rcon,
            4 * i + q,
        )) by {
            lemma_bit_widen(x, q);
            reveal(bit8);
            let k = q as u8;
            let n = (4 * i + q) as u8;
            assert(k < 8 && (s == 0 || s == 4) && n == s + k ==> (((((rcon >> s) & 0x0f) >> k) & 1
                == 1) == (k < 4 && (rcon >> n) & 1 == 1))) by (bit_vector);
        }
    }
    r
}

/// Applies the byte substitution to a block in compact form.
pub fn sub_block(input: &[Word; BLOCK_WORDS]) -> (r: [Word; BLOCK_WORDS])
    ensures
        compact_view(r@) == sub_bytes(compact_view(input@)),
{
    let mut batch: Batch = Batch { w: [0; 8] };
    batch.set(input, 0);
    batch.transpose();
    batch.sub_bytes();
    batch.transpose();
    batch.get(0)
}

/// Adds the first column of `t` to the first column of a block in compact form,
/// and then to every column the one before it.
fn chain_columns(block: &mut [Word; BLOCK_WORDS], t: &[Word; BLOCK_WORDS])
    requires
        forall|p: int| 4 <= p < 16 ==> #[trigger] compact_byte(t@, p) == 0,
    ensures
        compact_view(final(block)@) == chained(
            compact_view(old(block)@),
            column(compact_view(t@), 0),
        ),
{
    // Incorporate the change into the first word.
    let v: [Word; BLOCK_WORDS] = [block[0] ^ t[0], block[1] ^ t[1]];
    // Propagate to the remaining words.
    let v4: [Word; BLOCK_WORDS] = [shift_left::<4>(v[0]), shift_left::<4>(v[1])];
    let v8: [Word; BLOCK_WORDS] = [shift_left::<8>(v[0]), shift_left::<8>(v[1])];
    let v12: [Word; BLOCK_WORDS] = [shift_left::<12>(v[0]), shift_left::<12>(v[1])];
    let x: [Word; BLOCK_WORDS] = [v[0] ^ v4[0], v[1] ^ v4[1]];
    let y: [Word; BLOCK_WORDS] = [x[0] ^ v8[0], x[1] ^ v8[1]];
    let ghost old_block = block@;
    *block = [y[0] ^ v12[0], y[1] ^ v12[1]];
    proof {
        let prev = compact_view(old_block);
        let first = column(compact_view(t@), 0);
        assert forall|p: int| 0 <= p < 16 implies #[trigger] compact_byte(block@, p) == chained(
            prev,
            first,
        )[p] by {
            lemma_compact_xor(y@, v12@, block@, p);
            lemma_compact_xor(x@, v8@, y@, p);
            lemma_compact_xor(v@, v4@, x@, p);
            lemma_shifted(v@, v4@, 4, p);
            lemma_shifted(v@, v8@, 8, p);
            lemma_shifted(v@, v12@, 12, p);
            let r = p % 4;
            lemma_compact_xor(old_block, t@, v@, r);
            lemma_compact_xor(old_block, t@, v@, 4 + r);
            lemma_compact_xor(old_block, t@, v@, 8 + r);
            lemma_compact_xor(old_block, t@, v@, 12 + r);
            lemma_sums(
                prev[r],
                prev[4 + r],
                prev[8 + r],
                prev[12 + r],
                first[r],
            );
            reveal_with_fuel(chained_column, 4);
            assert(p == r || p == 4 + r || p == 8 + r || p == 12 + r);
        }
        assert(compact_view(block@) =~= chained(prev, first));
    }
}

/// The bytes of a block whose words were shifted up by `n` bytes.
proof fn lemma_shifted(a: Seq<u64>, r: Seq<u64>, n: int, p: int)
    requires
        0 <= n < 16,
        0 <= p < 16,
        forall|j: int, q: int|
            0 <= j < 2 && 0 <= q < 64 ==> #[trigger] bit(r[j], q) == (4 * n <= q && bit(
                a[j],
                q - 4 * n,
            )),
    ensures
        compact_byte(r, p) == if n <= p {
            compact_byte(a, p - n)
        } else {
            0
        },
{
    if n <= p {
        assert forall|j: int, k: int| 0 <= j < 2 && 0 <= k < 4 implies #[trigger] bit(
            r[j],
            4 * p + k,
        ) == bit(a[j], 4 * (p - n) + k) by {
            assert(4 * p + k - 4 * n == 4 * (p - n) + k);
        }
        lemma_compact_eq(r, p, a, p - n);
    } else {
        lemma_compact_zero(r, p);
    }
}

/// The sums that `chain_columns` makes in one row.
proof fn lemma_sums(a: u8, b: u8, c: u8, d: u8, t: u8)
    ensures
        a ^ t ^ 0 ^ 0 ^ 0 == a ^ t,
        (b ^ 0) ^ (a ^ t) ^ 0 ^ 0 == b ^ (a ^ t),
        (c ^ 0) ^ (b ^ 0) ^ (a ^ t) ^ 0 == c ^ (b ^ (a ^ t)),
        (d ^ 0) ^ (c ^ 0) ^ (b ^ 0) ^ (a ^ t) == d ^ (c ^ (b ^ (a ^ t))),
{
    assert({
        &&& a ^ t ^ 0 ^ 0 ^ 0 == a ^ t
        &&& (b ^ 0) ^ (a ^ t) ^ 0 ^ 0 == b ^ (a ^ t)
        &&& (c ^ 0) ^ (b ^ 0) ^ (a ^ t) ^ 0 == c ^ (b ^ (a ^ t))
        &&& (d ^ 0) ^ (c ^ 0) ^ (b ^ 0) ^ (a ^ t) == d ^ (c ^ (b ^ (a ^ t)))
    }) by (bit_vector);
}

/// The bytes of a block whose words were shifted down by three columns: the
/// last column, at the place of the first.
proof fn lemma_last_taken(a: Seq<u64>, r: Seq<u64>, p: int)
    requires
        0 <= p < 16,
        forall|j: int, q: int|
            0 <= j < 2 && 0 <= q < 64 ==> #[trigger] bit(r[j], q) == (q + 48 < 64 && bit(
                a[j],
                q + 48,
            )),
    ensures
        compact_byte(r, p) == if p < 4 {
            compact_byte(a, 12 + p)
        } else {
            0
        },
{
    if p < 4 {
        assert forall|j: int, k: int| 0 <= j < 2 && 0 <= k < 4 implies #[trigger] bit(
            r[j],
            4 * p + k,
        ) == bit(a[j], 4 * (12 + p) + k) by {
            assert(4 * p + k + 48 == 4 * (12 + p) + k);
        }
        lemma_compact_eq(r, p, a, 12 + p);
    } else {
        lemma_compact_zero(r, p);
    }
}

/// The bytes of a block whose columns were rotated by one row.
proof fn lemma_rotated(a: Seq<u64>, r: Seq<u64>, p: int)
    requires
        0 <= p < 16,
        forall|j: int, q: int|
            0 <= j < 2 && 0 <= q < 64 ==> #[trigger] bit(r[j], q) == bit(
                a[j],
                16 * (q / 16) + (q + 4) % 16,
            ),
    ensures
        compact_byte(r, p) == compact_byte(a, 4 * (p / 4) + (p + 1) % 4),
{
    let n = 4 * (p / 4) + (p + 1) % 4;
    assert forall|j: int, k: int| 0 <= j < 2 && 0 <= k < 4 implies #[trigger] bit(r[j], 4 * p + k)
        == bit(a[j], 4 * n + k) by {
        let q = 4 * p + k;
        assert(16 * (q / 16) + (q + 4) % 16 == 4 * n + k);
    }
    lemma_compact_eq(r, p, a, n);
}

/// The bytes of a block that has the constant `x` in its first byte.
proof fn lemma_constant(x: u8, r: Seq<u64>, p: int)
    requires
        0 <= p < 16,
        forall|j: int, q: int|
            0 <= j < 2 && 0 <= q < 64 ==> #[trigger] bit(r[j], q) == (q < 4 && bit8(x, 4 * j + q)),
    ensures
        compact_byte(r, p) == if p == 0 {
            x
        } else {
            0
        },
{
    if p == 0 {
        lemma_pack8_bits(x);
    } else {
        lemma_compact_zero(r, p);
    }
}

/// Replaces the round key `block` by the one that the key expansion derives
/// from it, with the constant `rcon` and the image `sub` of the round key
/// before the new one under the byte substitution, and returns it.
pub fn derive_round_key(
    block: &mut [Word; BLOCK_WORDS],
    sub: [Word; BLOCK_WORDS],
    rcon: u8,
) -> (r: [u32; 4])
    ensures
        compact_view(final(block)@) == chained(
            compact_view(old(block)@),
            xor_word(rot_word(column(compact_view(sub@), 3)), first_byte(rcon)),
        ),
        joined(r@) == final(block)@,
{
    // Incorporate `rcon` and the transformed word into the first word.
    let constant: [Word; BLOCK_WORDS] = [rcon_slice(rcon, 0), rcon_slice(rcon, 1)];
    let rotated: [Word; BLOCK_WORDS] = [rotate_rows_down(sub[0]), rotate_rows_down(sub[1])];
    let last: [Word; BLOCK_WORDS] = [shift_right::<12>(rotated[0]), shift_right::<12>(rotated[1])];
    let t: [Word; BLOCK_WORDS] = [last[0] ^ constant[0], last[1] ^ constant[1]];
    proof {
        assert forall|p: int| 0 <= p < 16 implies #[trigger] compact_byte(t@, p) == if p < 4 {
            xor_word(rot_word(column(compact_view(sub@), 3)), first_byte(rcon))[p]
        } else {
            0
        } by {
            lemma_compact_xor(last@, constant@, t@, p);
            lemma_constant(rcon, constant@, p);
            lemma_last_taken(rotated@, last@, p);
            if p < 4 {
                lemma_rotated(sub@, rotated@, 12 + p);
            }
            assert(0u8 ^ 0u8 == 0u8) by (bit_vector);
        }
        assert(column(compact_view(t@), 0) =~= xor_word(
            rot_word(column(compact_view(sub@), 3)),
            first_byte(rcon),
        ));
    }
    chain_columns(block, &t);
    split_words(block)
}

/// Sets `key` to the expansion of the key `bytes`.
pub fn set_encrypt_key(key: &mut AES_KEY, bytes: KeyBytes)
    ensures
        is_expansion(*final(key), bytes.bytes()),
        bytes matches KeyBytes::AES_128(b) ==> final(key).rounds == 10 && is_expansion(
            *final(key),
            b@,
        ),
        bytes matches KeyBytes::AES_256(b) ==> final(key).rounds == 14 && is_expansion(
            *final(key),
            b@,
        ),
        forall|n: int|
            final(key).rounds < n < 15 ==> #[trigger] final(key).rd_key@[n] == old(key).rd_key@[n],
{
    match bytes {
        KeyBytes::AES_128(bytes) => setup_key_128(key, bytes),
        KeyBytes::AES_256(bytes) => setup_key_256(key, bytes),
    }
}

/// The key itself is what the expansion starts with.
proof fn lemma_first_round_key(key: Seq<u8>, nk: nat, n: nat, block: Seq<u8>)
    requires
        4 * n + 4 <= nk,
        block.len() == 16,
        forall|i: int| 0 <= i < 16 ==> #[trigger] block[i] == key[16 * n + i],
    ensures
        block == expanded_round_key(key, nk, n),
{
    assert forall|i: int| 0 <= i < 16 implies block[i] == expanded_round_key(key, nk, n)[i] by {
        assert(4 * (4 * n + i / 4) + i % 4 == 16 * n + i);
    }
    assert(block =~= expanded_round_key(key, nk, n));
}

/// Substitution and rotation of a word can be exchanged, and the substitution
/// of a block taken column by column.
proof fn lemma_sub_columns(s: Seq<u8>)
    ensures
        column(sub_bytes(s), 3) == sub_word(column(s, 3)),
        rot_word(column(sub_bytes(s), 3)) == sub_word(rot_word(column(s, 3))),
{
    assert(column(sub_bytes(s), 3) =~= sub_word(column(s, 3)));
    assert(rot_word(column(sub_bytes(s), 3)) =~= sub_word(rot_word(column(s, 3))));
}

/// Sets `key` to the expansion of a key of sixteen bytes.
pub fn setup_key_128(key: &mut AES_KEY, input: &[u8; 16])
    ensures
        final(key).rounds == 10,
        forall|n: int|
            0 <= n <= 10 ==> #[trigger] final(key).round_key(n) == expanded_round_key(
                input@,
                4,
                n as nat,
            ),
        forall|n: int| 10 < n < 15 ==> #[trigger] final(key).rd_key@[n] == old(key).rd_key@[n],
{
    key.rounds = 10;

    let mut block = compact_block(input);
    key.rd_key[0] = split_words(&block);
    proof {
        lemma_first_round_key(input@, 4, 0, input@);
    }

    let mut i: usize = 1;
    while i <= 10
        invariant
            1 <= i <= 11,
            key.rounds == 10,
            compact_view(block@) == expanded_round_key(input@, 4, (i - 1) as nat),
            forall|n: int|
                0 <= n < i ==> #[trigger] key.round_key(n) == expanded_round_key(
                    input@,
                    4,
                    n as nat,
                ),
            forall|n: int| 10 < n < 15 ==> #[trigger] key.rd_key@[n] == old(key).rd_key@[n],
        decreases 11 - i,
    {
        let ghost before = *key;
        let sub = sub_block(&block);
        proof {
            lemma_rcon();
            lemma_sub_columns(compact_view(block@));
            lemma_step_128(input@, i as nat);
        }
        key.rd_key[i] = derive_round_key(&mut block, sub, RCON[i - 1]);
        proof {
            assert forall|n: int| 0 <= n < i implies #[trigger] key.round_key(n)
                == expanded_round_key(input@, 4, n as nat) by {
                assert(before.round_key(n) == expanded_round_key(input@, 4, n as nat));
            }
        }
        i = i + 1;
    }
}

/// The block of the sixteen bytes of `input` from `start` on.
fn block_at(input: &[u8; 32], start: usize) -> (r: [u8; 16])
    requires
        start <= 16,
    ensures
        forall|i: int| 0 <= i < 16 ==> #[trigger] r@[i] == input@[start + i],
{
    let mut r: [u8; 16] = [0; 16];
    let mut i: usize = 0;
    while i < 16
        invariant
            i <= 16,
            start <= 16,
            forall|k: int| 0 <= k < i ==> #[trigger] r@[k] == input@[start + k],
        decreases 16 - i,
    {
        r[i] = input[start + i];
        i = i + 1;
    }
    r
}

/// Sets `key` to the expansion of a key of thirty-two bytes.
pub fn setup_key_256(key: &mut AES_KEY, input: &[u8; 32])
    ensures
        final(key).rounds == 14,
        forall|n: int|
            0 <= n <= 14 ==> #[trigger] final(key).round_key(n) == expanded_round_key(
                input@,
                8,
                n as nat,
            ),
{
    key.rounds = 14;

    // Each step of the expansion produces two round keys.
    let first = block_at(input, 0);
    let mut block1 = compact_block(&first);
    key.rd_key[0] = split_words(&block1);
    let second = block_at(input, 16);
    let mut block2 = compact_block(&second);
    key.rd_key[1] = split_words(&block2);
    proof {
        lemma_first_round_key(input@, 8, 0, first@);
        lemma_first_round_key(input@, 8, 1, second@);
    }

    let mut j: usize = 1;
    while j <= 7
        invariant
            1 <= j <= 8,
            key.rounds == 14,
            j <= 7 ==> compact_view(block1@) == expanded_round_key(input@, 8, (2 * j - 2) as nat),
            j <= 7 ==> compact_view(block2@) == expanded_round_key(input@, 8, (2 * j - 1) as nat),
            forall|n: int|
                0 <= n < 2 * j && n < 15 ==> #[trigger] key.round_key(n) == expanded_round_key(
                    input@,
                    8,
                    n as nat,
                ),
        decreases 8 - j,
    {
        let ghost before = *key;
        let sub = sub_block(&block2);
        proof {
            lemma_rcon();
            lemma_sub_columns(compact_view(block2@));
            lemma_step_256_even(input@, j as nat);
        }
        key.rd_key[2 * j] = derive_round_key(&mut block1, sub, RCON[j - 1]);

        if j < 7 {
            let sub = sub_block(&block1);
            // Incorporate the transformed word into the first word.
            let last: [Word; BLOCK_WORDS] = [shift_right::<12>(sub[0]), shift_right::<12>(sub[1])];
            proof {
                assert forall|p: int| 0 <= p < 16 implies #[trigger] compact_byte(last@, p) == if p
                    < 4 {
                    column(compact_view(sub@), 3)[p]
                } else {
                    0
                } by {
                    lemma_last_taken(sub@, last@, p);
                }
                assert(column(compact_view(last@), 0) =~= column(compact_view(sub@), 3));
                lemma_sub_columns(compact_view(block1@));
                lemma_step_256_odd(input@, j as nat);
            }
            // Propagate to the remaining words.
            chain_columns(&mut block2, &last);
            key.rd_key[2 * j + 1] = split_words(&block2);
        }
        proof {
            assert forall|n: int| 0 <= n < 2 * j + 2 && n < 15 implies #[trigger] key.round_key(n)
                == expanded_round_key(input@, 8, n as nat) by {
                if n < 2 * j {
                    assert(before.round_key(n) == expanded_round_key(input@, 8, n as nat));
                }
            }
        }
        j = j + 1;
    }
}

} // verus!

//! What holds of the library as a whole.
use vstd::prelude::*;
use crate::batch::{zero_block, Batch};
use crate::bits::{bit, bit8, lemma_bits_eq, slice_byte};
use crate::block::{compact_byte, compact_view};
use crate::cipher::{cipher, full_rounds};
use crate::ctr::{counter_value, encrypted_within, key_stream, lemma_with_counter, with_counter};
use crate::expansion::{
    aes_encrypt, expanded_key, law_key_rounds, law_round_keys_128, law_round_keys_256,
};
use crate::key::{is_expansion, AES_KEY};
use crate::inverse::{decipher, law_decipher, lemma_xor_twice};
use crate::meaning::{lemma_compact_bits, lemma_slice_bits};
use crate::sbox::sub_byte;
use crate::word::bits_swapped;

verus! {

/// Encryption loses nothing: with the same round keys, different blocks are
/// encrypted to different blocks.
pub proof fn law_cipher_injective(s: Seq<u8>, t: Seq<u8>, keys: Seq<Seq<u8>>, rounds: nat)
    requires
        s.len() == 16,
        t.len() == 16,
        cipher(s, keys, rounds) == cipher(t, keys, rounds),
    ensures
        s == t,
{
    law_decipher(s, keys, rounds);
    law_decipher(t, keys, rounds);
}

proof fn lemma_full_rounds_prefix(s: Seq<u8>, k1: Seq<Seq<u8>>, k2: Seq<Seq<u8>>, n: nat)
    requires
        forall|i: int| 0 <= i <= n ==> #[trigger] k1[i] == k2[i],
    ensures
        full_rounds(s, k1, n) == full_rounds(s, k2, n),
    decreases n,
{
    if n > 0 {
        lemma_full_rounds_prefix(s, k1, k2, (n - 1) as nat);
    }
}

/// A key that was set with `set_encrypt_key` encrypts as AES does: what
/// `encrypt_block` computes with it is the AES encryption under the key bytes.
pub proof fn law_expanded_key_encrypts(key: AES_KEY, bytes: Seq<u8>, block: Seq<u8>)
    requires
        is_expansion(key, bytes),
        bytes.len() == 16 || bytes.len() == 32,
    ensures
        key.rounds_valid(),
        cipher(block, key.round_keys(), key.rounds as nat) == aes_encrypt(bytes, block),
{
    let k1 = key.round_keys();
    let k2 = expanded_key(bytes);
    assert forall|i: int| 0 <= i <= key.rounds implies #[trigger] k1[i] == k2[i] by {
        assert(k1[i] == key.round_key(i));
    }
    lemma_full_rounds_prefix(block, k1, k2, (key.rounds - 1) as nat);
}

/// What `set_encrypt_key` makes of a key of sixteen bytes, on the round keys that
/// result: ten rounds; round key 0 is the key; the first column of a later round
/// key is the first column of the one before, plus the last column of the one
/// before, rotated and substituted, plus the constant of the step; every other
/// column is the column at its place in the one before, plus the column before it.
pub proof fn law_set_key_128(key: AES_KEY, bytes: Seq<u8>, n: int, i: int)
    requires
        is_expansion(key, bytes),
        bytes.len() == 16,
        0 <= n <= 10,
        0 <= i < 16,
    ensures
        key.rounds == 10,
        key.round_key(n).len() == 16,
        n == 0 ==> key.round_key(n)[i] == bytes[i],
        n >= 1 && i < 4 ==> key.round_key(n)[i] == key.round_key(n - 1)[i] ^ (sub_byte(
            key.round_key(n - 1)[12 + (i + 1) % 4],
        ) ^ if i == 0 {
            seq![0x01u8, 0x02, 0x04, 0x08, 0x10, 0x20, 0x40, 0x80, 0x1b, 0x36][n - 1]
        } else {
            0
        }),
        n >= 1 && i >= 4 ==> key.round_key(n)[i] == key.round_key(n - 1)[i] ^ key.round_key(n)[i
            - 4],
{
    law_key_rounds(bytes);
    law_round_keys_128(bytes, n, i);
    assert(key.round_key(n) == expanded_key(bytes)[n]);
    if n >= 1 {
        assert(key.round_key(n - 1) == expanded_key(bytes)[n - 1]);
    }
}

/// What `set_encrypt_key` makes of a key of thirty-two bytes, on the round keys
/// that result: fourteen rounds; round keys 0 and 1 are the key; the columns of a
/// later round key are sums with those of the round key two before, its first
/// column being changed by the last column of the one before, substituted, and,
/// if its number is even, rotated and changed by the constant of the step.
pub proof fn law_set_key_256(key: AES_KEY, bytes: Seq<u8>, n: int, i: int)
    requires
        is_expansion(key, bytes),
        bytes.len() == 32,
        0 <= n <= 14,
        0 <= i < 16,
    ensures
        key.rounds == 14,
        key.round_key(n).len() == 16,
        n == 0 ==> key.round_key(n)[i] == bytes[i],
        n == 1 ==> key.round_key(n)[i] == bytes[16 + i],
        n >= 2 && n % 2 == 0 && i < 4 ==> key.round_key(n)[i] == key.round_key(n - 2)[i] ^ (
        sub_byte(key.round_key(n - 1)[12 + (i + 1) % 4]) ^ if i == 0 {
            seq![0x01u8, 0x02, 0x04, 0x08, 0x10, 0x20, 0x40, 0x80, 0x1b, 0x36][n / 2 - 1]
        } else {
            0
        }),
        n >= 2 && n % 2 == 1 && i < 4 ==> key.round_key(n)[i] == key.round_key(n - 2)[i]
            ^ sub_byte(key.round_key(n - 1)[12 + i]),
        n >= 2 && i >= 4 ==> key.round_key(n)[i] == key.round_key(n - 2)[i] ^ key.round_key(n)[i
            - 4],
{
    law_key_rounds(bytes);
    law_round_keys_256(bytes, n, i);
    assert(key.round_key(n) == expanded_key(bytes)[n]);
    if n >= 1 {
        assert(key.round_key(n - 1) == expanded_key(bytes)[n - 1]);
    }
    if n >= 2 {
        assert(key.round_key(n - 2) == expanded_key(bytes)[n - 2]);
    }
}

/// Replacing the number of a counter block keeps each of the first twelve bytes
/// and makes the last four the number, the most significant byte first.
pub proof fn law_counter_block(iv: Seq<u8>, n: int, i: int)
    requires
        iv.len() == 16,
        0 <= n <= u32::MAX,
        0 <= i < 12,
    ensures
        counter_value(iv) == iv[12] * 0x100_0000 + iv[13] * 0x1_0000 + iv[14] * 0x100 + iv[15],
        with_counter(iv, n).len() == 16,
        with_counter(iv, n)[i] == iv[i],
        with_counter(iv, n)[12] * 0x100_0000 + with_counter(iv, n)[13] * 0x1_0000 + with_counter(
            iv,
            n,
        )[14] * 0x100 + with_counter(iv, n)[15] == n,
{
    lemma_with_counter(iv, n);
}

/// Byte `j` of block `n` of the key stream is byte `j` of the encryption of the
/// counter block `block`, which is the one that has the first twelve bytes of the
/// first counter block, and for a number `n` more than it.
pub proof fn law_key_stream(
    keys: Seq<Seq<u8>>,
    rounds: nat,
    iv: Seq<u8>,
    block: Seq<u8>,
    n: int,
    j: int,
)
    requires
        iv.len() == 16,
        block.len() == 16,
        forall|i: int| 0 <= i < 12 ==> #[trigger] block[i] == iv[i],
        block[12] * 0x100_0000 + block[13] * 0x1_0000 + block[14] * 0x100 + block[15] == iv[12]
            * 0x100_0000 + iv[13] * 0x1_0000 + iv[14] * 0x100 + iv[15] + n,
        0 <= n,
        0 <= j < 16,
    ensures
        key_stream(keys, rounds, iv, 16 * n + j) == cipher(block, keys, rounds)[j],
{
    let v = counter_value(block);
    lemma_with_counter(block, v);
    assert(with_counter(iv, v) =~= with_counter(block, v));
    assert((16 * n + j) / 16 == n && (16 * n + j) % 16 == j);
}

/// Counter mode, byte by byte, on the buffer before and after it: at byte `j` of
/// block `n` the buffers, `src` bytes apart, differ by byte `j` of the encryption
/// of the counter block `block`, whose number is `n` more than that of `iv`.
/// Behind the blocks nothing changes.
pub proof fn law_ctr_blocks(
    before: Seq<u8>,
    after: Seq<u8>,
    src: int,
    keys: Seq<Seq<u8>>,
    rounds: nat,
    iv: Seq<u8>,
    block: Seq<u8>,
    n: int,
    j: int,
)
    requires
        0 <= src <= before.len(),
        after == encrypted_within(before, src, keys, rounds, iv),
        iv.len() == 16,
        block.len() == 16,
        forall|i: int| 0 <= i < 12 ==> #[trigger] block[i] == iv[i],
        block[12] * 0x100_0000 + block[13] * 0x1_0000 + block[14] * 0x100 + block[15] == iv[12]
            * 0x100_0000 + iv[13] * 0x1_0000 + iv[14] * 0x100 + iv[15] + n,
        0 <= n,
        0 <= j < 16,
        16 * n + j < before.len() - src,
    ensures
        after.len() == before.len(),
        after[16 * n + j] == before[src + 16 * n + j] ^ cipher(block, keys, rounds)[j],
        after[16 * n + j] ^ before[src + 16 * n + j] == cipher(block, keys, rounds)[j],
        forall|i: int|
            before.len() - src <= i < before.len() ==> #[trigger] after[i] == before[i],
{
    law_key_stream(keys, rounds, iv, block, n, j);
    lemma_xor_difference(before[src + 16 * n + j], cipher(block, keys, rounds)[j]);
}

proof fn lemma_xor_difference(a: u8, c: u8)
    ensures
        (a ^ c) ^ a == c,
{
    assert((a ^ c) ^ a == c) by (bit_vector);
}

/// Counter mode with a key that was set with `set_encrypt_key`, on the buffer
/// before and after it: at every place the buffers differ by the AES encryption of
/// the counter block for that place.
pub proof fn law_ctr_blocks_aes(
    key: AES_KEY,
    bytes: Seq<u8>,
    before: Seq<u8>,
    after: Seq<u8>,
    src: int,
    iv: Seq<u8>,
    block: Seq<u8>,
    n: int,
    j: int,
)
    requires
        is_expansion(key, bytes),
        bytes.len() == 16 || bytes.len() == 32,
        0 <= src <= before.len(),
        after == encrypted_within(before, src, key.round_keys(), key.rounds as nat, iv),
        iv.len() == 16,
        block.len() == 16,
        forall|i: int| 0 <= i < 12 ==> #[trigger] block[i] == iv[i],
        block[12] * 0x100_0000 + block[13] * 0x1_0000 + block[14] * 0x100 + block[15] == iv[12]
            * 0x100_0000 + iv[13] * 0x1_0000 + iv[14] * 0x100 + iv[15] + n,
        0 <= n,
        0 <= j < 16,
        16 * n + j < before.len() - src,
    ensures
        after[16 * n + j] == before[src + 16 * n + j] ^ aes_encrypt(bytes, block)[j],
{
    law_expanded_key_encrypts(key, bytes, block);
    law_ctr_blocks(
        before,
        after,
        src,
        key.round_keys(),
        key.rounds as nat,
        iv,
        block,
        n,
        j,
    );
}

/// Undoing an encryption with a key that was set with `set_encrypt_key`, step by
/// step and with the round keys that it has, gives the block back.
pub proof fn law_set_key_deciphers(key: AES_KEY, bytes: Seq<u8>, block: Seq<u8>)
    requires
        is_expansion(key, bytes),
        bytes.len() == 16 || bytes.len() == 32,
        block.len() == 16,
    ensures
        decipher(aes_encrypt(bytes, block), key.round_keys(), key.rounds as nat) == block,
{
    law_expanded_key_encrypts(key, bytes, block);
    law_decipher(block, key.round_keys(), key.rounds as nat);
}

/// Counter mode with a key that was set with `set_encrypt_key` is AES in
/// counter mode: the key stream is made of the AES encryptions of the counter
/// blocks.
pub proof fn law_key_stream_is_aes(key: AES_KEY, bytes: Seq<u8>, iv: Seq<u8>, i: int)
    requires
        is_expansion(key, bytes),
        bytes.len() == 16 || bytes.len() == 32,
    ensures
        key_stream(key.round_keys(), key.rounds as nat, iv, i) == aes_encrypt(
            bytes,
            with_counter(iv, counter_value(iv) + i / 16),
        )[i % 16],
{
    law_expanded_key_encrypts(key, bytes, with_counter(iv, counter_value(iv) + i / 16));
}

/// Counter mode undoes itself: what was encrypted is restored by encrypting it
/// once more, from the same counter block on.
pub proof fn law_ctr_restores(
    s: Seq<u8>,
    src: int,
    keys: Seq<Seq<u8>>,
    rounds: nat,
    iv: Seq<u8>,
)
    requires
        0 <= src <= s.len(),
    ensures
        ({
            let encrypted = encrypted_within(s, src, keys, rounds, iv).take(s.len() - src);
            encrypted_within(encrypted, 0, keys, rounds, iv) == s.skip(src)
        }),
{
    let encrypted = encrypted_within(s, src, keys, rounds, iv).take(s.len() - src);
    let restored = encrypted_within(encrypted, 0, keys, rounds, iv);
    assert forall|i: int| 0 <= i < s.len() - src implies restored[i] == s.skip(src)[i] by {
        lemma_xor_twice(s[src + i], key_stream(keys, rounds, iv, i));
    }
    assert(restored =~= s.skip(src));
}

/// The key stream from a later counter block on is the rest of the key stream.
proof fn lemma_key_stream_continues(
    keys: Seq<Seq<u8>>,
    rounds: nat,
    iv: Seq<u8>,
    n: int,
    i: int,
)
    requires
        iv.len() == 16,
        0 <= n,
        0 <= i,
        counter_value(iv) + n <= u32::MAX,
    ensures
        key_stream(keys, rounds, with_counter(iv, counter_value(iv) + n), i) == key_stream(
            keys,
            rounds,
            iv,
            16 * n + i,
        ),
{
    let v = counter_value(iv);
    lemma_with_counter(iv, v + n);
    let later = with_counter(iv, v + n);
    let m = v + n + i / 16;
    assert(with_counter(later, m) =~= with_counter(iv, m));
    assert((16 * n + i) / 16 == n + i / 16);
    assert((16 * n + i) % 16 == i % 16);
}

/// Two calls in counter mode, one after the other, do what one call on both
/// texts together does: the counter that the first leaves continues the key
/// stream, and the second leaves the counter that the one call leaves.
pub proof fn law_ctr_continues(
    a: Seq<u8>,
    b: Seq<u8>,
    keys: Seq<Seq<u8>>,
    rounds: nat,
    iv: Seq<u8>,
)
    requires
        iv.len() == 16,
        a.len() % 16 == 0,
        b.len() % 16 == 0,
        counter_value(iv) + (a.len() + b.len()) / 16 <= u32::MAX,
    ensures
        ({
            let next = with_counter(iv, counter_value(iv) + a.len() / 16);
            &&& encrypted_within(a + b, 0, keys, rounds, iv) == encrypted_within(
                a,
                0,
                keys,
                rounds,
                iv,
            ) + encrypted_within(b, 0, keys, rounds, next)
            &&& with_counter(next, counter_value(next) + b.len() / 16) == with_counter(
                iv,
                counter_value(iv) + (a + b).len() / 16,
            )
        }),
{
    let n = (a.len() / 16) as int;
    let v = counter_value(iv);
    let next = with_counter(iv, v + n);
    lemma_with_counter(iv, v + n);
    let whole = encrypted_within(a + b, 0, keys, rounds, iv);
    let first = encrypted_within(a, 0, keys, rounds, iv);
    let second = encrypted_within(b, 0, keys, rounds, next);
    assert forall|i: int| 0 <= i < a.len() + b.len() implies #[trigger] whole[i] == (first
        + second)[i] by {
        if i >= a.len() {
            lemma_key_stream_continues(keys, rounds, iv, n, i - a.len());
        }
    }
    assert(whole =~= first + second);
    assert((a + b).len() / 16 == n + b.len() / 16);
    assert(with_counter(next, v + n + b.len() / 16) =~= with_counter(iv, v + n + b.len() / 16));
}

/// A block has one compact form only. So `compact_block` undoes
/// `uncompact_block`, as `uncompact_block` undoes `compact_block`.
pub proof fn law_compact_form_unique(v: Seq<u64>, w: Seq<u64>)
    requires
        v.len() == 2,
        w.len() == 2,
        compact_view(v) == compact_view(w),
    ensures
        v == w,
{
    assert forall|i: int| 0 <= i < 64 implies bit(v[0], i) == bit(w[0], i) && bit(v[1], i) == bit(
        w[1],
        i,
    ) by {
        let p = i / 4;
        let k = i % 4;
        assert(compact_view(v)[p] == compact_byte(v, p));
        assert(compact_view(w)[p] == compact_byte(w, p));
        lemma_compact_bits(v, p, k);
        lemma_compact_bits(w, p, k);
    }
    lemma_bits_eq(v[0], w[0]);
    lemma_bits_eq(v[1], w[1]);
    assert(v =~= w);
}

/// The blocks of a batch in compact form determine its words.
pub proof fn law_compact_blocks_unique(x: Batch, y: Batch)
    requires
        x.compact_blocks() == y.compact_blocks(),
    ensures
        x.w@ == y.w@,
{
    assert forall|k: int| 0 <= k < 8 implies x.w@[k] == y.w@[k] by {
        let b = k % 4;
        let v = seq![x.w@[b], x.w@[b + 4]];
        let w = seq![y.w@[b], y.w@[b + 4]];
        assert(x.compact_blocks()[b] == compact_view(v));
        assert(y.compact_blocks()[b] == compact_view(w));
        law_compact_form_unique(v, w);
        assert(v[0] == w[0] && v[1] == w[1]);
    }
    assert(x.w@ =~= y.w@);
}

/// The blocks of a batch in bitsliced form determine its words.
pub proof fn law_blocks_unique(x: Batch, y: Batch)
    requires
        x.blocks() == y.blocks(),
    ensures
        x.w@ == y.w@,
{
    assert forall|k: int, q: int| 0 <= k < 8 && 0 <= q < 64 implies #[trigger] bit(x.w@[k], q)
        == bit(y.w@[k], q) by {
        let p = q / 4;
        let b = q % 4;
        assert(x.blocks()[b][p] == slice_byte(x.w@, q));
        assert(y.blocks()[b][p] == slice_byte(y.w@, q));
        lemma_slice_bits(x.w@, q, k);
        lemma_slice_bits(y.w@, q, k);
    }
    assert forall|k: int| 0 <= k < 8 implies x.w@[k] == y.w@[k] by {
        lemma_bits_eq(x.w@[k], y.w@[k]);
    }
    assert(x.w@ =~= y.w@);
}

/// `Batch::transpose` converts to bitsliced form and back: of batches of which
/// each is the transposed batch before it, the third is the first.
pub proof fn law_transpose_twice(x: Batch, y: Batch, z: Batch)
    requires
        y.blocks() == x.compact_blocks(),
        y.compact_blocks() == x.blocks(),
        z.blocks() == y.compact_blocks(),
        z.compact_blocks() == y.blocks(),
    ensures
        z.w@ == x.w@,
{
    law_blocks_unique(x, z);
}

/// `Batch::into_bytes` gives back what `Batch::from_bytes` was given.
pub proof fn law_bytes_restored(input: Seq<[u8; 16]>, batch: Batch, out: Seq<[u8; 16]>)
    requires
        input.len() <= 4,
        batch.blocks() == Seq::new(
            4,
            |b: int|
                if b < input.len() {
                    input[b]@
                } else {
                    zero_block()
                },
        ),
        out.len() == input.len(),
        forall|b: int| 0 <= b < out.len() ==> #[trigger] out[b]@ == batch.blocks()[b],
    ensures
        out == input,
{
    assert forall|b: int| 0 <= b < input.len() implies out[b] == input[b] by {
        assert(out[b]@ == input[b]@);
        assert(out[b] =~= input[b]);
    }
    assert(out =~= input);
}

/// Swapping the same bits of two words once more restores both, if the mask
/// has no bit that the shift moves out of the word.
pub proof fn law_swap_twice(
    a0: u64,
    b0: u64,
    a1: u64,
    b1: u64,
    a2: u64,
    b2: u64,
    mask: u8,
    shift: int,
)
    requires
        0 <= shift < 64,
        forall|i: int| 64 - shift <= i < 64 ==> !#[trigger] bit8(mask, i % 8),
        bits_swapped(a0, b0, a1, b1, mask, shift),
        bits_swapped(a1, b1, a2, b2, mask, shift),
    ensures
        a2 == a0,
        b2 == b0,
{
    assert forall|i: int| 0 <= i < 64 implies #[trigger] bit(a2, i) == bit(a0, i) by {
        if shift <= i && bit8(mask, (i - shift) % 8) {
            assert(bit(b1, i - shift) == bit(a0, i));
        }
    }
    assert forall|i: int| 0 <= i < 64 implies #[trigger] bit(b2, i) == bit(b0, i) by {
        if bit8(mask, i % 8) {
            assert(i < 64 - shift);
            assert(bit(a1, i + shift) == bit(b0, i));
        }
    }
    lemma_bits_eq(a2, a0);
    lemma_bits_eq(b2, b0);
}

} // verus!

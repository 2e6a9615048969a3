//! The AES key expansion on bytes: the round keys that a key stands for.
//!
//! A word is a sequence of four bytes, a column of the state.
use vstd::prelude::*;
use crate::cipher::cipher;
use crate::field::xtime;
use crate::sbox::sub_byte;

verus! {

/// The sum of two words.
pub open spec fn xor_word(a: Seq<u8>, b: Seq<u8>) -> Seq<u8> {
    Seq::new(4, |r: int| a[r] ^ b[r])
}

/// The word with its first byte moved to the end.
pub open spec fn rot_word(a: Seq<u8>) -> Seq<u8> {
    Seq::new(4, |r: int| a[(r + 1) % 4])
}

/// The byte substitution on every byte of the word.
pub open spec fn sub_word(a: Seq<u8>) -> Seq<u8> {
    Seq::new(4, |r: int| sub_byte(a[r]))
}

/// The constant of step `i`, counted from one: the power `i - 1` of `x`.
pub open spec fn rcon(i: nat) -> u8
    decreases i,
{
    if i <= 1 {
        1
    } else {
        xtime(rcon((i - 1) as nat))
    }
}

/// The word that starts with the byte `x` and is zero otherwise.
pub open spec fn first_byte(x: u8) -> Seq<u8> {
    Seq::new(
        4,
        |r: int|
            if r == 0 {
                x
            } else {
                0
            },
    )
}

/// Word `i` of the expansion of a key of `nk` words.
pub open spec fn expanded_word(key: Seq<u8>, nk: nat, i: nat) -> Seq<u8>
    recommends
        nk > 0,
        key.len() == 4 * nk,
    decreases i,
{
    if i < nk || nk == 0 {
        Seq::new(4, |r: int| key[4 * i + r])
    } else {
        let last = expanded_word(key, nk, (i - 1) as nat);
        let change = if i % nk == 0 {
            xor_word(sub_word(rot_word(last)), first_byte(rcon(i / nk)))
        } else if nk > 6 && i % nk == 4 {
            sub_word(last)
        } else {
            last
        };
        xor_word(expanded_word(key, nk, (i - nk) as nat), change)
    }
}

/// Round key `n` of the expansion of a key of `nk` words: the next four words.
pub open spec fn expanded_round_key(key: Seq<u8>, nk: nat, n: nat) -> Seq<u8> {
    Seq::new(16, |i: int| expanded_word(key, nk, (4 * n + i / 4) as nat)[i % 4])
}

/// The round keys that the key stands for: seven more than it has words.
pub open spec fn expanded_key(key: Seq<u8>) -> Seq<Seq<u8>> {
    Seq::new(key.len() / 4 + 7, |n: int| expanded_round_key(key, key.len() / 4, n as nat))
}

/// The number of rounds that are made with a key.
pub open spec fn key_rounds(key: Seq<u8>) -> nat {
    key.len() / 4 + 6
}

/// The AES block cipher: encrypts `block` with `key`.
pub open spec fn aes_encrypt(key: Seq<u8>, block: Seq<u8>) -> Seq<u8> {
    cipher(block, expanded_key(key), key_rounds(key))
}

/// Column `c` of a block.
pub open spec fn column(s: Seq<u8>, c: int) -> Seq<u8> {
    Seq::new(4, |r: int| s[4 * c + r])
}

/// Column `c` of the block in which every column is the sum of the column of
/// `prev` at its place and the column before it, the first being added to `t`.
pub open spec fn chained_column(prev: Seq<u8>, t: Seq<u8>, c: nat) -> Seq<u8>
    decreases c,
{
    xor_word(
        column(prev, c as int),
        if c == 0 {
            t
        } else {
            chained_column(prev, t, (c - 1) as nat)
        },
    )
}

/// The block of the columns of `chained_column`: four steps of the expansion,
/// `t` being what changes the first of them.
pub open spec fn chained(prev: Seq<u8>, t: Seq<u8>) -> Seq<u8> {
    Seq::new(16, |i: int| chained_column(prev, t, (i / 4) as nat)[i % 4])
}

/// The four words from word `4 * n` on are chained to the four words that
/// stand `nk` words before.
proof fn lemma_chained(key: Seq<u8>, nk: nat, n: nat, m: nat, t: Seq<u8>)
    requires
        nk == 4 || nk == 8,
        4 * n == 4 * m + nk,
        t == (if (4 * n) % nk == 0 {
            xor_word(
                sub_word(rot_word(expanded_word(key, nk, (4 * n - 1) as nat))),
                first_byte(rcon(4 * n / nk)),
            )
        } else {
            sub_word(expanded_word(key, nk, (4 * n - 1) as nat))
        }),
        (4 * n) % nk == 0 || (nk == 8 && (4 * n) % 8 == 4),
    ensures
        chained(expanded_round_key(key, nk, m), t) == expanded_round_key(key, nk, n),
{
    let prev = expanded_round_key(key, nk, m);
    assert forall|c: int| 0 <= c < 4 implies #[trigger] column(prev, c) == expanded_word(
        key,
        nk,
        (4 * m + c) as nat,
    ) by {
        assert(expanded_word(key, nk, (4 * m + c) as nat).len() == 4);
        assert(column(prev, c) =~= expanded_word(key, nk, (4 * m + c) as nat));
    }
    let w = 4 * n;
    assert(chained_column(prev, t, 0) == expanded_word(key, nk, w));
    assert((w + 1) % nk != 0 && (w + 2) % nk != 0 && (w + 3) % nk != 0);
    assert((w + 1) % nk != 4 && (w + 2) % nk != 4 && (w + 3) % nk != 4);
    assert(column(prev, 1) == expanded_word(key, nk, (w + 1 - nk) as nat));
    assert(chained_column(prev, t, 1) == expanded_word(key, nk, w + 1));
    assert(column(prev, 2) == expanded_word(key, nk, (w + 2 - nk) as nat));
    assert(chained_column(prev, t, 2) == expanded_word(key, nk, w + 2));
    assert(column(prev, 3) == expanded_word(key, nk, (w + 3 - nk) as nat));
    assert(chained_column(prev, t, 3) == expanded_word(key, nk, w + 3));
    assert(chained(prev, t) =~= expanded_round_key(key, nk, n)) by {
        assert forall|i: int| 0 <= i < 16 implies chained(prev, t)[i] == expanded_round_key(
            key,
            nk,
            n,
        )[i] by {
            assert(i / 4 == 0 || i / 4 == 1 || i / 4 == 2 || i / 4 == 3);
        }
    }
}

/// The last column of a round key is the word before the next round key.
proof fn lemma_last_column(key: Seq<u8>, nk: nat, n: nat)
    ensures
        column(expanded_round_key(key, nk, n), 3) == expanded_word(key, nk, 4 * n + 3),
{
    assert(expanded_word(key, nk, 4 * n + 3).len() == 4);
    assert(column(expanded_round_key(key, nk, n), 3) =~= expanded_word(key, nk, 4 * n + 3));
}

/// A step of the expansion of a key of four words.
pub proof fn lemma_step_128(key: Seq<u8>, n: nat)
    requires
        n >= 1,
    ensures
        expanded_round_key(key, 4, n) == ({
            let prev = expanded_round_key(key, 4, (n - 1) as nat);
            chained(prev, xor_word(sub_word(rot_word(column(prev, 3))), first_byte(rcon(n))))
        }),
{
    lemma_last_column(key, 4, (n - 1) as nat);
    let t = xor_word(
        sub_word(rot_word(expanded_word(key, 4, (4 * n - 1) as nat))),
        first_byte(rcon(n)),
    );
    assert(4 * n / 4 == n);
    lemma_chained(key, 4, n, (n - 1) as nat, t);
}

/// A step of the expansion of a key of eight words, to a round key with an
/// even number.
pub proof fn lemma_step_256_even(key: Seq<u8>, j: nat)
    requires
        j >= 1,
    ensures
        expanded_round_key(key, 8, 2 * j) == chained(
            expanded_round_key(key, 8, (2 * j - 2) as nat),
            xor_word(
                sub_word(rot_word(column(expanded_round_key(key, 8, (2 * j - 1) as nat), 3))),
                first_byte(rcon(j)),
            ),
        ),
{
    lemma_last_column(key, 8, (2 * j - 1) as nat);
    let t = xor_word(
        sub_word(rot_word(expanded_word(key, 8, (8 * j - 1) as nat))),
        first_byte(rcon(j)),
    );
    assert(4 * (2 * j) / 8 == j);
    lemma_chained(key, 8, 2 * j, (2 * j - 2) as nat, t);
}

/// A step of the expansion of a key of eight words, to a round key with an odd
/// number.
pub proof fn lemma_step_256_odd(key: Seq<u8>, j: nat)
    requires
        j >= 1,
    ensures
        expanded_round_key(key, 8, 2 * j + 1) == chained(
            expanded_round_key(key, 8, (2 * j - 1) as nat),
            sub_word(column(expanded_round_key(key, 8, 2 * j), 3)),
        ),
{
    lemma_last_column(key, 8, 2 * j);
    let t = sub_word(expanded_word(key, 8, (8 * j + 3) as nat));
    lemma_chained(key, 8, 2 * j + 1, (2 * j - 1) as nat, t);
}

/// The constants of the steps that the key expansions make.
pub proof fn law_rcon(n: int)
    requires
        1 <= n <= 10,
    ensures
        rcon(n as nat) == seq![0x01u8, 0x02, 0x04, 0x08, 0x10, 0x20, 0x40, 0x80, 0x1b, 0x36][n - 1],
{
    assert({
        &&& xtime(0x01) == 0x02
        &&& xtime(0x02) == 0x04
        &&& xtime(0x04) == 0x08
        &&& xtime(0x08) == 0x10
        &&& xtime(0x10) == 0x20
        &&& xtime(0x20) == 0x40
        &&& xtime(0x40) == 0x80
        &&& xtime(0x80) == 0x1b
        &&& xtime(0x1b) == 0x36
    }) by (bit_vector);
    assert(rcon(1) == 0x01);
    assert(rcon(2) == 0x02);
    assert(rcon(3) == 0x04);
    assert(rcon(4) == 0x08);
    assert(rcon(5) == 0x10);
    assert(rcon(6) == 0x20);
    assert(rcon(7) == 0x40);
    assert(rcon(8) == 0x80);
    assert(rcon(9) == 0x1b);
    assert(rcon(10) == 0x36);
}

/// The bytes of a chained block: those of the first column are added to `t`,
/// the others to the byte of the column before.
pub proof fn law_chained(prev: Seq<u8>, t: Seq<u8>, i: int)
    requires
        0 <= i < 16,
    ensures
        chained(prev, t).len() == 16,
        chained(prev, t)[i] == prev[i] ^ if i < 4 {
            t[i]
        } else {
            chained(prev, t)[i - 4]
        },
{
    if i >= 4 {
        assert((i - 4) / 4 == i / 4 - 1);
    }
}

/// The round keys of a key of sixteen bytes, byte by byte. Round key 0 is the
/// key. The first column of a later one is the sum of the first column of the
/// round key before it, of the last column of that, rotated and substituted, and
/// of the constant of the step; every other column is the sum of the column at
/// its place in the round key before and of the column before it.
pub proof fn law_round_keys_128(key: Seq<u8>, n: int, i: int)
    requires
        key.len() == 16,
        0 <= n <= 10,
        0 <= i < 16,
    ensures
        expanded_key(key).len() == 11,
        expanded_key(key)[n].len() == 16,
        expanded_round_key(key, 4, n as nat) == expanded_key(key)[n],
        n == 0 ==> expanded_key(key)[n][i] == key[i],
        n >= 1 && i < 4 ==> expanded_key(key)[n][i] == expanded_key(key)[n - 1][i] ^ (sub_byte(
            expanded_key(key)[n - 1][12 + (i + 1) % 4],
        ) ^ if i == 0 {
            seq![0x01u8, 0x02, 0x04, 0x08, 0x10, 0x20, 0x40, 0x80, 0x1b, 0x36][n - 1]
        } else {
            0
        }),
        n >= 1 && i >= 4 ==> expanded_key(key)[n][i] == expanded_key(key)[n - 1][i]
            ^ expanded_key(key)[n][i - 4],
{
    if n == 0 {
        assert(4 * (i / 4) + i % 4 == i);
    } else {
        let prev = expanded_round_key(key, 4, (n - 1) as nat);
        let t = xor_word(sub_word(rot_word(column(prev, 3))), first_byte(rcon(n as nat)));
        lemma_step_128(key, n as nat);
        law_rcon(n);
        law_chained(prev, t, i);
    }
}

/// The round keys of a key of thirty-two bytes, byte by byte. Round keys 0 and 1
/// are the key. The columns of a later one are sums with the columns of the round
/// key two before it, as with a shorter key. The first column of one with an even
/// number is changed by the last column of the round key before it, rotated and
/// substituted, and by the constant of the step; the first column of one with an
/// odd number by that column, only substituted.
pub proof fn law_round_keys_256(key: Seq<u8>, n: int, i: int)
    requires
        key.len() == 32,
        0 <= n <= 14,
        0 <= i < 16,
    ensures
        expanded_key(key).len() == 15,
        expanded_key(key)[n].len() == 16,
        expanded_round_key(key, 8, n as nat) == expanded_key(key)[n],
        n == 0 ==> expanded_key(key)[n][i] == key[i],
        n == 1 ==> expanded_key(key)[n][i] == key[16 + i],
        n >= 2 && n % 2 == 0 && i < 4 ==> expanded_key(key)[n][i] == expanded_key(key)[n - 2][i]
            ^ (sub_byte(expanded_key(key)[n - 1][12 + (i + 1) % 4]) ^ if i == 0 {
            seq![0x01u8, 0x02, 0x04, 0x08, 0x10, 0x20, 0x40, 0x80, 0x1b, 0x36][n / 2 - 1]
        } else {
            0
        }),
        n >= 2 && n % 2 == 1 && i < 4 ==> expanded_key(key)[n][i] == expanded_key(key)[n - 2][i]
            ^ sub_byte(expanded_key(key)[n - 1][12 + i]),
        n >= 2 && i >= 4 ==> expanded_key(key)[n][i] == expanded_key(key)[n - 2][i]
            ^ expanded_key(key)[n][i - 4],
{
    let j = n / 2;
    if n < 2 {
        assert(4 * (4 * n + i / 4) + i % 4 == 16 * n + i);
    } else {
        let before = expanded_round_key(key, 8, (n - 1) as nat);
        let prev = expanded_round_key(key, 8, (n - 2) as nat);
        if n % 2 == 0 {
            assert(n == 2 * j);
            lemma_step_256_even(key, j as nat);
            law_rcon(j);
            law_chained(
                prev,
                xor_word(sub_word(rot_word(column(before, 3))), first_byte(rcon(j as nat))),
                i,
            );
        } else {
            assert(n == 2 * j + 1);
            lemma_step_256_odd(key, j as nat);
            law_chained(prev, sub_word(column(before, 3)), i);
        }
    }
}

/// The AES encryption with a key is the cipher with the round keys of the key, in
/// ten rounds for a key of sixteen bytes and in fourteen for one of thirty-two.
pub proof fn law_aes_encrypt(key: Seq<u8>, block: Seq<u8>)
    ensures
        key.len() == 16 ==> aes_encrypt(key, block) == cipher(block, expanded_key(key), 10),
        key.len() == 32 ==> aes_encrypt(key, block) == cipher(block, expanded_key(key), 14),
{
}

/// Ten rounds are made with a key of sixteen bytes, fourteen with one of
/// thirty-two.
pub proof fn law_key_rounds(key: Seq<u8>)
    ensures
        key.len() == 16 ==> key_rounds(key) == 10,
        key.len() == 32 ==> key_rounds(key) == 14,
{
}

} // verus!

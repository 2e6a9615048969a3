//! Encryption in counter mode, with a counter of 32 bits.
use vstd::prelude::*;
use crate::batch::Batch;
use crate::cipher::cipher;
use crate::key::AES_KEY;
use crate::schedule::Schedule;
use crate::word::{BATCH_SIZE, BLOCK_LEN};

verus! {

/// A counter block: its last four bytes are a number, the most significant
/// byte first.
#[derive(Clone, Copy)]
pub struct Counter(pub [u8; BLOCK_LEN]);

/// The number in the last four bytes of a counter block.
pub open spec fn counter_value(iv: Seq<u8>) -> int {
    iv[12] * 0x100_0000 + iv[13] * 0x1_0000 + iv[14] * 0x100 + iv[15]
}

/// The counter block `iv` with the number replaced by `n`.
pub open spec fn with_counter(iv: Seq<u8>, n: int) -> Seq<u8> {
    Seq::new(
        16,
        |i: int|
            if i < 12 {
                iv[i]
            } else if i == 12 {
                (n / 0x100_0000 % 0x100) as u8
            } else if i == 13 {
                (n / 0x1_0000 % 0x100) as u8
            } else if i == 14 {
                (n / 0x100 % 0x100) as u8
            } else {
                (n % 0x100) as u8
            },
    )
}

/// Byte `i` of the key stream that starts at the counter block `iv`: the
/// blocks of the stream are the encryptions of the counter blocks from `iv` on.
pub open spec fn key_stream(keys: Seq<Seq<u8>>, rounds: nat, iv: Seq<u8>, i: int) -> u8 {
    cipher(with_counter(iv, counter_value(iv) + i / 16), keys, rounds)[i % 16]
}

/// The buffer `s` after what stands in it from `src` on was encrypted and
/// moved to its start. What is not overwritten stays.
pub open spec fn encrypted_within(
    s: Seq<u8>,
    src: int,
    keys: Seq<Seq<u8>>,
    rounds: nat,
    iv: Seq<u8>,
) -> Seq<u8> {
    Seq::new(
        s.len(),
        |i: int|
            if i < s.len() - src {
                s[src + i] ^ key_stream(keys, rounds, iv, i)
            } else {
                s[i]
            },
    )
}

/// The number that a counter block was given, and the one it has.
pub proof fn lemma_with_counter(iv: Seq<u8>, n: int)
    requires
        iv.len() == 16,
    ensures
        0 <= counter_value(iv) <= u32::MAX,
        with_counter(iv, counter_value(iv)) == iv,
        0 <= n <= u32::MAX ==> counter_value(with_counter(iv, n)) == n,
{
    let v = counter_value(iv);
    let (a, b, c, d) = (iv[12] as int, iv[13] as int, iv[14] as int, iv[15] as int);
    lemma_digits(a, b, c, d, v);
    assert(with_counter(iv, v) =~= iv);
    if 0 <= n <= u32::MAX {
        lemma_number(n);
    }
}

/// The digits of a number of four digits.
proof fn lemma_digits(a: int, b: int, c: int, d: int, v: int)
    requires
        0 <= a < 0x100,
        0 <= b < 0x100,
        0 <= c < 0x100,
        0 <= d < 0x100,
        v == a * 0x100_0000 + b * 0x1_0000 + c * 0x100 + d,
    ensures
        v / 0x100_0000 % 0x100 == a,
        v / 0x1_0000 % 0x100 == b,
        v / 0x100 % 0x100 == c,
        v % 0x100 == d,
{
    assert(v / 0x100_0000 == a);
    assert(v / 0x1_0000 == a * 0x100 + b);
    assert(v / 0x100 == a * 0x1_0000 + b * 0x100 + c);
}

/// A number of four digits is put together from them.
proof fn lemma_number(n: int)
    requires
        0 <= n <= u32::MAX,
    ensures
        n == (n / 0x100_0000 % 0x100) * 0x100_0000 + (n / 0x1_0000 % 0x100) * 0x1_0000 + (n / 0x100
            % 0x100) * 0x100 + n % 0x100,
{
    let n1 = n / 0x100;
    let n2 = n1 / 0x100;
    let n3 = n2 / 0x100;
    assert(n2 == n / 0x1_0000);
    assert(n3 == n / 0x100_0000);
}

/// The counter block `iv` with the number replaced by `n`.
fn counter_block(iv: &[u8; BLOCK_LEN], n: u32) -> (r: [u8; BLOCK_LEN])
    ensures
        r@ == with_counter(iv@, n as int),
        forall|i: int| 0 <= i < 12 ==> #[trigger] r@[i] == iv@[i],
        r@[12] * 0x100_0000 + r@[13] * 0x1_0000 + r@[14] * 0x100 + r@[15] == n,
{
    proof {
        lemma_with_counter(iv@, n as int);
    }
    let mut r: [u8; BLOCK_LEN] = *iv;
    r[12] = (n / 0x100_0000) as u8;
    r[13] = (n / 0x1_0000 % 0x100) as u8;
    r[14] = (n / 0x100 % 0x100) as u8;
    r[15] = (n % 0x100) as u8;
    assert(r@ =~= with_counter(iv@, n as int));
    r
}

impl Counter {
    /// The bytes of the counter block.
    pub fn as_bytes_less_safe(&self) -> (r: [u8; BLOCK_LEN])
        ensures
            r@ == self.0@,
    {
        self.0
    }

    /// The number in the last four bytes.
    fn value(&self) -> (r: u32)
        ensures
            r == counter_value(self.0@),
    {
        self.0[12] as u32 * 0x100_0000 + self.0[13] as u32 * 0x1_0000 + self.0[14] as u32 * 0x100
            + self.0[15] as u32
    }

    /// Adds `increment_by` to the number in the last four bytes, which has to
    /// have room for it.
    pub fn increment_by_less_safe(&mut self, increment_by: u32)
        requires
            counter_value(old(self).0@) + increment_by <= u32::MAX,
        ensures
            final(self).0@ == with_counter(
                old(self).0@,
                counter_value(old(self).0@) + increment_by,
            ),
            forall|i: int| 0 <= i < 12 ==> #[trigger] final(self).0@[i] == old(self).0@[i],
            final(self).0@[12] * 0x100_0000 + final(self).0@[13] * 0x1_0000 + final(self).0@[14]
                * 0x100 + final(self).0@[15] == old(self).0@[12] * 0x100_0000 + old(self).0@[13]
                * 0x1_0000 + old(self).0@[14] * 0x100 + old(self).0@[15] + increment_by,
    {
        let n: u32 = self.value() + increment_by;
        proof {
            lemma_with_counter(self.0@, n as int);
        }
        self.0 = counter_block(&self.0, n);
    }
}

/// Moves `16 * n` bytes of `in_out` from `start + src` to `start`, and adds the
/// first `n` blocks of `b` to them.
fn xor_within(
    in_out: &mut [u8],
    start: usize,
    src: usize,
    b: &[[u8; BLOCK_LEN]; BATCH_SIZE],
    n: usize,
)
    requires
        n <= BATCH_SIZE,
        start + src + 16 * n <= old(in_out)@.len(),
    ensures
        final(in_out)@ == Seq::new(
            old(in_out)@.len(),
            |i: int|
                if start <= i < start + 16 * n {
                    old(in_out)@[i + src] ^ b@[(i - start) / 16]@[(i - start) % 16]
                } else {
                    old(in_out)@[i]
                },
        ),
{
    let len: usize = in_out.len();
    let mut k: usize = 0;
    while k < 16 * n
        invariant
            k <= 16 * n,
            n <= BATCH_SIZE,
            start + src + 16 * n <= len,
            len == in_out@.len(),
            in_out@.len() == old(in_out)@.len(),
            forall|i: int|
                0 <= i < in_out@.len() ==> #[trigger] in_out@[i] == if start <= i < start + k {
                    old(in_out)@[i + src] ^ b@[(i - start) / 16]@[(i - start) % 16]
                } else {
                    old(in_out)@[i]
                },
        decreases 16 * n - k,
    {
        let x: u8 = in_out[start + src + k] ^ b[k / 16][k % 16];
        in_out[start + k] = x;
        k = k + 1;
    }
    assert(in_out@ =~= Seq::new(
        old(in_out)@.len(),
        |i: int|
            if start <= i < start + 16 * n {
                old(in_out)@[i + src] ^ b@[(i - start) / 16]@[(i - start) % 16]
            } else {
                old(in_out)@[i]
            },
    ));
}

/// Encrypts whole blocks in counter mode: what stands in `in_out` from `src`
/// on is encrypted and moved to the start of `in_out`. The counter is advanced
/// by the number of blocks, for which it has to have room.
pub fn ctr32_encrypt_within(key: &AES_KEY, in_out: &mut [u8], src: usize, ctr: &mut Counter)
    requires
        src <= old(in_out)@.len(),
        (old(in_out)@.len() - src) % 16 == 0,
        src < old(in_out)@.len() ==> key.rounds_valid(),
        counter_value(old(ctr).0@) + (old(in_out)@.len() - src) / 16 <= u32::MAX,
    ensures
        final(in_out)@ == encrypted_within(
            old(in_out)@,
            src as int,
            key.round_keys(),
            key.rounds as nat,
            old(ctr).0@,
        ),
        final(ctr).0@ == with_counter(
            old(ctr).0@,
            counter_value(old(ctr).0@) + (old(in_out)@.len() - src) / 16,
        ),
        final(in_out)@.len() == old(in_out)@.len(),
        forall|i: int|
            0 <= i < old(in_out)@.len() - src ==> #[trigger] final(in_out)@[i] == old(
                in_out,
            )@[src + i] ^ key_stream(key.round_keys(), key.rounds as nat, old(ctr).0@, i),
        forall|i: int|
            old(in_out)@.len() - src <= i < old(in_out)@.len() ==> #[trigger] final(in_out)@[i]
                == old(in_out)@[i],
        forall|i: int| 0 <= i < 12 ==> #[trigger] final(ctr).0@[i] == old(ctr).0@[i],
        final(ctr).0@[12] * 0x100_0000 + final(ctr).0@[13] * 0x1_0000 + final(ctr).0@[14] * 0x100
            + final(ctr).0@[15] == old(ctr).0@[12] * 0x100_0000 + old(ctr).0@[13] * 0x1_0000 + old(
            ctr,
        ).0@[14] * 0x100 + old(ctr).0@[15] + (old(in_out)@.len() - src) / 16,
{
    let len: usize = in_out.len();
    let blocks: usize = (len - src) / BLOCK_LEN;
    proof {
        lemma_with_counter(old(ctr).0@, 0);
    }
    if blocks == 0 {
        assert(in_out@ =~= encrypted_within(
            old(in_out)@,
            src as int,
            key.round_keys(),
            key.rounds as nat,
            old(ctr).0@,
        ));
        return;
    }
    let sched = Schedule::expand_round_keys(key);

    let initial_ctr = ctr.as_bytes_less_safe();
    let initial: u32 = ctr.value();
    ctr.increment_by_less_safe(blocks as u32);

    let mut ivs: [[u8; BLOCK_LEN]; BATCH_SIZE] = [initial_ctr; BATCH_SIZE];
    let mut enc_ctrs: [[u8; BLOCK_LEN]; BATCH_SIZE] = [[0; BLOCK_LEN]; BATCH_SIZE];
    let mut done: usize = 0;
    let ghost keys = key.round_keys();
    let ghost rounds = key.rounds as nat;
    let ghost iv = initial_ctr@;
    let ghost before = in_out@;
    while done < blocks
        invariant
            done <= blocks,
            key.rounds_valid(),
            keys == key.round_keys(),
            rounds == key.rounds,
            forall|b: int| 0 <= b < 4 ==> #[trigger] sched.block_keys(b) == keys,
            iv == initial_ctr@,
            initial == counter_value(iv),
            initial + blocks <= u32::MAX,
            in_out@.len() == before.len() == len,
            src + 16 * blocks == len,
            forall|i: int|
                0 <= i < before.len() ==> #[trigger] in_out@[i] == if i < 16 * done {
                    before[src + i] ^ key_stream(keys, rounds, iv, i)
                } else {
                    before[i]
                },
        decreases blocks - done,
    {
        let todo: usize = if blocks - done < BATCH_SIZE {
            blocks - done
        } else {
            BATCH_SIZE
        };
        let mut i: usize = 0;
        while i < todo
            invariant
                i <= todo <= BATCH_SIZE,
                done + todo <= blocks,
                iv == initial_ctr@,
                initial + blocks <= u32::MAX,
                forall|k: int|
                    0 <= k < i ==> #[trigger] ivs@[k]@ == with_counter(iv, initial + done + k),
            decreases todo - i,
        {
            ivs[i] = counter_block(&initial_ctr, initial + (done + i) as u32);
            i = i + 1;
        }
        let batch = Batch::from_bytes(vstd::slice::slice_subrange(ivs.as_slice(), 0, todo));
        batch.encrypt(&sched, key.rounds as usize, &mut enc_ctrs);
        let ghost entry = in_out@;
        xor_within(in_out, BLOCK_LEN * done, src, &enc_ctrs, todo);
        proof {
            assert forall|k: int| 0 <= k < todo implies #[trigger] enc_ctrs@[k]@ == cipher(
                with_counter(iv, initial + (done + k)),
                keys,
                rounds,
            ) by {
                assert(batch.blocks()[k] == with_counter(iv, initial + done + k));
            }
            assert forall|n: int| 0 <= n < before.len() implies #[trigger] in_out@[n] == if n < 16
                * (done + todo) {
                before[src + n] ^ key_stream(keys, rounds, iv, n)
            } else {
                before[n]
            } by {
                if 16 * done <= n < 16 * (done + todo) {
                    let k = (n - 16 * done) / 16;
                    assert(n / 16 == done + k);
                    assert(n % 16 == (n - 16 * done) % 16);
                    assert(entry[n + src] == before[src + n]);
                    assert(enc_ctrs@[k]@ == cipher(
                        with_counter(iv, initial + (done + k)),
                        keys,
                        rounds,
                    ));
                } else {
                    assert(in_out@[n] == entry[n]);
                }
            }
        }
        done = done + todo;
    }
    assert(in_out@ =~= encrypted_within(before, src as int, keys, rounds, iv));
}

} // verus!

//! Key schedules in the form in which a batch is encrypted with them, and the
//! encryption of a single block.
use vstd::prelude::*;
use crate::batch::Batch;
use crate::block::compact_view;
use crate::cipher::{cipher, full_rounds};
use crate::key::{join_words, AES_KEY, MAX_ROUND_KEYS};
use crate::word::{BATCH_SIZE, BLOCK_LEN};

verus! {

/// An expanded key schedule in bitsliced form. It is as large as
/// `BATCH_SIZE` expanded keys, so it is not meant to be kept.
pub struct Schedule {
    /// One batch for each round key. Each batch holds `BATCH_SIZE` copies of
    /// the round key.
    pub keys: [Batch; MAX_ROUND_KEYS],
}

impl Schedule {
    /// The round keys that the schedule has for block `b` of a batch.
    pub open spec fn block_keys(&self, b: int) -> Seq<Seq<u8>> {
        Seq::new(15, |i: int| self.keys@[i].blocks()[b])
    }

    /// Brings the round keys of `key` into bitsliced form.
    pub fn expand_round_keys(key: &AES_KEY) -> (r: Self)
        ensures
            forall|b: int| 0 <= b < 4 ==> #[trigger] r.block_keys(b) == key.round_keys(),
    {
        let mut keys: [Batch; MAX_ROUND_KEYS] = [Batch { w: [0; 8] }; MAX_ROUND_KEYS];
        let mut i: usize = 0;
        while i < MAX_ROUND_KEYS
            invariant
                i <= MAX_ROUND_KEYS,
                forall|k: int, b: int|
                    0 <= k < i && 0 <= b < 4 ==> #[trigger] keys@[k].blocks()[b] == key.round_key(
                        k,
                    ),
            decreases MAX_ROUND_KEYS - i,
        {
            let block = join_words(&key.rd_key[i]);
            let mut r: Batch = Batch { w: [0; 8] };
            // Copy the round key into each block in the batch.
            let mut j: usize = 0;
            while j < BATCH_SIZE
                invariant
                    j <= BATCH_SIZE,
                    i < MAX_ROUND_KEYS,
                    compact_view(block@) == key.round_key(i as int),
                    forall|b: int|
                        0 <= b < j ==> #[trigger] r.compact_blocks()[b] == key.round_key(i as int),
                decreases BATCH_SIZE - j,
            {
                r.set(&block, j);
                j = j + 1;
            }
            r.transpose();
            keys[i] = r;
            i = i + 1;
        }
        let r = Schedule { keys };
        proof {
            assert forall|b: int| 0 <= b < 4 implies #[trigger] r.block_keys(b)
                == key.round_keys() by {
                assert(r.block_keys(b) =~= key.round_keys());
            }
        }
        r
    }
}

impl Batch {
    /// Encrypts every block of the batch with the round keys that `key` has for
    /// it, in `rounds` rounds, and writes the first of them to `out`.
    pub fn encrypt(self, key: &Schedule, rounds: usize, out: &mut [[u8; BLOCK_LEN]])
        requires
            old(out)@.len() <= BATCH_SIZE,
            1 <= rounds <= 14,
        ensures
            final(out)@.len() == old(out)@.len(),
            forall|b: int|
                0 <= b < final(out)@.len() ==> #[trigger] final(out)@[b]@ == cipher(
                    self.blocks()[b],
                    key.block_keys(b),
                    rounds as nat,
                ),
    {
        let mut state: Batch = self;
        state.add_round_key(&key.keys[0]);
        let mut n: usize = 1;
        while n < rounds
            invariant
                1 <= n <= rounds <= 14,
                forall|b: int|
                    0 <= b < 4 ==> #[trigger] state.blocks()[b] == full_rounds(
                        self.blocks()[b],
                        key.block_keys(b),
                        (n - 1) as nat,
                    ),
            decreases rounds - n,
        {
            state.sub_bytes();
            state.shift_rows();
            state.mix_columns();
            state.add_round_key(&key.keys[n]);
            n = n + 1;
        }
        state.sub_bytes();
        state.shift_rows();
        state.add_round_key(&key.keys[rounds]);
        state.into_bytes(out);
    }
}

/// Encrypts the block `in_out` in place.
pub fn encrypt_block(key: &AES_KEY, in_out: &mut [u8; BLOCK_LEN])
    requires
        key.rounds_valid(),
    ensures
        final(in_out)@ == cipher(old(in_out)@, key.round_keys(), key.rounds as nat),
{
    let sched = Schedule::expand_round_keys(key);
    let input: [[u8; BLOCK_LEN]; 1] = [*in_out];
    let batch = Batch::from_bytes(input.as_slice());
    let mut output: [[u8; BLOCK_LEN]; 1] = [[0; BLOCK_LEN]; 1];
    batch.encrypt(&sched, key.rounds as usize, &mut output);
    *in_out = output[0];
}

} // verus!

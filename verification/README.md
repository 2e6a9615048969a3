# aes_nohw

AES in software, without lookup tables and without hardware instructions:
encryption of single blocks and of texts in counter mode (with a counter of 32
bits), with keys of 128 and of 256 bits. It is written in Rust and verified with
Verus.

The code is bitsliced. Four blocks are worked on together, in eight words of 64
bits, each of which holds one bit of every byte. The proofs show that it computes
the cipher as it is defined on bytes: the byte substitution as inversion in the
field of 256 elements and an affine map, the mixing of columns as multiplication
in that field, the key expansion word by word.

- `field`, `sbox`, `cipher`, `expansion`: the cipher on bytes, and the circuit of
  the byte substitution.
- `bits`, `word`, `block`, `batch`: words, and the compact and the bitsliced form
  of blocks.
- `key`, `schedule`, `ctr`: key setup, encryption of a block, counter mode.
- `laws`: what holds of these together, such as that counter mode undoes itself.

Start with `key::set_encrypt_key`, then `schedule::encrypt_block` or
`ctr::ctr32_encrypt_within`.

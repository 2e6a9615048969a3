//! AES in software, without tables: encryption of blocks and of texts in counter
//! mode, with keys of 128 and of 256 bits.
//!
//! The code is bitsliced. It works on a batch of four blocks at a time, with
//! eight words that hold one bit of every byte each, and it neither branches on
//! the data nor uses it as an index. Every function is proved to compute what
//! the block cipher is defined to be on bytes.
//!
//! - `field`, `sbox`, `cipher` and `expansion` define the cipher on bytes. `sbox`
//!   also has the circuit that computes the byte substitution.
//! - `bits`, `word`, `block` and `batch` have the words, and the forms in which
//!   they hold blocks.
//! - `key` and `schedule` expand keys and encrypt with them; `ctr` is counter mode.
//! - `meaning` says what the terms of the contracts come to in bits, bytes and
//!   numbers, `inverse` what undoes the cipher, and `laws` what holds of the
//!   functions together.
pub mod batch;
pub mod bits;
pub mod block;
pub mod cipher;
pub mod ctr;
pub mod expansion;
pub mod field;
pub mod inverse;
pub mod key;
pub mod laws;
pub mod meaning;
pub mod sbox;
pub mod schedule;
pub mod word;

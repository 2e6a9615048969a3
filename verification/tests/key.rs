use aes_nohw::block::uncompact_block;
use aes_nohw::key::{
    derive_round_key, join_words, rcon_slice, set_encrypt_key, setup_key_128, setup_key_256,
    split_words, sub_block, KeyBytes, AES_KEY, MAX_ROUND_KEYS, RCON,
};
use aes_nohw::block::compact_block;
use aes_nohw::schedule::encrypt_block;

fn blank() -> AES_KEY {
    AES_KEY { rd_key: [[0x5a5a_5a5a; 4]; MAX_ROUND_KEYS], rounds: 0 }
}

fn round_key(key: &AES_KEY, n: usize) -> [u8; 16] {
    let mut out = [0u8; 16];
    uncompact_block(&join_words(&key.rd_key[n]), &mut out);
    out
}

const KEY_128: [u8; 16] = [
    0x2b, 0x7e, 0x15, 0x16, 0x28, 0xae, 0xd2, 0xa6, 0xab, 0xf7, 0x15, 0x88, 0x09, 0xcf, 0x4f, 0x3c,
];

const KEY_256: [u8; 32] = [
    0x60, 0x3d, 0xeb, 0x10, 0x15, 0xca, 0x71, 0xbe, 0x2b, 0x73, 0xae, 0xf0, 0x85, 0x7d, 0x77, 0x81,
    0x1f, 0x35, 0x2c, 0x07, 0x3b, 0x61, 0x08, 0xd7, 0x2d, 0x98, 0x10, 0xa3, 0x09, 0x14, 0xdf, 0xf4,
];

const COUNTING: [u8; 32] = [
    0x00, 0x01, 0x02, 0x03, 0x04, 0x05, 0x06, 0x07, 0x08, 0x09, 0x0a, 0x0b, 0x0c, 0x0d, 0x0e, 0x0f,
    0x10, 0x11, 0x12, 0x13, 0x14, 0x15, 0x16, 0x17, 0x18, 0x19, 0x1a, 0x1b, 0x1c, 0x1d, 0x1e, 0x1f,
];

const BLOCK: [u8; 16] = [
    0x00, 0x11, 0x22, 0x33, 0x44, 0x55, 0x66, 0x77, 0x88, 0x99, 0xaa, 0xbb, 0xcc, 0xdd, 0xee, 0xff,
];

const SBOX: [u8; 256] = [
    0x63, 0x7c, 0x77, 0x7b, 0xf2, 0x6b, 0x6f, 0xc5, 0x30, 0x01, 0x67, 0x2b, 0xfe, 0xd7, 0xab, 0x76,
    0xca, 0x82, 0xc9, 0x7d, 0xfa, 0x59, 0x47, 0xf0, 0xad, 0xd4, 0xa2, 0xaf, 0x9c, 0xa4, 0x72, 0xc0,
    0xb7, 0xfd, 0x93, 0x26, 0x36, 0x3f, 0xf7, 0xcc, 0x34, 0xa5, 0xe5, 0xf1, 0x71, 0xd8, 0x31, 0x15,
    0x04, 0xc7, 0x23, 0xc3, 0x18, 0x96, 0x05, 0x9a, 0x07, 0x12, 0x80, 0xe2, 0xeb, 0x27, 0xb2, 0x75,
    0x09, 0x83, 0x2c, 0x1a, 0x1b, 0x6e, 0x5a, 0xa0, 0x52, 0x3b, 0xd6, 0xb3, 0x29, 0xe3, 0x2f, 0x84,
    0x53, 0xd1, 0x00, 0xed, 0x20, 0xfc, 0xb1, 0x5b, 0x6a, 0xcb, 0xbe, 0x39, 0x4a, 0x4c, 0x58, 0xcf,
    0xd0, 0xef, 0xaa, 0xfb, 0x43, 0x4d, 0x33, 0x85, 0x45, 0xf9, 0x02, 0x7f, 0x50, 0x3c, 0x9f, 0xa8,
    0x51, 0xa3, 0x40, 0x8f, 0x92, 0x9d, 0x38, 0xf5, 0xbc, 0xb6, 0xda, 0x21, 0x10, 0xff, 0xf3, 0xd2,
    0xcd, 0x0c, 0x13, 0xec, 0x5f, 0x97, 0x44, 0x17, 0xc4, 0xa7, 0x7e, 0x3d, 0x64, 0x5d, 0x19, 0x73,
    0x60, 0x81, 0x4f, 0xdc, 0x22, 0x2a, 0x90, 0x88, 0x46, 0xee, 0xb8, 0x14, 0xde, 0x5e, 0x0b, 0xdb,
    0xe0, 0x32, 0x3a, 0x0a, 0x49, 0x06, 0x24, 0x5c, 0xc2, 0xd3, 0xac, 0x62, 0x91, 0x95, 0xe4, 0x79,
    0xe7, 0xc8, 0x37, 0x6d, 0x8d, 0xd5, 0x4e, 0xa9, 0x6c, 0x56, 0xf4, 0xea, 0x65, 0x7a, 0xae, 0x08,
    0xba, 0x78, 0x25, 0x2e, 0x1c, 0xa6, 0xb4, 0xc6, 0xe8, 0xdd, 0x74, 0x1f, 0x4b, 0xbd, 0x8b, 0x8a,
    0x70, 0x3e, 0xb5, 0x66, 0x48, 0x03, 0xf6, 0x0e, 0x61, 0x35, 0x57, 0xb9, 0x86, 0xc1, 0x1d, 0x9e,
    0xe1, 0xf8, 0x98, 0x11, 0x69, 0xd9, 0x8e, 0x94, 0x9b, 0x1e, 0x87, 0xe9, 0xce, 0x55, 0x28, 0xdf,
    0x8c, 0xa1, 0x89, 0x0d, 0xbf, 0xe6, 0x42, 0x68, 0x41, 0x99, 0x2d, 0x0f, 0xb0, 0x54, 0xbb, 0x16,
];

fn counting_16() -> [u8; 16] {
    let mut key = [0u8; 16];
    key.copy_from_slice(&COUNTING[..16]);
    key
}

#[test]
fn encrypts_with_128_bit_key() {
    let mut key = blank();
    set_encrypt_key(&mut key, KeyBytes::AES_128(&counting_16()));
    let mut block = BLOCK;
    encrypt_block(&key, &mut block);
    assert_eq!(block, [0x69, 0xc4, 0xe0, 0xd8, 0x6a, 0x7b, 0x04, 0x30, 0xd8, 0xcd, 0xb7, 0x80, 0x70, 0xb4, 0xc5, 0x5a]);
}

#[test]
fn encrypts_with_256_bit_key() {
    let mut key = blank();
    set_encrypt_key(&mut key, KeyBytes::AES_256(&COUNTING));
    let mut block = BLOCK;
    encrypt_block(&key, &mut block);
    assert_eq!(block, [0x8e, 0xa2, 0xb7, 0xca, 0x51, 0x67, 0x45, 0xbf, 0xea, 0xfc, 0x49, 0x90, 0x4b, 0x49, 0x60, 0x89]);
}

#[test]
fn encrypts_zeros() {
    let mut key = blank();
    set_encrypt_key(&mut key, KeyBytes::AES_128(&[0; 16]));
    let mut block = [0u8; 16];
    encrypt_block(&key, &mut block);
    assert_eq!(block, [0x66, 0xe9, 0x4b, 0xd4, 0xef, 0x8a, 0x2c, 0x3b, 0x88, 0x4c, 0xfa, 0x59, 0xca, 0x34, 0x2b, 0x2e]);
}

#[test]
fn different_blocks_encrypt_to_different_blocks() {
    let mut key = blank();
    set_encrypt_key(&mut key, KeyBytes::AES_128(&KEY_128));
    let mut a = BLOCK;
    let mut b = BLOCK;
    b[15] ^= 1;
    encrypt_block(&key, &mut a);
    encrypt_block(&key, &mut b);
    assert_ne!(a, b);
}

#[test]
fn expands_128_bit_key() {
    let mut key = blank();
    set_encrypt_key(&mut key, KeyBytes::AES_128(&KEY_128));
    assert_eq!(key.rounds, 10);
    assert_eq!(round_key(&key, 0), KEY_128);
    assert_eq!(round_key(&key, 1), [0xa0, 0xfa, 0xfe, 0x17, 0x88, 0x54, 0x2c, 0xb1, 0x23, 0xa3, 0x39, 0x39, 0x2a, 0x6c, 0x76, 0x05]);
    assert_eq!(round_key(&key, 2), [0xf2, 0xc2, 0x95, 0xf2, 0x7a, 0x96, 0xb9, 0x43, 0x59, 0x35, 0x80, 0x7a, 0x73, 0x59, 0xf6, 0x7f]);
    assert_eq!(round_key(&key, 9), [0xac, 0x77, 0x66, 0xf3, 0x19, 0xfa, 0xdc, 0x21, 0x28, 0xd1, 0x29, 0x41, 0x57, 0x5c, 0x00, 0x6e]);
    assert_eq!(round_key(&key, 10), [0xd0, 0x14, 0xf9, 0xa8, 0xc9, 0xee, 0x25, 0x89, 0xe1, 0x3f, 0x0c, 0xc8, 0xb6, 0x63, 0x0c, 0xa6]);
    for n in 11..MAX_ROUND_KEYS {
        assert_eq!(key.rd_key[n], [0x5a5a_5a5a; 4]);
    }
    let mut other = blank();
    setup_key_128(&mut other, &KEY_128);
    assert_eq!(other.rd_key, key.rd_key);
}

#[test]
fn expands_256_bit_key() {
    let mut key = blank();
    set_encrypt_key(&mut key, KeyBytes::AES_256(&KEY_256));
    assert_eq!(key.rounds, 14);
    assert_eq!(round_key(&key, 0), KEY_256[..16]);
    assert_eq!(round_key(&key, 1), KEY_256[16..]);
    assert_eq!(round_key(&key, 2), [0x9b, 0xa3, 0x54, 0x11, 0x8e, 0x69, 0x25, 0xaf, 0xa5, 0x1a, 0x8b, 0x5f, 0x20, 0x67, 0xfc, 0xde]);
    assert_eq!(round_key(&key, 3), [0xa8, 0xb0, 0x9c, 0x1a, 0x93, 0xd1, 0x94, 0xcd, 0xbe, 0x49, 0x84, 0x6e, 0xb7, 0x5d, 0x5b, 0x9a]);
    assert_eq!(round_key(&key, 4), [0xd5, 0x9a, 0xec, 0xb8, 0x5b, 0xf3, 0xc9, 0x17, 0xfe, 0xe9, 0x42, 0x48, 0xde, 0x8e, 0xbe, 0x96]);
    assert_eq!(round_key(&key, 13), [0xca, 0xfa, 0xaa, 0xe3, 0xe4, 0xd5, 0x9b, 0x34, 0x9a, 0xdf, 0x6a, 0xce, 0xbd, 0x10, 0x19, 0x0d]);
    assert_eq!(round_key(&key, 14), [0xfe, 0x48, 0x90, 0xd1, 0xe6, 0x18, 0x8d, 0x0b, 0x04, 0x6d, 0xf3, 0x44, 0x70, 0x6c, 0x63, 0x1e]);
    let mut other = blank();
    setup_key_256(&mut other, &KEY_256);
    assert_eq!(other.rd_key, key.rd_key);
    assert_eq!(other.rounds, 14);
}

#[test]
fn single_round_is_possible() {
    let key = AES_KEY { rd_key: [[0; 4]; MAX_ROUND_KEYS], rounds: 1 };
    let mut block = [0u8; 16];
    encrypt_block(&key, &mut block);
    assert_eq!(block, [0x63; 16]);
}

#[test]
fn substitutes_every_byte_of_a_block() {
    for start in 0..16 {
        let mut input = [0u8; 16];
        for i in 0..16 {
            input[i] = (16 * start + i) as u8;
        }
        let mut out = [0u8; 16];
        uncompact_block(&sub_block(&compact_block(&input)), &mut out);
        assert_eq!(out, SBOX[16 * start..16 * start + 16]);
    }
}

#[test]
fn derives_next_round_key() {
    let mut block = compact_block(&KEY_128);
    let sub = sub_block(&block);
    let halves = derive_round_key(&mut block, sub, RCON[0]);
    assert_eq!(join_words(&halves), block);
    let mut out = [0u8; 16];
    uncompact_block(&block, &mut out);
    assert_eq!(out, [0xa0, 0xfa, 0xfe, 0x17, 0x88, 0x54, 0x2c, 0xb1, 0x23, 0xa3, 0x39, 0x39, 0x2a, 0x6c, 0x76, 0x05]);
}

#[test]
fn slices_constants() {
    assert_eq!(rcon_slice(0x36, 0), 0x6);
    assert_eq!(rcon_slice(0x36, 1), 0x3);
    assert_eq!(rcon_slice(0xff, 0), 0xf);
    assert_eq!(rcon_slice(0x80, 1), 0x8);
}

#[test]
fn splits_and_joins_words() {
    let words = [0x0123_4567_89ab_cdef, 0xfedc_ba98_7654_3210];
    let halves = split_words(&words);
    assert_eq!(halves, [0x89ab_cdef, 0x0123_4567, 0x7654_3210, 0xfedc_ba98]);
    assert_eq!(join_words(&halves), words);
}

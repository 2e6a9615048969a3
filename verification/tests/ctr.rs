use aes_nohw::ctr::{ctr32_encrypt_within, Counter};
use aes_nohw::key::{set_encrypt_key, KeyBytes, AES_KEY, MAX_ROUND_KEYS};

const KEY_128: [u8; 16] = [
    0x2b, 0x7e, 0x15, 0x16, 0x28, 0xae, 0xd2, 0xa6, 0xab, 0xf7, 0x15, 0x88, 0x09, 0xcf, 0x4f, 0x3c,
];

const KEY_256: [u8; 32] = [
    0x60, 0x3d, 0xeb, 0x10, 0x15, 0xca, 0x71, 0xbe, 0x2b, 0x73, 0xae, 0xf0, 0x85, 0x7d, 0x77, 0x81,
    0x1f, 0x35, 0x2c, 0x07, 0x3b, 0x61, 0x08, 0xd7, 0x2d, 0x98, 0x10, 0xa3, 0x09, 0x14, 0xdf, 0xf4,
];

const IV: [u8; 16] = [
    0xf0, 0xf1, 0xf2, 0xf3, 0xf4, 0xf5, 0xf6, 0xf7, 0xf8, 0xf9, 0xfa, 0xfb, 0xfc, 0xfd, 0xfe, 0xff,
];

const TEXT: [u8; 64] = [
    0x6b, 0xc1, 0xbe, 0xe2, 0x2e, 0x40, 0x9f, 0x96, 0xe9, 0x3d, 0x7e, 0x11, 0x73, 0x93, 0x17, 0x2a,
    0xae, 0x2d, 0x8a, 0x57, 0x1e, 0x03, 0xac, 0x9c, 0x9e, 0xb7, 0x6f, 0xac, 0x45, 0xaf, 0x8e, 0x51,
    0x30, 0xc8, 0x1c, 0x46, 0xa3, 0x5c, 0xe4, 0x11, 0xe5, 0xfb, 0xc1, 0x19, 0x1a, 0x0a, 0x52, 0xef,
    0xf6, 0x9f, 0x24, 0x45, 0xdf, 0x4f, 0x9b, 0x17, 0xad, 0x2b, 0x41, 0x7b, 0xe6, 0x6c, 0x37, 0x10,
];

const ENCRYPTED_128: [u8; 64] = [
    0x87, 0x4d, 0x61, 0x91, 0xb6, 0x20, 0xe3, 0x26, 0x1b, 0xef, 0x68, 0x64, 0x99, 0x0d, 0xb6, 0xce,
    0x98, 0x06, 0xf6, 0x6b, 0x79, 0x70, 0xfd, 0xff, 0x86, 0x17, 0x18, 0x7b, 0xb9, 0xff, 0xfd, 0xff,
    0x5a, 0xe4, 0xdf, 0x3e, 0xdb, 0xd5, 0xd3, 0x5e, 0x5b, 0x4f, 0x09, 0x02, 0x0d, 0xb0, 0x3e, 0xab,
    0x1e, 0x03, 0x1d, 0xda, 0x2f, 0xbe, 0x03, 0xd1, 0x79, 0x21, 0x70, 0xa0, 0xf3, 0x00, 0x9c, 0xee,
];

const ENCRYPTED_256: [u8; 64] = [
    0x60, 0x1e, 0xc3, 0x13, 0x77, 0x57, 0x89, 0xa5, 0xb7, 0xa7, 0xf5, 0x04, 0xbb, 0xf3, 0xd2, 0x28,
    0xf4, 0x43, 0xe3, 0xca, 0x4d, 0x62, 0xb5, 0x9a, 0xca, 0x84, 0xe9, 0x90, 0xca, 0xca, 0xf5, 0xc5,
    0x2b, 0x09, 0x30, 0xda, 0xa2, 0x3d, 0xe9, 0x4c, 0xe8, 0x70, 0x17, 0xba, 0x2d, 0x84, 0x98, 0x8d,
    0xdf, 0xc9, 0xc5, 0x8d, 0xb6, 0x7a, 0xad, 0xa6, 0x13, 0xc2, 0xdd, 0x08, 0x45, 0x79, 0x41, 0xa6,
];

const LONG_ENCRYPTED: [u8; 144] = [
    0x77, 0x2c, 0x0e, 0xf4, 0x52, 0xe0, 0xc6, 0x20, 0x79, 0x10, 0x13, 0x37, 0x5b, 0xbf, 0x93, 0xf0,
    0xb9, 0xbc, 0xfe, 0xdb, 0x9e, 0x65, 0x8a, 0x7e, 0x89, 0x13, 0x28, 0xaa, 0x3b, 0xec, 0x50, 0xb4,
    0xae, 0x56, 0xd6, 0xad, 0x1c, 0x20, 0x25, 0xef, 0x61, 0x63, 0x6d, 0xcb, 0x11, 0x86, 0x86, 0x61,
    0xea, 0xe7, 0x09, 0x61, 0x5f, 0x67, 0x13, 0xf4, 0x4d, 0x57, 0xc2, 0xca, 0x6a, 0xdb, 0x87, 0xb8,
    0x5c, 0xc9, 0x6c, 0x3b, 0x17, 0x1a, 0x33, 0xcd, 0xe0, 0x3a, 0x73, 0x59, 0x66, 0xf5, 0xda, 0x98,
    0xfd, 0xfc, 0xea, 0x3f, 0x2d, 0x45, 0x36, 0x30, 0x77, 0xa1, 0xbb, 0xe0, 0x71, 0x6b, 0xab, 0x15,
    0x1d, 0xdb, 0x7e, 0xfc, 0xa5, 0xe1, 0x30, 0xf6, 0x8b, 0xb4, 0xff, 0x03, 0x12, 0xbd, 0x5d, 0x8f,
    0x89, 0xd4, 0x30, 0x4a, 0x4e, 0x4e, 0x90, 0xe9, 0x40, 0xe1, 0xde, 0xa0, 0x7f, 0x50, 0xde, 0xfd,
    0x1a, 0x0f, 0xf5, 0x25, 0xe4, 0xec, 0xbc, 0x22, 0x04, 0xe0, 0x9e, 0x4b, 0xb0, 0x41, 0xeb, 0x5b,
];

fn key_128() -> AES_KEY {
    let mut key = AES_KEY { rd_key: [[0; 4]; MAX_ROUND_KEYS], rounds: 0 };
    set_encrypt_key(&mut key, KeyBytes::AES_128(&KEY_128));
    key
}

fn long_text() -> Vec<u8> {
    let mut text = Vec::new();
    for i in 0..144usize {
        text.push((7 * i + 3) as u8);
    }
    text
}

fn long_iv() -> [u8; 16] {
    let mut iv = IV;
    iv[12] = 0;
    iv[13] = 0;
    iv[14] = 0;
    iv[15] = 0xfe;
    iv
}

#[test]
fn encrypts_one_batch() {
    let mut buffer = TEXT;
    let mut counter = Counter(IV);
    ctr32_encrypt_within(&key_128(), &mut buffer, 0, &mut counter);
    assert_eq!(buffer, ENCRYPTED_128);
    assert_eq!(counter.as_bytes_less_safe()[..12], IV[..12]);
    assert_eq!(counter.as_bytes_less_safe()[12..], [0xfc, 0xfd, 0xff, 0x03]);
}

#[test]
fn encrypts_with_long_key() {
    let mut key = AES_KEY { rd_key: [[0; 4]; MAX_ROUND_KEYS], rounds: 0 };
    set_encrypt_key(&mut key, KeyBytes::AES_256(&KEY_256));
    let mut buffer = TEXT;
    let mut counter = Counter(IV);
    ctr32_encrypt_within(&key, &mut buffer, 0, &mut counter);
    assert_eq!(buffer, ENCRYPTED_256);
}

#[test]
fn every_number_of_blocks() {
    for blocks in 0..10 {
        let mut buffer = long_text();
        buffer.truncate(16 * blocks);
        let mut counter = Counter(long_iv());
        ctr32_encrypt_within(&key_128(), &mut buffer, 0, &mut counter);
        assert_eq!(buffer[..], LONG_ENCRYPTED[..16 * blocks]);
        let value = 0xfe + blocks;
        assert_eq!(counter.0[14..], [(value >> 8) as u8, value as u8]);
        assert_eq!(counter.0[..14], long_iv()[..14]);
    }
}

#[test]
fn moves_text_to_the_start() {
    for src in [1usize, 5, 16, 17, 40, 64, 100] {
        let mut buffer = vec![0xee; src];
        buffer.extend(long_text());
        let before = buffer.clone();
        let mut counter = Counter(long_iv());
        ctr32_encrypt_within(&key_128(), &mut buffer, src, &mut counter);
        assert_eq!(buffer[..144], LONG_ENCRYPTED[..]);
        assert_eq!(buffer[144..], before[144..]);
    }
}

#[test]
fn nothing_to_encrypt() {
    let key = AES_KEY { rd_key: [[0; 4]; MAX_ROUND_KEYS], rounds: 0 };
    let mut buffer = [1u8, 2, 3];
    let mut counter = Counter([0xff; 16]);
    ctr32_encrypt_within(&key, &mut buffer, 3, &mut counter);
    assert_eq!(buffer, [1, 2, 3]);
    assert_eq!(counter.0, [0xff; 16]);
}

#[test]
fn counter_may_reach_its_end() {
    let mut buffer = TEXT;
    let mut iv = IV;
    for i in 12..15 {
        iv[i] = 0xff;
    }
    iv[15] = 0xfb;
    let mut counter = Counter(iv);
    ctr32_encrypt_within(&key_128(), &mut buffer, 0, &mut counter);
    assert_eq!(buffer, [0x37, 0xe4, 0xe6, 0xad, 0x7c, 0xad, 0xe7, 0xd8, 0x52, 0xdd, 0x88, 0x3b, 0xb7, 0x1e, 0xb5, 0x84, 0xce, 0xce, 0xa1, 0xe9, 0x5c, 0xc4, 0x5c, 0xae, 0xb0, 0xb1, 0xe4, 0x6a, 0xa1, 0x8e, 0xc9, 0xa7, 0x52, 0x49, 0x44, 0x93, 0x4e, 0x46, 0x5f, 0x75, 0xca, 0xbc, 0xb5, 0x3e, 0x34, 0x0e, 0x08, 0x07, 0xd9, 0xc2, 0xe9, 0xd4, 0xf2, 0x5b, 0xb7, 0x2a, 0xea, 0x32, 0x6a, 0x3a, 0x37, 0x9b, 0x14, 0x55]);
    assert_eq!(counter.0[12..], [0xff; 4]);
    let mut last = [0u8; 16];
    counter.0[15] = 0xfe;
    ctr32_encrypt_within(&key_128(), &mut last, 0, &mut counter);
    assert_eq!(last, [0x2f, 0x5d, 0xcd, 0x91, 0x2d, 0x14, 0x2c, 0x3d, 0x47, 0x19, 0x2b, 0x41, 0xd1, 0xf7, 0x23, 0x45]);
    assert_eq!(counter.0[12..], [0xff; 4]);
}

#[test]
fn encrypting_again_restores() {
    let mut buffer = vec![0u8; 7];
    buffer.extend(long_text());
    ctr32_encrypt_within(&key_128(), &mut buffer, 7, &mut Counter(IV));
    buffer.truncate(144);
    ctr32_encrypt_within(&key_128(), &mut buffer, 0, &mut Counter(IV));
    assert_eq!(buffer, long_text());
}

#[test]
fn second_call_continues_the_first() {
    for split in [16usize, 48, 64, 80, 144] {
        let mut buffer = long_text();
        let mut counter = Counter(long_iv());
        let (a, b) = buffer.split_at_mut(split);
        ctr32_encrypt_within(&key_128(), a, 0, &mut counter);
        ctr32_encrypt_within(&key_128(), b, 0, &mut counter);
        assert_eq!(buffer[..], LONG_ENCRYPTED[..]);
        assert_eq!(counter.0[12..], [0, 0, 1, 7]);
    }
}

#[test]
fn counter_increments() {
    let mut counter = Counter(IV);
    counter.increment_by_less_safe(0x0102_0101);
    assert_eq!(counter.0[12..], [0xfe, 0x00, 0x00, 0x00]);
    assert_eq!(counter.0[..12], IV[..12]);
    counter.increment_by_less_safe(0);
    assert_eq!(counter.as_bytes_less_safe()[12..], [0xfe, 0x00, 0x00, 0x00]);
}

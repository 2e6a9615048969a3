use aes_nohw::batch::Batch;
use aes_nohw::block::{compact_block, uncompact_block};
use aes_nohw::key::{set_encrypt_key, KeyBytes, AES_KEY, MAX_ROUND_KEYS};
use aes_nohw::schedule::Schedule;

const BLOCKS: [[u8; 16]; 4] = [
    [0x00, 0x11, 0x22, 0x33, 0x44, 0x55, 0x66, 0x77, 0x88, 0x99, 0xaa, 0xbb, 0xcc, 0xdd, 0xee, 0xff],
    [0x00, 0x01, 0x02, 0x03, 0x04, 0x05, 0x06, 0x07, 0x08, 0x09, 0x0a, 0x0b, 0x0c, 0x0d, 0x0e, 0x0f],
    [0x0b, 0x30, 0x55, 0x7a, 0x9f, 0xc4, 0xe9, 0x0e, 0x33, 0x58, 0x7d, 0xa2, 0xc7, 0xec, 0x11, 0x36],
    [0xd4, 0xbf, 0x5d, 0x30, 0xd4, 0xbf, 0x5d, 0x30, 0xd4, 0xbf, 0x5d, 0x30, 0xd4, 0xbf, 0x5d, 0x30],
];

fn bytes_of(batch: Batch) -> [[u8; 16]; 4] {
    let mut out = [[0u8; 16]; 4];
    batch.into_bytes(&mut out);
    out
}

#[test]
fn bytes_are_restored() {
    for n in 0..5 {
        let batch = Batch::from_bytes(&BLOCKS[..n]);
        let mut out = vec![[0xaau8; 16]; n];
        batch.into_bytes(&mut out);
        assert_eq!(out, BLOCKS[..n]);
    }
}

#[test]
fn missing_blocks_are_zero() {
    let out = bytes_of(Batch::from_bytes(&BLOCKS[..2]));
    assert_eq!(out, [BLOCKS[0], BLOCKS[1], [0; 16], [0; 16]]);
}

#[test]
fn bits_are_sliced() {
    let mut block = [0u8; 16];
    block[5] = 0b0100_0001;
    let batch = Batch::from_bytes(&[[0; 16], block]);
    assert_eq!(batch.w, [1 << 21, 0, 0, 0, 0, 0, 1 << 21, 0]);
}

#[test]
fn transposing_twice_restores() {
    let words = [
        0x0123_4567_89ab_cdef, 0xfedc_ba98_7654_3210, 0x0f1e_2d3c_4b5a_6978, 0x1111_2222_3333_4444,
        0xdead_beef_0bad_f00d, 0x8000_0000_0000_0001, 0x5555_aaaa_5555_aaaa, 0,
    ];
    let mut batch = Batch { w: words };
    batch.transpose();
    assert_ne!(batch.w, words);
    batch.transpose();
    assert_eq!(batch.w, words);
}

#[test]
fn transposing_moves_single_bits() {
    let mut batch = Batch { w: [0; 8] };
    batch.w[1] = 1 << (4 * 7 + 3);
    batch.w[6] = 1 << (4 * 9);
    batch.transpose();
    let mut expected = [0u64; 8];
    expected[3] = 1 << (4 * 7 + 1);
    expected[4] = 1 << (4 * 9 + 2);
    assert_eq!(batch.w, expected);
}

#[test]
fn sets_and_gets_blocks() {
    let mut batch = Batch { w: [9; 8] };
    let block = [0x1122_3344_5566_7788, 0x99aa_bbcc_ddee_ff00];
    batch.set(&block, 3);
    assert_eq!(batch.w, [9, 9, 9, block[0], 9, 9, 9, block[1]]);
    assert_eq!(batch.get(3), block);
    assert_eq!(batch.get(0), [9, 9]);
}

#[test]
fn compact_form_holds_halves() {
    let words = compact_block(&BLOCKS[0]);
    assert_eq!(words, [0xfedc_ba98_7654_3210, 0xfedc_ba98_7654_3210]);
    let words = compact_block(&BLOCKS[1]);
    assert_eq!(words, [0xfedc_ba98_7654_3210, 0]);
    for block in BLOCKS {
        let mut out = [0u8; 16];
        uncompact_block(&compact_block(&block), &mut out);
        assert_eq!(out, block);
    }
    let words = [0x0123_4567_89ab_cdef, 0x0f1e_2d3c_4b5a_6978];
    let mut out = [0u8; 16];
    uncompact_block(&words, &mut out);
    assert_eq!(out[0], 0x8f);
    assert_eq!(out[15], 0x00);
    assert_eq!(compact_block(&out), words);
}

#[test]
fn substitutes_bytes() {
    let mut batch = Batch::from_bytes(&BLOCKS);
    batch.sub_bytes();
    assert_eq!(bytes_of(batch), [
        [0x63, 0x82, 0x93, 0xc3, 0x1b, 0xfc, 0x33, 0xf5, 0xc4, 0xee, 0xac, 0xea, 0x4b, 0xc1, 0x28, 0x16],
        [0x63, 0x7c, 0x77, 0x7b, 0xf2, 0x6b, 0x6f, 0xc5, 0x30, 0x01, 0x67, 0x2b, 0xfe, 0xd7, 0xab, 0x76],
        [0x2b, 0x04, 0xfc, 0xda, 0xdb, 0x1c, 0x1e, 0xab, 0xc3, 0x6a, 0xff, 0x3a, 0xc6, 0xce, 0x82, 0x05],
        [0x48, 0x08, 0x4c, 0x04, 0x48, 0x08, 0x4c, 0x04, 0x48, 0x08, 0x4c, 0x04, 0x48, 0x08, 0x4c, 0x04],
    ]);
}

#[test]
fn shifts_rows() {
    let mut batch = Batch::from_bytes(&BLOCKS);
    batch.shift_rows();
    assert_eq!(bytes_of(batch), [
        [0x00, 0x55, 0xaa, 0xff, 0x44, 0x99, 0xee, 0x33, 0x88, 0xdd, 0x22, 0x77, 0xcc, 0x11, 0x66, 0xbb],
        [0x00, 0x05, 0x0a, 0x0f, 0x04, 0x09, 0x0e, 0x03, 0x08, 0x0d, 0x02, 0x07, 0x0c, 0x01, 0x06, 0x0b],
        [0x0b, 0xc4, 0x7d, 0x36, 0x9f, 0x58, 0x11, 0x7a, 0x33, 0xec, 0x55, 0x0e, 0xc7, 0x30, 0xe9, 0xa2],
        [0xd4, 0xbf, 0x5d, 0x30, 0xd4, 0xbf, 0x5d, 0x30, 0xd4, 0xbf, 0x5d, 0x30, 0xd4, 0xbf, 0x5d, 0x30],
    ]);
}

#[test]
fn mixes_columns() {
    let mut batch = Batch::from_bytes(&BLOCKS);
    batch.mix_columns();
    assert_eq!(bytes_of(batch), [
        [0x22, 0x77, 0x00, 0x55, 0x66, 0x33, 0x44, 0x11, 0xaa, 0xff, 0x88, 0xdd, 0xee, 0xbb, 0xcc, 0x99],
        [0x02, 0x07, 0x00, 0x05, 0x06, 0x03, 0x04, 0x01, 0x0a, 0x0f, 0x08, 0x0d, 0x0e, 0x0b, 0x0c, 0x09],
        [0x69, 0xee, 0x1f, 0x8c, 0x95, 0x22, 0x80, 0x8b, 0x51, 0xa6, 0x6c, 0x2f, 0x9d, 0x01, 0x53, 0xc3],
        [0x04, 0x66, 0x81, 0xe5, 0x04, 0x66, 0x81, 0xe5, 0x04, 0x66, 0x81, 0xe5, 0x04, 0x66, 0x81, 0xe5],
    ]);
}

#[test]
fn adds_round_keys() {
    let mut batch = Batch::from_bytes(&BLOCKS);
    let key = Batch::from_bytes(&[BLOCKS[3], BLOCKS[2], BLOCKS[1], BLOCKS[0]]);
    batch.add_round_key(&key);
    assert_eq!(bytes_of(batch), [
        [0xd4, 0xae, 0x7f, 0x03, 0x90, 0xea, 0x3b, 0x47, 0x5c, 0x26, 0xf7, 0x8b, 0x18, 0x62, 0xb3, 0xcf],
        [0x0b, 0x31, 0x57, 0x79, 0x9b, 0xc1, 0xef, 0x09, 0x3b, 0x51, 0x77, 0xa9, 0xcb, 0xe1, 0x1f, 0x39],
        [0x0b, 0x31, 0x57, 0x79, 0x9b, 0xc1, 0xef, 0x09, 0x3b, 0x51, 0x77, 0xa9, 0xcb, 0xe1, 0x1f, 0x39],
        [0xd4, 0xae, 0x7f, 0x03, 0x90, 0xea, 0x3b, 0x47, 0x5c, 0x26, 0xf7, 0x8b, 0x18, 0x62, 0xb3, 0xcf],
    ]);
}

#[test]
fn encrypts_blocks_on_their_own() {
    let mut key_bytes = [0u8; 16];
    for i in 0..16 {
        key_bytes[i] = i as u8;
    }
    let mut key = AES_KEY { rd_key: [[0; 4]; MAX_ROUND_KEYS], rounds: 0 };
    set_encrypt_key(&mut key, KeyBytes::AES_128(&key_bytes));
    let schedule = Schedule::expand_round_keys(&key);
    let expected = [
        [0x69, 0xc4, 0xe0, 0xd8, 0x6a, 0x7b, 0x04, 0x30, 0xd8, 0xcd, 0xb7, 0x80, 0x70, 0xb4, 0xc5, 0x5a],
        [0x0a, 0x94, 0x0b, 0xb5, 0x41, 0x6e, 0xf0, 0x45, 0xf1, 0xc3, 0x94, 0x58, 0xc6, 0x53, 0xea, 0x5a],
        [0x26, 0x01, 0x7e, 0x8f, 0xf8, 0x3c, 0x5b, 0x3d, 0xf9, 0x93, 0xc6, 0x8d, 0xaf, 0xf0, 0x5f, 0x03],
        [0x6c, 0xbb, 0xe4, 0xec, 0x82, 0xa6, 0x7c, 0xb4, 0xd3, 0x08, 0x87, 0xe4, 0xdf, 0x08, 0x40, 0x8c],
    ];
    for n in 0..5 {
        let mut out = vec![[0u8; 16]; n];
        Batch::from_bytes(&BLOCKS[..n]).encrypt(&schedule, 10, &mut out);
        assert_eq!(out, expected[..n]);
    }
}

#[test]
fn schedule_holds_copies_of_round_keys() {
    let mut key = AES_KEY { rd_key: [[0; 4]; MAX_ROUND_KEYS], rounds: 0 };
    set_encrypt_key(&mut key, KeyBytes::AES_128(&BLOCKS[0]));
    let schedule = Schedule::expand_round_keys(&key);
    assert_eq!(bytes_of(schedule.keys[0]), [BLOCKS[0]; 4]);
    assert_eq!(bytes_of(schedule.keys[10]), [[0x36, 0xd0, 0x24, 0x46, 0x1d, 0x84, 0xb8, 0x37, 0x5f, 0xc0, 0xf9, 0xc0, 0x4c, 0xba, 0xb6, 0xbb]; 4]);
}

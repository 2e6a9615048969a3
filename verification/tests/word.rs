use aes_nohw::sbox::sub_words;
use aes_nohw::word::{rotate_rows_down, rotate_rows_twice, shift_left, shift_right, swap_bits};

const V: u64 = 0x0123_4567_89ab_cdef;

#[test]
fn shifts_by_bytes_of_the_state() {
    assert_eq!(shift_left::<0>(V), V);
    assert_eq!(shift_left::<4>(V), 0x4567_89ab_cdef_0000);
    assert_eq!(shift_left::<15>(V), 0xf000_0000_0000_0000);
    assert_eq!(shift_right::<4>(V), 0x0000_0123_4567_89ab);
    assert_eq!(shift_right::<12>(V), 0x0123);
}

#[test]
fn rotates_columns() {
    assert_eq!(rotate_rows_down(V), 0x3012_7456_b89a_fcde);
    assert_eq!(rotate_rows_twice(V), 0x2301_6745_ab89_efcd);
    assert_eq!(rotate_rows_twice(V), rotate_rows_down(rotate_rows_down(V)));
}

#[test]
fn swaps_bits_of_two_words() {
    let mut w = [0u64; 8];
    w[2] = 0xaaaa_aaaa_aaaa_aaaa;
    w[5] = 0x5555_5555_5555_5555 & V;
    swap_bits::<2, 5, 0x55, 1>(&mut w);
    assert_eq!(w[5], 0x5555_5555_5555_5555);
    assert_eq!(w[2], (0x5555_5555_5555_5555 & V) << 1);
    assert_eq!(w[0], 0);
}

#[test]
fn swapping_twice_restores() {
    let before = [V, !V, 3, V << 7, V >> 9, 0, u64::MAX, 1];
    let mut w = before;
    swap_bits::<1, 3, 0x33, 2>(&mut w);
    assert_ne!(w, before);
    swap_bits::<1, 3, 0x33, 2>(&mut w);
    assert_eq!(w, before);
}

#[test]
fn swaps_bits_within_a_word() {
    let mut w = [0b0110u64; 8];
    swap_bits::<4, 4, 0x55, 1>(&mut w);
    assert_eq!(w[4], 0b1001);
    assert_eq!(w[3], 0b0110);
}

#[test]
fn substitutes_in_all_positions() {
    assert_eq!(sub_words(&[0; 8]), [u64::MAX, u64::MAX, 0, 0, 0, u64::MAX, u64::MAX, 0]);
    assert_eq!(sub_words(&[u64::MAX; 8]), [0, u64::MAX, u64::MAX, 0, u64::MAX, 0, 0, 0]);
}

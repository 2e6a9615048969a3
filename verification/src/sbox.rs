//! The byte substitution as a circuit of gates on bit slices.
use vstd::prelude::*;
use crate::bits::{bit, bit8, lemma_pack8_bits, pack8, slice_byte};
use crate::field::{gf_inv, gf_mul, lemma_inverse_unique, lemma_no_zero_divisors};
use crate::inverse::law_unsub_byte;

verus! {

/// The byte `x` rotated left by `n` bits.
pub open spec fn rotl8(x: u8, n: u8) -> u8 {
    (x << n) | (x >> ((8 - n) as u8))
}

/// The affine map over the bits of a byte that ends the byte substitution.
#[verifier::opaque]
pub open spec fn affine(y: u8) -> u8 {
    y ^ rotl8(y, 1) ^ rotl8(y, 2) ^ rotl8(y, 3) ^ rotl8(y, 4) ^ 0x63
}

/// The map that undoes `affine`.
#[verifier::opaque]
pub open spec fn affine_inverse(s: u8) -> u8 {
    rotl8(s, 1) ^ rotl8(s, 3) ^ rotl8(s, 6) ^ 0x05
}

/// The AES byte substitution: the inverse in the field, followed by an affine
/// map over the bits.
pub open spec fn sub_byte(x: u8) -> u8 {
    affine(gf_inv(x))
}

/// The gates of `sub_words` on the bits of one byte, `x0` being the most
/// significant one.
#[verifier::opaque]
pub open spec fn sub_circuit(
    x0: bool,
    x1: bool,
    x2: bool,
    x3: bool,
    x4: bool,
    x5: bool,
    x6: bool,
    x7: bool,
) -> u8 {
    let y14 = x3 ^ x5;
    let y13 = x0 ^ x6;
    let y9 = x0 ^ x3;
    let y8 = x0 ^ x5;
    let t0 = x1 ^ x2;
    let y1 = t0 ^ x7;
    let y4 = y1 ^ x3;
    let y12 = y13 ^ y14;
    let y2 = y1 ^ x0;
    let y5 = y1 ^ x6;
    let y3 = y5 ^ y8;
    let t1 = x4 ^ y12;
    let y15 = t1 ^ x5;
    let y20 = t1 ^ x1;
    let y6 = y15 ^ x7;
    let y10 = y15 ^ t0;
    let y11 = y20 ^ y9;
    let y7 = x7 ^ y11;
    let y17 = y10 ^ y11;
    let y19 = y10 ^ y8;
    let y16 = t0 ^ y11;
    let y21 = y13 ^ y16;
    let y18 = x0 ^ y16;
    let t2 = y12 && y15;
    let t3 = y3 && y6;
    let t4 = t3 ^ t2;
    let t5 = y4 && x7;
    let t6 = t5 ^ t2;
    let t7 = y13 && y16;
    let t8 = y5 && y1;
    let t9 = t8 ^ t7;
    let t10 = y2 && y7;
    let t11 = t10 ^ t7;
    let t12 = y9 && y11;
    let t13 = y14 && y17;
    let t14 = t13 ^ t12;
    let t15 = y8 && y10;
    let t16 = t15 ^ t12;
    let t17 = t4 ^ t14;
    let t18 = t6 ^ t16;
    let t19 = t9 ^ t14;
    let t20 = t11 ^ t16;
    let t21 = t17 ^ y20;
    let t22 = t18 ^ y19;
    let t23 = t19 ^ y21;
    let t24 = t20 ^ y18;
    let t25 = t21 ^ t22;
    let t26 = t21 && t23;
    let t27 = t24 ^ t26;
    let t28 = t25 && t27;
    let t29 = t28 ^ t22;
    let t30 = t23 ^ t24;
    let t31 = t22 ^ t26;
    let t32 = t31 && t30;
    let t33 = t32 ^ t24;
    let t34 = t23 ^ t33;
    let t35 = t27 ^ t33;
    let t36 = t24 && t35;
    let t37 = t36 ^ t34;
    let t38 = t27 ^ t36;
    let t39 = t29 && t38;
    let t40 = t25 ^ t39;
    let t41 = t40 ^ t37;
    let t42 = t29 ^ t33;
    let t43 = t29 ^ t40;
    let t44 = t33 ^ t37;
    let t45 = t42 ^ t41;
    let z0 = t44 && y15;
    let z1 = t37 && y6;
    let z2 = t33 && x7;
    let z3 = t43 && y16;
    let z4 = t40 && y1;
    let z5 = t29 && y7;
    let z6 = t42 && y11;
    let z7 = t45 && y17;
    let z8 = t41 && y10;
    let z9 = t44 && y12;
    let z10 = t37 && y3;
    let z11 = t33 && y4;
    let z12 = t43 && y13;
    let z13 = t40 && y5;
    let z14 = t29 && y2;
    let z15 = t42 && y9;
    let z16 = t45 && y14;
    let z17 = t41 && y8;
    let t46 = z15 ^ z16;
    let t47 = z10 ^ z11;
    let t48 = z5 ^ z13;
    let t49 = z9 ^ z10;
    let t50 = z2 ^ z12;
    let t51 = z2 ^ z5;
    let t52 = z7 ^ z8;
    let t53 = z0 ^ z3;
    let t54 = z6 ^ z7;
    let t55 = z16 ^ z17;
    let t56 = z12 ^ t48;
    let t57 = t50 ^ t53;
    let t58 = z4 ^ t46;
    let t59 = z3 ^ t54;
    let t60 = t46 ^ t57;
    let t61 = z14 ^ t57;
    let t62 = t52 ^ t58;
    let t63 = t49 ^ t58;
    let t64 = z4 ^ t59;
    let t65 = t61 ^ t62;
    let t66 = z1 ^ t63;
    let s0 = t59 ^ t63;
    let s6 = !(t56 ^ t62);
    let s7 = !(t48 ^ t60);
    let t67 = t64 ^ t65;
    let s3 = t53 ^ t66;
    let s4 = t51 ^ t66;
    let s5 = t47 ^ t65;
    let s1 = !(t64 ^ s3);
    let s2 = !(t55 ^ t67);
    pack8(s7, s6, s5, s4, s3, s2, s1, s0)
}

/// On every byte the gates give the image under `affine` of an inverse.
proof fn lemma_sub_circuit_inverts(
    x0: bool,
    x1: bool,
    x2: bool,
    x3: bool,
    x4: bool,
    x5: bool,
    x6: bool,
    x7: bool,
    x: u8,
    s: u8,
    y: u8,
)
    requires
        x == pack8(x7, x6, x5, x4, x3, x2, x1, x0),
        s == sub_circuit(x0, x1, x2, x3, x4, x5, x6, x7),
        y == affine_inverse(s),
    ensures
        s == affine(y),
        x != 0 ==> gf_mul(x, y) == 1,
        x == 0 ==> y == 0,
{
    reveal(pack8);
    reveal(sub_circuit);
    reveal(affine);
    reveal(affine_inverse);
    reveal(gf_mul);
    assert(s == affine(y) && (x != 0 ==> gf_mul(x, y) == 1) && (x == 0 ==> y == 0))
        by (bit_vector)
        requires
            x == pack8(x7, x6, x5, x4, x3, x2, x1, x0),
            s == sub_circuit(x0, x1, x2, x3, x4, x5, x6, x7),
            y == affine_inverse(s),
    ;
}

/// The gates compute the byte substitution.
pub proof fn lemma_sub_circuit(
    x0: bool,
    x1: bool,
    x2: bool,
    x3: bool,
    x4: bool,
    x5: bool,
    x6: bool,
    x7: bool,
)
    ensures
        sub_circuit(x0, x1, x2, x3, x4, x5, x6, x7) == sub_byte(
            pack8(x7, x6, x5, x4, x3, x2, x1, x0),
        ),
{
    let x = pack8(x7, x6, x5, x4, x3, x2, x1, x0);
    let s = sub_circuit(x0, x1, x2, x3, x4, x5, x6, x7);
    let y = affine_inverse(s);
    lemma_sub_circuit_inverts(x0, x1, x2, x3, x4, x5, x6, x7, x, s, y);
    if x != 0 {
        lemma_inverse_unique(x, y);
    }
}

/// Every nonzero element has an inverse: their product is one.
pub proof fn law_inverse(a: u8)
    requires
        a != 0,
    ensures
        gf_mul(a, gf_inv(a)) == 1,
        gf_inv(a) != 0,
{
    let (b0, b1, b2, b3) = (bit8(a, 0), bit8(a, 1), bit8(a, 2), bit8(a, 3));
    let (b4, b5, b6, b7) = (bit8(a, 4), bit8(a, 5), bit8(a, 6), bit8(a, 7));
    let s = sub_circuit(b7, b6, b5, b4, b3, b2, b1, b0);
    lemma_pack8_bits(a);
    lemma_sub_circuit_inverts(b7, b6, b5, b4, b3, b2, b1, b0, a, s, affine_inverse(s));
    lemma_no_zero_divisors(a, gf_inv(a));
}

/// Bit `i` of a substituted byte is the sum of bit `i` and of the bits four,
/// five, six and seven places further, counted round the byte, of the inverse
/// `y` of the byte, and of bit `i` of 0x63. For zero the inverse is zero.
pub proof fn law_sub_byte(x: u8, y: u8, i: u8)
    requires
        i < 8,
        (x == 0 && y == 0) || gf_mul(x, y) == 1,
    ensures
        ((sub_byte(x) >> i) & 1) == ((y >> i) & 1) ^ ((y >> (((i + 4) % 8) as u8)) & 1) ^ ((y >> (((i
            + 5) % 8) as u8)) & 1) ^ ((y >> (((i + 6) % 8) as u8)) & 1) ^ ((y >> (((i + 7) % 8)
            as u8)) & 1) ^ ((0x63u8 >> i) & 1),
{
    if x != 0 {
        lemma_inverse_unique(x, y);
    } else {
        lemma_no_zero_divisors(x, y);
    }
    reveal(affine);
    assert(((affine(y) >> i) & 1) == ((y >> i) & 1) ^ ((y >> (((i + 4) % 8) as u8)) & 1) ^ ((y >> (((i
            + 5) % 8) as u8)) & 1) ^ ((y >> (((i + 6) % 8) as u8)) & 1) ^ ((y >> (((i + 7) % 8)
            as u8)) & 1) ^ ((0x63u8 >> i) & 1)) by (bit_vector)
        requires
            i < 8,
    ;
}

/// `affine_inverse` undoes `affine`.
pub proof fn lemma_affine_inverse(y: u8)
    ensures
        affine_inverse(affine(y)) == y,
{
    reveal(affine);
    reveal(affine_inverse);
    assert(affine_inverse(affine(y)) == y) by (bit_vector);
}

/// The byte substitution maps different bytes to different bytes.
pub proof fn law_sub_byte_injective(a: u8, b: u8)
    requires
        sub_byte(a) == sub_byte(b),
    ensures
        a == b,
{
    law_unsub_byte(a);
    law_unsub_byte(b);
}

/// Applies the byte substitution to the 64 bytes whose bits the eight words
/// hold, position by position.
pub fn sub_words(w: &[u64; 8]) -> (r: [u64; 8])
    ensures
        forall|q: int|
            0 <= q < 64 ==> #[trigger] slice_byte(r@, q) == sub_byte(slice_byte(w@, q)),
{
    let x0: u64 = w[7];
    let x1: u64 = w[6];
    let x2: u64 = w[5];
    let x3: u64 = w[4];
    let x4: u64 = w[3];
    let x5: u64 = w[2];
    let x6: u64 = w[1];
    let x7: u64 = w[0];
    let y14: u64 = x3 ^ x5;
    let y13: u64 = x0 ^ x6;
    let y9: u64 = x0 ^ x3;
    let y8: u64 = x0 ^ x5;
    let t0: u64 = x1 ^ x2;
    let y1: u64 = t0 ^ x7;
    let y4: u64 = y1 ^ x3;
    let y12: u64 = y13 ^ y14;
    let y2: u64 = y1 ^ x0;
    let y5: u64 = y1 ^ x6;
    let y3: u64 = y5 ^ y8;
    let t1: u64 = x4 ^ y12;
    let y15: u64 = t1 ^ x5;
    let y20: u64 = t1 ^ x1;
    let y6: u64 = y15 ^ x7;
    let y10: u64 = y15 ^ t0;
    let y11: u64 = y20 ^ y9;
    let y7: u64 = x7 ^ y11;
    let y17: u64 = y10 ^ y11;
    let y19: u64 = y10 ^ y8;
    let y16: u64 = t0 ^ y11;
    let y21: u64 = y13 ^ y16;
    let y18: u64 = x0 ^ y16;
    let t2: u64 = y12 & y15;
    let t3: u64 = y3 & y6;
    let t4: u64 = t3 ^ t2;
    let t5: u64 = y4 & x7;
    let t6: u64 = t5 ^ t2;
    let t7: u64 = y13 & y16;
    let t8: u64 = y5 & y1;
    let t9: u64 = t8 ^ t7;
    let t10: u64 = y2 & y7;
    let t11: u64 = t10 ^ t7;
    let t12: u64 = y9 & y11;
    let t13: u64 = y14 & y17;
    let t14: u64 = t13 ^ t12;
    let t15: u64 = y8 & y10;
    let t16: u64 = t15 ^ t12;
    let t17: u64 = t4 ^ t14;
    let t18: u64 = t6 ^ t16;
    let t19: u64 = t9 ^ t14;
    let t20: u64 = t11 ^ t16;
    let t21: u64 = t17 ^ y20;
    let t22: u64 = t18 ^ y19;
    let t23: u64 = t19 ^ y21;
    let t24: u64 = t20 ^ y18;
    let t25: u64 = t21 ^ t22;
    let t26: u64 = t21 & t23;
    let t27: u64 = t24 ^ t26;
    let t28: u64 = t25 & t27;
    let t29: u64 = t28 ^ t22;
    let t30: u64 = t23 ^ t24;
    let t31: u64 = t22 ^ t26;
    let t32: u64 = t31 & t30;
    let t33: u64 = t32 ^ t24;
    let t34: u64 = t23 ^ t33;
    let t35: u64 = t27 ^ t33;
    let t36: u64 = t24 & t35;
    let t37: u64 = t36 ^ t34;
    let t38: u64 = t27 ^ t36;
    let t39: u64 = t29 & t38;
    let t40: u64 = t25 ^ t39;
    let t41: u64 = t40 ^ t37;
    let t42: u64 = t29 ^ t33;
    let t43: u64 = t29 ^ t40;
    let t44: u64 = t33 ^ t37;
    let t45: u64 = t42 ^ t41;
    let z0: u64 = t44 & y15;
    let z1: u64 = t37 & y6;
    let z2: u64 = t33 & x7;
    let z3: u64 = t43 & y16;
    let z4: u64 = t40 & y1;
    let z5: u64 = t29 & y7;
    let z6: u64 = t42 & y11;
    let z7: u64 = t45 & y17;
    let z8: u64 = t41 & y10;
    let z9: u64 = t44 & y12;
    let z10: u64 = t37 & y3;
    let z11: u64 = t33 & y4;
    let z12: u64 = t43 & y13;
    let z13: u64 = t40 & y5;
    let z14: u64 = t29 & y2;
    let z15: u64 = t42 & y9;
    let z16: u64 = t45 & y14;
    let z17: u64 = t41 & y8;
    let t46: u64 = z15 ^ z16;
    let t47: u64 = z10 ^ z11;
    let t48: u64 = z5 ^ z13;
    let t49: u64 = z9 ^ z10;
    let t50: u64 = z2 ^ z12;
    let t51: u64 = z2 ^ z5;
    let t52: u64 = z7 ^ z8;
    let t53: u64 = z0 ^ z3;
    let t54: u64 = z6 ^ z7;
    let t55: u64 = z16 ^ z17;
    let t56: u64 = z12 ^ t48;
    let t57: u64 = t50 ^ t53;
    let t58: u64 = z4 ^ t46;
    let t59: u64 = z3 ^ t54;
    let t60: u64 = t46 ^ t57;
    let t61: u64 = z14 ^ t57;
    let t62: u64 = t52 ^ t58;
    let t63: u64 = t49 ^ t58;
    let t64: u64 = z4 ^ t59;
    let t65: u64 = t61 ^ t62;
    let t66: u64 = z1 ^ t63;
    let s0: u64 = t59 ^ t63;
    let s6: u64 = !(t56 ^ t62);
    let s7: u64 = !(t48 ^ t60);
    let t67: u64 = t64 ^ t65;
    let s3: u64 = t53 ^ t66;
    let s4: u64 = t51 ^ t66;
    let s5: u64 = t47 ^ t65;
    let s1: u64 = !(t64 ^ s3);
    let s2: u64 = !(t55 ^ t67);
    let r: [u64; 8] = [s7, s6, s5, s4, s3, s2, s1, s0];
    proof {
        assert forall|q: int| 0 <= q < 64 implies #[trigger] slice_byte(r@, q) == sub_byte(
            slice_byte(w@, q),
        ) by {
            broadcast use crate::bits::group_bits;

            reveal(sub_circuit);
            lemma_sub_circuit(
                bit(x0, q),
                bit(x1, q),
                bit(x2, q),
                bit(x3, q),
                bit(x4, q),
                bit(x5, q),
                bit(x6, q),
                bit(x7, q),
            );
        }
    }
    r
}

} // verus!

//! The field of 256 elements in which the AES byte substitution and the
//! column mixing are defined.
use vstd::prelude::*;

verus! {

/// The product of `a` and the polynomial `x`, reduced by
/// `x^8 + x^4 + x^3 + x + 1`.
pub open spec fn xtime(a: u8) -> u8 {
    if a & 0x80 != 0 {
        (a << 1) ^ 0x1b
    } else {
        a << 1
    }
}

/// The product of `a` and the coefficient of `x^i` in `b`.
pub open spec fn partial_product(a: u8, b: u8, i: u8) -> u8 {
    if (b >> i) & 1 != 0 {
        a
    } else {
        0
    }
}

/// The product of two field elements: the sum, over the coefficients of `b`,
/// of the shifted copies of `a`.
#[verifier::opaque]
pub open spec fn gf_mul(a: u8, b: u8) -> u8 {
    let a1 = xtime(a);
    let a2 = xtime(a1);
    let a3 = xtime(a2);
    let a4 = xtime(a3);
    let a5 = xtime(a4);
    let a6 = xtime(a5);
    let a7 = xtime(a6);
    partial_product(a, b, 0) ^ partial_product(a1, b, 1) ^ partial_product(a2, b, 2)
        ^ partial_product(a3, b, 3) ^ partial_product(a4, b, 4) ^ partial_product(a5, b, 5)
        ^ partial_product(a6, b, 6) ^ partial_product(a7, b, 7)
}

/// The multiplicative inverse of a nonzero element, and zero for zero.
pub open spec fn gf_inv(a: u8) -> u8 {
    if a == 0 {
        0
    } else {
        choose|b: u8| gf_mul(a, b) == 1
    }
}

/// Multiplication distributes over addition.
pub proof fn lemma_mul_distributes(a: u8, b: u8, c: u8)
    ensures
        gf_mul(a, b) ^ gf_mul(a, c) == gf_mul(a, b ^ c),
{
    reveal(gf_mul);
    assert(gf_mul(a, b) ^ gf_mul(a, c) == gf_mul(a, b ^ c)) by (bit_vector);
}

/// Multiplication distributes over addition, in the first factor too.
pub proof fn lemma_mul_distributes_left(a: u8, b: u8, c: u8)
    ensures
        gf_mul(a, c) ^ gf_mul(b, c) == gf_mul(a ^ b, c),
{
    reveal(gf_mul);
    let a1 = xtime(a);
    let a2 = xtime(a1);
    let a3 = xtime(a2);
    let a4 = xtime(a3);
    let a5 = xtime(a4);
    let a6 = xtime(a5);
    let a7 = xtime(a6);
    let b1 = xtime(b);
    let b2 = xtime(b1);
    let b3 = xtime(b2);
    let b4 = xtime(b3);
    let b5 = xtime(b4);
    let b6 = xtime(b5);
    let b7 = xtime(b6);
    lemma_xtime_distributes(a, b);
    lemma_xtime_distributes(a1, b1);
    lemma_xtime_distributes(a2, b2);
    lemma_xtime_distributes(a3, b3);
    lemma_xtime_distributes(a4, b4);
    lemma_xtime_distributes(a5, b5);
    lemma_xtime_distributes(a6, b6);
    assert((
        partial_product(a, c, 0)
            ^ partial_product(a1, c, 1)
            ^ partial_product(a2, c, 2)
            ^ partial_product(a3, c, 3)
            ^ partial_product(a4, c, 4)
            ^ partial_product(a5, c, 5)
            ^ partial_product(a6, c, 6)
            ^ partial_product(a7, c, 7)
    ) ^ (
        partial_product(b, c, 0)
            ^ partial_product(b1, c, 1)
            ^ partial_product(b2, c, 2)
            ^ partial_product(b3, c, 3)
            ^ partial_product(b4, c, 4)
            ^ partial_product(b5, c, 5)
            ^ partial_product(b6, c, 6)
            ^ partial_product(b7, c, 7)
    ) == (
        partial_product(a ^ b, c, 0)
            ^ partial_product(a1 ^ b1, c, 1)
            ^ partial_product(a2 ^ b2, c, 2)
            ^ partial_product(a3 ^ b3, c, 3)
            ^ partial_product(a4 ^ b4, c, 4)
            ^ partial_product(a5 ^ b5, c, 5)
            ^ partial_product(a6 ^ b6, c, 6)
            ^ partial_product(a7 ^ b7, c, 7)
    )) by (bit_vector);
}

/// Multiplication by `x` distributes over addition.
pub proof fn lemma_xtime_distributes(a: u8, b: u8)
    ensures
        xtime(a) ^ xtime(b) == xtime(a ^ b),
{
    assert(xtime(a) ^ xtime(b) == xtime(a ^ b)) by (bit_vector);
}

/// A product is zero only where a factor is.
pub proof fn lemma_no_zero_divisors(a: u8, b: u8)
    ensures
        gf_mul(a, b) == 0 <==> a == 0 || b == 0,
{
    reveal(gf_mul);
    assert(gf_mul(a, b) == 0 <==> a == 0 || b == 0) by (bit_vector);
}

/// There is at most one inverse: an element that yields one is the inverse.
pub proof fn lemma_inverse_unique(a: u8, b: u8)
    requires
        gf_mul(a, b) == 1,
    ensures
        a != 0,
        gf_inv(a) == b,
{
    lemma_no_zero_divisors(a, b);
    let c = gf_inv(a);
    assert(gf_mul(a, c) == 1);
    lemma_mul_distributes(a, b, c);
    lemma_no_zero_divisors(a, b ^ c);
    lemma_sum_zero(gf_mul(a, b), gf_mul(a, c));
    lemma_sum_zero(b, c);
}

/// The sum of two elements is zero if they are equal, and only then.
pub proof fn lemma_sum_zero(a: u8, b: u8)
    ensures
        a ^ b == 0 <==> a == b,
{
    assert(a ^ b == 0 <==> a == b) by (bit_vector);
}

/// Multiplication by `x` in numbers: twice the number, less 256 and with 27
/// added bit by bit where that is too large for a byte.
pub proof fn law_xtime(a: u8)
    ensures
        a < 128 ==> xtime(a) == 2 * a,
        a >= 128 ==> xtime(a) == ((2 * a - 256) as u8) ^ 27,
{
    assert({
        &&& a < 128 ==> xtime(a) == 2 * a
        &&& a >= 128 ==> xtime(a) == ((2 * a - 256) as u8) ^ 27
    }) by (bit_vector);
}

/// Multiplication is determined by what it does with one, with a factor of `x`
/// and with sums: one is neutral, a factor of `x` can be taken out, and products
/// with a sum are sums of products.
pub proof fn law_mul(a: u8, b: u8, c: u8)
    ensures
        gf_mul(a, 1) == a,
        gf_mul(a, 2) == xtime(a),
        gf_mul(a, 3) == xtime(a) ^ a,
        gf_mul(a, xtime(b)) == xtime(gf_mul(a, b)),
        gf_mul(a, b ^ c) == gf_mul(a, b) ^ gf_mul(a, c),
        gf_mul(a ^ b, c) == gf_mul(a, c) ^ gf_mul(b, c),
{
    lemma_mul_distributes(a, b, c);
    lemma_mul_distributes_left(a, b, c);
    lemma_mul_small(a);
    law_mul_commutes(a, b);
    law_mul_commutes(a, xtime(b));
    lemma_mul_xtime_left(b, a);
}

proof fn lemma_mul_small(a: u8)
    ensures
        gf_mul(a, 1) == a,
        gf_mul(a, 2) == xtime(a),
        gf_mul(a, 3) == xtime(a) ^ a,
{
    reveal(gf_mul);
    assert(gf_mul(a, 1) == a && gf_mul(a, 2) == xtime(a) && gf_mul(a, 3) == xtime(a) ^ a)
        by (bit_vector);
}

/// A factor of `x` can be taken out of the first factor.
proof fn lemma_mul_xtime_left(a: u8, b: u8)
    ensures
        gf_mul(xtime(a), b) == xtime(gf_mul(a, b)),
{
    reveal(gf_mul);
    law_xtime(0);
    let a1 = xtime(a);
    let a2 = xtime(a1);
    let a3 = xtime(a2);
    let a4 = xtime(a3);
    let a5 = xtime(a4);
    let a6 = xtime(a5);
    let a7 = xtime(a6);
    let p0 = partial_product(a, b, 0);
    let p1 = partial_product(a1, b, 1);
    let p2 = partial_product(a2, b, 2);
    let p3 = partial_product(a3, b, 3);
    let p4 = partial_product(a4, b, 4);
    let p5 = partial_product(a5, b, 5);
    let p6 = partial_product(a6, b, 6);
    let p7 = partial_product(a7, b, 7);
    lemma_xtime_distributes(p0, p1);
    lemma_xtime_distributes(p0 ^ p1, p2);
    lemma_xtime_distributes(p0 ^ p1 ^ p2, p3);
    lemma_xtime_distributes(p0 ^ p1 ^ p2 ^ p3, p4);
    lemma_xtime_distributes(p0 ^ p1 ^ p2 ^ p3 ^ p4, p5);
    lemma_xtime_distributes(p0 ^ p1 ^ p2 ^ p3 ^ p4 ^ p5, p6);
    lemma_xtime_distributes(p0 ^ p1 ^ p2 ^ p3 ^ p4 ^ p5 ^ p6, p7);
}

proof fn lemma_mul_basis(a: u8)
    ensures
        gf_mul(a, 1) == gf_mul(1, a),
        gf_mul(a, 2) == gf_mul(2, a),
        gf_mul(a, 4) == gf_mul(4, a),
        gf_mul(a, 8) == gf_mul(8, a),
        gf_mul(a, 16) == gf_mul(16, a),
        gf_mul(a, 32) == gf_mul(32, a),
        gf_mul(a, 64) == gf_mul(64, a),
        gf_mul(a, 128) == gf_mul(128, a),
{
    reveal(gf_mul);
    assert({
        &&& gf_mul(a, 1) == gf_mul(1, a)
        &&& gf_mul(a, 2) == gf_mul(2, a)
        &&& gf_mul(a, 4) == gf_mul(4, a)
        &&& gf_mul(a, 8) == gf_mul(8, a)
        &&& gf_mul(a, 16) == gf_mul(16, a)
        &&& gf_mul(a, 32) == gf_mul(32, a)
        &&& gf_mul(a, 64) == gf_mul(64, a)
        &&& gf_mul(a, 128) == gf_mul(128, a)
    }) by (bit_vector);
}

/// The order of factors makes no difference.
pub proof fn law_mul_commutes(a: u8, b: u8)
    ensures
        gf_mul(a, b) == gf_mul(b, a),
{
    let b0 = partial_product(1, b, 0);
    let b1 = partial_product(2, b, 1);
    let b2 = partial_product(4, b, 2);
    let b3 = partial_product(8, b, 3);
    let b4 = partial_product(16, b, 4);
    let b5 = partial_product(32, b, 5);
    let b6 = partial_product(64, b, 6);
    let b7 = partial_product(128, b, 7);
    assert(b == partial_product(1, b, 0) ^ partial_product(2, b, 1) ^ partial_product(4, b, 2) ^ partial_product(8, b, 3) ^ partial_product(16, b, 4) ^ partial_product(32, b, 5) ^ partial_product(64, b, 6) ^ partial_product(128, b, 7)) by (bit_vector);
    lemma_mul_basis(a);
    lemma_no_zero_divisors(a, 0);
    lemma_no_zero_divisors(0, a);
    lemma_mul_distributes(a, b0, b1);
    lemma_mul_distributes_left(b0, b1, a);
    lemma_mul_distributes(a, b0 ^ b1, b2);
    lemma_mul_distributes_left(b0 ^ b1, b2, a);
    lemma_mul_distributes(a, b0 ^ b1 ^ b2, b3);
    lemma_mul_distributes_left(b0 ^ b1 ^ b2, b3, a);
    lemma_mul_distributes(a, b0 ^ b1 ^ b2 ^ b3, b4);
    lemma_mul_distributes_left(b0 ^ b1 ^ b2 ^ b3, b4, a);
    lemma_mul_distributes(a, b0 ^ b1 ^ b2 ^ b3 ^ b4, b5);
    lemma_mul_distributes_left(b0 ^ b1 ^ b2 ^ b3 ^ b4, b5, a);
    lemma_mul_distributes(a, b0 ^ b1 ^ b2 ^ b3 ^ b4 ^ b5, b6);
    lemma_mul_distributes_left(b0 ^ b1 ^ b2 ^ b3 ^ b4 ^ b5, b6, a);
    lemma_mul_distributes(a, b0 ^ b1 ^ b2 ^ b3 ^ b4 ^ b5 ^ b6, b7);
    lemma_mul_distributes_left(b0 ^ b1 ^ b2 ^ b3 ^ b4 ^ b5 ^ b6, b7, a);
}

} // verus!

//! Arithmetic in GF(2^8), the field with 256 elements.
//!
//! The field is the one used by AES: polynomials over GF(2) modulo
//! x^8 + x^4 + x^3 + x + 1 (0x11B). Addition is exclusive or. The fountain,
//! Reed-Solomon and hierarchical codes are all linear algebra over it.
use crate::linear::{
    apart,
    cancels,
    dot,
    is_reduced,
    led_by,
    lemma_cancels_update,
    lemma_dot_combine,
    lemma_dot_scale,
    lemma_row_bounds,
    lemma_rows_len,
    lemma_rows_update,
    reduced,
    rows_at,
    rows_of,
    vec_combine,
    vec_scale,
};
use vstd::prelude::*;

verus! {

/// Number of elements of the field.
pub const GF_SIZE: usize = 256;

/// Multiplication by the polynomial x, reduced modulo 0x11B.
pub open spec fn xtime(a: u8) -> u8 {
    if a & 0x80u8 != 0 {
        (a << 1u8) ^ 0x1bu8
    } else {
        a << 1u8
    }
}

/// `a` where bit `i` of `b` is set, else zero.
pub open spec fn masked(a: u8, b: u8, i: u8) -> u8 {
    if (b >> i) & 1u8 == 1u8 {
        a
    } else {
        0u8
    }
}

/// The field product: the sum of `x^i * a` over the bits `i` set in `b`.
#[verifier::opaque]
pub open spec fn product(a: u8, b: u8) -> u8 {
    masked(a, b, 0) ^ masked(xtime(a), b, 1) ^ masked(xtime(xtime(a)), b, 2) ^ masked(
        xtime(xtime(xtime(a))),
        b,
        3,
    ) ^ masked(xtime(xtime(xtime(xtime(a)))), b, 4) ^ masked(
        xtime(xtime(xtime(xtime(xtime(a))))),
        b,
        5,
    ) ^ masked(xtime(xtime(xtime(xtime(xtime(xtime(a)))))), b, 6) ^ masked(
        xtime(xtime(xtime(xtime(xtime(xtime(xtime(a))))))),
        b,
        7,
    )
}

/// Doubling shifts the bits to the left; the one that falls out comes back as four
/// lower ones. A sum of doublings is what a product is.
pub proof fn doubling_shifts(a: u8, b: u8)
    ensures
        a < 128 ==> product(a, 2) == 2 * a,
        a >= 128 ==> product(a, 2) == ((2 * a - 256) as u8) ^ 0x1b,
        product(a, 2 ^ b) == product(a, 2) ^ product(a, b),
{
    reveal(product);
    assert((a < 128 ==> product(a, 2) == 2 * a) && (a >= 128 ==> product(a, 2) == ((2 * a - 256)
        as u8) ^ 0x1bu8)) by (bit_vector);
    product_distributes(a, 2, b);
}

/// Sums cancel: the field has characteristic two.
pub proof fn sum_laws(a: u8, b: u8, c: u8)
    ensures
        a ^ b == b ^ a,
        (a ^ b) ^ c == a ^ (b ^ c),
        a ^ 0 == a,
        0 ^ a == a,
        a ^ a == 0,
        a ^ b == 0 ==> a == b,
{
    assert(a ^ b == b ^ a && (a ^ b) ^ c == a ^ (b ^ c) && a ^ 0u8 == a && 0u8 ^ a == a && a ^ a
        == 0u8 && (a ^ b == 0u8 ==> a == b)) by (bit_vector);
}

/// Multiplication distributes over addition on the right operand.
pub proof fn product_distributes(a: u8, b: u8, c: u8)
    ensures
        product(a, b ^ c) == product(a, b) ^ product(a, c),
{
    reveal(product);
    assert(product(a, b ^ c) == product(a, b) ^ product(a, c)) by (bit_vector);
}

/// Multiplication by x is linear.
proof fn xtime_linear(a: u8, b: u8)
    ensures
        xtime(a ^ b) == xtime(a) ^ xtime(b),
{
    assert(xtime(a ^ b) == xtime(a) ^ xtime(b)) by (bit_vector);
}

/// Masking is linear.
proof fn masked_linear(a: u8, b: u8, c: u8, i: u8)
    ensures
        masked(a ^ b, c, i) == masked(a, c, i) ^ masked(b, c, i),
{
    sum_laws(0, 0, 0);
}

/// Multiplication distributes over addition on the left operand.
pub proof fn product_distributes_left(a: u8, b: u8, c: u8)
    ensures
        product(a ^ b, c) == product(a, c) ^ product(b, c),
{
    reveal(product);
    let a0 = a;
    let b0 = b;
    let a1 = xtime(a0);
    let b1 = xtime(b0);
    let a2 = xtime(a1);
    let b2 = xtime(b1);
    let a3 = xtime(a2);
    let b3 = xtime(b2);
    let a4 = xtime(a3);
    let b4 = xtime(b3);
    let a5 = xtime(a4);
    let b5 = xtime(b4);
    let a6 = xtime(a5);
    let b6 = xtime(b5);
    let a7 = xtime(a6);
    let b7 = xtime(b6);
    xtime_linear(a0, b0);
    xtime_linear(a1, b1);
    xtime_linear(a2, b2);
    xtime_linear(a3, b3);
    xtime_linear(a4, b4);
    xtime_linear(a5, b5);
    xtime_linear(a6, b6);
    masked_linear(a0, b0, c, 0);
    let x0 = masked(a0, c, 0);
    let y0 = masked(b0, c, 0);
    masked_linear(a1, b1, c, 1);
    let x1 = masked(a1, c, 1);
    let y1 = masked(b1, c, 1);
    masked_linear(a2, b2, c, 2);
    let x2 = masked(a2, c, 2);
    let y2 = masked(b2, c, 2);
    masked_linear(a3, b3, c, 3);
    let x3 = masked(a3, c, 3);
    let y3 = masked(b3, c, 3);
    masked_linear(a4, b4, c, 4);
    let x4 = masked(a4, c, 4);
    let y4 = masked(b4, c, 4);
    masked_linear(a5, b5, c, 5);
    let x5 = masked(a5, c, 5);
    let y5 = masked(b5, c, 5);
    masked_linear(a6, b6, c, 6);
    let x6 = masked(a6, c, 6);
    let y6 = masked(b6, c, 6);
    masked_linear(a7, b7, c, 7);
    let x7 = masked(a7, c, 7);
    let y7 = masked(b7, c, 7);
    assert((x0 ^ y0) ^ (x1 ^ y1) ^ (x2 ^ y2) ^ (x3 ^ y3) ^ (x4 ^ y4) ^ (x5 ^ y5) ^ (x6 ^ y6) ^ (x7 ^ y7) == (x0 ^ x1 ^ x2 ^ x3 ^ x4 ^ x5 ^ x6 ^ x7) ^ (y0 ^ y1 ^ y2 ^ y3 ^ y4 ^ y5 ^ y6 ^ y7)) by (bit_vector);
}

/// A single bit `bit`, taken where `a` has bit `i`, multiplies `b` as in `product(b, a)`.
proof fn product_of_bit(a: u8, b: u8, i: u8, bit: u8, shifted: u8)
    requires
        product(bit, b) == shifted,
    ensures
        product(masked(bit, a, i), b) == masked(shifted, a, i),
{
    reveal(product);
    product_units(b);
}

/// Multiplication commutes.
pub proof fn product_commutes(a: u8, b: u8)
    ensures
        product(a, b) == product(b, a),
{
    reveal(product);
    assert(product(1, b) == b && product(2, b) == xtime(b) && product(4, b) == xtime(xtime(b))
        && product(8, b) == xtime(xtime(xtime(b))) && product(16, b) == xtime(
        xtime(xtime(xtime(b))),
    ) && product(32, b) == xtime(xtime(xtime(xtime(xtime(b))))) && product(64, b) == xtime(
        xtime(xtime(xtime(xtime(xtime(b))))),
    ) && product(128, b) == xtime(xtime(xtime(xtime(xtime(xtime(xtime(b)))))))) by (bit_vector);
    assert(a == masked(1, a, 0) ^ masked(2, a, 1) ^ masked(4, a, 2) ^ masked(8, a, 3) ^ masked(
        16,
        a,
        4,
    ) ^ masked(32, a, 5) ^ masked(64, a, 6) ^ masked(128, a, 7)) by (bit_vector);
    let m0 = masked(1, a, 0);
    let m1 = m0 ^ masked(2, a, 1);
    let m2 = m1 ^ masked(4, a, 2);
    let m3 = m2 ^ masked(8, a, 3);
    let m4 = m3 ^ masked(16, a, 4);
    let m5 = m4 ^ masked(32, a, 5);
    let m6 = m5 ^ masked(64, a, 6);
    product_distributes_left(m0, masked(2, a, 1), b);
    product_distributes_left(m1, masked(4, a, 2), b);
    product_distributes_left(m2, masked(8, a, 3), b);
    product_distributes_left(m3, masked(16, a, 4), b);
    product_distributes_left(m4, masked(32, a, 5), b);
    product_distributes_left(m5, masked(64, a, 6), b);
    product_distributes_left(m6, masked(128, a, 7), b);
    product_of_bit(a, b, 0, 1, b);
    product_of_bit(a, b, 1, 2, xtime(b));
    product_of_bit(a, b, 2, 4, xtime(xtime(b)));
    product_of_bit(a, b, 3, 8, xtime(xtime(xtime(b))));
    product_of_bit(a, b, 4, 16, xtime(xtime(xtime(xtime(b)))));
    product_of_bit(a, b, 5, 32, xtime(xtime(xtime(xtime(xtime(b))))));
    product_of_bit(a, b, 6, 64, xtime(xtime(xtime(xtime(xtime(xtime(b)))))));
    product_of_bit(a, b, 7, 128, xtime(xtime(xtime(xtime(xtime(xtime(xtime(b))))))));
}

/// Multiplying one factor by x multiplies the product by x.
proof fn product_xtime(a: u8, b: u8)
    ensures
        product(xtime(a), b) == xtime(product(a, b)),
{
    reveal(product);
    assert(xtime(0) == 0) by (bit_vector);
    let a0 = a;
    let a1 = xtime(a0);
    let a2 = xtime(a1);
    let a3 = xtime(a2);
    let a4 = xtime(a3);
    let a5 = xtime(a4);
    let a6 = xtime(a5);
    let a7 = xtime(a6);
    let x0 = masked(a0, b, 0);
    let x1 = masked(a1, b, 1);
    let x2 = masked(a2, b, 2);
    let x3 = masked(a3, b, 3);
    let x4 = masked(a4, b, 4);
    let x5 = masked(a5, b, 5);
    let x6 = masked(a6, b, 6);
    let x7 = masked(a7, b, 7);
    assert(xtime(x0 ^ x1 ^ x2 ^ x3 ^ x4 ^ x5 ^ x6 ^ x7) == xtime(x0) ^ xtime(x1) ^ xtime(x2) ^ xtime(x3) ^ xtime(x4) ^ xtime(x5) ^ xtime(x6) ^ xtime(x7)) by (bit_vector);
}

/// Zero annihilates and one is neutral.
pub proof fn product_units(a: u8)
    ensures
        product(a, 0) == 0,
        product(0, a) == 0,
        product(a, 1) == a,
        product(1, a) == a,
{
    reveal(product);
    assert(product(a, 0) == 0 && product(0, a) == 0 && product(a, 1) == a && product(1, a) == a)
        by (bit_vector);
}

/// Both factors of a masked product can be exchanged with the mask.
proof fn product_of_masked(a: u8, b: u8, c: u8, i: u8)
    ensures
        product(masked(a, c, i), b) == masked(product(a, b), c, i),
{
    reveal(product);
    product_units(b);
}

/// `(a b) c == (a c) b`.
proof fn product_swaps(a: u8, b: u8, c: u8)
    ensures
        product(product(a, b), c) == product(product(a, c), b),
{
    reveal(product);
    let a1 = xtime(a);
    let a2 = xtime(a1);
    let a3 = xtime(a2);
    let a4 = xtime(a3);
    let a5 = xtime(a4);
    let a6 = xtime(a5);
    let a7 = xtime(a6);
    product_xtime(a, b);
    product_xtime(a1, b);
    product_xtime(a2, b);
    product_xtime(a3, b);
    product_xtime(a4, b);
    product_xtime(a5, b);
    product_xtime(a6, b);
    let m0 = masked(a, c, 0);
    let m1 = m0 ^ masked(a1, c, 1);
    let m2 = m1 ^ masked(a2, c, 2);
    let m3 = m2 ^ masked(a3, c, 3);
    let m4 = m3 ^ masked(a4, c, 4);
    let m5 = m4 ^ masked(a5, c, 5);
    let m6 = m5 ^ masked(a6, c, 6);
    product_distributes_left(m0, masked(a1, c, 1), b);
    product_distributes_left(m1, masked(a2, c, 2), b);
    product_distributes_left(m2, masked(a3, c, 3), b);
    product_distributes_left(m3, masked(a4, c, 4), b);
    product_distributes_left(m4, masked(a5, c, 5), b);
    product_distributes_left(m5, masked(a6, c, 6), b);
    product_distributes_left(m6, masked(a7, c, 7), b);
    product_of_masked(a, b, c, 0);
    product_of_masked(a1, b, c, 1);
    product_of_masked(a2, b, c, 2);
    product_of_masked(a3, b, c, 3);
    product_of_masked(a4, b, c, 4);
    product_of_masked(a5, b, c, 5);
    product_of_masked(a6, b, c, 6);
    product_of_masked(a7, b, c, 7);
}

/// Multiplication is associative.
pub proof fn product_associates(a: u8, b: u8, c: u8)
    ensures
        product(product(a, b), c) == product(a, product(b, c)),
{
    product_commutes(a, b);
    product_swaps(b, a, c);
    product_commutes(product(b, c), a);
}

/// The square of the square, and so on: `power_254(a)` is `a` to the 254th.
#[verifier::opaque]
pub open spec fn power_254(a: u8) -> u8 {
    let a2 = product(a, a);
    let a4 = product(a2, a2);
    let a8 = product(a4, a4);
    let a16 = product(a8, a8);
    let a32 = product(a16, a16);
    let a64 = product(a32, a32);
    let a128 = product(a64, a64);
    let b6 = product(a4, a2);
    let b14 = product(a8, b6);
    let b30 = product(a16, b14);
    let b62 = product(a32, b30);
    let b126 = product(a64, b62);
    product(a128, b126)
}

/// The multiplicative inverse, with `inverse(0) == 0`.
pub open spec fn inverse(a: u8) -> u8 {
    power_254(a)
}

/// Every nonzero element times its inverse is one.
pub proof fn inverse_law(a: u8)
    ensures
        a != 0 ==> product(a, inverse(a)) == 1 && inverse(a) != 0,
        inverse(0) == 0,
{
    reveal(product);
    reveal(power_254);
    let a2 = product(a, a);
    let a4 = product(a2, a2);
    let a8 = product(a4, a4);
    let a16 = product(a8, a8);
    let a32 = product(a16, a16);
    let a64 = product(a32, a32);
    let a128 = product(a64, a64);
    let b6 = product(a4, a2);
    let b14 = product(a8, b6);
    let b30 = product(a16, b14);
    let b62 = product(a32, b30);
    let b126 = product(a64, b62);
    let r = product(a128, b126);
    assert(a != 0 ==> product(a, r) == 1) by (bit_vector)
        requires
            a2 == product(a, a),
            a4 == product(a2, a2),
            a8 == product(a4, a4),
            a16 == product(a8, a8),
            a32 == product(a16, a16),
            a64 == product(a32, a32),
            a128 == product(a64, a64),
            b6 == product(a4, a2),
            b14 == product(a8, b6),
            b30 == product(a16, b14),
            b62 == product(a32, b30),
            b126 == product(a64, b62),
            r == product(a128, b126),
    ;
    product_units(a);
    product_units(0);
}

/// A nonzero product has nonzero factors, and the other way round.
pub proof fn product_zero(a: u8, b: u8)
    ensures
        product(a, b) == 0 <==> a == 0 || b == 0,
{
    product_units(a);
    product_units(b);
    if a != 0 && product(a, b) == 0 {
        inverse_law(a);
        product_associates(inverse(a), a, b);
        product_commutes(a, inverse(a));
        product_units(inverse(a));
    }
}

/// `x` times x, reduced.
#[inline]
fn times_x(a: u8) -> (r: u8)
    ensures
        r == xtime(a),
{
    if a & 0x80 != 0 {
        (a << 1) ^ 0x1b
    } else {
        a << 1
    }
}

/// `a` if bit `i` of `b` is set, else zero.
#[inline]
fn select(a: u8, b: u8, i: u8) -> (r: u8)
    requires
        i < 8,
    ensures
        r == masked(a, b, i),
{
    if (b >> i) & 1 == 1 {
        a
    } else {
        0
    }
}

/// Multiply in GF(2^8).
#[inline]
pub fn gf_mul(a: u8, b: u8) -> (r: u8)
    ensures
        r == product(a, b),
{
    proof {
        reveal(product);
    }
    let a1: u8 = times_x(a);
    let a2: u8 = times_x(a1);
    let a3: u8 = times_x(a2);
    let a4: u8 = times_x(a3);
    let a5: u8 = times_x(a4);
    let a6: u8 = times_x(a5);
    let a7: u8 = times_x(a6);
    select(a, b, 0) ^ select(a1, b, 1) ^ select(a2, b, 2) ^ select(a3, b, 3) ^ select(a4, b, 4)
        ^ select(a5, b, 5) ^ select(a6, b, 6) ^ select(a7, b, 7)
}

/// Add in GF(2^8), which is exclusive or.
#[inline]
pub fn gf_add(a: u8, b: u8) -> (r: u8)
    ensures
        r == a ^ b,
{
    a ^ b
}

/// Inverse in GF(2^8); zero, which has none, is sent to zero.
pub fn gf_inv(a: u8) -> (r: u8)
    ensures
        r == inverse(a),
        a != 0 ==> product(a, r) == 1,
        a == 0 ==> r == 0,
{
    proof {
        reveal(power_254);
        inverse_law(a);
    }
    let a2: u8 = gf_mul(a, a);
    let a4: u8 = gf_mul(a2, a2);
    let a8: u8 = gf_mul(a4, a4);
    let a16: u8 = gf_mul(a8, a8);
    let a32: u8 = gf_mul(a16, a16);
    let a64: u8 = gf_mul(a32, a32);
    let a128: u8 = gf_mul(a64, a64);
    let b6: u8 = gf_mul(a4, a2);
    let b14: u8 = gf_mul(a8, b6);
    let b30: u8 = gf_mul(a16, b14);
    let b62: u8 = gf_mul(a32, b30);
    let b126: u8 = gf_mul(a64, b62);
    gf_mul(a128, b126)
}

/// Divide in GF(2^8); division by zero gives zero.
pub fn gf_div(a: u8, b: u8) -> (r: u8)
    ensures
        r == product(a, inverse(b)),
        b != 0 ==> product(r, b) == a,
        b == 0 ==> r == 0,
{
    let i: u8 = gf_inv(b);
    proof {
        product_units(a);
        inverse_law(b);
        product_associates(a, i, b);
        product_commutes(i, b);
    }
    gf_mul(a, i)
}

/// Inverse, under the short name used by the linear algebra.
#[inline]
pub fn inv(a: u8) -> (r: u8)
    ensures
        r == inverse(a),
{
    gf_inv(a)
}

/// Field addition.
#[inline]
pub fn add(a: u8, b: u8) -> (r: u8)
    ensures
        r == a ^ b,
{
    gf_add(a, b)
}

/// Field multiplication.
#[inline]
pub fn mul(a: u8, b: u8) -> (r: u8)
    ensures
        r == product(a, b),
{
    gf_mul(a, b)
}

/// A byte is the sum of its low and its high nibble.
proof fn nibble_split(x: u8)
    ensures
        x & 0x0f < 16,
        x >> 4 < 16,
        x == (x & 0x0f) ^ ((x >> 4) << 4),
{
    assert(x & 0x0f < 16 && x >> 4 < 16 && x == (x & 0x0f) ^ ((x >> 4) << 4)) by (bit_vector);
}

/// The multiples of `a` by the low nibbles (entries 0 to 15) and by the high
/// nibbles (entries 16 to 31). Together they give every multiple of `a`.
fn mul_nibble_tables(a: u8) -> (t: [u8; 32])
    ensures
        forall|i: int| 0 <= i < 16 ==> t@[i] == #[trigger] product(a, i as u8),
        forall|i: int| 0 <= i < 16 ==> t@[16 + i] == product(a, #[trigger] ((i as u8) << 4)),
        forall|x: u8| #[trigger]
            product(a, x) == t@[(x & 0x0f) as int] ^ t@[16 + (x >> 4) as int],
{
    let mut t: [u8; 32] = [0u8;32];
    let mut i: usize = 0;
    while i < 16
        invariant
            i <= 16,
            forall|j: int| 0 <= j < i ==> t@[j] == #[trigger] product(a, j as u8),
            forall|j: int| 0 <= j < i ==> t@[16 + j] == product(a, #[trigger] ((j as u8) << 4)),
        decreases 16 - i,
    {
        t[i] = gf_mul(a, i as u8);
        t[16 + i] = gf_mul(a, (i as u8) << 4);
        i += 1;
    }
    proof {
        assert forall|x: u8| #[trigger] product(a, x) == t@[(x & 0x0f) as int] ^ t@[16 + (x
            >> 4) as int] by {
            nibble_split(x);
            product_distributes(a, x & 0x0f, (x >> 4) << 4);
            let l = (x & 0x0f) as int;
            let h = (x >> 4) as int;
            assert(t@[l] == product(a, l as u8));
            assert(t@[16 + h] == product(a, (h as u8) << 4));
        }
    }
    t
}

/// The row of 256 multiples of `a`.
pub fn mul_row(a: u8) -> (row: [u8; 256])
    ensures
        forall|x: int| 0 <= x < 256 ==> row@[x] == #[trigger] product(a, x as u8),
{
    let mut row: [u8; 256] = [0u8;256];
    let mut i: usize = 0;
    while i < 256
        invariant
            i <= 256,
            forall|x: int| 0 <= x < i ==> row@[x] == #[trigger] product(a, x as u8),
        decreases 256 - i,
    {
        row[i] = gf_mul(a, i as u8);
        i += 1;
    }
    row
}

/// `dst` with `a * src` added to it from position `from` on, as far as both reach.
pub open spec fn axpy_at(a: u8, src: Seq<u8>, dst: Seq<u8>, from: int) -> Seq<u8> {
    Seq::new(
        dst.len(),
        |i: int|
            if from <= i < from + src.len() {
                dst[i] ^ product(a, src[i - from])
            } else {
                dst[i]
            },
    )
}

/// Every entry of `dst` from `from` up to `to` multiplied by `a`.
pub open spec fn scal_at(a: u8, dst: Seq<u8>, from: int, to: int) -> Seq<u8> {
    Seq::new(
        dst.len(),
        |i: int|
            if from <= i < to {
                product(a, dst[i])
            } else {
                dst[i]
            },
    )
}

/// `dst[from + i] += a * src[i]` for every `i` that both slices hold.
fn axpy_range(a: u8, src: &[u8], dst: &mut [u8], from: usize)
    requires
        from <= old(dst)@.len(),
    ensures
        final(dst)@ == axpy_at(a, src@, old(dst)@, from as int),
{
    let room: usize = dst.len() - from;
    let n: usize = if src.len() < room {
        src.len()
    } else {
        room
    };
    proof {
        assert forall|x: u8| #[trigger] product(0, x) == 0 by {
            product_units(x);
        }
        assert forall|y: u8| #[trigger] (y ^ 0u8) == y by {
            sum_laws(y, 0, 0);
        }
        assert forall|x: u8| #[trigger] product(1, x) == x by {
            product_units(x);
        }
    }
    if a == 0 || n == 0 {
        assert(dst@ =~= axpy_at(a, src@, old(dst)@, from as int));
        return ;
    }
    let ghost before = dst@;
    if a == 1 {
        let mut i: usize = 0;
        while i < n
            invariant
                i <= n,
                n <= src@.len(),
                from + n <= dst@.len(),
                from + n <= usize::MAX,
                dst@.len() == before.len(),
                dst@ =~= axpy_at(1, src@.take(i as int), before, from as int),
                forall|x: u8| #[trigger] product(1, x) == x,
            decreases n - i,
        {
            dst[from + i] = dst[from + i] ^ src[i];
            i += 1;
        }
        assert(dst@ =~= axpy_at(a, src@, before, from as int));
        return ;
    }
    let tabs: [u8; 32] = mul_nibble_tables(a);
    let mut i: usize = 0;
    while i < n
        invariant
            i <= n,
            n <= src@.len(),
            from + n <= dst@.len(),
            from + n <= usize::MAX,
            dst@.len() == before.len(),
            dst@ =~= axpy_at(a, src@.take(i as int), before, from as int),
            forall|x: u8| #[trigger]
                product(a, x) == tabs@[(x & 0x0f) as int] ^ tabs@[16 + (x >> 4) as int],
        decreases n - i,
    {
        let x: u8 = src[i];
        proof {
            nibble_split(x);
        }
        let y: u8 = tabs[(x & 0x0f) as usize] ^ tabs[16 + (x >> 4) as usize];
        assert(y == product(a, x));
        dst[from + i] = dst[from + i] ^ y;
        i += 1;
    }
    assert(dst@ =~= axpy_at(a, src@, before, from as int));
}

/// `dst[i] = a * dst[i]` for `from <= i < to`.
fn scal_range(a: u8, dst: &mut [u8], from: usize, to: usize)
    requires
        from <= to <= old(dst)@.len(),
    ensures
        final(dst)@ == scal_at(a, old(dst)@, from as int, to as int),
{
    let ghost before = dst@;
    proof {
        assert forall|x: u8| #[trigger] product(0, x) == 0 by {
            product_units(x);
        }
        assert forall|x: u8| #[trigger] product(1, x) == x by {
            product_units(x);
        }
    }
    if a == 1 {
        assert(dst@ =~= scal_at(a, before, from as int, to as int));
        return ;
    }
    if a == 0 {
        let mut i: usize = from;
        while i < to
            invariant
                from <= i <= to,
                to <= dst@.len(),
                dst@ =~= scal_at(0, before, from as int, i as int),
                forall|x: u8| #[trigger] product(0, x) == 0,
            decreases to - i,
        {
            dst[i] = 0;
            i += 1;
        }
        return ;
    }
    let tabs: [u8; 32] = mul_nibble_tables(a);
    let mut i: usize = from;
    while i < to
        invariant
            from <= i <= to,
            to <= dst@.len(),
            dst@ =~= scal_at(a, before, from as int, i as int),
            forall|x: u8| #[trigger]
                product(a, x) == tabs@[(x & 0x0f) as int] ^ tabs@[16 + (x >> 4) as int],
        decreases to - i,
    {
        let x: u8 = dst[i];
        proof {
            nibble_split(x);
        }
        let y: u8 = tabs[(x & 0x0f) as usize] ^ tabs[16 + (x >> 4) as usize];
        assert(y == product(a, x));
        dst[i] = y;
        i += 1;
    }
}

/// `dst[i] += a * src[i]` over the positions both slices hold.
pub fn gf_axpy_slice(a: u8, src: &[u8], dst: &mut [u8])
    ensures
        final(dst)@ == axpy_at(a, src@, old(dst)@, 0),
{
    axpy_range(a, src, dst, 0);
}

/// `dst[i] = a * dst[i]` over the whole slice.
pub fn gf_scal_slice(a: u8, dst: &mut [u8])
    ensures
        final(dst)@ == scal_at(a, old(dst)@, 0, old(dst)@.len() as int),
{
    let n: usize = dst.len();
    scal_range(a, dst, 0, n);
}

/// `dst[i] += a * src[i]`, in the argument order of the linear algebra.
pub fn axpy(dst: &mut [u8], a: u8, src: &[u8])
    ensures
        final(dst)@ == axpy_at(a, src@, old(dst)@, 0),
{
    gf_axpy_slice(a, src, dst);
}

/// Scale a vector in place.
pub fn scal_inplace(dst: &mut [u8], a: u8)
    ensures
        final(dst)@ == scal_at(a, old(dst)@, 0, old(dst)@.len() as int),
{
    gf_scal_slice(a, dst);
}

/// Entry `t` of the combination of the first `n` rows, each taken as far as it
/// is long, with the coefficients `coeffs`.
pub open spec fn combination_at(coeffs: Seq<u8>, rows: Seq<Seq<u8>>, n: nat, t: int) -> u8
    decreases n,
{
    if n == 0 {
        0
    } else {
        let r = rows[n - 1];
        let term = if t < r.len() {
            product(coeffs[n - 1], r[t])
        } else {
            0u8
        };
        combination_at(coeffs, rows, (n - 1) as nat, t) ^ term
    }
}

/// The contents of a slice of byte slices.
pub open spec fn slices(rows: Seq<&[u8]>) -> Seq<Seq<u8>> {
    rows.map_values(|r: &[u8]| r@)
}

/// The linear combination `coeffs[0] * rows[0] + coeffs[1] * rows[1] + ..`, as
/// long as the first row; it stops where the coefficients or the rows end.
pub fn gf_dot(coeffs: &[u8], rows: &[&[u8]]) -> (out: Vec<u8>)
    ensures
        rows@.len() == 0 ==> out@.len() == 0,
        rows@.len() > 0 ==> out@.len() == rows@[0]@.len(),
        forall|t: int|
            0 <= t < out@.len() ==> out@[t] == #[trigger] combination_at(
                coeffs@,
                slices(rows@),
                vstd::math::min(coeffs@.len() as int, rows@.len() as int) as nat,
                t,
            ),
{
    if rows.len() == 0 {
        return Vec::new();
    }
    let len: usize = rows[0].len();
    let mut out: Vec<u8> = vec![0u8; len];
    let n: usize = if coeffs.len() < rows.len() {
        coeffs.len()
    } else {
        rows.len()
    };
    let mut i: usize = 0;
    while i < n
        invariant
            i <= n,
            n <= coeffs@.len(),
            n <= rows@.len(),
            out@.len() == len,
            forall|t: int|
                0 <= t < len ==> out@[t] == #[trigger] combination_at(
                    coeffs@,
                    slices(rows@),
                    i as nat,
                    t,
                ),
        decreases n - i,
    {
        let c: u8 = coeffs[i];
        let ghost before = out@;
        if c != 0 {
            gf_axpy_slice(c, rows[i], &mut out);
        }
        i += 1;
        proof {
            let r = rows@[i - 1]@;
            assert(slices(rows@)[i - 1] == r);
            assert forall|t: int| 0 <= t < len implies out@[t] == #[trigger] combination_at(
                coeffs@,
                slices(rows@),
                i as nat,
                t,
            ) by {
                assert(before[t] == combination_at(coeffs@, slices(rows@), (i - 1) as nat, t));
                sum_laws(before[t], 0, 0);
                if t < r.len() {
                    product_units(r[t]);
                }
            }
        }
    }
    out
}

/// Exchange rows `a` and `b` of the flat matrix.
fn swap_rows(mat: &mut [u8], row_len: usize, n: usize, a: usize, b: usize)
    requires
        n * row_len <= old(mat)@.len(),
        a < n,
        b < n,
        a != b,
    ensures
        final(mat)@.len() == old(mat)@.len(),
        rows_of(final(mat)@, row_len as int, n as int) == rows_of(
            old(mat)@,
            row_len as int,
            n as int,
        ).update(a as int, rows_of(old(mat)@, row_len as int, n as int)[b as int]).update(
            b as int,
            rows_of(old(mat)@, row_len as int, n as int)[a as int],
        ),
        forall|p: int| n * row_len <= p < old(mat)@.len() ==> final(mat)@[p] == old(mat)@[p],
{
    let total: usize = mat.len();
    proof {
        lemma_row_bounds(a as int, row_len as int, n as int);
        lemma_row_bounds(b as int, row_len as int, n as int);
    }
    let ao: usize = a * row_len;
    let bo: usize = b * row_len;
    let ghost before = mat@;
    let ghost ra = rows_of(before, row_len as int, n as int)[a as int];
    let ghost rb = rows_of(before, row_len as int, n as int)[b as int];
    let mut c: usize = 0;
    while c < row_len
        invariant
            c <= row_len,
            a != b,
            ao + row_len <= total,
            bo + row_len <= total,
            ao + row_len <= bo || bo + row_len <= ao,
            mat@.len() == before.len(),
            before.len() == total,
            forall|p: int|
                0 <= p < before.len() ==> #[trigger] mat@[p] == (if ao <= p < ao + c {
                    before[bo + (p - ao)]
                } else if bo <= p < bo + c {
                    before[ao + (p - bo)]
                } else {
                    before[p]
                }),
        decreases row_len - c,
    {
        let x: u8 = mat[ao + c];
        let y: u8 = mat[bo + c];
        mat[ao + c] = y;
        mat[bo + c] = x;
        c += 1;
    }
    proof {
        let mid = Seq::new(
            before.len(),
            |p: int|
                if ao <= p < ao + row_len {
                    before[bo + (p - ao)]
                } else {
                    before[p]
                },
        );
        lemma_rows_update(before, mid, row_len as int, n as int, a as int, rb);
        lemma_rows_update(mid, mat@, row_len as int, n as int, b as int, ra);
    }
}

/// Gaussian elimination in place on the flat matrix `mat` of rows of `row_len`
/// bytes. The first `k` columns are brought to reduced row echelon form; the
/// rest of each row, the right-hand side, follows along. Returns the rank.
///
/// The rows keep the same solutions: a vector is orthogonal to every row
/// afterwards exactly where it was before. The rows with a pivot come of as many
/// of the rows there were, and say what those said. Bytes past the last full row stay.
pub fn gf_gauss_eliminate(mat: &mut [u8], row_len: usize, k: usize) -> (rank: usize)
    requires
        row_len == 0 || k <= row_len || old(mat)@.len() < row_len,
    ensures
        final(mat)@.len() == old(mat)@.len(),
        row_len == 0 ==> rank == 0 && final(mat)@ == old(mat)@,
        row_len > 0 ==> {
            let n = old(mat)@.len() as int / row_len as int;
            let before = rows_of(old(mat)@, row_len as int, n);
            let after = rows_of(final(mat)@, row_len as int, n);
            &&& is_reduced(after, k as int, rank as int)
            &&& forall|y: Seq<u8>|
                y.len() == row_len ==> (#[trigger] cancels(before, y) <==> cancels(after, y))
            &&& exists|at: Seq<int>|
                at.len() == rank && #[trigger] led_by(before, at, after, row_len as int)
            &&& forall|p: int| n * row_len <= p < old(mat)@.len() ==> final(mat)@[p] == old(mat)@[p]
        },
{
    if row_len == 0 {
        return 0;
    }
    let total: usize = mat.len();
    let n: usize = total / row_len;
    proof {
        if total < row_len {
            vstd::arithmetic::div_mod::lemma_basic_div(total as int, row_len as int);
        }
        vstd::arithmetic::div_mod::lemma_fundamental_div_mod(total as int, row_len as int);
        assert(n * row_len <= total) by (nonlinear_arith)
            requires
                total == row_len * n + total as int % row_len as int,
                total as int % row_len as int >= 0,
        ;
    }
    let ghost start = mat@;
    let ghost l = row_len as int;
    let ghost m = n as int;
    let mut rank: usize = 0;
    let mut col: usize = 0;
    let ghost mut pivots: Seq<int> = Seq::empty();
    let ghost mut at: Seq<int> = Seq::new(n as nat, |i: int| i);
    proof {
        lemma_traced_start(rows_of(mat@, l, m), at, l);
    }
    while col < k && rank < n
        invariant
            col <= k,
            k <= row_len || n == 0,
            rank <= n,
            l == row_len,
            m == n,
            n * row_len <= total,
            total == mat@.len(),
            start.len() == total,
            pivots.len() == rank,
            reduced(rows_of(mat@, l, m), pivots, col as int),
            traced(rows_of(start, l, m), rows_of(mat@, l, m), at, rank as int, l),
            forall|y: Seq<u8>|
                y.len() == row_len ==> (#[trigger] cancels(rows_of(start, l, m), y) <==> cancels(
                    rows_of(mat@, l, m),
                    y,
                )),
            forall|p: int| n * row_len <= p < total ==> mat@[p] == start[p],
        decreases k - col,
    {
        let mut p: usize = rank;
        let ghost rows0 = rows_of(mat@, l, m);
        proof {
            lemma_rows_len(mat@, l, m);
        }
        let mut scanning: bool = true;
        while scanning && p < n
            invariant
                rank <= p <= n,
                col < row_len,
                l == row_len,
                m == n,
                n * row_len <= total,
                total == mat@.len(),
                rows0 == rows_of(mat@, l, m),
                forall|r: int| rank <= r < p ==> (#[trigger] rows0[r])[col as int] == 0,
                !scanning ==> p < n && rows0[p as int][col as int] != 0,
            decreases n - p, (if scanning { 1int } else { 0int }),
        {
            proof {
                lemma_row_bounds(p as int, l, m);
            }
            assert(rows0[p as int][col as int] == mat@[p * row_len + col]);
            if mat[p * row_len + col] == 0 {
                p += 1;
            } else {
                scanning = false;
            }
        }
        if p < n {
            proof {
                lemma_row_bounds(p as int, l, m);
                lemma_row_bounds(rank as int, l, m);
                assert(rows0[p as int][col as int] == mat@[p * row_len + col]);
            }
            if rank != p {
                swap_rows(mat, row_len, n, rank, p);
            }
            let ghost rows1 = rows_of(mat@, l, m);
            let prow_off: usize = rank * row_len;
            assert(rows1[rank as int] == rows0[p as int]);
            assert(rows1[rank as int][col as int] == mat@[prow_off + col]);
            let pv: u8 = mat[prow_off + col];
            let scale: u8 = gf_inv(pv);
            let ghost before_scale = mat@;
            scal_range(scale, mat, prow_off, prow_off + row_len);
            let ghost rows2 = rows_of(mat@, l, m);
            proof {
                lemma_rows_update(
                    before_scale,
                    mat@,
                    l,
                    m,
                    rank as int,
                    vec_scale(scale, rows1[rank as int]),
                );
            }
            let mut prow: Vec<u8> = Vec::new();
            let mut c: usize = 0;
            while c < row_len
                invariant
                    c <= row_len,
                    prow@.len() == c,
                    prow_off + row_len <= mat@.len(),
                    mat@.len() == total,
                    prow_off == rank * l,
                    rank < m,
                    rows2 == rows_of(mat@, l, m),
                    l == row_len,
                    forall|i: int| 0 <= i < c ==> prow@[i] == rows2[rank as int][i],
                decreases row_len - c,
            {
                let b: u8 = mat[prow_off + c];
                prow.push(b);
                c += 1;
            }
            assert(prow@ =~= rows2[rank as int]);
            let mut r: usize = 0;
            let ghost mut rows3 = rows2;
            while r < n
                invariant
                    r <= n,
                    rank < n,
                    col < row_len,
                    l == row_len,
                    m == n,
                    n * row_len <= total,
                    total == mat@.len(),
                    prow@ == rows2[rank as int],
                    prow@.len() == row_len,
                    rows2.len() == n,
                    rows3 == rows_of(mat@, l, m),
                    forall|i: int|
                        0 <= i < n ==> #[trigger] rows3[i] == (if i < r && i != rank {
                            vec_combine(rows2[i][col as int], prow@, rows2[i])
                        } else {
                            rows2[i]
                        }),
                    forall|q: int| n * row_len <= q < total ==> mat@[q] == start[q],
                decreases n - r,
            {
                proof {
                    lemma_row_bounds(r as int, l, m);
                }
                let roff: usize = r * row_len;
                let f: u8 = mat[roff + col];
                assert(f == rows3[r as int][col as int]);
                let ghost before_axpy = mat@;
                if r != rank {
                    if f != 0 {
                        axpy_range(f, prow.as_slice(), mat, roff);
                    }
                    proof {
                        let new_row = vec_combine(f, prow@, rows3[r as int]);
                        if f == 0 {
                            assert(new_row =~= rows3[r as int]) by {
                                assert forall|t: int| 0 <= t < row_len implies new_row[t]
                                    == rows3[r as int][t] by {
                                    product_units(prow@[t]);
                                    sum_laws(rows3[r as int][t], 0, 0);
                                }
                            }
                        }
                        lemma_rows_update(before_axpy, mat@, l, m, r as int, new_row);
                        rows3 = rows_of(mat@, l, m);
                    }
                }
                r += 1;
            }
            proof {
                lemma_pivot_step(rows0, rows1, rows2, rows3, pivots, rank as int, p as int, col as int, scale, l);
                lemma_traced_step(
                    rows_of(start, l, m),
                    rows0,
                    rows1,
                    rows2,
                    rows3,
                    at,
                    rank as int,
                    p as int,
                    col as int,
                    scale,
                    l,
                );
                at = at.update(rank as int, at[p as int]).update(p as int, at[rank as int]);
                pivots = pivots.push(col as int);
                assert forall|y: Seq<u8>| y.len() == row_len implies (#[trigger] cancels(
                    rows_of(start, l, m),
                    y,
                ) <==> cancels(rows_of(mat@, l, m), y)) by {
                    assert(cancels(rows_of(start, l, m), y) <==> cancels(rows0, y));
                    lemma_pivot_keeps(rows0, rows1, rows2, rows3, rank as int, p as int, col as int, scale, l, y);
                }
            }
            rank += 1;
        } else {
            proof {
                assert(reduced(rows0, pivots, col as int + 1));
            }
        }
        col += 1;
    }
    proof {
        let after = rows_of(mat@, l, m);
        assert(reduced(after, pivots, k as int));
        assert(is_reduced(after, k as int, rank as int));
        assert(led_by(rows_of(start, l, m), at.take(rank as int), after, l));
    }
    rank
}

/// Row `i` comes of row `at[i]` of those at the start: what the first `rank` rows
/// say is what those they come of say, and given that, so it is for every other.
spec fn traced(start: Seq<Seq<u8>>, rows: Seq<Seq<u8>>, at: Seq<int>, rank: int, l: int) -> bool {
    &&& at.len() == start.len()
    &&& rows.len() == start.len()
    &&& 0 <= rank <= rows.len()
    &&& apart(at, start.len() as int)
    &&& led_by(start, at.take(rank), rows, l)
    &&& forall|y: Seq<u8>, i: int|
        y.len() == l && rank <= i < rows.len() && #[trigger] cancels(rows.take(rank), y) ==> (dot(
            #[trigger] rows[i],
            y,
        ) == 0 <==> dot(start[at[i]], y) == 0)
}

proof fn lemma_traced_start(rows: Seq<Seq<u8>>, at: Seq<int>, l: int)
    requires
        at == Seq::new(rows.len(), |i: int| i),
    ensures
        traced(rows, rows, at, 0, l),
{
    assert(at.take(0).len() == 0);
    assert(rows_at(rows, at.take(0)) =~= rows.take(0));
}

/// One more pivot keeps the rows traced.
proof fn lemma_traced_step(
    start: Seq<Seq<u8>>,
    rows0: Seq<Seq<u8>>,
    rows1: Seq<Seq<u8>>,
    rows2: Seq<Seq<u8>>,
    rows3: Seq<Seq<u8>>,
    at: Seq<int>,
    rank: int,
    p: int,
    col: int,
    scale: u8,
    l: int,
)
    requires
        traced(start, rows0, at, rank, l),
        0 <= rank <= p < rows0.len(),
        0 <= col < l,
        forall|i: int| 0 <= i < rows0.len() ==> (#[trigger] rows0[i]).len() == l,
        rows0[p][col] != 0,
        scale == inverse(rows0[p][col]),
        rows1 == (if rank != p {
            rows0.update(rank, rows0[p]).update(p, rows0[rank])
        } else {
            rows0
        }),
        rows2 == rows1.update(rank, vec_scale(scale, rows1[rank])),
        rows3.len() == rows2.len(),
        forall|i: int|
            0 <= i < rows3.len() ==> #[trigger] rows3[i] == (if i != rank {
                vec_combine(rows2[i][col], rows2[rank], rows2[i])
            } else {
                rows2[i]
            }),
    ensures
        traced(
            start,
            rows3,
            at.update(rank, at[p]).update(p, at[rank]),
            rank + 1,
            l,
        ),
{
    let at2 = at.update(rank, at[p]).update(p, at[rank]);
    assert(at2[rank] == at[p]);
    assert(at2[p] == at[rank]);
    assert(rows1[rank] == rows0[p]);
    assert(rows1[p] == rows0[rank]);
    inverse_law(rows0[p][col]);
    let head = at.take(rank);
    let head2 = at2.take(rank + 1);
    assert(head2.drop_last() =~= head);
    assert(head2.last() == at[p]);
    assert forall|y: Seq<u8>| y.len() == l implies {
        &&& (dot(rows3[rank], y) == 0 <==> dot(rows0[p], y) == 0)
        &&& #[trigger] cancels(rows3.take(rank + 1), y) <==> cancels(rows0.take(rank), y) && dot(
            rows0[p],
            y,
        ) == 0
        &&& cancels(rows_at(start, head2), y) <==> cancels(rows_at(start, head), y) && dot(
            start[at[p]],
            y,
        ) == 0
        &&& dot(rows3[rank], y) == 0 ==> forall|i: int|
            0 <= i < rows3.len() && i != rank ==> dot(#[trigger] rows3[i], y) == dot(rows1[i], y)
    } by {
        lemma_dot_scale(scale, rows1[rank], y);
        product_zero(scale, dot(rows1[rank], y));
        assert(rows3[rank] == rows2[rank]);
        if dot(rows3[rank], y) == 0 {
            assert forall|i: int| 0 <= i < rows3.len() && i != rank implies dot(#[trigger] rows3[i], y)
                == dot(rows1[i], y) by {
                assert(rows2[i] == rows1[i]);
                assert(rows1[i].len() == l) by {
                    assert(rows0[i].len() == l);
                    assert(rows0[rank].len() == l);
                }
                assert(rows0[p].len() == l);
                lemma_dot_combine(rows2[i][col], rows2[rank], rows2[i], y);
                product_units(rows2[i][col]);
                sum_laws(dot(rows2[i], y), 0, 0);
            }
        }
        let big = rows3.take(rank + 1);
        let small = rows0.take(rank);
        if cancels(big, y) {
            assert(dot(big[rank], y) == 0);
            assert forall|i: int| 0 <= i < small.len() implies dot(#[trigger] small[i], y) == 0 by {
                assert(dot(big[i], y) == 0);
                assert(dot(rows3[i], y) == dot(rows1[i], y));
            }
        }
        if cancels(small, y) && dot(rows0[p], y) == 0 {
            assert forall|i: int| 0 <= i < big.len() implies dot(#[trigger] big[i], y) == 0 by {
                if i < rank {
                    assert(dot(small[i], y) == 0);
                    assert(dot(rows3[i], y) == dot(rows1[i], y));
                }
            }
        }
        let some = rows_at(start, head2);
        let fewer = rows_at(start, head);
        if cancels(some, y) {
            assert(dot(some[rank], y) == 0);
            assert forall|i: int| 0 <= i < fewer.len() implies dot(#[trigger] fewer[i], y) == 0 by {
                assert(head2[i] == head[i]);
                assert(dot(some[i], y) == 0);
            }
        }
        if cancels(fewer, y) && dot(start[at[p]], y) == 0 {
            assert forall|i: int| 0 <= i < some.len() implies dot(#[trigger] some[i], y) == 0 by {
                if i < rank {
                    assert(head2[i] == head[i]);
                    assert(dot(fewer[i], y) == 0);
                }
            }
        }
    }
    assert(apart(at2, start.len() as int)) by {
        assert forall|i: int, j: int| 0 <= i < j < at2.len() implies at2[i] != at2[j] by {
            let from = |i: int| if i == rank { p } else if i == p { rank } else { i };
            assert(at2[i] == at[from(i)] && at2[j] == at[from(j)]);
            assert(from(i) != from(j));
        }
    }
    assert forall|y: Seq<u8>| y.len() == l implies (cancels(rows_at(start, head2), y)
        <==> #[trigger] cancels(rows3.take(rank + 1), y)) by {
        assert(cancels(rows_at(start, head), y) <==> cancels(rows0.take(rank), y));
        if cancels(rows0.take(rank), y) {
            assert(dot(rows0[p], y) == 0 <==> dot(start[at[p]], y) == 0);
        }
    }
    assert forall|y: Seq<u8>, i: int|
        y.len() == l && rank + 1 <= i < rows3.len() && #[trigger] cancels(rows3.take(rank + 1), y) implies (
    dot(#[trigger] rows3[i], y) == 0 <==> dot(start[at2[i]], y) == 0) by {
        assert(dot(rows3[i], y) == dot(rows1[i], y));
        assert(cancels(rows0.take(rank), y));
        let from = if i == p { rank } else { i };
        assert(rows1[i] == rows0[from]);
        assert(at2[i] == at[from]);
        assert(dot(rows0[from], y) == 0 <==> dot(start[at[from]], y) == 0);
    }
}

/// The echelon form after one more pivot.
pub proof fn lemma_pivot_step(
    rows0: Seq<Seq<u8>>,
    rows1: Seq<Seq<u8>>,
    rows2: Seq<Seq<u8>>,
    rows3: Seq<Seq<u8>>,
    pivots: Seq<int>,
    rank: int,
    p: int,
    col: int,
    scale: u8,
    l: int,
)
    requires
        reduced(rows0, pivots, col),
        pivots.len() == rank,
        0 <= rank <= p < rows0.len(),
        0 <= col < l,
        forall|i: int| 0 <= i < rows0.len() ==> (#[trigger] rows0[i]).len() == l,
        rows0[p][col] != 0,
        scale == inverse(rows0[p][col]),
        rows1 == (if rank != p {
            rows0.update(rank, rows0[p]).update(p, rows0[rank])
        } else {
            rows0
        }),
        rows2 == rows1.update(rank, vec_scale(scale, rows1[rank])),
        rows3.len() == rows2.len(),
        forall|i: int|
            0 <= i < rows3.len() ==> #[trigger] rows3[i] == (if i != rank {
                vec_combine(rows2[i][col], rows2[rank], rows2[i])
            } else {
                rows2[i]
            }),
    ensures
        reduced(rows3, pivots.push(col), col + 1),
{
    let pr = rows2[rank];
    let ps = pivots.push(col);
    assert(rows1[rank] == rows0[p]);
    assert forall|c: int| 0 <= c < col implies pr[c] == 0 by {
        assert(rows0[p][c] == 0);
        product_units(scale);
    }
    assert(pr[col] == 1) by {
        inverse_law(rows0[p][col]);
        product_commutes(rows0[p][col], scale);
    }
    assert forall|i: int, c: int| 0 <= i < rows3.len() && 0 <= c < col implies #[trigger] rows3[i][c]
        == rows2[i][c] by {
        if i != rank {
            product_units(rows2[i][col]);
            sum_laws(rows2[i][c], 0, 0);
        }
    }
    assert forall|i: int| 0 <= i < rows3.len() && i != rank implies #[trigger] rows3[i][col] == 0 by {
        product_units(rows2[i][col]);
        sum_laws(rows2[i][col], 0, 0);
    }
    assert forall|r: int| 0 <= r < ps.len() implies 0 <= #[trigger] ps[r] < col + 1 && rows3[r][ps[r]]
        == 1 by {
        if r < rank {
            assert(rows2[r] == rows0[r]);
            assert(0 <= pivots[r] < col);
        }
    }
    assert forall|r: int, i: int|
        0 <= r < ps.len() && 0 <= i < rows3.len() && i != r implies #[trigger] rows3[i][ps[r]] == 0 by {
        if r < rank {
            assert(0 <= pivots[r] < col);
            assert(rows3[i][ps[r]] == rows2[i][ps[r]]);
            if i == rank {
                assert(pr[ps[r]] == 0);
            } else if i == p {
                assert(rows2[i] == rows0[rank]);
                assert(rows0[rank][pivots[r]] == 0);
            } else {
                assert(rows2[i] == rows0[i]);
                assert(rows0[i][pivots[r]] == 0);
            }
        }
    }
    assert forall|r: int, c: int| 0 <= r < ps.len() && 0 <= c < ps[r] implies #[trigger] rows3[r][c]
        == 0 by {
        if r < rank {
            assert(0 <= pivots[r] < col);
            assert(rows2[r] == rows0[r]);
            assert(rows0[r][c] == 0);
        }
    }
    assert forall|i: int, c: int| ps.len() <= i < rows3.len() && 0 <= c < col + 1 implies #[trigger] rows3[i][c]
        == 0 by {
        if c < col {
            if i == p {
                assert(rows2[i] == rows0[rank]);
                assert(rows0[rank][c] == 0);
            } else {
                assert(rows2[i] == rows0[i]);
                assert(rows0[i][c] == 0);
            }
        }
    }
}

/// One pivot step keeps the vectors that cancel every row.
pub proof fn lemma_pivot_keeps(
    rows0: Seq<Seq<u8>>,
    rows1: Seq<Seq<u8>>,
    rows2: Seq<Seq<u8>>,
    rows3: Seq<Seq<u8>>,
    rank: int,
    p: int,
    col: int,
    scale: u8,
    l: int,
    y: Seq<u8>,
)
    requires
        0 <= rank <= p < rows0.len(),
        0 <= col < l,
        forall|i: int| 0 <= i < rows0.len() ==> (#[trigger] rows0[i]).len() == l,
        rows0[p][col] != 0,
        scale == inverse(rows0[p][col]),
        rows1 == (if rank != p {
            rows0.update(rank, rows0[p]).update(p, rows0[rank])
        } else {
            rows0
        }),
        rows2 == rows1.update(rank, vec_scale(scale, rows1[rank])),
        rows3.len() == rows2.len(),
        forall|i: int|
            0 <= i < rows3.len() ==> #[trigger] rows3[i] == (if i != rank {
                vec_combine(rows2[i][col], rows2[rank], rows2[i])
            } else {
                rows2[i]
            }),
        y.len() == l,
    ensures
        cancels(rows0, y) <==> cancels(rows3, y),
{
    if rank != p {
        assert(rows1[rank] == rows0[p]);
        assert(rows1[p] == rows0[rank]);
    }
    assert(cancels(rows0, y) <==> cancels(rows1, y)) by {
        if cancels(rows0, y) {
            assert forall|i: int| 0 <= i < rows1.len() implies dot(
                #[trigger] rows1[i],
                y,
            ) == 0 by {
                if i == rank {
                    assert(dot(rows0[p], y) == 0);
                } else if i == p {
                    assert(dot(rows0[rank], y) == 0);
                } else {
                    assert(dot(rows0[i], y) == 0);
                }
            }
        }
        if cancels(rows1, y) {
            assert forall|i: int| 0 <= i < rows0.len() implies dot(
                #[trigger] rows0[i],
                y,
            ) == 0 by {
                if i == rank {
                    assert(dot(rows1[p], y) == 0);
                } else if i == p {
                    assert(dot(rows1[rank], y) == 0);
                } else {
                    assert(dot(rows1[i], y) == 0);
                }
            }
        }
    }
    inverse_law(rows0[p][col]);
    lemma_dot_scale(scale, rows1[rank], y);
    product_zero(scale, dot(rows1[rank], y));
    lemma_cancels_update(rows1, rank, rows2[rank], y);
    assert forall|i: int| 0 <= i < rows3.len() && i != rank implies dot(
        #[trigger] rows3[i],
        y,
    ) == dot(rows2[i], y) ^ product(
        rows2[i][col],
        dot(rows2[rank], y),
    ) by {
        lemma_dot_combine(rows2[i][col], rows2[rank], rows2[i], y);
    }
    assert forall|i: int| 0 <= i < rows3.len() && dot(rows2[rank], y) == 0 implies dot(
        #[trigger] rows3[i],
        y,
    ) == dot(rows2[i], y) by {
        product_units(rows2[i][col]);
        sum_laws(dot(rows2[i], y), 0, 0);
    }
    if cancels(rows2, y) {
        assert(dot(rows2[rank], y) == 0);
        assert forall|i: int| 0 <= i < rows3.len() implies dot(#[trigger] rows3[i], y)
            == 0 by {
            assert(dot(rows2[i], y) == 0);
        }
    }
    if cancels(rows3, y) {
        assert(dot(rows3[rank], y) == 0);
        assert forall|i: int| 0 <= i < rows2.len() implies dot(#[trigger] rows2[i], y)
            == 0 by {
            assert(dot(rows3[i], y) == 0);
        }
    }
}

} // verus!

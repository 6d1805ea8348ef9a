//! Single-row dot-product kernels over 16 lanes: the elementwise product
//! of two raw ternary vectors, and two equivalent derivations of the same
//! products from a 16-bit value mask and sign mask, most significant bit
//! first.  All three are proved to produce identical lanes.

use vstd::prelude::*;

verus! {

use crate::model::lemma_wrap8_add;
use crate::model::lemma_wrap8_in_range;
use crate::model::lemma_wrap8_mul;
use crate::model::lemma_wrap8_sub;
use crate::model::wrap8;

/// Whether the bit selected by shifting `x` right by `sh` is set.
pub open spec fn bit16(x: u16, sh: u16) -> bool {
    (x >> sh) & 1u16 == 1u16
}

/// The ternary multiplier encoded for lane `lane` by a 16-bit value mask
/// and sign mask, most significant bit first: zero when the value bit is
/// clear, else plus or minus one by the sign bit.
pub open spec fn mask_elem(vals: u16, signs: u16, lane: int) -> i8 {
    if bit16(vals, (15 - lane) as u16) {
        if bit16(signs, (15 - lane) as u16) {
            -1i8
        } else {
            1i8
        }
    } else {
        0i8
    }
}

/// The lanewise product of the first 16 lanes of two vectors, with
/// wraparound 8-bit multiplication.
pub fn dot_naive(a: &Vec<i8>, b: &Vec<i8>) -> (r: Vec<i8>)
    requires
        a@.len() >= 16,
        b@.len() >= 16,
    ensures
        r@.len() == 16,
        forall|i: int| 0 <= i < 16 ==> r@[i] == wrap8(a@[i] * b@[i]),
{
    let mut r: Vec<i8> = Vec::new();
    let mut i: usize = 0;
    while i < 16
        invariant
            i <= 16,
            a@.len() >= 16,
            b@.len() >= 16,
            r@.len() == i,
            forall|t: int| 0 <= t < i ==> r@[t] == wrap8(a@[t] * b@[t]),
        decreases 16 - i,
    {
        let v: i8 = a[i].wrapping_mul(b[i]);
        proof {
            lemma_wrap8_mul(a@[i as int], b@[i as int]);
        }
        r.push(v);
        i = i + 1;
    }
    r
}

/// Bitwise identities on 8-bit mask values used by the mask kernels.
proof fn lemma_i8_mask_ops(x: i8)
    by (bit_vector)
    ensures
        x & -1i8 == x,
        x & 0i8 == 0i8,
        x | 0i8 == x,
        0i8 | x == x,
        (x ^ 0i8) == x,
        ((x ^ -1i8) as int) == -1 - x as int,
        ((-1i8) ^ 0i8) == -1i8,
        ((-1i8) ^ -1i8) == 0i8,
        ((0i8) ^ 0i8) == 0i8,
{
}

/// A bit extracted from a 16-bit mask is zero or one.
proof fn lemma_bit16_extract(x: u16, sh: u16)
    by (bit_vector)
    ensures
        (x >> sh) & 1 <= 1,
        ((x >> sh) & 1 == 1) == bit16(x, sh),
{
}

/// The lanewise product of the first 16 lanes of `a` against the ternary
/// multipliers encoded by the masks, derived with the shift-expand,
/// conditional-negate and zero-one multiply strategy.
pub fn dot_shifted_mask_multiplication(a: &Vec<i8>, b_vals: u16, b_signs: u16) -> (r: Vec<i8>)
    requires
        a@.len() >= 16,
    ensures
        r@.len() == 16,
        forall|i: int|
            0 <= i < 16 ==> r@[i] == wrap8(a@[i] * mask_elem(b_vals, b_signs, i) as int),
{
    let mut r: Vec<i8> = Vec::new();
    let mut i: usize = 0;
    while i < 16
        invariant
            i <= 16,
            a@.len() >= 16,
            r@.len() == i,
            forall|t: int|
                0 <= t < i ==> r@[t] == wrap8(a@[t] * mask_elem(b_vals, b_signs, t) as int),
        decreases 16 - i,
    {
        let sh: u16 = 15 - (i as u16);
        proof {
            lemma_bit16_extract(b_signs, sh);
            lemma_bit16_extract(b_vals, sh);
            assert(sh == (15 - (i as int)) as u16);
        }
        let neg: i8 = ((b_signs >> sh) & 1) as i8;
        let ones: i8 = ((b_vals >> sh) & 1) as i8;

        let x: i8 = a[i];
        let nneg: i8 = -neg;
        let xored: i8 = x ^ nneg;
        let step1: i8 = xored.wrapping_add(neg);
        let v: i8 = step1.wrapping_mul(ones);
        proof {
            lemma_i8_mask_ops(x);
            lemma_wrap8_add(xored, neg);
            lemma_wrap8_mul(step1, ones);
            let m: int = mask_elem(b_vals, b_signs, i as int) as int;
            if ones == 1 {
                assert(bit16(b_vals, sh));
                if neg == 1 {
                    assert(bit16(b_signs, sh));
                    assert(m == -1);
                    assert(step1 == wrap8(-1 - x + 1));
                    assert(x as int * m == 0 - x as int && step1 as int * ones as int == step1 as int)
                        by (nonlinear_arith)
                        requires
                            m == -1,
                            ones == 1,
                    ;
                    crate::model::lemma_wrap8_congruent_self(0 - x as int);
                    crate::model::lemma_wrap8_congruent(
                        wrap8(0 - x as int) as int,
                        x as int * m,
                    );
                } else {
                    assert(!bit16(b_signs, sh));
                    assert(m == 1);
                    assert(x as int * m == x as int && step1 as int * ones as int == step1 as int)
                        by (nonlinear_arith)
                        requires
                            m == 1,
                            ones == 1,
                    ;
                    assert(step1 == wrap8(x as int + 0));
                    lemma_wrap8_in_range(x as int);
                    lemma_wrap8_in_range(step1 as int);
                }
            } else {
                assert(!bit16(b_vals, sh));
                assert(m == 0);
                assert(x as int * m == 0 && step1 as int * ones as int == 0) by (nonlinear_arith)
                    requires
                        m == 0,
                        ones == 0,
                ;
                lemma_wrap8_in_range(0);
            }
            assert(v == wrap8(a@[i as int] * m));
        }
        r.push(v);
        i = i + 1;
    }
    r
}

/// The sign bits of a well-formed mask pair select only lanes whose
/// value bit is set.
proof fn lemma_signs_within_vals(vals: u16, signs: u16, sh: u16)
    by (bit_vector)
    requires
        signs & vals == signs,
    ensures
        bit16(signs, sh) ==> bit16(vals, sh),
{
}

/// The lanewise product of the first 16 lanes of `a` against the ternary
/// multipliers encoded by the masks, derived with lane test masks and
/// bitwise select instead of arithmetic negation.  Requires the masks to
/// be well formed: every sign bit lies within the value mask, as the
/// compression codec guarantees.
pub fn dot_masks(a: &Vec<i8>, b_vals: u16, b_signs: u16) -> (r: Vec<i8>)
    requires
        a@.len() >= 16,
        b_signs & b_vals == b_signs,
    ensures
        r@.len() == 16,
        forall|i: int|
            0 <= i < 16 ==> r@[i] == wrap8(a@[i] * mask_elem(b_vals, b_signs, i) as int),
{
    let mut r: Vec<i8> = Vec::new();
    let mut i: usize = 0;
    while i < 16
        invariant
            i <= 16,
            a@.len() >= 16,
            b_signs & b_vals == b_signs,
            r@.len() == i,
            forall|t: int|
                0 <= t < i ==> r@[t] == wrap8(a@[t] * mask_elem(b_vals, b_signs, t) as int),
        decreases 16 - i,
    {
        let sh: u16 = 15 - (i as u16);
        proof {
            lemma_bit16_extract(b_signs, sh);
            lemma_bit16_extract(b_vals, sh);
            lemma_signs_within_vals(b_vals, b_signs, sh);
            assert(sh == (15 - (i as int)) as u16);
        }
        let x: i8 = a[i];
        let negatives: i8 = (0i8).wrapping_sub(x);
        let neg_mask: i8 = if (b_signs >> sh) & 1 == 1 {
            -1
        } else {
            0
        };
        let ones_mask: i8 = if (b_vals >> sh) & 1 == 1 {
            -1
        } else {
            0
        };
        let v: i8 = (negatives & neg_mask) | (x & (ones_mask ^ neg_mask));
        proof {
            lemma_i8_mask_ops(x);
            lemma_i8_mask_ops(negatives);
            lemma_i8_mask_ops(0i8);
            lemma_wrap8_sub(0, x);
            let m: int = mask_elem(b_vals, b_signs, i as int) as int;
            if neg_mask == -1 {
                assert(bit16(b_signs, sh) && bit16(b_vals, sh));
                assert(m == -1);
                assert(v == negatives);
                crate::model::lemma_wrap8_congruent_self(0 - x as int);
                crate::model::lemma_wrap8_congruent(wrap8(0 - x as int) as int, x as int * m);
            } else if ones_mask == -1 {
                assert(!bit16(b_signs, sh) && bit16(b_vals, sh));
                assert(m == 1);
                assert(v == x);
                lemma_wrap8_in_range(x as int);
            } else {
                assert(!bit16(b_vals, sh));
                assert(m == 0);
                assert(v == 0i8);
                lemma_wrap8_in_range(0);
            }
            assert(v == wrap8(a@[i as int] * m));
        }
        r.push(v);
        i = i + 1;
    }
    r
}

} // verus!

//! Bit-packed blocked multiply: operands are compressed to (value, sign)
//! bit pairs, eight ternary elements per byte, and the micro-kernel
//! recovers dot products with per-byte population counts instead of
//! multiply-accumulate.

use vstd::prelude::*;

verus! {

use crate::bits::bit8;
use crate::bits::bit_dot_range;
use crate::bits::byte_dot;
use crate::bits::decode_a;
use crate::bits::decode_b;
use crate::bits::lemma_bit_dot_decodes;
use crate::bits::lemma_bit_dot_range_equal;
use crate::bits::lemma_bit_dot_range_shift;
use crate::bits::lemma_decode_a_tern;
use crate::bits::lemma_decode_b_tern;
use crate::bits::pc8;
use crate::bits::tern;
use crate::bits::tern8;
use crate::kernel::lemma_tile_index_bounds;
use crate::kernel::pack_panel;
use crate::kernel::sect_slot;
use crate::model::dot_range;
use crate::model::filled_vec;
use crate::model::is_product;
use crate::model::lemma_flat_unique;
use crate::model::lemma_mod_trans;
use crate::model::lemma_partial_extend;
use crate::model::lemma_wrap8_absorb;
use crate::model::lemma_wrap8_add;
use crate::model::lemma_wrap8_in_range;
use crate::model::partial_entry;
use crate::model::product_entry;
use crate::model::wrap8;

/// Column-major flat offset in the output, stride `n`.
fn c_at(r: usize, c: usize, n: usize) -> (idx: usize)
    requires
        r + n * c <= usize::MAX,
    ensures
        idx == r + n * c,
{
    r + n * c
}

/// Column-major flat offset in the packed B byte matrix, whose reduction
/// rows are compressed 8-to-1: stride `nb = n / 8`.
fn b_at(r: usize, c: usize, nb: usize) -> (idx: usize)
    requires
        r + nb * c <= usize::MAX,
    ensures
        idx == r + nb * c,
{
    r + nb * c
}

/// Column-major flat offset in the packed A byte matrix, compressed
/// along the reduction columns, so the row stride is still `n`.
fn a_at(r: usize, c: usize, n: usize) -> (idx: usize)
    requires
        r + n * c <= usize::MAX,
    ensures
        idx == r + n * c,
{
    r + n * c
}

/// Counts the set bits of one byte: the portable bit-count primitive the
/// popcount kernel is built on.
fn popcount(x: u8) -> (r: u8)
    ensures
        r as int == pc8(x),
{
    proof {
        assert((x >> 0) & 1 <= 1 && (x >> 1) & 1 <= 1 && (x >> 2) & 1 <= 1 && (x >> 3) & 1 <= 1
            && (x >> 4) & 1 <= 1 && (x >> 5) & 1 <= 1 && (x >> 6) & 1 <= 1 && (x >> 7) & 1 <= 1)
            by (bit_vector);
    }
    ((x >> 0) & 1) + ((x >> 1) & 1) + ((x >> 2) & 1) + ((x >> 3) & 1) + ((x >> 4) & 1) + ((x >> 5)
        & 1) + ((x >> 6) & 1) + ((x >> 7) & 1)
}

/// The popcount-based dot product of one byte pair of A against one byte
/// pair of B: value bits set on both sides count plus one, and those
/// whose signs disagree are taken back twice.
fn dot(a_val: u8, a_sign: u8, b_val: u8, b_sign: u8) -> (r: i8)
    ensures
        r as int == byte_dot(a_val, a_sign, b_val, b_sign),
{
    proof {
        assert(b_val & a_val == a_val & b_val && (b_sign ^ a_sign) == (a_sign ^ b_sign))
            by (bit_vector);
    }
    let val: u8 = b_val & a_val;
    let or_mask: u8 = b_sign ^ a_sign;
    let sign: u8 = val & or_mask;

    let val_count: u8 = popcount(val);
    let sign_count: u8 = popcount(sign);
    proof {
        assert(sign_count << 1u8 == 2 * sign_count) by (bit_vector)
            requires
                sign_count <= 8,
        ;
    }
    let sign_countx2: u8 = sign_count << 1u8;

    (val_count as i8) - (sign_countx2 as i8)
}

/// The exact integer dot product that bit-kernel lane `l`, column `cc`
/// accumulates: `k` byte steps through the packed panels, 16 lanes per
/// step.
pub open spec fn bit_panel_dot(
    av: Seq<u8>,
    asn: Seq<u8>,
    av_off: int,
    bv: Seq<u8>,
    bsn: Seq<u8>,
    bv_off: int,
    l: int,
    cc: int,
    k: int,
) -> int {
    bit_dot_range(av, asn, av_off + l, 16, bv, bsn, bv_off + cc, 16, 0, k)
}

/// Computes a 16x16 block of C with top-left corner (mi, ni) from packed
/// bit panels, accumulating in place over `k` byte steps (8k ternary
/// elements): lane `l` of block column `cc` reads byte pair
/// `a_vals/a_signs[av_off + l + 16*t]` against `b_vals/b_signs[bv_off +
/// cc + 16*t]`.
#[verifier::rlimit(100)]
fn dot16x16(
    k: usize,
    n: usize,
    a_vals: &Vec<u8>,
    a_signs: &Vec<u8>,
    av_off: usize,
    b_vals: &Vec<u8>,
    b_signs: &Vec<u8>,
    bv_off: usize,
    c: &mut Vec<i8>,
    mi: usize,
    ni: usize,
)
    requires
        old(c)@.len() == n * n,
        mi + 16 <= n,
        ni + 16 <= n,
        a_signs@.len() == a_vals@.len(),
        b_signs@.len() == b_vals@.len(),
        forall|l: int, t: int|
            0 <= l < 16 && 0 <= t < k ==> av_off + #[trigger] (1 * l) + #[trigger] (16 * t)
                < a_vals@.len(),
        forall|cc: int, t: int|
            0 <= cc < 16 && 0 <= t < k ==> bv_off + #[trigger] (1 * cc) + #[trigger] (16 * t)
                < b_vals@.len(),
    ensures
        final(c)@.len() == n * n,
        forall|l: int, cc: int|
            0 <= l < 16 && 0 <= cc < 16 ==> final(c)@[mi + l + n * (ni + cc)] == wrap8(
                old(c)@[mi + l + n * (ni + cc)] as int + #[trigger] bit_panel_dot(
                    a_vals@,
                    a_signs@,
                    av_off as int,
                    b_vals@,
                    b_signs@,
                    bv_off as int,
                    l,
                    cc,
                    k as int,
                ),
            ),
        forall|i: int, j: int|
            0 <= i < n && 0 <= j < n && !(mi <= i < mi + 16 && ni <= j < ni + 16)
                ==> final(c)@[#[trigger] (i + n * j)] == old(c)@[i + n * j],
{
    proof {
        assert(c.len() == c@.len());
        assert(a_vals.len() == a_vals@.len());
        assert(b_vals.len() == b_vals@.len());
    }
    let mut ab: Vec<i8> = filled_vec(256, 0i8);

    // Load the current tile of c into the accumulators.
    let mut cc0: usize = 0;
    while cc0 < 16
        invariant
            cc0 <= 16,
            c@ == old(c)@,
            c@.len() == n * n,
            n * n <= usize::MAX,
            mi + 16 <= n,
            ni + 16 <= n,
            ab@.len() == 256,
            forall|l2: int, c2: int|
                0 <= l2 < 16 && 0 <= c2 < cc0 ==> ab@[#[trigger] (c2 * 16 + l2)] == c@[mi + l2 + n
                    * (ni + c2)],
        decreases 16 - cc0,
    {
        let mut l: usize = 0;
        while l < 16
            invariant
                cc0 < 16,
                l <= 16,
                c@ == old(c)@,
                c@.len() == n * n,
                n * n <= usize::MAX,
                mi + 16 <= n,
                ni + 16 <= n,
                ab@.len() == 256,
                forall|l2: int, c2: int|
                    0 <= l2 < 16 && 0 <= c2 < cc0 ==> ab@[#[trigger] (c2 * 16 + l2)] == c@[mi + l2
                        + n * (ni + c2)],
                forall|l2: int|
                    0 <= l2 < l ==> ab@[#[trigger] (cc0 * 16 + l2)] == c@[mi + l2 + n * (ni
                        + cc0)],
            decreases 16 - l,
        {
            proof {
                lemma_tile_index_bounds(n as int, 16, 16, mi as int, ni as int, l as int, cc0 as int);
                lemma_slots16(l as int, cc0 as int);
            }
            let v: i8 = c[c_at(mi + l, ni + cc0, n)];
            ab.set(cc0 * 16 + l, v);
            l = l + 1;
        }
        cc0 = cc0 + 1;
    }

    proof {
        assert forall|l2: int, c2: int| 0 <= l2 < 16 && 0 <= c2 < 16 implies ab@[#[trigger] (c2
            * 16 + l2)] == wrap8(
            c@[mi + l2 + n * (ni + c2)] as int + bit_panel_dot(
                a_vals@,
                a_signs@,
                av_off as int,
                b_vals@,
                b_signs@,
                bv_off as int,
                l2,
                c2,
                0,
            ),
        ) by {
            lemma_wrap8_in_range(c@[mi + l2 + n * (ni + c2)] as int);
        }
    }

    // Accumulate k byte steps into the tile.
    let mut t: usize = 0;
    while t < k
        invariant
            t <= k,
            c@ == old(c)@,
            c@.len() == n * n,
            n * n <= usize::MAX,
            a_vals@.len() <= usize::MAX,
            b_vals@.len() <= usize::MAX,
            a_signs@.len() == a_vals@.len(),
            b_signs@.len() == b_vals@.len(),
            mi + 16 <= n,
            ni + 16 <= n,
            ab@.len() == 256,
            forall|l2: int, t2: int|
                0 <= l2 < 16 && 0 <= t2 < k ==> av_off + #[trigger] (1 * l2) + #[trigger] (16 * t2)
                    < a_vals@.len(),
            forall|cc2: int, t2: int|
                0 <= cc2 < 16 && 0 <= t2 < k ==> bv_off + #[trigger] (1 * cc2) + #[trigger] (16
                    * t2) < b_vals@.len(),
            forall|l2: int, c2: int|
                0 <= l2 < 16 && 0 <= c2 < 16 ==> ab@[#[trigger] (c2 * 16 + l2)] == wrap8(
                    c@[mi + l2 + n * (ni + c2)] as int + bit_panel_dot(
                        a_vals@,
                        a_signs@,
                        av_off as int,
                        b_vals@,
                        b_signs@,
                        bv_off as int,
                        l2,
                        c2,
                        t as int,
                    ),
                ),
        decreases k - t,
    {
        let mut cc1: usize = 0;
        while cc1 < 16
            invariant
                t < k,
                cc1 <= 16,
                c@ == old(c)@,
                c@.len() == n * n,
                n * n <= usize::MAX,
                a_vals@.len() <= usize::MAX,
                b_vals@.len() <= usize::MAX,
                a_signs@.len() == a_vals@.len(),
                b_signs@.len() == b_vals@.len(),
                mi + 16 <= n,
                ni + 16 <= n,
                ab@.len() == 256,
                forall|l2: int, t2: int|
                    0 <= l2 < 16 && 0 <= t2 < k ==> av_off + #[trigger] (1 * l2) + #[trigger] (16
                        * t2) < a_vals@.len(),
                forall|cc2: int, t2: int|
                    0 <= cc2 < 16 && 0 <= t2 < k ==> bv_off + #[trigger] (1 * cc2) + #[trigger] (16
                        * t2) < b_vals@.len(),
                forall|l2: int, c2: int|
                    0 <= l2 < 16 && 0 <= c2 < cc1 ==> ab@[#[trigger] (c2 * 16 + l2)] == wrap8(
                        c@[mi + l2 + n * (ni + c2)] as int + bit_panel_dot(
                            a_vals@,
                            a_signs@,
                            av_off as int,
                            b_vals@,
                            b_signs@,
                            bv_off as int,
                            l2,
                            c2,
                            t + 1,
                        ),
                    ),
                forall|l2: int, c2: int|
                    0 <= l2 < 16 && cc1 <= c2 < 16 ==> ab@[#[trigger] (c2 * 16 + l2)] == wrap8(
                        c@[mi + l2 + n * (ni + c2)] as int + bit_panel_dot(
                            a_vals@,
                            a_signs@,
                            av_off as int,
                            b_vals@,
                            b_signs@,
                            bv_off as int,
                            l2,
                            c2,
                            t as int,
                        ),
                    ),
            decreases 16 - cc1,
        {
            let mut l: usize = 0;
            while l < 16
                invariant
                    t < k,
                    cc1 < 16,
                    l <= 16,
                    c@ == old(c)@,
                    c@.len() == n * n,
                    n * n <= usize::MAX,
                    a_vals@.len() <= usize::MAX,
                    b_vals@.len() <= usize::MAX,
                    a_signs@.len() == a_vals@.len(),
                    b_signs@.len() == b_vals@.len(),
                    mi + 16 <= n,
                    ni + 16 <= n,
                    ab@.len() == 256,
                    forall|l2: int, t2: int|
                        0 <= l2 < 16 && 0 <= t2 < k ==> av_off + #[trigger] (1 * l2)
                            + #[trigger] (16 * t2) < a_vals@.len(),
                    forall|cc2: int, t2: int|
                        0 <= cc2 < 16 && 0 <= t2 < k ==> bv_off + #[trigger] (1 * cc2)
                            + #[trigger] (16 * t2) < b_vals@.len(),
                    forall|l2: int, c2: int|
                        0 <= l2 < 16 && 0 <= c2 < cc1 ==> ab@[#[trigger] (c2 * 16 + l2)] == wrap8(
                            c@[mi + l2 + n * (ni + c2)] as int + bit_panel_dot(
                                a_vals@,
                                a_signs@,
                                av_off as int,
                                b_vals@,
                                b_signs@,
                                bv_off as int,
                                l2,
                                c2,
                                t + 1,
                            ),
                        ),
                    forall|l2: int, c2: int|
                        0 <= l2 < 16 && cc1 < c2 < 16 ==> ab@[#[trigger] (c2 * 16 + l2)] == wrap8(
                            c@[mi + l2 + n * (ni + c2)] as int + bit_panel_dot(
                                a_vals@,
                                a_signs@,
                                av_off as int,
                                b_vals@,
                                b_signs@,
                                bv_off as int,
                                l2,
                                c2,
                                t as int,
                            ),
                        ),
                    forall|l2: int|
                        0 <= l2 < l ==> ab@[#[trigger] (cc1 * 16 + l2)] == wrap8(
                            c@[mi + l2 + n * (ni + cc1)] as int + bit_panel_dot(
                                a_vals@,
                                a_signs@,
                                av_off as int,
                                b_vals@,
                                b_signs@,
                                bv_off as int,
                                l2,
                                cc1 as int,
                                t + 1,
                            ),
                        ),
                    forall|l2: int|
                        l <= l2 < 16 ==> ab@[#[trigger] (cc1 * 16 + l2)] == wrap8(
                            c@[mi + l2 + n * (ni + cc1)] as int + bit_panel_dot(
                                a_vals@,
                                a_signs@,
                                av_off as int,
                                b_vals@,
                                b_signs@,
                                bv_off as int,
                                l2,
                                cc1 as int,
                                t as int,
                            ),
                        ),
                decreases 16 - l,
            {
                proof {
                    assert(av_off + 1 * l + 16 * t < a_vals@.len());
                    assert(bv_off + 1 * cc1 + 16 * t < b_vals@.len());
                }
                let av: u8 = a_vals[av_off + 1 * l + 16 * t];
                let asn: u8 = a_signs[av_off + 1 * l + 16 * t];
                let bv: u8 = b_vals[bv_off + 1 * cc1 + 16 * t];
                let bsn: u8 = b_signs[bv_off + 1 * cc1 + 16 * t];
                let d: i8 = dot(av, asn, bv, bsn);
                proof {
                    lemma_slots16(l as int, cc1 as int);
                }
                let prev: i8 = ab[cc1 * 16 + l];
                ab.set(cc1 * 16 + l, prev.wrapping_add(d));
                proof {
                    lemma_wrap8_add(prev, d);
                    lemma_wrap8_absorb(
                        c@[mi + l + n * (ni + cc1)] as int + bit_panel_dot(
                            a_vals@,
                            a_signs@,
                            av_off as int,
                            b_vals@,
                            b_signs@,
                            bv_off as int,
                            l as int,
                            cc1 as int,
                            t as int,
                        ),
                        d as int,
                    );
                    assert(bit_panel_dot(
                        a_vals@,
                        a_signs@,
                        av_off as int,
                        b_vals@,
                        b_signs@,
                        bv_off as int,
                        l as int,
                        cc1 as int,
                        t + 1,
                    ) == bit_panel_dot(
                        a_vals@,
                        a_signs@,
                        av_off as int,
                        b_vals@,
                        b_signs@,
                        bv_off as int,
                        l as int,
                        cc1 as int,
                        t as int,
                    ) + byte_dot(av, asn, bv, bsn));
                }
                l = l + 1;
            }
            cc1 = cc1 + 1;
        }
        t = t + 1;
    }

    // Store the accumulators back into the tile of c.
    let mut cc4: usize = 0;
    while cc4 < 16
        invariant
            cc4 <= 16,
            c@.len() == n * n,
            n * n <= usize::MAX,
            mi + 16 <= n,
            ni + 16 <= n,
            ab@.len() == 256,
            forall|l2: int, c2: int|
                0 <= l2 < 16 && 0 <= c2 < 16 ==> ab@[#[trigger] (c2 * 16 + l2)] == wrap8(
                    old(c)@[mi + l2 + n * (ni + c2)] as int + bit_panel_dot(
                        a_vals@,
                        a_signs@,
                        av_off as int,
                        b_vals@,
                        b_signs@,
                        bv_off as int,
                        l2,
                        c2,
                        k as int,
                    ),
                ),
            forall|i: int, j: int|
                0 <= i < n && 0 <= j < n && !(mi <= i < mi + 16 && ni <= j < ni + 16)
                    ==> c@[#[trigger] (i + n * j)] == old(c)@[i + n * j],
            forall|l2: int, c2: int|
                0 <= l2 < 16 && 0 <= c2 < cc4 ==> c@[mi + l2 + n * (ni + c2)] == ab@[#[trigger] (c2
                    * 16 + l2)],
        decreases 16 - cc4,
    {
        let mut l: usize = 0;
        while l < 16
            invariant
                cc4 < 16,
                l <= 16,
                c@.len() == n * n,
                n * n <= usize::MAX,
                mi + 16 <= n,
                ni + 16 <= n,
                ab@.len() == 256,
                forall|l2: int, c2: int|
                    0 <= l2 < 16 && 0 <= c2 < 16 ==> ab@[#[trigger] (c2 * 16 + l2)] == wrap8(
                        old(c)@[mi + l2 + n * (ni + c2)] as int + bit_panel_dot(
                            a_vals@,
                            a_signs@,
                            av_off as int,
                            b_vals@,
                            b_signs@,
                            bv_off as int,
                            l2,
                            c2,
                            k as int,
                        ),
                    ),
                forall|i: int, j: int|
                    0 <= i < n && 0 <= j < n && !(mi <= i < mi + 16 && ni <= j < ni + 16)
                        ==> c@[#[trigger] (i + n * j)] == old(c)@[i + n * j],
                forall|l2: int, c2: int|
                    0 <= l2 < 16 && 0 <= c2 < cc4 ==> c@[mi + l2 + n * (ni + c2)]
                        == ab@[#[trigger] (c2 * 16 + l2)],
                forall|l2: int|
                    0 <= l2 < l ==> c@[mi + l2 + n * (ni + cc4)] == ab@[#[trigger] (cc4 * 16
                        + l2)],
            decreases 16 - l,
        {
            proof {
                lemma_tile_index_bounds(n as int, 16, 16, mi as int, ni as int, l as int, cc4 as int);
                lemma_slots16(l as int, cc4 as int);
            }
            let v: i8 = ab[cc4 * 16 + l];
            let ghost c_before = c@;
            let w_idx: usize = c_at(mi + l, ni + cc4, n);
            c.set(w_idx, v);
            proof {
                let w: int = mi + l + n * (ni + cc4);
                assert forall|i: int, j: int|
                    0 <= i < n && 0 <= j < n && !(mi <= i < mi + 16 && ni <= j < ni
                        + 16) implies c@[#[trigger] (i + n * j)] == old(c)@[i + n * j] by {
                    lemma_tile_index_bounds(n as int, n as int, n as int, 0, 0, i, j);
                    if i + n * j == w {
                        lemma_flat_unique(n as int, i, j, mi + l, ni + cc4);
                    }
                    assert(c@[i + n * j] == c_before[i + n * j]);
                }
                assert forall|l2: int, c2: int|
                    0 <= l2 < 16 && 0 <= c2 < cc4 implies c@[mi + l2 + n * (ni + c2)]
                    == ab@[#[trigger] (c2 * 16 + l2)] by {
                    lemma_tile_index_bounds(n as int, 16, 16, mi as int, ni as int, l2, c2);
                    if mi + l2 + n * (ni + c2) == w {
                        lemma_flat_unique(n as int, mi + l2, ni + c2, mi + l, ni + cc4);
                    }
                }
                assert forall|l2: int| 0 <= l2 < l + 1 implies c@[mi + l2 + n * (ni + cc4)]
                    == ab@[#[trigger] (cc4 * 16 + l2)] by {
                    lemma_tile_index_bounds(n as int, 16, 16, mi as int, ni as int, l2, cc4 as int);
                    if l2 < l && mi + l2 + n * (ni + cc4) == w {
                        lemma_flat_unique(n as int, mi + l2, ni + cc4, mi + l, ni + cc4);
                    }
                }
            }
            l = l + 1;
        }
        cc4 = cc4 + 1;
    }

    proof {
        assert forall|l: int, cc: int| 0 <= l < 16 && 0 <= cc < 16 implies c@[mi + l + n * (ni
            + cc)] == wrap8(
            old(c)@[mi + l + n * (ni + cc)] as int + #[trigger] bit_panel_dot(
                a_vals@,
                a_signs@,
                av_off as int,
                b_vals@,
                b_signs@,
                bv_off as int,
                l,
                cc,
                k as int,
            ),
        ) by {
            lemma_slots16(l, cc);
            assert(c@[mi + l + n * (ni + cc)] == ab@[cc * 16 + l]);
        }
    }
}

/// A bit-kernel dot product over two packed sections equals the
/// bit-packed dot product over the source byte matrices that were packed
/// into them, taken over the global byte range `[ki, ki + tile_k)`.
proof fn lemma_bit_panel_to_global(
    pav: Seq<u8>,
    pas: Seq<u8>,
    pbv: Seq<u8>,
    pbs: Seq<u8>,
    gav: Seq<u8>,
    gas: Seq<u8>,
    gbv: Seq<u8>,
    gbs: Seq<u8>,
    n: int,
    nb: int,
    tile_k: int,
    mi: int,
    ki: int,
    ni: int,
    mi2: int,
    ni2: int,
    l: int,
    cc: int,
)
    requires
        0 <= l < 16,
        0 <= cc < 16,
        forall|t: int|
            0 <= t < tile_k ==> pav[#[trigger] sect_slot(tile_k, 16, mi2, t, l)] == gav[mi + mi2
                + l + n * (ki + t)] && pas[sect_slot(tile_k, 16, mi2, t, l)] == gas[mi + mi2 + l
                + n * (ki + t)],
        forall|t: int|
            0 <= t < tile_k ==> pbv[#[trigger] sect_slot(tile_k, 16, ni2, t, cc)] == gbv[ki + t
                + nb * (ni + ni2 + cc)] && pbs[sect_slot(tile_k, 16, ni2, t, cc)] == gbs[ki + t
                + nb * (ni + ni2 + cc)],
    ensures
        bit_panel_dot(pav, pas, mi2 * tile_k, pbv, pbs, ni2 * tile_k, l, cc, tile_k)
            == bit_dot_range(gav, gas, mi + mi2 + l, n, gbv, gbs, nb * (ni + ni2 + cc), 1, ki, ki
            + tile_k),
{
    let i: int = mi + mi2 + l;
    let sb: int = nb * (ni + ni2 + cc);
    lemma_bit_dot_range_shift(gav, gas, i, n, gbv, gbs, sb, 1, ki, ki, ki + tile_k);
    assert forall|t: int| 0 <= t < tile_k implies pav[(mi2 * tile_k + l) + #[trigger] (16 * t)]
        == gav[(i + n * ki) + n * t] && pas[(mi2 * tile_k + l) + 16 * t] == gas[(i + n * ki) + n
        * t] by {
        assert(sect_slot(tile_k, 16, mi2, t, l) == mi2 * tile_k + l + 16 * t);
        assert(n * (ki + t) == n * ki + n * t) by (nonlinear_arith);
        assert(pav[sect_slot(tile_k, 16, mi2, t, l)] == gav[mi + mi2 + l + n * (ki + t)]);
    }
    assert forall|t: int| 0 <= t < tile_k implies pbv[(ni2 * tile_k + cc) + #[trigger] (16 * t)]
        == gbv[(sb + ki) + 1 * t] && pbs[(ni2 * tile_k + cc) + 16 * t] == gbs[(sb + ki) + 1
        * t] by {
        assert(sect_slot(tile_k, 16, ni2, t, cc) == ni2 * tile_k + cc + 16 * t);
        assert(pbv[sect_slot(tile_k, 16, ni2, t, cc)] == gbv[ki + t + sb]);
    }
    lemma_bit_dot_range_equal(
        pav,
        pas,
        mi2 * tile_k + l,
        16,
        pbv,
        pbs,
        ni2 * tile_k + cc,
        16,
        gav,
        gas,
        i + n * ki,
        n,
        gbv,
        gbs,
        sb + ki,
        1,
        0,
        tile_k,
    );
}

/// Packs the byte sub-block of A for one coarse tile: 16-row sections,
/// lane-contiguous; section `s`, step `t`, lane `l` lands at
/// `packed[s*k + 16*t + l]`, read from `a[a_off + s + l + n*t]`.
fn pack_a(k: usize, mt: usize, n: usize, a: &Vec<u8>, a_off: usize, packed: &mut Vec<u8>)
    requires
        mt % 16 == 0,
        mt * k <= old(packed)@.len(),
        a_off + mt <= a@.len(),
        forall|t: int| 0 <= t < k ==> a_off + mt + #[trigger] ((n as int) * t) <= a@.len(),
    ensures
        final(packed)@.len() == old(packed)@.len(),
        forall|s: int, l: int, t: int|
            0 <= s < mt && s % 16 == 0 && 0 <= l < 16 && 0 <= t < k
                ==> final(packed)@[#[trigger] sect_slot(k as int, 16, s, t, l)] == a@[a_off + s + l
                + (n as int) * t],
{
    proof {
        assert(packed.len() == packed@.len() && a.len() == a@.len());
    }
    let mut s: usize = 0;
    while s < mt
        invariant
            s <= mt,
            s % 16 == 0,
            mt % 16 == 0,
            mt * k <= packed@.len(),
            a_off + mt <= a@.len(),
            packed@.len() == old(packed)@.len(),
            packed@.len() <= usize::MAX,
            a@.len() <= usize::MAX,
            forall|t: int| 0 <= t < k ==> a_off + mt + #[trigger] ((n as int) * t) <= a@.len(),
            forall|s2: int, l: int, t: int|
                0 <= s2 < s && s2 % 16 == 0 && 0 <= l < 16 && 0 <= t < k
                    ==> packed@[#[trigger] sect_slot(k as int, 16, s2, t, l)] == a@[a_off + s2 + l
                    + (n as int) * t],
        decreases mt - s,
    {
        proof {
            assert forall|l: int, t: int|
                0 <= l < 16 && 0 <= t < k implies (a_off + s) + #[trigger] (1 * l) + #[trigger] ((
            n as int) * t) < a@.len() by {
                assert(a_off + mt + (n as int) * t <= a@.len());
            }
            assert(s * k + 16 * k <= mt * k && 0 <= s * k) by (nonlinear_arith)
                requires
                    s + 16 <= mt,
                    0 <= s,
                    0 <= k,
            ;
        }
        let d_off: usize = s * k;
        let ghost p_before = packed@;
        pack_panel(k, 16, a, a_off + s, 1, n, packed, d_off);
        proof {
            assert forall|s2: int, l: int, t: int|
                0 <= s2 < s + 16 && s2 % 16 == 0 && 0 <= l < 16 && 0 <= t
                    < k implies packed@[#[trigger] sect_slot(k as int, 16, s2, t, l)] == a@[a_off
                + s2 + l + (n as int) * t] by {
                if s2 < s {
                    assert(0 <= sect_slot(k as int, 16, s2, t, l) && sect_slot(
                        k as int,
                        16,
                        s2,
                        t,
                        l,
                    ) < s * k) by (nonlinear_arith)
                        requires
                            0 <= s2,
                            s2 + 16 <= s,
                            0 <= l < 16,
                            0 <= t < k,
                    ;
                } else {
                    assert(s2 == s);
                    assert(packed@[d_off + (16 * t + l)] == a@[(a_off + s) + (1 * l) + (n as int)
                        * t]);
                    assert(sect_slot(k as int, 16, s2, t, l) == d_off + (16 * t + l));
                }
            }
        }
        s = s + 16;
    }
}

/// Packs the byte sub-block of B for one coarse tile: 16-column sections,
/// lane-contiguous; section `s`, step `t`, column lane `cc` lands at
/// `packed[s*k + 16*t + cc]`, read from `b[b_off + nb*(s+cc) + t]`.
fn pack_b(k: usize, nt: usize, nb: usize, b: &Vec<u8>, b_off: usize, packed: &mut Vec<u8>)
    requires
        nt % 16 == 0,
        nt * k <= old(packed)@.len(),
        forall|q: int| 0 <= q < nt ==> b_off + #[trigger] ((nb as int) * q) + k <= b@.len(),
    ensures
        final(packed)@.len() == old(packed)@.len(),
        forall|s: int, cc: int, t: int|
            0 <= s < nt && s % 16 == 0 && 0 <= cc < 16 && 0 <= t < k
                ==> final(packed)@[#[trigger] sect_slot(k as int, 16, s, t, cc)] == b@[b_off + (
            nb as int) * (s + cc) + t],
{
    proof {
        assert(packed.len() == packed@.len() && b.len() == b@.len());
    }
    let mut s: usize = 0;
    while s < nt
        invariant
            s <= nt,
            s % 16 == 0,
            nt % 16 == 0,
            nt * k <= packed@.len(),
            packed@.len() == old(packed)@.len(),
            packed@.len() <= usize::MAX,
            b@.len() <= usize::MAX,
            forall|q: int| 0 <= q < nt ==> b_off + #[trigger] ((nb as int) * q) + k <= b@.len(),
            forall|s2: int, cc: int, t: int|
                0 <= s2 < s && s2 % 16 == 0 && 0 <= cc < 16 && 0 <= t < k
                    ==> packed@[#[trigger] sect_slot(k as int, 16, s2, t, cc)] == b@[b_off + (
                nb as int) * (s2 + cc) + t],
        decreases nt - s,
    {
        proof {
            assert(0 <= (nb as int) * s) by (nonlinear_arith)
                requires
                    0 <= s,
                    0 <= nb,
            ;
            assert(b_off + (nb as int) * s + k <= b@.len());
            assert forall|cc: int, t: int|
                0 <= cc < 16 && 0 <= t < k implies (b_off + nb * s) + #[trigger] ((nb as int)
                * cc) + #[trigger] (1 * t) < b@.len() by {
                assert((nb as int) * s + (nb as int) * cc == (nb as int) * (s + cc))
                    by (nonlinear_arith);
                assert(b_off + (nb as int) * (s + cc) + k <= b@.len());
            }
            assert(s * k + 16 * k <= nt * k && 0 <= s * k) by (nonlinear_arith)
                requires
                    s + 16 <= nt,
                    0 <= s,
                    0 <= k,
            ;
        }
        let s_off: usize = b_off + nb * s;
        let d_off: usize = s * k;
        let ghost p_before = packed@;
        pack_panel(k, 16, b, s_off, nb, 1, packed, d_off);
        proof {
            assert forall|s2: int, cc: int, t: int|
                0 <= s2 < s + 16 && s2 % 16 == 0 && 0 <= cc < 16 && 0 <= t
                    < k implies packed@[#[trigger] sect_slot(k as int, 16, s2, t, cc)] == b@[b_off
                + (nb as int) * (s2 + cc) + t] by {
                if s2 < s {
                    assert(0 <= sect_slot(k as int, 16, s2, t, cc) && sect_slot(
                        k as int,
                        16,
                        s2,
                        t,
                        cc,
                    ) < s * k) by (nonlinear_arith)
                        requires
                            0 <= s2,
                            s2 + 16 <= s,
                            0 <= cc < 16,
                            0 <= t < k,
                    ;
                } else {
                    assert(s2 == s);
                    assert(packed@[d_off + (16 * t + cc)] == b@[s_off + ((nb as int) * cc) + 1
                        * t]);
                    assert(sect_slot(k as int, 16, s2, t, cc) == d_off + (16 * t + cc));
                    assert((nb as int) * s + (nb as int) * cc == (nb as int) * (s + cc))
                        by (nonlinear_arith);
                }
            }
        }
        s = s + 16;
    }
}

/// Or-ing `v << j` (with `v` at most 1) into a byte sets bit `j` when
/// `v` is 1 and leaves every other bit alone.
proof fn lemma_set_bit(x: u8, v: u8, j: u8)
    by (bit_vector)
    requires
        v <= 1,
        j < 8,
    ensures
        forall|u: u8| u < 8 && u != j ==> (bit8(x | (v << j), u as int) <==> bit8(x, u as int)),
        bit8(x | (v << j), j as int) <==> (bit8(x, j as int) || v == 1),
{
}

/// The zero byte has no bits set.
proof fn lemma_zero_bits()
    by (bit_vector)
    ensures
        forall|u: u8| u < 8 ==> !bit8(0u8, u as int),
{
}

/// Compresses a vector of ternary elements into parallel value and sign
/// bit masks, eight elements per byte: bit `u` of value byte `q` is set
/// exactly when element `8q + u` is nonzero, and bit `u` of sign byte
/// `q` exactly when it is negative.
pub fn compress(input: &Vec<i8>) -> (out: (Vec<u8>, Vec<u8>))
    requires
        input@.len() % 8 == 0,
        forall|p: int|
            0 <= p < input@.len() ==> input@[p] == -1i8 || input@[p] == 0i8 || input@[p] == 1i8,
    ensures
        out.0@.len() * 8 == input@.len(),
        out.1@.len() * 8 == input@.len(),
        forall|q: int, u: int|
            0 <= q < out.0@.len() && 0 <= u < 8 ==> ((#[trigger] bit8(out.0@[q], u) <==> input@[
            8 * q + u] != 0i8) && (bit8(out.1@[q], u) <==> input@[8 * q + u] == -1i8)),
        forall|q: int, u: int|
            0 <= q < out.0@.len() && 0 <= u < 8 ==> #[trigger] tern8(out.0@[q], out.1@[q], u)
                == input@[8 * q + u],
{
    let len: usize = input.len();
    let mut vals: Vec<u8> = Vec::new();
    let mut signs: Vec<u8> = Vec::new();

    let mut base: usize = 0;
    while base < len
        invariant
            base <= len,
            base % 8 == 0,
            len % 8 == 0,
            len == input@.len(),
            vals@.len() * 8 == base,
            signs@.len() * 8 == base,
            forall|p: int|
                0 <= p < input@.len() ==> input@[p] == -1i8 || input@[p] == 0i8 || input@[p]
                    == 1i8,
            forall|q: int, u: int|
                0 <= q < vals@.len() && 0 <= u < 8 ==> ((#[trigger] bit8(vals@[q], u) <==> input@[
                8 * q + u] != 0i8) && (bit8(signs@[q], u) <==> input@[8 * q + u] == -1i8)),
        decreases len - base,
    {
        let mut val: u8 = 0;
        let mut sign: u8 = 0;
        proof {
            lemma_zero_bits();
            assert forall|u: int| 0 <= u < 8 implies !bit8(0u8, u) by {
                assert(!bit8(0u8, (u as u8) as int));
            }
        }
        let mut j: u8 = 0;
        while j < 8
            invariant
                j <= 8,
                base + 8 <= len,
                len == input@.len(),
                forall|p: int|
                    0 <= p < input@.len() ==> input@[p] == -1i8 || input@[p] == 0i8 || input@[p]
                        == 1i8,
                forall|u: int|
                    0 <= u < j ==> ((#[trigger] bit8(val, u) <==> input@[base + u] != 0i8) && (
                    bit8(sign, u) <==> input@[base + u] == -1i8)),
                forall|u: int| j <= u < 8 ==> !(#[trigger] bit8(val, u)) && !bit8(sign, u),
            decreases 8 - j,
        {
            let x: i8 = input[base + (j as usize)];
            let v: u8 = if x != 0 {
                1
            } else {
                0
            };
            let s: u8 = if x == -1 {
                1
            } else {
                0
            };
            let ghost val_old = val;
            let ghost sign_old = sign;
            proof {
                let ghost ji: int = j as int;
                assert(j <= ji < 8);
                assert(!bit8(val, ji));
                assert(!bit8(sign, ji));
            }
            val = val | (v << j);
            sign = sign | (s << j);
            proof {
                lemma_set_bit(val_old, v, j);
                lemma_set_bit(sign_old, s, j);
                assert forall|u: int| 0 <= u < j + 1 implies ((#[trigger] bit8(val, u)
                    <==> input@[base + u] != 0i8) && (bit8(sign, u) <==> input@[base + u]
                    == -1i8)) by {
                    let uu: u8 = u as u8;
                    assert(uu as int == u);
                    if u < j {
                        assert(bit8(val, uu as int) <==> bit8(val_old, uu as int));
                        assert(bit8(sign, uu as int) <==> bit8(sign_old, uu as int));
                    } else {
                        assert(u == j as int);
                        assert(bit8(val, u) <==> (bit8(val_old, u) || v == 1));
                        assert(bit8(sign, u) <==> (bit8(sign_old, u) || s == 1));
                        assert(!bit8(val_old, u) && !bit8(sign_old, u));
                    }
                }
                assert forall|u: int| j + 1 <= u < 8 implies !(#[trigger] bit8(val, u)) && !bit8(
                    sign,
                    u,
                ) by {
                    let uu: u8 = u as u8;
                    assert(uu as int == u);
                    assert(bit8(val, uu as int) <==> bit8(val_old, uu as int));
                    assert(bit8(sign, uu as int) <==> bit8(sign_old, uu as int));
                }
            }
            j = j + 1;
        }
        let ghost vals_prev = vals@;
        let ghost signs_prev = signs@;
        vals.push(val);
        signs.push(sign);
        proof {
            let q0: int = vals@.len() - 1;
            assert(vals@[q0] == val && signs@[q0] == sign);
            assert(8 * q0 == base);
            assert forall|q: int, u: int|
                0 <= q < vals@.len() && 0 <= u < 8 implies ((#[trigger] bit8(vals@[q], u)
                <==> input@[8 * q + u] != 0i8) && (bit8(signs@[q], u) <==> input@[8 * q + u]
                == -1i8)) by {
                if q < q0 {
                    assert(vals@[q] == vals_prev[q]);
                    assert(signs@[q] == signs_prev[q]);
                } else {
                    assert(bit8(val, u) <==> input@[base + u] != 0i8);
                    assert(bit8(sign, u) <==> input@[base + u] == -1i8);
                }
            }
            assert(vals@.len() * 8 == base + 8) by (nonlinear_arith)
                requires
                    vals@.len() == (base + 8) / 8,
                    base % 8 == 0,
                    base >= 0,
                    8 * ((base + 8) / 8) == base + 8,
            ;
        }
        base = base + 8;
    }
    proof {
        assert forall|q: int, u: int|
            0 <= q < vals@.len() && 0 <= u < 8 implies #[trigger] tern8(vals@[q], signs@[q], u)
            == input@[8 * q + u] by {
            assert(bit8(vals@[q], u) <==> input@[8 * q + u] != 0i8);
            assert(0 <= 8 * q + u < input@.len()) by (nonlinear_arith)
                requires
                    0 <= q,
                    0 <= u < 8,
                    (q + 1) * 8 <= input@.len(),
            ;
        }
    }
    (vals, signs)
}

/// Re-lays a column-major rows-by-cols block out in row-major order.
pub fn col_major_to_row_major<T: Copy>(rows: usize, cols: usize, input: &Vec<T>) -> (out: Vec<T>)
    requires
        input@.len() == rows * cols,
    ensures
        out@.len() == rows * cols,
        forall|r: int, c: int|
            0 <= r < rows && 0 <= c < cols ==> out@[#[trigger] (r * cols + c)] == input@[c * rows
                + r],
{
    let total: usize = input.len();
    let mut out: Vec<T> = Vec::new();
    let mut ri: usize = 0;
    while ri < rows
        invariant
            ri <= rows,
            input@.len() == rows * cols,
            rows * cols <= usize::MAX,
            out@.len() == ri * cols,
            forall|r: int, c: int|
                0 <= r < ri && 0 <= c < cols ==> out@[#[trigger] (r * cols + c)] == input@[c * rows
                    + r],
        decreases rows - ri,
    {
        let mut ci: usize = 0;
        while ci < cols
            invariant
                ri < rows,
                ci <= cols,
                input@.len() == rows * cols,
                rows * cols <= usize::MAX,
                out@.len() == ri * cols + ci,
                forall|r: int, c: int|
                    0 <= r < ri && 0 <= c < cols ==> out@[#[trigger] (r * cols + c)] == input@[c
                        * rows + r],
                forall|c: int|
                    0 <= c < ci ==> out@[#[trigger] ((ri as int) * cols + c)] == input@[c * rows
                        + ri],
            decreases cols - ci,
        {
            proof {
                assert(0 <= ci * rows + ri < rows * cols && ri * cols + ci < rows * cols)
                    by (nonlinear_arith)
                    requires
                        0 <= ri < rows,
                        0 <= ci < cols,
                ;
            }
            out.push(input[ci * rows + ri]);
            proof {
                assert forall|r: int, c: int|
                    0 <= r < ri && 0 <= c < cols implies out@[#[trigger] (r * cols + c)]
                    == input@[c * rows + r] by {
                    assert(0 <= r * cols + c < ri * cols) by (nonlinear_arith)
                        requires
                            0 <= r < ri,
                            0 <= c < cols,
                    ;
                }
                assert forall|c: int|
                    0 <= c < ci + 1 implies out@[#[trigger] ((ri as int) * cols + c)] == input@[c
                    * rows + ri] by {
                    assert(0 <= (ri as int) * cols) by (nonlinear_arith)
                        requires
                            0 <= ri,
                            0 <= cols,
                    ;
                }
            }
            ci = ci + 1;
        }
        proof {
            assert(ri * cols + cols == (ri + 1) * cols) by (nonlinear_arith);
        }
        ri = ri + 1;
    }
    proof {
        assert((rows as int) * cols == rows * cols) by (nonlinear_arith);
    }
    out
}

/// Re-lays a row-major rows-by-cols block out in column-major order.
pub fn row_major_to_col_major<T: Copy>(rows: usize, cols: usize, input: &Vec<T>) -> (out: Vec<T>)
    requires
        input@.len() == rows * cols,
    ensures
        out@.len() == rows * cols,
        forall|r: int, c: int|
            0 <= r < rows && 0 <= c < cols ==> out@[#[trigger] (c * rows + r)] == input@[r * cols
                + c],
{
    let total: usize = input.len();
    let mut out: Vec<T> = Vec::new();
    let mut ci: usize = 0;
    while ci < cols
        invariant
            ci <= cols,
            input@.len() == rows * cols,
            rows * cols <= usize::MAX,
            out@.len() == ci * rows,
            forall|r: int, c: int|
                0 <= r < rows && 0 <= c < ci ==> out@[#[trigger] (c * rows + r)] == input@[r * cols
                    + c],
        decreases cols - ci,
    {
        let mut ri: usize = 0;
        while ri < rows
            invariant
                ci < cols,
                ri <= rows,
                input@.len() == rows * cols,
                rows * cols <= usize::MAX,
                out@.len() == ci * rows + ri,
                forall|r: int, c: int|
                    0 <= r < rows && 0 <= c < ci ==> out@[#[trigger] (c * rows + r)] == input@[r
                        * cols + c],
                forall|r: int|
                    0 <= r < ri ==> out@[#[trigger] ((ci as int) * rows + r)] == input@[r * cols
                        + ci],
            decreases rows - ri,
        {
            proof {
                assert(0 <= ri * cols + ci < rows * cols && ci * rows + ri < rows * cols)
                    by (nonlinear_arith)
                    requires
                        0 <= ri < rows,
                        0 <= ci < cols,
                ;
            }
            out.push(input[ri * cols + ci]);
            proof {
                assert forall|r: int, c: int|
                    0 <= r < rows && 0 <= c < ci implies out@[#[trigger] (c * rows + r)]
                    == input@[r * cols + c] by {
                    assert(0 <= c * rows + r < ci * rows) by (nonlinear_arith)
                        requires
                            0 <= r < rows,
                            0 <= c < ci,
                    ;
                }
                assert forall|r: int|
                    0 <= r < ri + 1 implies out@[#[trigger] ((ci as int) * rows + r)] == input@[r
                    * cols + ci] by {
                    assert(0 <= (ci as int) * rows) by (nonlinear_arith)
                        requires
                            0 <= ci,
                            0 <= rows,
                    ;
                }
            }
            ri = ri + 1;
        }
        proof {
            assert(ci * rows + rows == (ci + 1) * rows) by (nonlinear_arith);
        }
        ci = ci + 1;
    }
    proof {
        assert((cols as int) * rows == rows * cols) by (nonlinear_arith);
    }
    out
}

/// Sweeps the bit kernel down one 16-column section of the current
/// block, adding the byte reduction slice `[ki, ki + tile_k)` to the
/// output columns `ni + ni2 .. ni + ni2 + 16`.  `gav`/`gas` and
/// `gbv`/`gbs` are the byte matrices whose sub-blocks the packed buffers
/// hold.
#[verifier::rlimit(100)]
fn bit_sweep(
    tile_m: usize,
    tile_k: usize,
    n: usize,
    nb: usize,
    pav: &Vec<u8>,
    pas: &Vec<u8>,
    pbv: &Vec<u8>,
    pbs: &Vec<u8>,
    c: &mut Vec<i8>,
    mi: usize,
    ki: usize,
    ni: usize,
    ni2: usize,
    gav: Ghost<Seq<u8>>,
    gas: Ghost<Seq<u8>>,
    gbv: Ghost<Seq<u8>>,
    gbs: Ghost<Seq<u8>>,
)
    requires
        old(c)@.len() == n * n,
        n * n <= usize::MAX,
        mi + tile_m <= n,
        ni + ni2 + 16 <= n,
        tile_m % 16 == 0,
        ni2 % 16 == 0,
        1 <= tile_k,
        pas@.len() == pav@.len(),
        pbs@.len() == pbv@.len(),
        tile_m * tile_k <= pav@.len(),
        ni2 * tile_k + 16 * tile_k <= pbv@.len(),
        pav@.len() <= usize::MAX,
        pbv@.len() <= usize::MAX,
        forall|s: int, l: int, t: int|
            0 <= s < tile_m && s % 16 == 0 && 0 <= l < 16 && 0 <= t < tile_k
                ==> pav@[#[trigger] sect_slot(tile_k as int, 16, s, t, l)] == gav@[mi + s + l + n
                * (ki + t)] && pas@[sect_slot(tile_k as int, 16, s, t, l)] == gas@[mi + s + l + n
                * (ki + t)],
        forall|cc: int, t: int|
            0 <= cc < 16 && 0 <= t < tile_k ==> pbv@[#[trigger] sect_slot(
                tile_k as int,
                16,
                ni2 as int,
                t,
                cc,
            )] == gbv@[ki + t + nb * (ni + ni2 + cc)] && pbs@[sect_slot(
                tile_k as int,
                16,
                ni2 as int,
                t,
                cc,
            )] == gbs@[ki + t + nb * (ni + ni2 + cc)],
    ensures
        final(c)@.len() == n * n,
        forall|i: int, j: int|
            mi <= i < mi + tile_m && ni + ni2 <= j < ni + ni2 + 16 ==> final(c)@[#[trigger] (i + n
                * j)] == wrap8(
                old(c)@[i + n * j] as int + bit_dot_range(
                    gav@,
                    gas@,
                    i,
                    n as int,
                    gbv@,
                    gbs@,
                    (nb as int) * j,
                    1,
                    ki as int,
                    ki + tile_k,
                ),
            ),
        forall|i: int, j: int|
            0 <= i < n && 0 <= j < n && !(mi <= i < mi + tile_m && ni + ni2 <= j < ni + ni2 + 16)
                ==> final(c)@[#[trigger] (i + n * j)] == old(c)@[i + n * j],
{
    let mut mi3: usize = 0;
    while mi3 < tile_m
        invariant
            mi3 <= tile_m,
            mi3 % 16 == 0,
            ni2 % 16 == 0,
            tile_m % 16 == 0,
            1 <= tile_k,
            c@.len() == n * n,
            n * n <= usize::MAX,
            mi + tile_m <= n,
            ni + ni2 + 16 <= n,
            pas@.len() == pav@.len(),
            pbs@.len() == pbv@.len(),
            tile_m * tile_k <= pav@.len(),
            ni2 * tile_k + 16 * tile_k <= pbv@.len(),
            pav@.len() <= usize::MAX,
            pbv@.len() <= usize::MAX,
            forall|s: int, l: int, t: int|
                0 <= s < tile_m && s % 16 == 0 && 0 <= l < 16 && 0 <= t < tile_k
                    ==> pav@[#[trigger] sect_slot(tile_k as int, 16, s, t, l)] == gav@[mi + s + l
                    + n * (ki + t)] && pas@[sect_slot(tile_k as int, 16, s, t, l)] == gas@[mi + s
                    + l + n * (ki + t)],
            forall|cc: int, t: int|
                0 <= cc < 16 && 0 <= t < tile_k ==> pbv@[#[trigger] sect_slot(
                    tile_k as int,
                    16,
                    ni2 as int,
                    t,
                    cc,
                )] == gbv@[ki + t + nb * (ni + ni2 + cc)] && pbs@[sect_slot(
                    tile_k as int,
                    16,
                    ni2 as int,
                    t,
                    cc,
                )] == gbs@[ki + t + nb * (ni + ni2 + cc)],
            forall|i: int, j: int|
                mi <= i < mi + mi3 && ni + ni2 <= j < ni + ni2 + 16 ==> c@[#[trigger] (i + n * j)]
                    == wrap8(
                    old(c)@[i + n * j] as int + bit_dot_range(
                        gav@,
                        gas@,
                        i,
                        n as int,
                        gbv@,
                        gbs@,
                        (nb as int) * j,
                        1,
                        ki as int,
                        ki + tile_k,
                    ),
                ),
            forall|i: int, j: int|
                0 <= i < n && 0 <= j < n && !(mi <= i < mi + mi3 && ni + ni2 <= j < ni + ni2 + 16)
                    ==> c@[#[trigger] (i + n * j)] == old(c)@[i + n * j],
        decreases tile_m - mi3,
    {
        proof {
            assert forall|l: int, t: int|
                0 <= l < 16 && 0 <= t < tile_k implies (mi3 * tile_k) + #[trigger] (1 * l)
                + #[trigger] (16 * t) < pav@.len() by {
                assert(mi3 * tile_k + l + 16 * t < tile_m * tile_k) by (nonlinear_arith)
                    requires
                        mi3 + 16 <= tile_m,
                        0 <= mi3,
                        0 <= l < 16,
                        0 <= t < tile_k,
                ;
            }
            assert forall|cc: int, t: int|
                0 <= cc < 16 && 0 <= t < tile_k implies (ni2 * tile_k) + #[trigger] (1 * cc)
                + #[trigger] (16 * t) < pbv@.len() by {
                assert(cc + 16 * t < 16 * tile_k) by (nonlinear_arith)
                    requires
                        0 <= cc < 16,
                        0 <= t < tile_k,
                ;
            }
            assert(0 <= mi3 * tile_k && mi3 * tile_k <= tile_m * tile_k && 0 <= ni2 * tile_k)
                by (nonlinear_arith)
                requires
                    0 <= mi3 <= tile_m,
                    0 <= tile_k,
                    0 <= ni2,
            ;
        }
        let pa_off: usize = mi3 * tile_k;
        let pb_off: usize = ni2 * tile_k;
        let ghost c_prev = c@;
        dot16x16(tile_k, n, pav, pas, pa_off, pbv, pbs, pb_off, c, mi + mi3, ni + ni2);
        proof {
            assert forall|i: int, j: int|
                mi + mi3 <= i < mi + mi3 + 16 && ni + ni2 <= j < ni + ni2
                    + 16 implies c@[#[trigger] (i + n * j)] == wrap8(
                c_prev[i + n * j] as int + bit_dot_range(
                    gav@,
                    gas@,
                    i,
                    n as int,
                    gbv@,
                    gbs@,
                    (nb as int) * j,
                    1,
                    ki as int,
                    ki + tile_k,
                ),
            ) by {
                let l: int = i - (mi + mi3);
                let cc: int = j - (ni + ni2);
                assert(c@[(mi + mi3) + l + n * ((ni + ni2) + cc)] == wrap8(
                    c_prev[(mi + mi3) + l + n * ((ni + ni2) + cc)] as int + bit_panel_dot(
                        pav@,
                        pas@,
                        pa_off as int,
                        pbv@,
                        pbs@,
                        pb_off as int,
                        l,
                        cc,
                        tile_k as int,
                    ),
                ));
                lemma_bit_panel_to_global(
                    pav@,
                    pas@,
                    pbv@,
                    pbs@,
                    gav@,
                    gas@,
                    gbv@,
                    gbs@,
                    n as int,
                    nb as int,
                    tile_k as int,
                    mi as int,
                    ki as int,
                    ni as int,
                    mi3 as int,
                    ni2 as int,
                    l,
                    cc,
                );
                assert(bit_panel_dot(
                    pav@,
                    pas@,
                    (mi3 * tile_k) as int,
                    pbv@,
                    pbs@,
                    (ni2 * tile_k) as int,
                    l,
                    cc,
                    tile_k as int,
                ) == bit_dot_range(
                    gav@,
                    gas@,
                    mi + mi3 + l,
                    n as int,
                    gbv@,
                    gbs@,
                    (nb as int) * ((ni + ni2) + cc),
                    1,
                    ki as int,
                    ki + tile_k,
                ));
            }
        }
        mi3 = mi3 + 16;
    }
}

/// Adds, to the block of `c` with corner (mi, ni), the byte reduction
/// slice `[ki, ki + tile_k)` of the bit-packed product, reading all four
/// packed panels.
fn inner_kernel(
    tile_m: usize,
    tile_k: usize,
    tile_n: usize,
    n: usize,
    nb: usize,
    pav: &Vec<u8>,
    pas: &Vec<u8>,
    pbv: &Vec<u8>,
    pbs: &Vec<u8>,
    c: &mut Vec<i8>,
    mi: usize,
    ki: usize,
    ni: usize,
    gav: Ghost<Seq<u8>>,
    gas: Ghost<Seq<u8>>,
    gbv: Ghost<Seq<u8>>,
    gbs: Ghost<Seq<u8>>,
)
    requires
        old(c)@.len() == n * n,
        n * n <= usize::MAX,
        mi + tile_m <= n,
        ni + tile_n <= n,
        tile_m % 16 == 0,
        tile_n % 16 == 0,
        1 <= tile_m,
        1 <= tile_n,
        1 <= tile_k,
        pas@.len() == pav@.len(),
        pbs@.len() == pbv@.len(),
        tile_m * tile_k <= pav@.len(),
        tile_n * tile_k <= pbv@.len(),
        pav@.len() <= usize::MAX,
        pbv@.len() <= usize::MAX,
        forall|s: int, l: int, t: int|
            0 <= s < tile_m && s % 16 == 0 && 0 <= l < 16 && 0 <= t < tile_k
                ==> pav@[#[trigger] sect_slot(tile_k as int, 16, s, t, l)] == gav@[mi + s + l + n
                * (ki + t)] && pas@[sect_slot(tile_k as int, 16, s, t, l)] == gas@[mi + s + l + n
                * (ki + t)],
        forall|s: int, cc: int, t: int|
            0 <= s < tile_n && s % 16 == 0 && 0 <= cc < 16 && 0 <= t < tile_k
                ==> pbv@[#[trigger] sect_slot(tile_k as int, 16, s, t, cc)] == gbv@[ki + t + nb * (
            ni + s + cc)] && pbs@[sect_slot(tile_k as int, 16, s, t, cc)] == gbs@[ki + t + nb * (ni
                + s + cc)],
    ensures
        final(c)@.len() == n * n,
        forall|i: int, j: int|
            mi <= i < mi + tile_m && ni <= j < ni + tile_n ==> final(c)@[#[trigger] (i + n * j)]
                == wrap8(
                old(c)@[i + n * j] as int + bit_dot_range(
                    gav@,
                    gas@,
                    i,
                    n as int,
                    gbv@,
                    gbs@,
                    (nb as int) * j,
                    1,
                    ki as int,
                    ki + tile_k,
                ),
            ),
        forall|i: int, j: int|
            0 <= i < n && 0 <= j < n && !(mi <= i < mi + tile_m && ni <= j < ni + tile_n)
                ==> final(c)@[#[trigger] (i + n * j)] == old(c)@[i + n * j],
{
    let mut ni2: usize = 0;
    while ni2 < tile_n
        invariant
            ni2 <= tile_n,
            ni2 % 16 == 0,
            tile_n % 16 == 0,
            tile_m % 16 == 0,
            1 <= tile_m,
            1 <= tile_k,
            c@.len() == n * n,
            n * n <= usize::MAX,
            mi + tile_m <= n,
            ni + tile_n <= n,
            pas@.len() == pav@.len(),
            pbs@.len() == pbv@.len(),
            tile_m * tile_k <= pav@.len(),
            tile_n * tile_k <= pbv@.len(),
            pav@.len() <= usize::MAX,
            pbv@.len() <= usize::MAX,
            forall|s: int, l: int, t: int|
                0 <= s < tile_m && s % 16 == 0 && 0 <= l < 16 && 0 <= t < tile_k
                    ==> pav@[#[trigger] sect_slot(tile_k as int, 16, s, t, l)] == gav@[mi + s + l
                    + n * (ki + t)] && pas@[sect_slot(tile_k as int, 16, s, t, l)] == gas@[mi + s
                    + l + n * (ki + t)],
            forall|s: int, cc: int, t: int|
                0 <= s < tile_n && s % 16 == 0 && 0 <= cc < 16 && 0 <= t < tile_k
                    ==> pbv@[#[trigger] sect_slot(tile_k as int, 16, s, t, cc)] == gbv@[ki + t + nb
                    * (ni + s + cc)] && pbs@[sect_slot(tile_k as int, 16, s, t, cc)] == gbs@[ki + t
                    + nb * (ni + s + cc)],
            forall|i: int, j: int|
                mi <= i < mi + tile_m && ni <= j < ni + ni2 ==> c@[#[trigger] (i + n * j)]
                    == wrap8(
                    old(c)@[i + n * j] as int + bit_dot_range(
                        gav@,
                        gas@,
                        i,
                        n as int,
                        gbv@,
                        gbs@,
                        (nb as int) * j,
                        1,
                        ki as int,
                        ki + tile_k,
                    ),
                ),
            forall|i: int, j: int|
                0 <= i < n && 0 <= j < n && !(mi <= i < mi + tile_m && ni <= j < ni + ni2)
                    ==> c@[#[trigger] (i + n * j)] == old(c)@[i + n * j],
        decreases tile_n - ni2,
    {
        proof {
            assert(ni2 * tile_k + 16 * tile_k <= tile_n * tile_k) by (nonlinear_arith)
                requires
                    ni2 + 16 <= tile_n,
                    0 <= ni2,
                    0 <= tile_k,
            ;
        }
        bit_sweep(
            tile_m,
            tile_k,
            n,
            nb,
            pav,
            pas,
            pbv,
            pbs,
            c,
            mi,
            ki,
            ni,
            ni2,
            gav,
            gas,
            gbv,
            gbs,
        );
        ni2 = ni2 + 16;
    }
}

/// A bit-packed dot product over global byte row `i` of A and byte
/// column `j` of B equals the plain dot product of the decoded matrices
/// over the corresponding element range.
proof fn lemma_block_decodes(
    gav: Seq<u8>,
    gas: Seq<u8>,
    gbv: Seq<u8>,
    gbs: Seq<u8>,
    n: int,
    nb: int,
    i: int,
    j: int,
    ki: int,
    khi: int,
)
    requires
        0 < n,
        8 * nb == n,
        0 <= i < n,
        0 <= j < n,
        0 <= ki <= khi <= nb,
    ensures
        bit_dot_range(gav, gas, i, n, gbv, gbs, nb * j, 1, ki, khi) == dot_range(
            decode_a(gav, gas, n),
            i,
            n,
            decode_b(gbv, gbs, n),
            n * j,
            1,
            8 * ki,
            8 * khi,
        ),
{
    let da = decode_a(gav, gas, n);
    let db = decode_b(gbv, gbs, n);
    assert forall|t: int, u: int| ki <= t < khi && 0 <= u < 8 implies #[trigger] tern(
        gav[i + n * t],
        gas[i + n * t],
        u,
    ) == da[i + n * (8 * t + u)] as int by {
        assert(8 * t + u < n);
        lemma_decode_a_tern(gav, gas, n, i, t, u);
    }
    assert forall|t: int, u: int| ki <= t < khi && 0 <= u < 8 implies #[trigger] tern(
        gbv[nb * j + 1 * t],
        gbs[nb * j + 1 * t],
        u,
    ) == db[n * j + 1 * (8 * t + u)] as int by {
        assert(8 * t + u < n);
        lemma_decode_b_tern(gbv, gbs, n, t, u, j);
        assert(gbv[nb * j + 1 * t] == gbv[t + nb * j]);
    }
    lemma_bit_dot_decodes(gav, gas, i, n, gbv, gbs, nb * j, 1, ki, khi, da, i, n, db, n * j, 1);
}

/// Prepares two ternary matrices for the bit-packed multiply: compresses
/// both into (value, sign) bit masks, routing the A operand through a
/// row-major round trip so that its bytes group eight elements of one
/// row, while B's bytes group eight elements of one column.
pub fn prep9(a: &Vec<i8>, b: &Vec<i8>, n: usize) -> (out: (Vec<u8>, Vec<u8>, Vec<u8>, Vec<u8>))
    requires
        a@.len() == n * n,
        b@.len() == n * n,
        n % 8 == 0,
        forall|p: int| 0 <= p < a@.len() ==> a@[p] == -1i8 || a@[p] == 0i8 || a@[p] == 1i8,
        forall|p: int| 0 <= p < b@.len() ==> b@[p] == -1i8 || b@[p] == 0i8 || b@[p] == 1i8,
    ensures
        out.0@.len() == n * (n / 8),
        out.1@.len() == n * (n / 8),
        out.2@.len() == (n / 8) * n,
        out.3@.len() == (n / 8) * n,
        decode_a(out.0@, out.1@, n as int) == a@,
        decode_b(out.2@, out.3@, n as int) == b@,
        forall|r: int, cb: int, u: int|
            0 <= r < n && 0 <= cb < n / 8 && 0 <= u < 8 ==> ((#[trigger] bit8(
                out.0@[r + n * cb],
                u,
            ) <==> a@[r + n * (8 * cb + u)] != 0i8) && (bit8(out.1@[r + n * cb], u) <==> a@[r + n
                * (8 * cb + u)] == -1i8)),
        forall|rb: int, c: int, u: int|
            0 <= rb < n / 8 && 0 <= c < n && 0 <= u < 8 ==> ((#[trigger] bit8(
                out.2@[rb + (n / 8) * c],
                u,
            ) <==> b@[(8 * rb + u) + n * c] != 0i8) && (bit8(out.3@[rb + (n / 8) * c], u)
                <==> b@[(8 * rb + u) + n * c] == -1i8)),
{
    let nb: usize = n / 8;
    proof {
        vstd::arithmetic::div_mod::lemma_fundamental_div_mod(n as int, 8);
        assert(8 * nb == n);
        assert(n * n == 8 * ((nb as int) * n) && (nb as int) * n == n * nb) by (nonlinear_arith)
            requires
                n == 8 * nb,
        ;
        vstd::arithmetic::div_mod::lemma_fundamental_div_mod_converse_mod(
            n * n,
            8,
            (nb as int) * n,
            0,
        );
    }
    // transform a from col-major to row-major, compress and transform back to col-major
    let a_row: Vec<i8> = col_major_to_row_major(n, n, a);
    proof {
        assert forall|p: int| 0 <= p < a_row@.len() implies a_row@[p] == -1i8 || a_row@[p] == 0i8
            || a_row@[p] == 1i8 by {
            crate::model::lemma_flat_decompose(n as int, p);
            let r: int = p / (n as int);
            let c: int = p % (n as int);
            assert(a_row@[r * (n as int) + c] == a@[c * (n as int) + r]);
            assert(0 <= c * (n as int) + r < n * n) by (nonlinear_arith)
                requires
                    0 <= c < n,
                    0 <= r < n,
            ;
        }
        assert(a_row@.len() % 8 == 0) by {
            vstd::arithmetic::div_mod::lemma_fundamental_div_mod_converse_mod(
                n * n,
                8,
                (nb as int) * n,
                0,
            );
        }
    }
    let packed_a_row: (Vec<u8>, Vec<u8>) = compress(&a_row);
    let a_vals_row: Vec<u8> = packed_a_row.0;
    let a_signs_row: Vec<u8> = packed_a_row.1;
    proof {
        assert(a_vals_row@.len() == n * nb) by (nonlinear_arith)
            requires
                a_vals_row@.len() * 8 == n * n,
                n == 8 * nb,
        ;
        assert(a_signs_row@.len() == n * nb) by (nonlinear_arith)
            requires
                a_signs_row@.len() * 8 == n * n,
                n == 8 * nb,
        ;
    }
    let a_vals: Vec<u8> = row_major_to_col_major(n, nb, &a_vals_row);
    let a_signs: Vec<u8> = row_major_to_col_major(n, nb, &a_signs_row);

    let packed_b: (Vec<u8>, Vec<u8>) = compress(b);
    let b_vals: Vec<u8> = packed_b.0;
    let b_signs: Vec<u8> = packed_b.1;
    proof {
        assert(b_vals@.len() == (nb as int) * n && b_signs@.len() == (nb as int) * n)
            by (nonlinear_arith)
            requires
                b_vals@.len() * 8 == n * n,
                b_signs@.len() * 8 == n * n,
                n == 8 * nb,
        ;

        let gn: int = n as int;
        let gnb: int = nb as int;
        // the compressed, re-laid-out A decodes back to a
        assert forall|p: int| 0 <= p < gn * gn implies decode_a(a_vals@, a_signs@, gn)[p]
            == a@[p] by {
            crate::model::lemma_flat_decompose(gn, p);
            let i: int = p % gn;
            let kk: int = p / gn;
            vstd::arithmetic::div_mod::lemma_fundamental_div_mod(kk, 8);
            let kb: int = kk / 8;
            let u: int = kk % 8;
            assert(0 <= u < 8) by {
                vstd::arithmetic::div_mod::lemma_mod_bound(kk, 8);
            }
            assert(0 <= kb < gnb) by (nonlinear_arith)
                requires
                    kk == 8 * kb + u,
                    0 <= u < 8,
                    0 <= kk < gn,
                    gn == 8 * gnb,
            ;
            assert(a_vals@[kb * gn + i] == a_vals_row@[i * gnb + kb]);
            assert(a_signs@[kb * gn + i] == a_signs_row@[i * gnb + kb]);
            assert(kb * gn + i == i + gn * kb) by (nonlinear_arith);
            let q: int = i * gnb + kb;
            assert(0 <= i * gnb + kb < gn * gnb && 8 * (i * gnb + kb) + u == i * gn + kk)
                by (nonlinear_arith)
                requires
                    0 <= i < gn,
                    0 <= kb < gnb,
                    kk == 8 * kb + u,
                    gn == 8 * gnb,
            ;
            assert(tern8(a_vals_row@[q], a_signs_row@[q], u) == a_row@[8 * q + u]);
            assert(a_row@[i * gn + kk] == a@[kk * gn + i]);
            assert(kk * gn + i == i + gn * kk) by (nonlinear_arith);
        }
        assert(decode_a(a_vals@, a_signs@, gn) =~= a@);

        // the compressed B decodes back to b
        assert forall|p: int| 0 <= p < gn * gn implies decode_b(b_vals@, b_signs@, gn)[p]
            == b@[p] by {
            crate::model::lemma_flat_decompose(gn, p);
            let kk: int = p % gn;
            let j: int = p / gn;
            vstd::arithmetic::div_mod::lemma_fundamental_div_mod(kk, 8);
            let kb: int = kk / 8;
            let u: int = kk % 8;
            assert(0 <= u < 8) by {
                vstd::arithmetic::div_mod::lemma_mod_bound(kk, 8);
            }
            assert(0 <= kb < gnb) by (nonlinear_arith)
                requires
                    kk == 8 * kb + u,
                    0 <= u < 8,
                    0 <= kk < gn,
                    gn == 8 * gnb,
            ;
            let q: int = kb + gnb * j;
            assert(0 <= kb + gnb * j < gnb * gn && 8 * (kb + gnb * j) + u == kk + gn * j)
                by (nonlinear_arith)
                requires
                    0 <= j < gn,
                    0 <= kb < gnb,
                    kk == 8 * kb + u,
                    gn == 8 * gnb,
            ;
            assert(tern8(b_vals@[q], b_signs@[q], u) == b@[8 * q + u]);
        }
        assert(decode_b(b_vals@, b_signs@, gn) =~= b@);

        // bit-exact form of the same facts, byte coordinate by byte
        // coordinate
        assert forall|r: int, cb: int, u: int|
            0 <= r < gn && 0 <= cb < gnb && 0 <= u < 8 implies ((#[trigger] bit8(
            a_vals@[r + gn * cb],
            u,
        ) <==> a@[r + gn * (8 * cb + u)] != 0i8) && (bit8(a_signs@[r + gn * cb], u) <==> a@[r + gn
            * (8 * cb + u)] == -1i8)) by {
            assert(a_vals@[cb * gn + r] == a_vals_row@[r * gnb + cb]);
            assert(a_signs@[cb * gn + r] == a_signs_row@[r * gnb + cb]);
            assert(cb * gn + r == r + gn * cb) by (nonlinear_arith);
            let q: int = r * gnb + cb;
            let kk: int = 8 * cb + u;
            assert(0 <= r * gnb + cb < gn * gnb && 8 * (r * gnb + cb) + u == r * gn + kk)
                by (nonlinear_arith)
                requires
                    0 <= r < gn,
                    0 <= cb < gnb,
                    kk == 8 * cb + u,
                    0 <= u < 8,
                    gn == 8 * gnb,
            ;
            assert(bit8(a_vals_row@[q], u) <==> a_row@[8 * q + u] != 0i8);
            assert(bit8(a_signs_row@[q], u) <==> a_row@[8 * q + u] == -1i8);
            assert(a_row@[r * gn + kk] == a@[kk * gn + r]);
            assert(kk * gn + r == r + gn * kk) by (nonlinear_arith);
        }
        assert forall|rb: int, c: int, u: int|
            0 <= rb < gnb && 0 <= c < gn && 0 <= u < 8 implies ((#[trigger] bit8(
            b_vals@[rb + gnb * c],
            u,
        ) <==> b@[(8 * rb + u) + gn * c] != 0i8) && (bit8(b_signs@[rb + gnb * c], u) <==> b@[(8
            * rb + u) + gn * c] == -1i8)) by {
            let q: int = rb + gnb * c;
            assert(0 <= rb + gnb * c < gnb * gn && 8 * (rb + gnb * c) + u == (8 * rb + u) + gn * c)
                by (nonlinear_arith)
                requires
                    0 <= rb < gnb,
                    0 <= c < gn,
                    0 <= u < 8,
                    gn == 8 * gnb,
            ;
            assert(bit8(b_vals@[q], u) <==> b@[8 * q + u] != 0i8);
            assert(bit8(b_signs@[q], u) <==> b@[8 * q + u] == -1i8);
        }
    }
    (a_vals, a_signs, b_vals, b_signs)
}

/// Multiplies two bit-packed ternary matrices, prepared as by `prep9`,
/// with the blocked loop nest and the popcount micro-kernel, producing
/// the wraparound 8-bit product of the matrices the bit masks decode to.
/// `n` must be a multiple of 16, and the output has `n * n` entries.
pub fn matmul9(
    a_vals: &Vec<u8>,
    a_signs: &Vec<u8>,
    b_vals: &Vec<u8>,
    b_signs: &Vec<u8>,
    n: usize,
) -> (c: Vec<i8>)
    requires
        n % 16 == 0,
        n * n <= usize::MAX,
        a_vals@.len() == n * (n / 8),
        a_signs@.len() == n * (n / 8),
        b_vals@.len() == (n / 8) * n,
        b_signs@.len() == (n / 8) * n,
    ensures
        is_product(
            decode_a(a_vals@, a_signs@, n as int),
            decode_b(b_vals@, b_signs@, n as int),
            c@,
            n as int,
        ),
{
    let ghost da = decode_a(a_vals@, a_signs@, n as int);
    let ghost db = decode_b(b_vals@, b_signs@, n as int);
    let nb: usize = n / 8;
    proof {
        lemma_mod_trans(n as int, 16, 8);
        vstd::arithmetic::div_mod::lemma_fundamental_div_mod(n as int, 8);
        assert(8 * nb == n);
        assert((nb as int) * n <= n * n && n * nb == (nb as int) * n && da.len() == n * n
            && db.len() == n * n) by (nonlinear_arith)
            requires
                n == 8 * nb,
                0 <= nb,
                da.len() == n * n,
                db.len() == n * n,
        ;
    }
    let size: usize = n * n;
    let mut c: Vec<i8> = filled_vec(size, 0i8);
    proof {
        lemma_wrap8_in_range(0);
        assert forall|i: int, j: int| 0 <= i < n && 0 <= j < n implies c@[#[trigger] (i + n * j)]
            == partial_entry(da, db, n as int, i, j, 0) by {
            lemma_tile_index_bounds(n as int, n as int, n as int, 0, 0, i, j);
        }
    }

    let nc: usize = 256;
    let kc: usize = 512;
    let mc: usize = 256;

    let mut packed_a_vals: Vec<u8> = filled_vec(mc * kc, 0u8);
    let mut packed_a_signs: Vec<u8> = filled_vec(mc * kc, 0u8);
    let mut packed_b_vals: Vec<u8> = filled_vec(kc * nc, 0u8);
    let mut packed_b_signs: Vec<u8> = filled_vec(kc * nc, 0u8);

    // LOOP 5: Split B and C on the n-dimension into parts of nc size
    let mut ni: usize = 0;
    while ni < n
        invariant
            ni <= n,
            ni % 16 == 0,
            n % 16 == 0,
            8 * nb == n,
            nc == 256,
            kc == 512,
            mc == 256,
            da == decode_a(a_vals@, a_signs@, n as int),
            db == decode_b(b_vals@, b_signs@, n as int),
            da.len() == n * n,
            db.len() == n * n,
            a_vals@.len() == n * (n / 8),
            a_signs@.len() == n * (n / 8),
            b_vals@.len() == (n / 8) * n,
            b_signs@.len() == (n / 8) * n,
            nb == n / 8,
            c@.len() == n * n,
            n * n <= usize::MAX,
            packed_a_vals@.len() == mc * kc,
            packed_a_signs@.len() == mc * kc,
            packed_b_vals@.len() == kc * nc,
            packed_b_signs@.len() == kc * nc,
            forall|i: int, j: int|
                0 <= i < n && 0 <= j < ni ==> c@[#[trigger] (i + n * j)] == product_entry(
                    da,
                    db,
                    n as int,
                    i,
                    j,
                ),
            forall|i: int, j: int|
                0 <= i < n && ni <= j < n ==> c@[#[trigger] (i + n * j)] == partial_entry(
                    da,
                    db,
                    n as int,
                    i,
                    j,
                    0,
                ),
        decreases n - ni,
    {
        let tile_n: usize = if n - ni < nc {
            n - ni
        } else {
            nc
        };

        // LOOP 4: Split A and B on the byte reduction dimension
        let mut ki: usize = 0;
        while ki < nb
            invariant
                ki <= nb,
                ni < n,
                ni % 16 == 0,
                n % 16 == 0,
                8 * nb == n,
                tile_n == if n - ni < 256 { (n - ni) as int } else { 256 },
                tile_n % 16 == 0,
                1 <= tile_n,
                ni + tile_n <= n,
                kc == 512,
                mc == 256,
                nc == 256,
                da == decode_a(a_vals@, a_signs@, n as int),
                db == decode_b(b_vals@, b_signs@, n as int),
                da.len() == n * n,
                db.len() == n * n,
                a_vals@.len() == n * (n / 8),
                a_signs@.len() == n * (n / 8),
                b_vals@.len() == (n / 8) * n,
                b_signs@.len() == (n / 8) * n,
                nb == n / 8,
                c@.len() == n * n,
                n * n <= usize::MAX,
                packed_a_vals@.len() == mc * kc,
                packed_a_signs@.len() == mc * kc,
                packed_b_vals@.len() == kc * nc,
                packed_b_signs@.len() == kc * nc,
                forall|i: int, j: int|
                    0 <= i < n && 0 <= j < ni ==> c@[#[trigger] (i + n * j)] == product_entry(
                        da,
                        db,
                        n as int,
                        i,
                        j,
                    ),
                forall|i: int, j: int|
                    0 <= i < n && ni <= j < ni + tile_n ==> c@[#[trigger] (i + n * j)]
                        == partial_entry(da, db, n as int, i, j, 8 * ki),
                forall|i: int, j: int|
                    0 <= i < n && ni + tile_n <= j < n ==> c@[#[trigger] (i + n * j)]
                        == partial_entry(da, db, n as int, i, j, 0),
            decreases nb - ki,
        {
            let tile_k: usize = if nb - ki < kc {
                nb - ki
            } else {
                kc
            };

            proof {
                lemma_pack_b_pre(
                    n as int,
                    nb as int,
                    ni as int,
                    ki as int,
                    tile_n as int,
                    tile_k as int,
                );
            }
            let b_off: usize = b_at(ki, ni, nb);
            pack_b(tile_k, tile_n, nb, b_vals, b_off, &mut packed_b_vals);
            pack_b(tile_k, tile_n, nb, b_signs, b_off, &mut packed_b_signs);

            // LOOP 3: Split A and C on the m-dimension into parts of mc
            let mut mi: usize = 0;
            while mi < n
                invariant
                    mi <= n,
                    mi % 16 == 0,
                    ki < nb,
                    ki + tile_k <= nb,
                    1 <= tile_k,
                    tile_k <= 512,
                    ni < n,
                    ni % 16 == 0,
                    n % 16 == 0,
                    8 * nb == n,
                    tile_n % 16 == 0,
                    1 <= tile_n,
                    tile_n <= 256,
                    ni + tile_n <= n,
                    mc == 256,
                    kc == 512,
                    nc == 256,
                    da == decode_a(a_vals@, a_signs@, n as int),
                    db == decode_b(b_vals@, b_signs@, n as int),
                    da.len() == n * n,
                    db.len() == n * n,
                    a_vals@.len() == n * (n / 8),
                    a_signs@.len() == n * (n / 8),
                    b_vals@.len() == (n / 8) * n,
                    b_signs@.len() == (n / 8) * n,
                    nb == n / 8,
                    c@.len() == n * n,
                    n * n <= usize::MAX,
                    packed_a_vals@.len() == mc * kc,
                    packed_a_signs@.len() == mc * kc,
                    packed_b_vals@.len() == kc * nc,
                    packed_b_signs@.len() == kc * nc,
                    forall|s: int, cc: int, t: int|
                        0 <= s < tile_n && s % 16 == 0 && 0 <= cc < 16 && 0 <= t < tile_k
                            ==> packed_b_vals@[#[trigger] sect_slot(tile_k as int, 16, s, t, cc)]
                            == b_vals@[ki + (nb as int) * ni + (nb as int) * (s + cc) + t]
                            && packed_b_signs@[sect_slot(tile_k as int, 16, s, t, cc)]
                            == b_signs@[ki + (nb as int) * ni + (nb as int) * (s + cc) + t],
                    forall|i: int, j: int|
                        0 <= i < n && 0 <= j < ni ==> c@[#[trigger] (i + n * j)] == product_entry(
                            da,
                            db,
                            n as int,
                            i,
                            j,
                        ),
                    forall|i: int, j: int|
                        0 <= i < mi && ni <= j < ni + tile_n ==> c@[#[trigger] (i + n * j)]
                            == partial_entry(da, db, n as int, i, j, 8 * (ki + tile_k)),
                    forall|i: int, j: int|
                        mi <= i < n && ni <= j < ni + tile_n ==> c@[#[trigger] (i + n * j)]
                            == partial_entry(da, db, n as int, i, j, 8 * ki),
                    forall|i: int, j: int|
                        0 <= i < n && ni + tile_n <= j < n ==> c@[#[trigger] (i + n * j)]
                            == partial_entry(da, db, n as int, i, j, 0),
                decreases n - mi,
            {
                let tile_m: usize = if n - mi < mc {
                    n - mi
                } else {
                    mc
                };
                proof {
                    assert(tile_n * tile_k <= 512 * 256) by (nonlinear_arith)
                        requires
                            1 <= tile_k <= 512,
                            1 <= tile_n <= 256,
                    ;
                    lemma_pack_a_pre(
                        n as int,
                        nb as int,
                        mi as int,
                        ki as int,
                        tile_m as int,
                        tile_k as int,
                    );
                }
                let a_off: usize = a_at(mi, ki, n);
                pack_a(tile_k, tile_m, n, a_vals, a_off, &mut packed_a_vals);
                pack_a(tile_k, tile_m, n, a_signs, a_off, &mut packed_a_signs);
                proof {
                    assert forall|s: int, l: int, t: int|
                        0 <= s < tile_m && s % 16 == 0 && 0 <= l < 16 && 0 <= t
                            < tile_k implies packed_a_vals@[#[trigger] sect_slot(
                        tile_k as int,
                        16,
                        s,
                        t,
                        l,
                    )] == a_vals@[mi + s + l + n * (ki + t)] && packed_a_signs@[sect_slot(
                        tile_k as int,
                        16,
                        s,
                        t,
                        l,
                    )] == a_signs@[mi + s + l + n * (ki + t)] by {
                        assert(packed_a_vals@[sect_slot(tile_k as int, 16, s, t, l)] == a_vals@[(mi
                            + n * ki) + s + l + (n as int) * t]);
                        assert(mi + n * ki + s + l + (n as int) * t == mi + s + l + n * (ki + t))
                            by (nonlinear_arith);
                    }
                    assert forall|s: int, cc: int, t: int|
                        0 <= s < tile_n && s % 16 == 0 && 0 <= cc < 16 && 0 <= t
                            < tile_k implies packed_b_vals@[#[trigger] sect_slot(
                        tile_k as int,
                        16,
                        s,
                        t,
                        cc,
                    )] == b_vals@[ki + t + (nb as int) * (ni + s + cc)]
                        && packed_b_signs@[sect_slot(tile_k as int, 16, s, t, cc)] == b_signs@[ki
                        + t + (nb as int) * (ni + s + cc)] by {
                        assert(ki + (nb as int) * ni + (nb as int) * (s + cc) + t == ki + t + (
                        nb as int) * (ni + s + cc)) by (nonlinear_arith);
                    }
                }
                let ghost c_prev = c@;
                inner_kernel(
                    tile_m,
                    tile_k,
                    tile_n,
                    n,
                    nb,
                    &packed_a_vals,
                    &packed_a_signs,
                    &packed_b_vals,
                    &packed_b_signs,
                    &mut c,
                    mi,
                    ki,
                    ni,
                    Ghost(a_vals@),
                    Ghost(a_signs@),
                    Ghost(b_vals@),
                    Ghost(b_signs@),
                );
                proof {
                    assert forall|i: int, j: int|
                        mi <= i < mi + tile_m && ni <= j < ni + tile_n implies c@[#[trigger] (i + n
                        * j)] == partial_entry(da, db, n as int, i, j, 8 * (ki + tile_k)) by {
                        lemma_block_decodes(
                            a_vals@,
                            a_signs@,
                            b_vals@,
                            b_signs@,
                            n as int,
                            nb as int,
                            i,
                            j,
                            ki as int,
                            ki + tile_k,
                        );
                        lemma_partial_extend(
                            da,
                            db,
                            n as int,
                            i,
                            j,
                            8 * (ki as int),
                            8 * (ki + tile_k),
                        );
                        assert(8 * (ki + tile_k) == 8 * (ki as int) + 8 * (tile_k as int));
                    }
                }
                mi = mi + tile_m;
            }
            ki = ki + tile_k;
        }
        proof {
            assert forall|i: int, j: int|
                0 <= i < n && ni <= j < ni + tile_n implies c@[#[trigger] (i + n * j)]
                == product_entry(da, db, n as int, i, j) by {
                assert(c@[i + n * j] == partial_entry(da, db, n as int, i, j, 8 * (nb as int)));
            }
        }
        ni = ni + tile_n;
    }
    c
}

/// The packing preconditions for one coarse B tile of the bit-packed
/// multiply.
proof fn lemma_pack_b_pre(n: int, nb: int, ni: int, ki: int, tile_n: int, tile_k: int)
    requires
        8 * nb == n,
        0 <= ni < n,
        0 <= ki < nb,
        ki + tile_k <= nb,
        ni + tile_n <= n,
        1 <= tile_k,
        tile_k <= 512,
        1 <= tile_n,
        tile_n <= 256,
    ensures
        tile_n * tile_k <= 512 * 256,
        ki + nb * ni <= nb * n,
        nb * n <= n * n,
        forall|q: int|
            0 <= q < tile_n ==> (ki + nb * ni) + #[trigger] (nb * q) + tile_k <= nb * n,
{
    assert(tile_n * tile_k <= 512 * 256) by (nonlinear_arith)
        requires
            1 <= tile_k <= 512,
            1 <= tile_n <= 256,
    ;
    assert(ki + nb * ni <= nb * n && nb * n <= n * n) by (nonlinear_arith)
        requires
            0 <= ki < nb,
            0 <= ni < n,
            8 * nb == n,
    ;
    assert forall|q: int| 0 <= q < tile_n implies (ki + nb * ni) + #[trigger] (nb * q) + tile_k
        <= nb * n by {
        assert(ki + nb * ni + nb * q + tile_k <= nb * n) by (nonlinear_arith)
            requires
                0 <= ki,
                ki + tile_k <= nb,
                0 <= q,
                ni + q < n,
                0 <= ni,
                0 < nb,
        ;
    }
}

/// The packing preconditions for one coarse A tile of the bit-packed
/// multiply.
proof fn lemma_pack_a_pre(n: int, nb: int, mi: int, ki: int, tile_m: int, tile_k: int)
    requires
        8 * nb == n,
        0 <= mi < n,
        0 <= ki < nb,
        ki + tile_k <= nb,
        mi + tile_m <= n,
        1 <= tile_k,
        tile_k <= 512,
        1 <= tile_m,
        tile_m <= 256,
    ensures
        tile_m * tile_k <= 256 * 512,
        mi + n * ki <= n * nb,
        mi + n * ki + tile_m <= n * nb,
        n * nb <= n * n,
        forall|t: int| 0 <= t < tile_k ==> (mi + n * ki) + tile_m + #[trigger] (n * t) <= n * nb,
{
    assert(tile_m * tile_k <= 256 * 512) by (nonlinear_arith)
        requires
            1 <= tile_k <= 512,
            1 <= tile_m <= 256,
    ;
    assert(n * (ki + 1) <= n * nb && n + n * ki == n * (ki + 1) && 0 <= n * ki)
        by (nonlinear_arith)
        requires
            ki + 1 <= nb,
            0 <= ki,
            0 < n,
    ;
    assert(n * nb <= n * n) by (nonlinear_arith)
        requires
            8 * nb == n,
            0 <= nb,
    ;
    assert forall|t: int| 0 <= t < tile_k implies (mi + n * ki) + tile_m + #[trigger] (n * t) <= n
        * nb by {
        assert(mi + n * ki + tile_m + n * t <= n * nb) by (nonlinear_arith)
            requires
                0 <= mi,
                mi + tile_m <= n,
                0 <= ki,
                ki + t < nb,
                0 <= t,
                0 < n,
        ;
    }
}

/// Accumulator slots of the 16-by-16 tile are distinct and in range.
proof fn lemma_slots16(l: int, cc: int)
    requires
        0 <= l < 16,
        0 <= cc < 16,
    ensures
        0 <= cc * 16 + l < 256,
        forall|l2: int, c2: int|
            0 <= l2 < 16 && 0 <= c2 < 16 && !(l2 == l && c2 == cc) ==> #[trigger] (c2 * 16 + l2)
                != cc * 16 + l,
        forall|l2: int, c2: int| 0 <= l2 < 16 && 0 <= c2 < 16 ==> 0 <= #[trigger] (c2 * 16 + l2)
            < 256,
{
    assert forall|l2: int, c2: int|
        0 <= l2 < 16 && 0 <= c2 < 16 && !(l2 == l && c2 == cc) implies #[trigger] (c2 * 16 + l2)
        != cc * 16 + l by {
        if c2 * 16 + l2 == cc * 16 + l {
            lemma_flat_unique(16, l2, c2, l, cc);
        }
    }
}

} // verus!

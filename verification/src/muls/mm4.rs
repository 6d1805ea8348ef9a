//! Cache-blocked multiply with a widened micro-kernel: the same blocked,
//! panel-packing pipeline as the 8-wide variant, but computing the output
//! in 16-by-16 tiles.

use vstd::prelude::*;

verus! {

use crate::kernel::lemma_panel_to_global;
use crate::kernel::lemma_tile_index_bounds;
use crate::kernel::micro_kernel;
use crate::kernel::pack_panel;
use crate::kernel::panel_dot;
use crate::kernel::sect_slot;
use crate::model::dot_range;
use crate::model::filled_vec;
use crate::model::is_product;
use crate::model::lemma_partial_extend;
use crate::model::lemma_wrap8_in_range;
use crate::model::partial_entry;
use crate::model::product_entry;
use crate::model::wrap8;

/// Column-major flat offset of (r, c) under stride `n`.
fn at(r: usize, c: usize, n: usize) -> (idx: usize)
    requires
        r + n * c <= usize::MAX,
    ensures
        idx == r + n * c,
{
    r + n * c
}

/// Computes an 16x16 block of C with top-left corner (mi, ni) from packed
/// panels: lane `l` of block column `cc` reads `a[a_off + l + 16*t]` and
/// `b[b_off + cc + 16*t]`.
fn dot16x16(
    k: usize,
    n: usize,
    a: &Vec<i8>,
    a_off: usize,
    b: &Vec<i8>,
    b_off: usize,
    c: &mut Vec<i8>,
    mi: usize,
    ni: usize,
)
    requires
        old(c)@.len() == n * n,
        mi + 16 <= n,
        ni + 16 <= n,
        forall|l: int, t: int|
            0 <= l < 16 && 0 <= t < k ==> a_off + #[trigger] (1 * l) + #[trigger] (16 * t)
                < a@.len(),
        forall|cc: int, t: int|
            0 <= cc < 16 && 0 <= t < k ==> b_off + #[trigger] (1 * cc) + #[trigger] (16 * t)
                < b@.len(),
    ensures
        final(c)@.len() == n * n,
        forall|l: int, cc: int|
            0 <= l < 16 && 0 <= cc < 16 ==> final(c)@[mi + l + n * (ni + cc)] == wrap8(
                old(c)@[mi + l + n * (ni + cc)] as int + #[trigger] panel_dot(
                    a@,
                    a_off as int,
                    1,
                    16,
                    b@,
                    b_off as int,
                    1,
                    16,
                    l,
                    cc,
                    k as int,
                ),
            ),
        forall|i: int, j: int|
            0 <= i < n && 0 <= j < n && !(mi <= i < mi + 16 && ni <= j < ni + 16)
                ==> final(c)@[#[trigger] (i + n * j)] == old(c)@[i + n * j],
{
    micro_kernel(k, n, 16, 16, a, a_off, 1, 16, b, b_off, 1, 16, c, mi, ni);
}

/// Packs one 16-column section of `b`: step `t`, column lane `cc` of the
/// section lands at `packed[p_off + 16*t + cc]`, read from
/// `b[b_off + n*cc + t]`.
fn pack_b(
    k: usize,
    n: usize,
    b: &Vec<i8>,
    b_off: usize,
    packed: &mut Vec<i8>,
    p_off: usize,
)
    requires
        forall|cc: int, t: int|
            0 <= cc < 16 && 0 <= t < k ==> b_off + #[trigger] ((n as int) * cc) + #[trigger] (1 * t)
                < b@.len(),
        p_off + 16 * k <= old(packed)@.len(),
    ensures
        final(packed)@.len() == old(packed)@.len(),
        forall|cc: int, t: int|
            0 <= cc < 16 && 0 <= t < k ==> final(packed)@[p_off + #[trigger] (16 * t + cc)]
                == b@[b_off + #[trigger] ((n as int) * cc) + 1 * t],
        forall|p: int|
            0 <= p < old(packed)@.len() && !(p_off <= p < p_off + 16 * k) ==> final(packed)@[p]
                == old(packed)@[p],
{
    pack_panel(k, 16, b, b_off, n, 1, packed, p_off);
}

/// Packs one 16-row section of `a`: step `t`, row lane `l` of the section
/// lands at `packed[p_off + 16*t + l]`, read from `a[a_off + l + n*t]`.
fn pack_a(
    k: usize,
    n: usize,
    a: &Vec<i8>,
    a_off: usize,
    packed: &mut Vec<i8>,
    p_off: usize,
)
    requires
        forall|l: int, t: int|
            0 <= l < 16 && 0 <= t < k ==> a_off + #[trigger] (1 * l) + #[trigger] ((n as int) * t)
                < a@.len(),
        p_off + 16 * k <= old(packed)@.len(),
    ensures
        final(packed)@.len() == old(packed)@.len(),
        forall|l: int, t: int|
            0 <= l < 16 && 0 <= t < k ==> final(packed)@[p_off + #[trigger] (16 * t + l)]
                == a@[a_off + #[trigger] (1 * l) + (n as int) * t],
        forall|p: int|
            0 <= p < old(packed)@.len() && !(p_off <= p < p_off + 16 * k) ==> final(packed)@[p]
                == old(packed)@[p],
{
    pack_panel(k, 16, a, a_off, 1, n, packed, p_off);
}

/// Adds, to the mc-by-nc block of `c` with corner (mi, ni), the reduction
/// slice `[ki, ki + tile_k)` of the product, packing the two operand
/// sub-blocks into contiguous panels first.
#[verifier::rlimit(100)]
fn inner_kernel(
    tile_m: usize,
    tile_k: usize,
    tile_n: usize,
    n: usize,
    a: &Vec<i8>,
    b: &Vec<i8>,
    c: &mut Vec<i8>,
    mi: usize,
    ki: usize,
    ni: usize,
)
    requires
        a@.len() == n * n,
        b@.len() == n * n,
        old(c)@.len() == n * n,
        mi + tile_m <= n,
        ki + tile_k <= n,
        ni + tile_n <= n,
        tile_m % 16 == 0,
        tile_n % 16 == 0,
        1 <= tile_m,
        1 <= tile_n,
        1 <= tile_k,
    ensures
        final(c)@.len() == n * n,
        forall|i: int, j: int|
            mi <= i < mi + tile_m && ni <= j < ni + tile_n ==> final(c)@[#[trigger] (i + n * j)]
                == wrap8(
                old(c)@[i + n * j] as int + dot_range(
                    a@,
                    i,
                    n as int,
                    b@,
                    n * j,
                    1,
                    ki as int,
                    ki + tile_k,
                ),
            ),
        forall|i: int, j: int|
            0 <= i < n && 0 <= j < n && !(mi <= i < mi + tile_m && ni <= j < ni + tile_n)
                ==> final(c)@[#[trigger] (i + n * j)] == old(c)@[i + n * j],
{
    proof {
        assert(tile_m * tile_k <= n * n && tile_k * tile_n <= n * n && 0 <= tile_m * tile_k
            && 0 <= tile_k * tile_n) by (nonlinear_arith)
            requires
                tile_m <= n,
                tile_k <= n,
                tile_n <= n,
                0 <= tile_m,
                0 <= tile_k,
                0 <= tile_n,
        ;
    }
    proof {
        assert(c.len() == c@.len());
    }
    let mut packed_a: Vec<i8> = filled_vec(tile_m * tile_k, 0i8);
    let mut packed_b: Vec<i8> = filled_vec(tile_k * tile_n, 0i8);

    // Pack A once for this (mi, ki) block; it is reused by every B section.
    let mut mi2: usize = 0;
    while mi2 < tile_m
        invariant
            mi2 <= tile_m,
            mi2 % 16 == 0,
            tile_m % 16 == 0,
            a@.len() == n * n,
            n * n <= usize::MAX,
            mi + tile_m <= n,
            ki + tile_k <= n,
            1 <= tile_k,
            packed_a@.len() == tile_m * tile_k,
            tile_m * tile_k <= n * n,
            forall|s: int, l: int, t: int|
                0 <= s < mi2 && s % 16 == 0 && 0 <= l < 16 && 0 <= t < tile_k
                    ==> packed_a@[#[trigger] sect_slot(tile_k as int, 16, s, t, l)] == a@[mi + s + l
                    + n * (ki + t)],
        decreases tile_m - mi2,
    {
        proof {
            lemma_tile_index_bounds(
                n as int,
                n as int,
                n as int,
                0,
                0,
                (mi + mi2) as int,
                ki as int,
            );
            assert forall|l: int, t: int|
                0 <= l < 16 && 0 <= t < tile_k implies (mi + mi2 + n * ki) + #[trigger] (1 * l)
                + #[trigger] ((n as int) * t) < n * n by {
                assert(mi + mi2 + n * ki + l + n * t < n * n) by (nonlinear_arith)
                    requires
                        0 <= mi,
                        0 <= ki,
                        mi + mi2 + 16 <= n,
                        ki + tile_k <= n,
                        0 <= l < 16,
                        0 <= t < tile_k,
                ;
            }
            assert(mi2 * tile_k + 16 * tile_k <= tile_m * tile_k && 0 <= mi2 * tile_k)
                by (nonlinear_arith)
                requires
                    mi2 + 16 <= tile_m,
                    0 <= mi2,
                    0 <= tile_k,
            ;
        }
        let a_off: usize = at(mi + mi2, ki, n);
        let p_off: usize = mi2 * tile_k;
        pack_a(tile_k, n, a, a_off, &mut packed_a, p_off);
        proof {
            assert forall|s: int, l: int, t: int|
                0 <= s < mi2 + 16 && s % 16 == 0 && 0 <= l < 16 && 0 <= t
                    < tile_k implies packed_a@[#[trigger] sect_slot(tile_k as int, 16, s, t, l)]
                == a@[mi + s + l + n * (ki + t)] by {
                if s < mi2 {
                    assert(0 <= sect_slot(tile_k as int, 16, s, t, l) && sect_slot(
                        tile_k as int,
                        16,
                        s,
                        t,
                        l,
                    ) < mi2 * tile_k) by (nonlinear_arith)
                        requires
                            0 <= s,
                            s + 16 <= mi2,
                            0 <= l < 16,
                            0 <= t < tile_k,
                    ;
                } else {
                    assert(s == mi2);
                    assert(packed_a@[p_off + (16 * t + l)] == a@[a_off + (1 * l) + (n as int) * t]);
                    assert(sect_slot(tile_k as int, 16, s, t, l) == p_off + (16 * t + l));
                    assert(n * (ki + t) == n * ki + n * t) by (nonlinear_arith);
                }
            }
        }
        mi2 = mi2 + 16;
    }

    // For each 16-column B section: pack it, then run the micro-kernel down
    // the whole block of rows.
    let mut ni2: usize = 0;
    while ni2 < tile_n
        invariant
            ni2 <= tile_n,
            ni2 % 16 == 0,
            tile_n % 16 == 0,
            tile_m % 16 == 0,
            1 <= tile_m,
            1 <= tile_k,
            a@.len() == n * n,
            b@.len() == n * n,
            c@.len() == n * n,
            n * n <= usize::MAX,
            mi + tile_m <= n,
            ki + tile_k <= n,
            ni + tile_n <= n,
            packed_a@.len() == tile_m * tile_k,
            packed_b@.len() == tile_k * tile_n,
            tile_m * tile_k <= n * n,
            tile_k * tile_n <= n * n,
            forall|s: int, l: int, t: int|
                0 <= s < tile_m && s % 16 == 0 && 0 <= l < 16 && 0 <= t < tile_k
                    ==> packed_a@[#[trigger] sect_slot(tile_k as int, 16, s, t, l)] == a@[mi + s + l
                    + n * (ki + t)],
            forall|i: int, j: int|
                mi <= i < mi + tile_m && ni <= j < ni + ni2 ==> c@[#[trigger] (i + n * j)]
                    == wrap8(
                    old(c)@[i + n * j] as int + dot_range(
                        a@,
                        i,
                        n as int,
                        b@,
                        n * j,
                        1,
                        ki as int,
                        ki + tile_k,
                    ),
                ),
            forall|i: int, j: int|
                0 <= i < n && 0 <= j < n && !(mi <= i < mi + tile_m && ni <= j < ni + ni2)
                    ==> c@[#[trigger] (i + n * j)] == old(c)@[i + n * j],
        decreases tile_n - ni2,
    {
        section_kernel(
            tile_m,
            tile_k,
            tile_n,
            n,
            a,
            b,
            &packed_a,
            &mut packed_b,
            c,
            mi,
            ki,
            ni,
            ni2,
        );
        ni2 = ni2 + 16;
    }
}

/// Packs the 16-column B section that starts at local column `ni2` of the
/// current block and sweeps the micro-kernel down the whole block of rows,
/// adding the reduction slice `[ki, ki + tile_k)` to those output columns.
#[verifier::rlimit(100)]
fn section_kernel(
    tile_m: usize,
    tile_k: usize,
    tile_n: usize,
    n: usize,
    a: &Vec<i8>,
    b: &Vec<i8>,
    packed_a: &Vec<i8>,
    packed_b: &mut Vec<i8>,
    c: &mut Vec<i8>,
    mi: usize,
    ki: usize,
    ni: usize,
    ni2: usize,
)
    requires
        a@.len() == n * n,
        b@.len() == n * n,
        old(c)@.len() == n * n,
        n * n <= usize::MAX,
        mi + tile_m <= n,
        ki + tile_k <= n,
        ni + tile_n <= n,
        tile_m % 16 == 0,
        ni2 % 16 == 0,
        ni2 + 16 <= tile_n,
        1 <= tile_k,
        packed_a@.len() == tile_m * tile_k,
        old(packed_b)@.len() == tile_k * tile_n,
        tile_m * tile_k <= n * n,
        tile_k * tile_n <= n * n,
        forall|s: int, l: int, t: int|
            0 <= s < tile_m && s % 16 == 0 && 0 <= l < 16 && 0 <= t < tile_k
                ==> packed_a@[#[trigger] sect_slot(tile_k as int, 16, s, t, l)] == a@[mi + s + l + n
                * (ki + t)],
    ensures
        final(c)@.len() == n * n,
        final(packed_b)@.len() == tile_k * tile_n,
        forall|i: int, j: int|
            mi <= i < mi + tile_m && ni + ni2 <= j < ni + ni2 + 16 ==> final(c)@[#[trigger] (i + n
                * j)] == wrap8(
                old(c)@[i + n * j] as int + dot_range(
                    a@,
                    i,
                    n as int,
                    b@,
                    n * j,
                    1,
                    ki as int,
                    ki + tile_k,
                ),
            ),
        forall|i: int, j: int|
            0 <= i < n && 0 <= j < n && !(mi <= i < mi + tile_m && ni + ni2 <= j < ni + ni2 + 16)
                ==> final(c)@[#[trigger] (i + n * j)] == old(c)@[i + n * j],
{
    proof {
        lemma_tile_index_bounds(
            n as int,
            n as int,
            n as int,
            0,
            0,
            ki as int,
            (ni + ni2) as int,
        );
        assert forall|cc: int, t: int|
            0 <= cc < 16 && 0 <= t < tile_k implies (ki + n * (ni + ni2)) + #[trigger] ((
            n as int) * cc) + #[trigger] (1 * t) < n * n by {
            assert(ki + n * (ni + ni2) + n * cc + t < n * n) by (nonlinear_arith)
                requires
                    0 <= ki,
                    ki + tile_k <= n,
                    0 <= t < tile_k,
                    0 <= ni + ni2,
                    ni + ni2 + 16 <= n,
                    0 <= cc < 16,
            ;
        }
        assert(ni2 * tile_k + 16 * tile_k <= tile_k * tile_n && 0 <= ni2 * tile_k)
            by (nonlinear_arith)
            requires
                ni2 + 16 <= tile_n,
                0 <= ni2,
                0 <= tile_k,
        ;
    }
    let b_off: usize = at(ki, ni + ni2, n);
    let pb_off: usize = ni2 * tile_k;
    pack_b(tile_k, n, b, b_off, packed_b, pb_off);
    proof {
        assert forall|cc: int, t: int|
            0 <= cc < 16 && 0 <= t
                < tile_k implies packed_b@[#[trigger] sect_slot(tile_k as int, 16, ni2 as int, t, cc)]
            == b@[ki + t + n * (ni + ni2 + cc)] by {
            assert(packed_b@[pb_off + (16 * t + cc)] == b@[b_off + ((n as int) * cc) + 1 * t]);
            assert(sect_slot(tile_k as int, 16, ni2 as int, t, cc) == pb_off + (16 * t + cc));
            assert(n * (ni + ni2) + n * cc == n * (ni + ni2 + cc)) by (nonlinear_arith);
        }
    }
    let ghost pb_snap = packed_b@;

    let mut mi3: usize = 0;
    while mi3 < tile_m
        invariant
            mi3 <= tile_m,
            mi3 % 16 == 0,
            ni2 % 16 == 0,
            ni2 + 16 <= tile_n,
            tile_m % 16 == 0,
            1 <= tile_k,
            a@.len() == n * n,
            b@.len() == n * n,
            c@.len() == n * n,
            n * n <= usize::MAX,
            mi + tile_m <= n,
            ki + tile_k <= n,
            ni + tile_n <= n,
            packed_a@.len() == tile_m * tile_k,
            packed_b@.len() == tile_k * tile_n,
            tile_m * tile_k <= n * n,
            tile_k * tile_n <= n * n,
            packed_b@ == pb_snap,
            pb_off == ni2 * tile_k,
            forall|s: int, l: int, t: int|
                0 <= s < tile_m && s % 16 == 0 && 0 <= l < 16 && 0 <= t < tile_k
                    ==> packed_a@[#[trigger] sect_slot(tile_k as int, 16, s, t, l)] == a@[mi + s
                    + l + n * (ki + t)],
            forall|cc: int, t: int|
                0 <= cc < 16 && 0 <= t < tile_k ==> packed_b@[#[trigger] sect_slot(
                    tile_k as int,
                    16,
                    ni2 as int,
                    t,
                    cc,
                )] == b@[ki + t + n * (ni + ni2 + cc)],
            forall|i: int, j: int|
                mi <= i < mi + mi3 && ni + ni2 <= j < ni + ni2 + 16 ==> c@[#[trigger] (i + n
                    * j)] == wrap8(
                    old(c)@[i + n * j] as int + dot_range(
                        a@,
                        i,
                        n as int,
                        b@,
                        n * j,
                        1,
                        ki as int,
                        ki + tile_k,
                    ),
                ),
            forall|i: int, j: int|
                0 <= i < n && 0 <= j < n && !(mi <= i < mi + mi3 && ni + ni2 <= j < ni + ni2 + 16)
                    ==> c@[#[trigger] (i + n * j)] == old(c)@[i + n * j],
        decreases tile_m - mi3,
    {
        proof {
            assert forall|l: int, t: int|
                0 <= l < 16 && 0 <= t < tile_k implies mi3 * tile_k + #[trigger] (1 * l)
                + #[trigger] (16 * t) < packed_a@.len() by {
                assert(mi3 * tile_k + l + 16 * t < tile_m * tile_k) by (nonlinear_arith)
                    requires
                        mi3 + 16 <= tile_m,
                        0 <= mi3,
                        0 <= l < 16,
                        0 <= t < tile_k,
                ;
            }
            assert forall|cc: int, t: int|
                0 <= cc < 16 && 0 <= t < tile_k implies ni2 * tile_k + #[trigger] (1 * cc)
                + #[trigger] (16 * t) < packed_b@.len() by {
                assert(ni2 * tile_k + cc + 16 * t < tile_k * tile_n) by (nonlinear_arith)
                    requires
                        ni2 + 16 <= tile_n,
                        0 <= ni2,
                        0 <= cc < 16,
                        0 <= t < tile_k,
                ;
            }
            assert(0 <= mi3 * tile_k && mi3 * tile_k <= tile_m * tile_k) by (nonlinear_arith)
                requires
                    0 <= mi3 <= tile_m,
                    0 <= tile_k,
            ;
        }
        let pa_off: usize = mi3 * tile_k;
        let ghost c_prev = c@;
        dot16x16(tile_k, n, &packed_a, pa_off, &packed_b, pb_off, c, mi + mi3, ni + ni2);
        proof {
            assert forall|i: int, j: int|
                mi + mi3 <= i < mi + mi3 + 16 && ni + ni2 <= j < ni + ni2
                    + 16 implies c@[#[trigger] (i + n * j)] == wrap8(
                c_prev[i + n * j] as int + dot_range(
                    a@,
                    i,
                    n as int,
                    b@,
                    n * j,
                    1,
                    ki as int,
                    ki + tile_k,
                ),
            ) by {
                let l: int = i - (mi + mi3);
                let cc: int = j - (ni + ni2);
                assert(c@[(mi + mi3) + l + n * ((ni + ni2) + cc)] == wrap8(
                    c_prev[(mi + mi3) + l + n * ((ni + ni2) + cc)] as int + panel_dot(
                        packed_a@,
                        pa_off as int,
                        1,
                        16,
                        packed_b@,
                        pb_off as int,
                        1,
                        16,
                        l,
                        cc,
                        tile_k as int,
                    ),
                ));
                lemma_panel_to_global(
                    packed_a@,
                    packed_b@,
                    a@,
                    b@,
                    n as int,
                    tile_k as int,
                    16,
                    0,
                    0,
                    mi as int,
                    ki as int,
                    ni as int,
                    mi3 as int,
                    ni2 as int,
                    l,
                    cc,
                );
                assert(panel_dot(
                    packed_a@,
                    (mi3 * tile_k) as int,
                    1,
                    16,
                    packed_b@,
                    (ni2 * tile_k) as int,
                    1,
                    16,
                    l,
                    cc,
                    tile_k as int,
                ) == dot_range(a@, i, n as int, b@, n * j, 1, ki as int, ki + tile_k));
            }
        }
        mi3 = mi3 + 16;
    }
}

/// Multiplies the column-major n-by-n matrices `a` and `b` with the
/// blocked, panel-packing pipeline and the 16-by-16 micro-kernel, producing
/// the wraparound 16-bit product.  `n` must be a multiple of 16.
pub fn matmul4(a: &Vec<i8>, b: &Vec<i8>, n: usize) -> (c: Vec<i8>)
    requires
        a@.len() == n * n,
        b@.len() == n * n,
        n % 16 == 0,
    ensures
        is_product(a@, b@, c@, n as int),
{
    let size: usize = a.len();
    let mut c: Vec<i8> = filled_vec(size, 0i8);
    proof {
        lemma_wrap8_in_range(0);
        assert forall|i: int, j: int| 0 <= i < n && 0 <= j < n implies c@[#[trigger] (i + n * j)]
            == partial_entry(a@, b@, n as int, i, j, 0) by {
            lemma_tile_index_bounds(n as int, n as int, n as int, 0, 0, i, j);
        }
    }

    let nc: usize = 256;
    let kc: usize = 512;
    let mc: usize = 256;

    // Splitting B and C on the n-dimension into parts of nc size
    // Splitting A and C on the m-dimension into parts of mc
    // Each inner_kernel computes an mc x nc block of C

    let mut ni: usize = 0;
    while ni < n
        invariant
            ni <= n,
            ni % 16 == 0,
            n % 16 == 0,
            nc == 256,
            kc == 512,
            mc == 256,
            a@.len() == n * n,
            b@.len() == n * n,
            c@.len() == n * n,
            n * n <= usize::MAX,
            forall|i: int, j: int|
                0 <= i < n && 0 <= j < ni ==> c@[#[trigger] (i + n * j)] == product_entry(
                    a@,
                    b@,
                    n as int,
                    i,
                    j,
                ),
            forall|i: int, j: int|
                0 <= i < n && ni <= j < n ==> c@[#[trigger] (i + n * j)] == partial_entry(
                    a@,
                    b@,
                    n as int,
                    i,
                    j,
                    0,
                ),
        decreases n - ni,
    {
        let tile_n: usize = if n - ni < nc {
            n - ni
        } else {
            nc
        };

        let mut ki: usize = 0;
        while ki < n
            invariant
                ki <= n,
                ni < n,
                ni % 16 == 0,
                n % 16 == 0,
                tile_n == if n - ni < 256 { (n - ni) as int } else { 256 },
                tile_n % 16 == 0,
                1 <= tile_n,
                ni + tile_n <= n,
                kc == 512,
                mc == 256,
                a@.len() == n * n,
                b@.len() == n * n,
                c@.len() == n * n,
                n * n <= usize::MAX,
                forall|i: int, j: int|
                    0 <= i < n && 0 <= j < ni ==> c@[#[trigger] (i + n * j)] == product_entry(
                        a@,
                        b@,
                        n as int,
                        i,
                        j,
                    ),
                forall|i: int, j: int|
                    0 <= i < n && ni <= j < ni + tile_n ==> c@[#[trigger] (i + n * j)]
                        == partial_entry(a@, b@, n as int, i, j, ki as int),
                forall|i: int, j: int|
                    0 <= i < n && ni + tile_n <= j < n ==> c@[#[trigger] (i + n * j)]
                        == partial_entry(a@, b@, n as int, i, j, 0),
            decreases n - ki,
        {
            let tile_k: usize = if n - ki < kc {
                n - ki
            } else {
                kc
            };

            let mut mi: usize = 0;
            while mi < n
                invariant
                    mi <= n,
                    mi % 16 == 0,
                    ki < n,
                    ki + tile_k <= n,
                    1 <= tile_k,
                    ni < n,
                    ni % 16 == 0,
                    n % 16 == 0,
                    tile_n % 16 == 0,
                    1 <= tile_n,
                    ni + tile_n <= n,
                    mc == 256,
                    a@.len() == n * n,
                    b@.len() == n * n,
                    c@.len() == n * n,
                    n * n <= usize::MAX,
                    forall|i: int, j: int|
                        0 <= i < n && 0 <= j < ni ==> c@[#[trigger] (i + n * j)] == product_entry(
                            a@,
                            b@,
                            n as int,
                            i,
                            j,
                        ),
                    forall|i: int, j: int|
                        0 <= i < mi && ni <= j < ni + tile_n ==> c@[#[trigger] (i + n * j)]
                            == partial_entry(a@, b@, n as int, i, j, ki + tile_k),
                    forall|i: int, j: int|
                        mi <= i < n && ni <= j < ni + tile_n ==> c@[#[trigger] (i + n * j)]
                            == partial_entry(a@, b@, n as int, i, j, ki as int),
                    forall|i: int, j: int|
                        0 <= i < n && ni + tile_n <= j < n ==> c@[#[trigger] (i + n * j)]
                            == partial_entry(a@, b@, n as int, i, j, 0),
                decreases n - mi,
            {
                let tile_m: usize = if n - mi < mc {
                    n - mi
                } else {
                    mc
                };
                let ghost c_prev = c@;
                inner_kernel(tile_m, tile_k, tile_n, n, a, b, &mut c, mi, ki, ni);
                proof {
                    assert forall|i: int, j: int|
                        mi <= i < mi + tile_m && ni <= j < ni + tile_n implies c@[#[trigger] (i + n
                        * j)] == partial_entry(a@, b@, n as int, i, j, ki + tile_k) by {
                        lemma_partial_extend(
                            a@,
                            b@,
                            n as int,
                            i,
                            j,
                            ki as int,
                            ki + tile_k,
                        );
                    }
                }
                mi = mi + tile_m;
            }
            ki = ki + tile_k;
        }
        ni = ni + tile_n;
    }
    c
}

} // verus!

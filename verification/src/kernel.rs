//! The shared engine behind every multiply variant: a strided micro-kernel
//! that accumulates an MR-by-NR output tile over the reduction dimension,
//! and a panel packer that stages a strided sub-block lane-contiguously in
//! a scratch buffer.  Each variant instantiates the strides; the proofs
//! here are done once.

use vstd::prelude::*;

verus! {

use crate::model::dot_range;
use crate::model::filled_vec;
use crate::model::lemma_dot_range_equal;
use crate::model::lemma_dot_range_shift;
use crate::model::lemma_flat_unique;
use crate::model::lemma_wrap8_absorb;
use crate::model::lemma_wrap8_in_range;
use crate::model::lemma_wrap8_mul_acc;
use crate::model::wrap8;

/// The read-only description of one operand panel: the buffer together
/// with its start offset, lane stride and step stride.
pub ghost struct PanelDims {
    pub buf: Seq<i8>,
    pub off: int,
    pub dl: int,
    pub dt: int,
}

pub open spec fn panel_dims(buf: Seq<i8>, off: int, dl: int, dt: int) -> PanelDims {
    PanelDims { buf, off, dl, dt }
}

/// The exact integer dot product that micro-kernel lane `l`, column `cc`
/// accumulates: `k` steps through the panels `a` and `b` under the given
/// start offsets and strides.
pub open spec fn panel_dot(
    a: Seq<i8>,
    a_off: int,
    a_dl: int,
    a_dt: int,
    b: Seq<i8>,
    b_off: int,
    b_dc: int,
    b_dt: int,
    l: int,
    cc: int,
    k: int,
) -> int {
    dot_range(a, a_off + a_dl * l, a_dt, b, b_off + b_dc * cc, b_dt, 0, k)
}

/// `panel_dot` restated over the bundled panel descriptions.
pub open spec fn tile_dot(ad: PanelDims, bd: PanelDims, l: int, cc: int, k: int) -> int {
    panel_dot(ad.buf, ad.off, ad.dl, ad.dt, bd.buf, bd.off, bd.dl, bd.dt, l, cc, k)
}

/// The flat offset of tile entry (l, cc) stays inside an n-by-n matrix.
pub proof fn lemma_tile_index_bounds(n: int, mr: int, nr: int, mi: int, ni: int, l: int, cc: int)
    requires
        mi + mr <= n,
        ni + nr <= n,
        0 <= l < mr,
        0 <= cc < nr,
        0 <= mi,
        0 <= ni,
    ensures
        0 <= mi + l + n * (ni + cc) < n * n,
        n * (ni + cc) <= n * (n - 1),
{
    assert(mi + l + n * (ni + cc) < n * n && n * (ni + cc) <= n * (n - 1) && 0 <= n * (ni + cc))
        by (nonlinear_arith)
        requires
            mi + mr <= n,
            ni + nr <= n,
            0 <= l < mr,
            0 <= cc < nr,
            0 <= mi,
            0 <= ni,
    ;
}

/// Every (lane, column) accumulator slot lies inside the tile buffer.
proof fn lemma_acc_slots_range(mr: int, nr: int)
    ensures
        forall|l2: int, c2: int|
            0 <= l2 < mr && 0 <= c2 < nr ==> 0 <= #[trigger] (c2 * mr + l2) < mr * nr,
{
    assert forall|l2: int, c2: int|
        0 <= l2 < mr && 0 <= c2 < nr implies 0 <= #[trigger] (c2 * mr + l2) < mr * nr by {
        assert(0 <= c2 * mr + l2 < mr * nr) by (nonlinear_arith)
            requires
                0 <= l2 < mr,
                0 <= c2 < nr,
        ;
    }
}

/// Distinct (lane, column) pairs use distinct accumulator slots.
proof fn lemma_acc_slots_distinct(mr: int, nr: int, l: int, cc: int)
    requires
        0 <= l < mr,
        0 <= cc < nr,
    ensures
        forall|l2: int, c2: int|
            0 <= l2 < mr && 0 <= c2 < nr && !(l2 == l && c2 == cc) ==> #[trigger] (c2 * mr + l2)
                != cc * mr + l,
        0 <= cc * mr + l < mr * nr,
{
    assert forall|l2: int, c2: int|
        0 <= l2 < mr && 0 <= c2 < nr && !(l2 == l && c2 == cc) implies #[trigger] (c2 * mr + l2)
        != cc * mr + l by {
        if c2 * mr + l2 == cc * mr + l {
            lemma_flat_unique(mr, l2, c2, l, cc);
        }
    }
    assert(0 <= cc * mr + l < mr * nr) by (nonlinear_arith)
        requires
            0 <= l < mr,
            0 <= cc < nr,
    ;
}

/// Computes one `mr`-by-`nr` tile of the column-major n-by-n output `c`,
/// with top-left corner (`mi`, `ni`), accumulating in place over `k`
/// reduction steps.  Lane `l` of output column `cc` reads
/// `a[a_off + a_dl*l + a_dt*t]` and `b[b_off + b_dc*cc + b_dt*t]` for each
/// step `t`; all arithmetic is wraparound 8-bit.
pub fn micro_kernel(
    k: usize,
    n: usize,
    mr: usize,
    nr: usize,
    a: &Vec<i8>,
    a_off: usize,
    a_dl: usize,
    a_dt: usize,
    b: &Vec<i8>,
    b_off: usize,
    b_dc: usize,
    b_dt: usize,
    c: &mut Vec<i8>,
    mi: usize,
    ni: usize,
)
    requires
        old(c)@.len() == n * n,
        mi + mr <= n,
        ni + nr <= n,
        1 <= mr,
        1 <= nr,
        forall|l: int, t: int|
            0 <= l < mr && 0 <= t < k ==> a_off + #[trigger] (a_dl * l) + #[trigger] (a_dt * t)
                < a@.len(),
        forall|cc: int, t: int|
            0 <= cc < nr && 0 <= t < k ==> b_off + #[trigger] (b_dc * cc) + #[trigger] (b_dt * t)
                < b@.len(),
    ensures
        final(c)@.len() == n * n,
        forall|l: int, cc: int|
            0 <= l < mr && 0 <= cc < nr ==> final(c)@[mi + l + n * (ni + cc)] == wrap8(
                old(c)@[mi + l + n * (ni + cc)] as int + #[trigger] panel_dot(
                    a@,
                    a_off as int,
                    a_dl as int,
                    a_dt as int,
                    b@,
                    b_off as int,
                    b_dc as int,
                    b_dt as int,
                    l,
                    cc,
                    k as int,
                ),
            ),
        forall|i: int, j: int|
            0 <= i < n && 0 <= j < n && !(mi <= i < mi + mr && ni <= j < ni + nr)
                ==> final(c)@[#[trigger] (i + n * j)] == old(c)@[i + n * j],
{
    let ghost ad = panel_dims(a@, a_off as int, a_dl as int, a_dt as int);
    let ghost bd = panel_dims(b@, b_off as int, b_dc as int, b_dt as int);
    let c_total: usize = c.len();
    proof {
        assert(a.len() == a@.len());
        assert(b.len() == b@.len());
        assert(c_total == n * n);
        assert(mr * nr <= n * n) by (nonlinear_arith)
            requires
                mr <= n,
                nr <= n,
        ;
    }
    let mut ab: Vec<i8> = filled_vec(mr * nr, 0i8);

    // Load the current tile of c into the accumulators.
    let mut cc0: usize = 0;
    while cc0 < nr
        invariant
            cc0 <= nr,
            c@ == old(c)@,
            c@.len() == n * n,
            n * n <= usize::MAX,
            a@.len() <= usize::MAX,
            b@.len() <= usize::MAX,
            mi + mr <= n,
            ni + nr <= n,
            1 <= mr,
            1 <= nr,
            ab@.len() == mr * nr,
            mr * nr <= n * n,
            forall|l2: int, c2: int|
                0 <= l2 < mr && 0 <= c2 < cc0 ==> ab@[#[trigger] (c2 * mr + l2)] == c@[mi + l2 + n
                    * (ni + c2)],
        decreases nr - cc0,
    {
        let mut l: usize = 0;
        while l < mr
            invariant
                cc0 < nr,
                l <= mr,
                c@ == old(c)@,
                c@.len() == n * n,
                n * n <= usize::MAX,
                a@.len() <= usize::MAX,
                b@.len() <= usize::MAX,
                mi + mr <= n,
                ni + nr <= n,
                1 <= mr,
                1 <= nr,
                ab@.len() == mr * nr,
                mr * nr <= n * n,
            mr * nr <= n * n,
                forall|l2: int, c2: int|
                    0 <= l2 < mr && 0 <= c2 < cc0 ==> ab@[#[trigger] (c2 * mr + l2)] == c@[mi + l2
                        + n * (ni + c2)],
                forall|l2: int|
                    0 <= l2 < l ==> ab@[#[trigger] (cc0 * mr + l2)] == c@[mi + l2 + n * (ni
                        + cc0)],
            decreases mr - l,
        {
            proof {
                lemma_tile_index_bounds(
                    n as int,
                    mr as int,
                    nr as int,
                    mi as int,
                    ni as int,
                    l as int,
                    cc0 as int,
                );
                lemma_acc_slots_distinct(mr as int, nr as int, l as int, cc0 as int);
                lemma_acc_slots_range(mr as int, nr as int);
            }
            let v: i8 = c[mi + l + n * (ni + cc0)];
            ab.set(cc0 * mr + l, v);
            l = l + 1;
        }
        cc0 = cc0 + 1;
    }

    proof {
        assert forall|l2: int, c2: int| 0 <= l2 < mr && 0 <= c2 < nr implies ab@[#[trigger] (c2
            * mr + l2)] == wrap8(c@[mi + l2 + n * (ni + c2)] as int + tile_dot(ad, bd, l2, c2, 0))
            by {
            lemma_wrap8_in_range(c@[mi + l2 + n * (ni + c2)] as int);
        }
    }

    // Accumulate k reduction steps into the tile.
    let mut t: usize = 0;
    while t < k
        invariant
            t <= k,
            c@ == old(c)@,
            c@.len() == n * n,
            n * n <= usize::MAX,
            a@.len() <= usize::MAX,
            b@.len() <= usize::MAX,
            mi + mr <= n,
            ni + nr <= n,
            1 <= mr,
            1 <= nr,
            ab@.len() == mr * nr,
            mr * nr <= n * n,
            ad == panel_dims(a@, a_off as int, a_dl as int, a_dt as int),
            bd == panel_dims(b@, b_off as int, b_dc as int, b_dt as int),
            forall|l2: int, t2: int|
                0 <= l2 < mr && 0 <= t2 < k ==> a_off + #[trigger] (a_dl * l2) + #[trigger] (a_dt
                    * t2) < a@.len(),
            forall|cc2: int, t2: int|
                0 <= cc2 < nr && 0 <= t2 < k ==> b_off + #[trigger] (b_dc * cc2) + #[trigger] (b_dt
                    * t2) < b@.len(),
            forall|l2: int, c2: int|
                0 <= l2 < mr && 0 <= c2 < nr ==> ab@[#[trigger] (c2 * mr + l2)] == wrap8(
                    c@[mi + l2 + n * (ni + c2)] as int + tile_dot(ad, bd, l2, c2, t as int),
                ),
        decreases k - t,
    {
        let mut cc1: usize = 0;
        while cc1 < nr
            invariant
                t < k,
                cc1 <= nr,
                c@ == old(c)@,
                c@.len() == n * n,
                n * n <= usize::MAX,
                a@.len() <= usize::MAX,
                b@.len() <= usize::MAX,
                mi + mr <= n,
                ni + nr <= n,
                1 <= mr,
                1 <= nr,
                ab@.len() == mr * nr,
                mr * nr <= n * n,
            mr * nr <= n * n,
                ad == panel_dims(a@, a_off as int, a_dl as int, a_dt as int),
                bd == panel_dims(b@, b_off as int, b_dc as int, b_dt as int),
                forall|l2: int, t2: int|
                    0 <= l2 < mr && 0 <= t2 < k ==> a_off + #[trigger] (a_dl * l2) + #[trigger] (
                    a_dt * t2) < a@.len(),
                forall|cc2: int, t2: int|
                    0 <= cc2 < nr && 0 <= t2 < k ==> b_off + #[trigger] (b_dc * cc2) + #[trigger] (
                    b_dt * t2) < b@.len(),
                forall|l2: int, c2: int|
                    0 <= l2 < mr && 0 <= c2 < cc1 ==> ab@[#[trigger] (c2 * mr + l2)] == wrap8(
                        c@[mi + l2 + n * (ni + c2)] as int + tile_dot(ad, bd, l2, c2, t + 1),
                    ),
                forall|l2: int, c2: int|
                    0 <= l2 < mr && cc1 <= c2 < nr ==> ab@[#[trigger] (c2 * mr + l2)] == wrap8(
                        c@[mi + l2 + n * (ni + c2)] as int + tile_dot(ad, bd, l2, c2, t as int),
                    ),
            decreases nr - cc1,
        {
            let mut l: usize = 0;
            while l < mr
                invariant
                    t < k,
                    cc1 < nr,
                    l <= mr,
                    c@ == old(c)@,
                    c@.len() == n * n,
                    n * n <= usize::MAX,
                    a@.len() <= usize::MAX,
                    b@.len() <= usize::MAX,
                n * n <= usize::MAX,
                a@.len() <= usize::MAX,
                b@.len() <= usize::MAX,
                    mi + mr <= n,
                    ni + nr <= n,
                    1 <= mr,
                    1 <= nr,
                    ab@.len() == mr * nr,
                    mr * nr <= n * n,
                mr * nr <= n * n,
            mr * nr <= n * n,
                    ad == panel_dims(a@, a_off as int, a_dl as int, a_dt as int),
                    bd == panel_dims(b@, b_off as int, b_dc as int, b_dt as int),
                    forall|l2: int, t2: int|
                        0 <= l2 < mr && 0 <= t2 < k ==> a_off + #[trigger] (a_dl * l2)
                            + #[trigger] (a_dt * t2) < a@.len(),
                    forall|cc2: int, t2: int|
                        0 <= cc2 < nr && 0 <= t2 < k ==> b_off + #[trigger] (b_dc * cc2)
                            + #[trigger] (b_dt * t2) < b@.len(),
                    forall|l2: int, c2: int|
                        0 <= l2 < mr && 0 <= c2 < cc1 ==> ab@[#[trigger] (c2 * mr + l2)] == wrap8(
                            c@[mi + l2 + n * (ni + c2)] as int + tile_dot(ad, bd, l2, c2, t + 1),
                        ),
                    forall|l2: int, c2: int|
                        0 <= l2 < mr && cc1 < c2 < nr ==> ab@[#[trigger] (c2 * mr + l2)] == wrap8(
                            c@[mi + l2 + n * (ni + c2)] as int + tile_dot(ad, bd, l2, c2, t as int),
                        ),
                    forall|l2: int|
                        0 <= l2 < l ==> ab@[#[trigger] (cc1 * mr + l2)] == wrap8(
                            c@[mi + l2 + n * (ni + cc1)] as int + tile_dot(ad, bd, l2, cc1 as int, t + 1),
                        ),
                    forall|l2: int|
                        l <= l2 < mr ==> ab@[#[trigger] (cc1 * mr + l2)] == wrap8(
                            c@[mi + l2 + n * (ni + cc1)] as int + tile_dot(
                                ad,
                                bd,
                                l2,
                                cc1 as int,
                                t as int,
                            ),
                        ),
                decreases mr - l,
            {
                proof {
                    assert(0 <= a_dl * l && 0 <= a_dt * t && 0 <= b_dc * cc1 && 0 <= b_dt * t)
                        by (nonlinear_arith);
                }
                let av: i8 = a[a_off + a_dl * l + a_dt * t];
                let bv: i8 = b[b_off + b_dc * cc1 + b_dt * t];
                proof {
                    lemma_acc_slots_distinct(mr as int, nr as int, l as int, cc1 as int);
                    lemma_acc_slots_range(mr as int, nr as int);
                }
                let prev: i8 = ab[cc1 * mr + l];
                ab.set(cc1 * mr + l, prev.wrapping_add(av.wrapping_mul(bv)));
                proof {
                    lemma_wrap8_mul_acc(prev, av, bv);
                    lemma_wrap8_absorb(
                        c@[mi + l + n * (ni + cc1)] as int + tile_dot(
                            ad,
                            bd,
                            l as int,
                            cc1 as int,
                            t as int,
                        ),
                        av as int * bv as int,
                    );
                    assert(tile_dot(ad, bd, l as int, cc1 as int, t + 1) == tile_dot(
                        ad,
                        bd,
                        l as int,
                        cc1 as int,
                        t as int,
                    ) + av as int * bv as int);
                }
                l = l + 1;
            }
            cc1 = cc1 + 1;
        }
        t = t + 1;
    }

    // Store the accumulators back into the tile of c.
    let mut cc4: usize = 0;
    while cc4 < nr
        invariant
            cc4 <= nr,
            c@.len() == n * n,
            n * n <= usize::MAX,
            a@.len() <= usize::MAX,
            b@.len() <= usize::MAX,
            mi + mr <= n,
            ni + nr <= n,
            1 <= mr,
            1 <= nr,
            ab@.len() == mr * nr,
            mr * nr <= n * n,
            ad == panel_dims(a@, a_off as int, a_dl as int, a_dt as int),
            bd == panel_dims(b@, b_off as int, b_dc as int, b_dt as int),
            forall|l2: int, c2: int|
                0 <= l2 < mr && 0 <= c2 < nr ==> ab@[#[trigger] (c2 * mr + l2)] == wrap8(
                    old(c)@[mi + l2 + n * (ni + c2)] as int + tile_dot(ad, bd, l2, c2, k as int),
                ),
            forall|i: int, j: int|
                0 <= i < n && 0 <= j < n && !(mi <= i < mi + mr && ni <= j < ni + nr)
                    ==> c@[#[trigger] (i + n * j)] == old(c)@[i + n * j],
            forall|l2: int, c2: int|
                0 <= l2 < mr && 0 <= c2 < cc4 ==> c@[mi + l2 + n * (ni + c2)]
                    == ab@[#[trigger] (c2 * mr + l2)],
        decreases nr - cc4,
    {
        let mut l: usize = 0;
        while l < mr
            invariant
                cc4 < nr,
                l <= mr,
                c@.len() == n * n,
                n * n <= usize::MAX,
                a@.len() <= usize::MAX,
                b@.len() <= usize::MAX,
                mi + mr <= n,
                ni + nr <= n,
                1 <= mr,
                1 <= nr,
                ab@.len() == mr * nr,
                mr * nr <= n * n,
            mr * nr <= n * n,
                ad == panel_dims(a@, a_off as int, a_dl as int, a_dt as int),
                bd == panel_dims(b@, b_off as int, b_dc as int, b_dt as int),
                forall|l2: int, c2: int|
                    0 <= l2 < mr && 0 <= c2 < nr ==> ab@[#[trigger] (c2 * mr + l2)] == wrap8(
                        old(c)@[mi + l2 + n * (ni + c2)] as int + tile_dot(
                            ad,
                            bd,
                            l2,
                            c2,
                            k as int,
                        ),
                    ),
                forall|i: int, j: int|
                    0 <= i < n && 0 <= j < n && !(mi <= i < mi + mr && ni <= j < ni + nr)
                        ==> c@[#[trigger] (i + n * j)] == old(c)@[i + n * j],
                forall|l2: int, c2: int|
                    0 <= l2 < mr && 0 <= c2 < cc4 ==> c@[mi + l2 + n * (ni + c2)]
                        == ab@[#[trigger] (c2 * mr + l2)],
                forall|l2: int|
                    0 <= l2 < l ==> c@[mi + l2 + n * (ni + cc4)] == ab@[#[trigger] (cc4 * mr + l2)],
            decreases mr - l,
        {
            proof {
                lemma_tile_index_bounds(
                    n as int,
                    mr as int,
                    nr as int,
                    mi as int,
                    ni as int,
                    l as int,
                    cc4 as int,
                );
                lemma_acc_slots_distinct(mr as int, nr as int, l as int, cc4 as int);
                lemma_acc_slots_range(mr as int, nr as int);
            }
            let v: i8 = ab[cc4 * mr + l];
            let ghost c_before = c@;
            c.set(mi + l + n * (ni + cc4), v);
            proof {
                let w: int = mi + l + n * (ni + cc4);
                assert forall|i: int, j: int|
                    0 <= i < n && 0 <= j < n && !(mi <= i < mi + mr && ni <= j < ni
                        + nr) implies c@[#[trigger] (i + n * j)] == old(c)@[i + n * j] by {
                    lemma_tile_index_bounds(n as int, n as int, n as int, 0, 0, i, j);
                    if i + n * j == w {
                        lemma_flat_unique(n as int, i, j, mi + l, ni + cc4);
                    }
                    assert(c@[i + n * j] == c_before[i + n * j]);
                }
                assert forall|l2: int, c2: int|
                    0 <= l2 < mr && 0 <= c2 < cc4 implies c@[mi + l2 + n * (ni + c2)]
                    == ab@[#[trigger] (c2 * mr + l2)] by {
                    lemma_tile_index_bounds(
                        n as int,
                        mr as int,
                        nr as int,
                        mi as int,
                        ni as int,
                        l2,
                        c2,
                    );
                    if mi + l2 + n * (ni + c2) == w {
                        lemma_flat_unique(n as int, mi + l2, ni + c2, mi + l, ni + cc4);
                    }
                }
                assert forall|l2: int| 0 <= l2 < l + 1 implies c@[mi + l2 + n * (ni + cc4)]
                    == ab@[#[trigger] (cc4 * mr + l2)] by {
                    lemma_tile_index_bounds(
                        n as int,
                        mr as int,
                        nr as int,
                        mi as int,
                        ni as int,
                        l2,
                        cc4 as int,
                    );
                    if l2 < l && mi + l2 + n * (ni + cc4) == w {
                        lemma_flat_unique(n as int, mi + l2, ni + cc4, mi + l, ni + cc4);
                    }
                }
            }
            l = l + 1;
        }
        cc4 = cc4 + 1;
    }

    proof {
        assert forall|l: int, cc: int| 0 <= l < mr && 0 <= cc < nr implies c@[mi + l + n * (ni
            + cc)] == wrap8(
            old(c)@[mi + l + n * (ni + cc)] as int + #[trigger] panel_dot(
                a@,
                a_off as int,
                a_dl as int,
                a_dt as int,
                b@,
                b_off as int,
                b_dc as int,
                b_dt as int,
                l,
                cc,
                k as int,
            ),
        ) by {
            lemma_acc_slots_range(mr as int, nr as int);
            assert(c@[mi + l + n * (ni + cc)] == ab@[cc * mr + l]);
            assert(ab@[cc * mr + l] == wrap8(
                old(c)@[mi + l + n * (ni + cc)] as int + tile_dot(ad, bd, l, cc, k as int),
            ));
        }
    }
}

/// Flat offset, inside a packed panel buffer, of reduction step `t`,
/// lane `l` of the section that starts at lane-row `s`: sections are
/// `lanes * tk` entries long and each step stores `lanes` contiguous lanes.
pub open spec fn sect_slot(tk: int, lanes: int, s: int, t: int, l: int) -> int {
    s * tk + lanes * t + l
}

/// A micro-kernel dot product over two packed sections equals the strided
/// dot product over the source matrices that were packed into them,
/// taken over the global reduction range `[ki, ki + tile_k)`.
pub proof fn lemma_panel_to_global(
    pa: Seq<i8>,
    pb: Seq<i8>,
    a: Seq<i8>,
    b: Seq<i8>,
    n: int,
    tile_k: int,
    lanes: int,
    pa_base: int,
    pb_base: int,
    mi: int,
    ki: int,
    ni: int,
    mi2: int,
    ni2: int,
    l: int,
    cc: int,
)
    requires
        0 <= l < lanes,
        0 <= cc < lanes,
        forall|t: int|
            0 <= t < tile_k ==> pa[pa_base + #[trigger] sect_slot(tile_k, lanes, mi2, t, l)] == a[
                mi + mi2 + l + n * (ki + t)],
        forall|t: int|
            0 <= t < tile_k ==> pb[pb_base + #[trigger] sect_slot(tile_k, lanes, ni2, t, cc)] == b[
                ki + t + n * (ni + ni2 + cc)],
    ensures
        panel_dot(
            pa,
            pa_base + mi2 * tile_k,
            1,
            lanes,
            pb,
            pb_base + ni2 * tile_k,
            1,
            lanes,
            l,
            cc,
            tile_k,
        ) == dot_range(a, mi + mi2 + l, n, b, n * (ni + ni2 + cc), 1, ki, ki + tile_k),
{
    let i: int = mi + mi2 + l;
    let j: int = ni + ni2 + cc;
    lemma_dot_range_shift(a, i, n, b, n * j, 1, ki, ki, ki + tile_k);
    assert forall|t: int| 0 <= t < tile_k implies pa[(pa_base + mi2 * tile_k + 1 * l)
        + #[trigger] (lanes * t)] == a[(i + n * ki) + n * t] by {
        assert(pa_base + sect_slot(tile_k, lanes, mi2, t, l) == pa_base + mi2 * tile_k + 1 * l
            + lanes * t);
        assert(n * (ki + t) == n * ki + n * t) by (nonlinear_arith);
        assert(pa[pa_base + sect_slot(tile_k, lanes, mi2, t, l)] == a[mi + mi2 + l + n * (ki
            + t)]);
    }
    assert forall|t: int| 0 <= t < tile_k implies pb[(pb_base + ni2 * tile_k + 1 * cc)
        + #[trigger] (lanes * t)] == b[(n * j + ki) + 1 * t] by {
        assert(pb_base + sect_slot(tile_k, lanes, ni2, t, cc) == pb_base + ni2 * tile_k + 1 * cc
            + lanes * t);
        assert(pb[pb_base + sect_slot(tile_k, lanes, ni2, t, cc)] == b[ki + t + n * j]);
    }
    lemma_dot_range_equal(
        pa,
        pa_base + mi2 * tile_k + 1 * l,
        lanes,
        pb,
        pb_base + ni2 * tile_k + 1 * cc,
        lanes,
        a,
        i + n * ki,
        n,
        b,
        n * j + ki,
        1,
        0,
        tile_k,
    );
}

/// Writes entry (i, j) of a column-major n-by-n matrix held in a flat
/// vector, leaving every other entry in place.
pub fn set_entry(c: &mut Vec<i8>, n: usize, i: usize, j: usize, v: i8)
    requires
        old(c)@.len() == n * n,
        i < n,
        j < n,
    ensures
        final(c)@.len() == n * n,
        final(c)@[i + n * j] == v,
        forall|i2: int, j2: int|
            0 <= i2 < n && 0 <= j2 < n && !(i2 == i && j2 == j) ==> final(c)@[#[trigger] (i2 + n
                * j2)] == old(c)@[i2 + n * j2],
{
    proof {
        lemma_tile_index_bounds(n as int, n as int, n as int, 0, 0, i as int, j as int);
    }
    let c_total: usize = c.len();
    c.set(i + n * j, v);
    proof {
        assert forall|i2: int, j2: int|
            0 <= i2 < n && 0 <= j2 < n && !(i2 == i && j2 == j) implies c@[#[trigger] (i2 + n
            * j2)] == old(c)@[i2 + n * j2] by {
            lemma_tile_index_bounds(n as int, n as int, n as int, 0, 0, i2, j2);
            if i2 + n * j2 == i + n * j {
                lemma_flat_unique(n as int, i2, j2, i as int, j as int);
            }
        }
    }
}

/// Copies the strided sub-block of `src` described by the lane and step
/// strides into `dst` starting at `d_off`, lane-contiguous: destination
/// slot `d_off + lanes*t + l` receives source entry
/// `src[s_off + s_dl*l + s_dt*t]`.  Nothing outside the destination window
/// is touched.
pub fn pack_panel<T: Copy>(
    k: usize,
    lanes: usize,
    src: &Vec<T>,
    s_off: usize,
    s_dl: usize,
    s_dt: usize,
    dst: &mut Vec<T>,
    d_off: usize,
)
    requires
        1 <= lanes,
        forall|l: int, t: int|
            0 <= l < lanes && 0 <= t < k ==> s_off + #[trigger] (s_dl * l) + #[trigger] (s_dt * t)
                < src@.len(),
        d_off + lanes * k <= old(dst)@.len(),
    ensures
        final(dst)@.len() == old(dst)@.len(),
        forall|l: int, t: int|
            0 <= l < lanes && 0 <= t < k ==> final(dst)@[d_off + #[trigger] (lanes * t + l)]
                == src@[s_off + #[trigger] (s_dl * l) + s_dt * t],
        forall|p: int|
            0 <= p < old(dst)@.len() && !(d_off <= p < d_off + lanes * k) ==> final(dst)@[p] == old(
                dst,
            )@[p],
{
    proof {
        assert(dst.len() == dst@.len());
        assert(src.len() == src@.len());
    }
    let mut t: usize = 0;
    while t < k
        invariant
            t <= k,
            1 <= lanes,
            dst@.len() == old(dst)@.len(),
            d_off + lanes * k <= dst@.len(),
            dst@.len() <= usize::MAX,
            src@.len() <= usize::MAX,
            forall|l2: int, t2: int|
                0 <= l2 < lanes && 0 <= t2 < k ==> s_off + #[trigger] (s_dl * l2) + #[trigger] (
                s_dt * t2) < src@.len(),
            forall|l2: int, t2: int|
                0 <= l2 < lanes && 0 <= t2 < t ==> dst@[d_off + #[trigger] (lanes * t2 + l2)]
                    == src@[s_off + #[trigger] (s_dl * l2) + s_dt * t2],
            forall|p: int|
                0 <= p < dst@.len() && !(d_off <= p < d_off + lanes * k) ==> dst@[p] == old(
                    dst,
                )@[p],
        decreases k - t,
    {
        let mut l: usize = 0;
        while l < lanes
            invariant
                t < k,
                l <= lanes,
                1 <= lanes,
                dst@.len() == old(dst)@.len(),
                d_off + lanes * k <= dst@.len(),
                dst@.len() <= usize::MAX,
                src@.len() <= usize::MAX,
            dst@.len() <= usize::MAX,
            src@.len() <= usize::MAX,
                forall|l2: int, t2: int|
                    0 <= l2 < lanes && 0 <= t2 < k ==> s_off + #[trigger] (s_dl * l2)
                        + #[trigger] (s_dt * t2) < src@.len(),
                forall|l2: int, t2: int|
                    0 <= l2 < lanes && 0 <= t2 < t ==> dst@[d_off + #[trigger] (lanes * t2 + l2)]
                        == src@[s_off + #[trigger] (s_dl * l2) + s_dt * t2],
                forall|l2: int|
                    0 <= l2 < l ==> dst@[d_off + #[trigger] (lanes * t + l2)] == src@[s_off + s_dl
                        * l2 + s_dt * t],
                forall|p: int|
                    0 <= p < dst@.len() && !(d_off <= p < d_off + lanes * k) ==> dst@[p] == old(
                        dst,
                    )@[p],
            decreases lanes - l,
        {
            proof {
                assert(0 <= lanes * t && lanes * t + l < lanes * k) by (nonlinear_arith)
                    requires
                        0 <= t < k,
                        0 <= l < lanes,
                ;
            }
            proof {
                assert(0 <= s_dl * l && 0 <= s_dt * t) by (nonlinear_arith);
            }
            let v: T = src[s_off + s_dl * l + s_dt * t];
            let ghost dst_before = dst@;
            dst.set(d_off + lanes * t + l, v);
            proof {
                let w: int = d_off + lanes * t + l;
                assert forall|l2: int, t2: int|
                    0 <= l2 < lanes && 0 <= t2 < t implies dst@[d_off + #[trigger] (lanes * t2
                    + l2)] == src@[s_off + #[trigger] (s_dl * l2) + s_dt * t2] by {
                    assert(0 <= lanes * t2 && lanes * t2 + l2 < lanes * k) by (nonlinear_arith)
                        requires
                            0 <= t2 < k,
                            0 <= l2 < lanes,
                    ;
                    if d_off + lanes * t2 + l2 == w {
                        lemma_flat_unique(lanes as int, l2, t2, l as int, t as int);
                    }
                }
                assert forall|l2: int| 0 <= l2 < l implies dst@[d_off + #[trigger] (lanes * t
                    + l2)] == src@[s_off + s_dl * l2 + s_dt * t] by {
                    assert(d_off + lanes * t + l2 != w);
                }
            }
            l = l + 1;
        }
        t = t + 1;
    }
}

} // verus!

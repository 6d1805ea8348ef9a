//! Fully-packed blocked multiply: both operands are packed once, up
//! front, into two-level panel layouts (coarse cache tiles, then 16-lane
//! sections), and the loop nest then streams the micro-kernel over the
//! packed buffers without any packing inside.

use vstd::prelude::*;

verus! {

use crate::kernel::lemma_panel_to_global;
use crate::kernel::lemma_tile_index_bounds;
use crate::kernel::micro_kernel;
use crate::kernel::pack_panel;
use crate::kernel::panel_dot;
use crate::kernel::sect_slot;
use crate::model::dot_range;
use crate::model::filled_vec;
use crate::model::is_product;
use crate::model::lemma_aligned_gap;
use crate::model::lemma_mod_trans;
use crate::model::lemma_partial_extend;
use crate::model::lemma_wrap8_in_range;
use crate::model::partial_entry;
use crate::model::product_entry;
use crate::model::wrap8;

/// The clipped size of the tile that starts at `s` when an axis of length
/// `n` is cut into pieces of nominal size `step`.
pub open spec fn tsz(n: int, s: int, step: int) -> int {
    if n - s < step {
        n - s
    } else {
        step
    }
}

/// Start offset, in the fully packed A buffer, of the coarse tile with
/// corner (row `mi`, reduction column `ki`): tiles are laid out reduction
/// slab by reduction slab, then row block by row block.
pub open spec fn a_base(n: int, kc: int, ki: int, mi: int) -> int {
    n * ki + tsz(n, ki, kc) * mi
}

/// One-past-the-end offset of that coarse A tile.
pub open spec fn a_tile_end(n: int, kc: int, mc: int, ki: int, mi: int) -> int {
    n * ki + tsz(n, ki, kc) * (mi + tsz(n, mi, mc))
}

/// Start offset, in the fully packed B buffer, of the coarse tile with
/// corner (reduction row `ki`, column `ni`): tiles are laid out column
/// slab by column slab, then reduction block by reduction block.
pub open spec fn b_base(n: int, nc: int, ni: int, ki: int) -> int {
    n * ni + tsz(n, ni, nc) * ki
}

/// One-past-the-end offset of that coarse B tile.
pub open spec fn b_tile_end(n: int, nc: int, kc: int, ni: int, ki: int) -> int {
    n * ni + tsz(n, ni, nc) * (ki + tsz(n, ki, kc))
}

/// The first `rows` lane-rows of coarse A tile (ki, mi) are packed: the
/// 16-row section starting at `mri` stores, lane-contiguously, the
/// sub-block rows `mi + mri .. mi + mri + 16` over reduction columns
/// `ki .. ki + tsz(n, ki, kc)`.
pub open spec fn a_tile_packed(
    p: Seq<i8>,
    a: Seq<i8>,
    n: int,
    kc: int,
    ki: int,
    mi: int,
    rows: int,
) -> bool {
    forall|mri: int, l: int, t: int|
        0 <= mri < rows && mri % 16 == 0 && 0 <= l < 16 && 0 <= t < tsz(n, ki, kc) ==> p[a_base(
            n,
            kc,
            ki,
            mi,
        ) + #[trigger] sect_slot(tsz(n, ki, kc), 16, mri, t, l)] == a[mi + mri + l + n * (ki + t)]
}

/// Every coarse A tile is packed.
pub open spec fn a_packed(p: Seq<i8>, a: Seq<i8>, n: int, kc: int, mc: int) -> bool {
    forall|ki: int, mi: int|
        0 <= ki < n && ki % kc == 0 && 0 <= mi < n && mi % mc == 0 ==> #[trigger] a_tile_packed(
            p,
            a,
            n,
            kc,
            ki,
            mi,
            tsz(n, mi, mc),
        )
}

/// The first `cols` lane-columns of coarse B tile (ni, ki) are packed.
pub open spec fn b_tile_packed(
    p: Seq<i8>,
    b: Seq<i8>,
    n: int,
    nc: int,
    kc: int,
    ni: int,
    ki: int,
    cols: int,
) -> bool {
    forall|nri: int, cc: int, t: int|
        0 <= nri < cols && nri % 16 == 0 && 0 <= cc < 16 && 0 <= t < tsz(n, ki, kc) ==> p[b_base(
            n,
            nc,
            ni,
            ki,
        ) + #[trigger] sect_slot(tsz(n, ki, kc), 16, nri, t, cc)] == b[ki + t + n * (ni + nri
            + cc)]
}

/// Every coarse B tile is packed.
pub open spec fn b_packed(p: Seq<i8>, b: Seq<i8>, n: int, nc: int, kc: int) -> bool {
    forall|ni: int, ki: int|
        0 <= ni < n && ni % nc == 0 && 0 <= ki < n && ki % kc == 0 ==> #[trigger] b_tile_packed(
            p,
            b,
            n,
            nc,
            kc,
            ni,
            ki,
            tsz(n, ni, nc),
        )
}

/// Where a packed A slot lies: inside its 16-row section, before the end
/// of its coarse tile, and inside the buffer.
proof fn lemma_a_slot_bounds(n: int, kc: int, mc: int, ki: int, mi: int, mri: int, t: int, l: int)
    requires
        0 < kc,
        0 < mc,
        0 <= ki < n,
        0 <= mi < n,
        0 <= mri,
        mri + 16 <= tsz(n, mi, mc),
        0 <= t < tsz(n, ki, kc),
        0 <= l < 16,
    ensures
        a_base(n, kc, ki, mi) + mri * tsz(n, ki, kc) <= a_base(n, kc, ki, mi) + sect_slot(
            tsz(n, ki, kc),
            16,
            mri,
            t,
            l,
        ) < a_base(n, kc, ki, mi) + (mri + 16) * tsz(n, ki, kc),
        a_base(n, kc, ki, mi) + (mri + 16) * tsz(n, ki, kc) <= a_tile_end(n, kc, mc, ki, mi),
        a_tile_end(n, kc, mc, ki, mi) <= n * (ki + tsz(n, ki, kc)),
        n * (ki + tsz(n, ki, kc)) <= n * n,
        0 <= n * ki <= a_base(n, kc, ki, mi),
{
    let tk: int = tsz(n, ki, kc);
    let tm: int = tsz(n, mi, mc);
    assert(mri * tk <= mri * tk + 16 * t + l < (mri + 16) * tk && (mri + 16) * tk <= tm * tk && 0
        <= tk * mi && tk * mi + tm * tk == tk * (mi + tm) && tk * (mi + tm) <= tk * n && n * ki
        + tk * n == n * (ki + tk) && n * (ki + tk) <= n * n) by (nonlinear_arith)
        requires
            0 <= mri,
            mri + 16 <= tm,
            0 <= t < tk,
            0 <= l < 16,
            1 <= tk,
            0 <= mi,
            mi + tm <= n,
            ki + tk <= n,
            0 <= ki,
            0 <= n,
    ;
}

/// Where a packed B slot lies.
proof fn lemma_b_slot_bounds(n: int, nc: int, kc: int, ni: int, ki: int, nri: int, t: int, cc: int)
    requires
        0 < nc,
        0 < kc,
        0 <= ni < n,
        0 <= ki < n,
        0 <= nri,
        nri + 16 <= tsz(n, ni, nc),
        0 <= t < tsz(n, ki, kc),
        0 <= cc < 16,
    ensures
        b_base(n, nc, ni, ki) + nri * tsz(n, ki, kc) <= b_base(n, nc, ni, ki) + sect_slot(
            tsz(n, ki, kc),
            16,
            nri,
            t,
            cc,
        ) < b_base(n, nc, ni, ki) + (nri + 16) * tsz(n, ki, kc),
        b_base(n, nc, ni, ki) + (nri + 16) * tsz(n, ki, kc) <= b_tile_end(n, nc, kc, ni, ki),
        b_tile_end(n, nc, kc, ni, ki) <= n * (ni + tsz(n, ni, nc)),
        n * (ni + tsz(n, ni, nc)) <= n * n,
        0 <= n * ni <= b_base(n, nc, ni, ki),
{
    let tk: int = tsz(n, ki, kc);
    let tn: int = tsz(n, ni, nc);
    assert(nri * tk <= nri * tk + 16 * t + cc < (nri + 16) * tk && (nri + 16) * tk <= tn * tk && 0
        <= tn * ki && tn * ki + tn * tk == tn * (ki + tk) && tn * (ki + tk) <= tn * n && n * ni
        + tn * n == n * (ni + tn) && n * (ni + tn) <= n * n) by (nonlinear_arith)
        requires
            0 <= nri,
            nri + 16 <= tn,
            0 <= t < tk,
            0 <= cc < 16,
            1 <= tk,
            tk <= n - ki,
            0 <= ki,
            ki + tk <= n,
            ni + tn <= n,
            0 <= ni,
            0 <= n,
            1 <= tn,
    ;
    assert(b_tile_end(n, nc, kc, ni, ki) == n * ni + tn * (ki + tk));
}

/// Coarse A tiles are laid out in order: a tile that comes earlier in the
/// (reduction slab, row block) order ends before the later tile begins.
proof fn lemma_a_order(n: int, kc: int, mc: int, ki2: int, mi2: int, ki: int, mi: int)
    requires
        0 < kc,
        0 < mc,
        0 <= ki2 < n,
        ki2 % (kc as int) == 0,
        0 <= mi2 < n,
        mi2 % (mc as int) == 0,
        0 <= ki < n,
        ki % kc == 0,
        0 <= mi < n,
        mi % mc == 0,
        ki2 < ki || (ki2 == ki && mi2 < mi),
    ensures
        a_tile_end(n, kc, mc, ki2, mi2) <= a_base(n, kc, ki, mi),
{
    let tk2: int = tsz(n, ki2, kc);
    let tm2: int = tsz(n, mi2, mc);
    if ki2 == ki {
        lemma_aligned_gap(mi2, mi, mc);
        assert(tsz(n, mi2, mc) == mc);
        assert(tk2 * (mi2 + mc) <= tk2 * mi) by (nonlinear_arith)
            requires
                mi2 + mc <= mi,
                0 <= tk2,
        ;
    } else {
        lemma_aligned_gap(ki2, ki, kc);
        assert(tsz(n, ki2, kc) == kc);
        assert(tk2 * (mi2 + tm2) <= tk2 * n && n * ki2 + tk2 * n == n * (ki2 + tk2) && n * (ki2
            + tk2) <= n * ki && 0 <= tsz(n, ki, kc) * mi) by (nonlinear_arith)
            requires
                mi2 + tm2 <= n,
                0 <= tk2,
                ki2 + tk2 <= ki,
                0 <= n,
                0 <= mi,
                0 <= tsz(n, ki, kc),
        ;
    }
}

/// Coarse B tiles are laid out in order.
proof fn lemma_b_order(n: int, nc: int, kc: int, ni2: int, ki2: int, ni: int, ki: int)
    requires
        0 < nc,
        0 < kc,
        0 <= ni2 < n,
        ni2 % (nc as int) == 0,
        0 <= ki2 < n,
        ki2 % (kc as int) == 0,
        0 <= ni < n,
        ni % nc == 0,
        0 <= ki < n,
        ki % kc == 0,
        ni2 < ni || (ni2 == ni && ki2 < ki),
    ensures
        b_tile_end(n, nc, kc, ni2, ki2) <= b_base(n, nc, ni, ki),
{
    let tn2: int = tsz(n, ni2, nc);
    let tk2: int = tsz(n, ki2, kc);
    if ni2 == ni {
        lemma_aligned_gap(ki2, ki, kc);
        assert(tsz(n, ki2, kc) == kc);
        assert(tn2 * (ki2 + kc) <= tn2 * ki) by (nonlinear_arith)
            requires
                ki2 + kc <= ki,
                0 <= tn2,
        ;
    } else {
        lemma_aligned_gap(ni2, ni, nc);
        assert(tsz(n, ni2, nc) == nc);
        assert(tn2 * (ki2 + tk2) <= tn2 * n && n * ni2 + tn2 * n == n * (ni2 + tn2) && n * (ni2
            + tn2) <= n * ni && 0 <= tsz(n, ni, nc) * ki) by (nonlinear_arith)
            requires
                ki2 + tk2 <= n,
                0 <= tn2,
                ni2 + tn2 <= ni,
                0 <= n,
                0 <= ki,
                0 <= tsz(n, ni, nc),
        ;
    }
}

/// Packs all of `a` (square, k-by-k, column-major) into the two-level
/// panel layout: coarse (kc, mc) tiles in slab order, 16-row sections
/// inside each tile.
fn pack_a(k: usize, m: usize, kc: usize, mc: usize, a: &Vec<i8>, packed: &mut Vec<i8>)
    requires
        k == m,
        a@.len() == k * k,
        old(packed)@.len() == k * k,
        k % 16 == 0,
        mc % 16 == 0,
        1 <= kc,
        1 <= mc,
    ensures
        final(packed)@.len() == k * k,
        a_packed(final(packed)@, a@, k as int, kc as int, mc as int),
{
    let n: usize = k;
    proof {
        assert(a.len() == a@.len() && packed.len() == packed@.len());
    }
    let mut ki: usize = 0;
    while ki < n
        invariant
            ki <= n,
            ki % kc == 0 || ki == n,
            a@.len() == n * n,
            packed@.len() == n * n,
            n * n <= usize::MAX,
            n % 16 == 0,
            mc % 16 == 0,
            1 <= kc,
            1 <= mc,
            forall|ki2: int, mi2: int|
                0 <= ki2 < ki && ki2 % (kc as int) == 0 && 0 <= mi2 < n && mi2 % (mc as int) == 0
                    ==> #[trigger] a_tile_packed(
                    packed@,
                    a@,
                    n as int,
                    kc as int,
                    ki2,
                    mi2,
                    tsz(n as int, mi2, mc as int),
                ),
        decreases n - ki,
    {
        let tile_k: usize = if n - ki < kc {
            n - ki
        } else {
            kc
        };
        let mut mi: usize = 0;
        while mi < n
            invariant
                mi <= n,
                mi % mc == 0 || mi == n,
                ki < n,
                ki % kc == 0,
                tile_k == tsz(n as int, ki as int, kc as int),
                1 <= tile_k,
                ki + tile_k <= n,
                a@.len() == n * n,
                packed@.len() == n * n,
                n * n <= usize::MAX,
                n % 16 == 0,
                mc % 16 == 0,
                1 <= kc,
                1 <= mc,
                forall|ki2: int, mi2: int|
                    0 <= ki2 < ki && ki2 % (kc as int) == 0 && 0 <= mi2 < n && mi2 % (mc as int) == 0
                        ==> #[trigger] a_tile_packed(
                        packed@,
                        a@,
                        n as int,
                        kc as int,
                        ki2,
                        mi2,
                        tsz(n as int, mi2, mc as int),
                    ),
                forall|mi2: int|
                    0 <= mi2 < mi && mi2 % (mc as int) == 0 ==> #[trigger] a_tile_packed(
                        packed@,
                        a@,
                        n as int,
                        kc as int,
                        ki as int,
                        mi2,
                        tsz(n as int, mi2, mc as int),
                    ),
            decreases n - mi,
        {
            let tile_m: usize = if n - mi < mc {
                n - mi
            } else {
                mc
            };
            proof {
                lemma_mod_trans(mi as int, mc as int, 16);
            }
            let mut mri: usize = 0;
            while mri < tile_m
                invariant
                    mri <= tile_m,
                    mri % 16 == 0,
                    tile_m == tsz(n as int, mi as int, mc as int),
                    tile_m % 16 == 0,
                    mi % 16 == 0,
                    mi < n,
                    mi % mc == 0,
                    mi + tile_m <= n,
                    ki < n,
                    ki % kc == 0,
                    tile_k == tsz(n as int, ki as int, kc as int),
                    1 <= tile_k,
                    ki + tile_k <= n,
                    a@.len() == n * n,
                    packed@.len() == n * n,
                    n * n <= usize::MAX,
                    n % 16 == 0,
                    mc % 16 == 0,
                    1 <= kc,
                    1 <= mc,
                    forall|ki2: int, mi2: int|
                        0 <= ki2 < ki && ki2 % (kc as int) == 0 && 0 <= mi2 < n && mi2 % (mc as int) == 0
                            ==> #[trigger] a_tile_packed(
                            packed@,
                            a@,
                            n as int,
                            kc as int,
                            ki2,
                            mi2,
                            tsz(n as int, mi2, mc as int),
                        ),
                    forall|mi2: int|
                        0 <= mi2 < mi && mi2 % (mc as int) == 0 ==> #[trigger] a_tile_packed(
                            packed@,
                            a@,
                            n as int,
                            kc as int,
                            ki as int,
                            mi2,
                            tsz(n as int, mi2, mc as int),
                        ),
                    a_tile_packed(
                        packed@,
                        a@,
                        n as int,
                        kc as int,
                        ki as int,
                        mi as int,
                        mri as int,
                    ),
                decreases tile_m - mri,
            {
                proof {
                    lemma_a_slot_bounds(
                        n as int,
                        kc as int,
                        mc as int,
                        ki as int,
                        mi as int,
                        mri as int,
                        0,
                        0,
                    );
                    assert forall|l: int, t: int|
                        0 <= l < 16 && 0 <= t < tile_k implies (mi + mri + n * ki)
                        + #[trigger] (1 * l) + #[trigger] ((n as int) * t) < n * n by {
                        assert(mi + mri + n * ki + l + n * t < n * n) by (nonlinear_arith)
                            requires
                                0 <= mi,
                                0 <= ki,
                                mi + mri + 16 <= n,
                                ki + tile_k <= n,
                                0 <= l < 16,
                                0 <= t < tile_k,
                        ;
                    }
                    assert(tile_k * (mi + mri) == tile_k * mi + mri * tile_k && 0 <= tile_k * (mi
                        + mri) && (mri + 16) * tile_k == mri * tile_k + 16 * tile_k)
                        by (nonlinear_arith);
                }
                proof {
                    assert(mi + mri + n * ki < n * n && 0 <= n * ki) by (nonlinear_arith)
                        requires
                            0 <= mi,
                            0 <= mri,
                            0 <= ki < n,
                            mi + mri < n,
                            1 <= n,
                    ;
                }
                let s_off: usize = (mi + mri) + n * ki;
                let d_off: usize = n * ki + tile_k * (mi + mri);
                let ghost p_before = packed@;
                pack_panel(tile_k, 16, a, s_off, 1, n, packed, d_off);
                proof {
                    let gn: int = n as int;
                    let gkc: int = kc as int;
                    let gmc: int = mc as int;
                    let base: int = a_base(gn, gkc, ki as int, mi as int);
                    assert(d_off == base + mri * tile_k);
                    // the freshly packed section
                    assert forall|l: int, t: int|
                        0 <= l < 16 && 0 <= t < tile_k implies packed@[base + #[trigger] sect_slot(
                        tile_k as int,
                        16,
                        mri as int,
                        t,
                        l,
                    )] == a@[mi + mri + l + gn * (ki + t)] by {
                        assert(packed@[d_off + (16 * t + l)] == a@[s_off + (1 * l) + gn * t]);
                        assert(base + sect_slot(tile_k as int, 16, mri as int, t, l) == d_off + (16
                            * t + l));
                        assert(gn * (ki + t) == gn * ki + gn * t) by (nonlinear_arith);
                    }
                    // earlier tiles and sections are untouched: they all lie below d_off
                    assert forall|ki2: int, mi2: int|
                        0 <= ki2 < ki && ki2 % (kc as int) == 0 && 0 <= mi2 < n && mi2 % (mc as int)
                            == 0 implies #[trigger] a_tile_packed(
                        packed@,
                        a@,
                        gn,
                        gkc,
                        ki2,
                        mi2,
                        tsz(gn, mi2, gmc),
                    ) by {
                        lemma_a_untouched(
                            p_before,
                            packed@,
                            a@,
                            gn,
                            gkc,
                            gmc,
                            ki2,
                            mi2,
                            ki as int,
                            mi as int,
                            d_off as int,
                        );
                    }
                    assert forall|mi2: int|
                        0 <= mi2 < mi && mi2 % (mc as int) == 0 implies #[trigger] a_tile_packed(
                        packed@,
                        a@,
                        gn,
                        gkc,
                        ki as int,
                        mi2,
                        tsz(gn, mi2, gmc),
                    ) by {
                        lemma_a_untouched(
                            p_before,
                            packed@,
                            a@,
                            gn,
                            gkc,
                            gmc,
                            ki as int,
                            mi2,
                            ki as int,
                            mi as int,
                            d_off as int,
                        );
                    }
                    assert forall|mri2: int, l: int, t: int|
                        0 <= mri2 < mri && mri2 % 16 == 0 && 0 <= l < 16 && 0 <= t
                            < tile_k implies packed@[base + #[trigger] sect_slot(
                        tile_k as int,
                        16,
                        mri2,
                        t,
                        l,
                    )] == a@[mi + mri2 + l + gn * (ki + t)] by {
                        lemma_a_slot_bounds(gn, gkc, gmc, ki as int, mi as int, mri2, t, l);
                        assert((mri2 + 16) * tile_k <= mri * tile_k) by (nonlinear_arith)
                            requires
                                mri2 + 16 <= mri,
                                0 <= tile_k,
                        ;
                    }
                }
                mri = mri + 16;
            }
            proof {
                assert forall|mi2: int|
                    0 <= mi2 < mi + tile_m && mi2 % (mc as int) == 0 implies #[trigger] a_tile_packed(
                    packed@,
                    a@,
                    n as int,
                    kc as int,
                    ki as int,
                    mi2,
                    tsz(n as int, mi2, mc as int),
                ) by {
                    if mi < mi2 {
                        lemma_aligned_gap(mi as int, mi2, mc as int);
                    }
                }
            }
            proof {
                if n - mi >= mc {
                    vstd::arithmetic::div_mod::lemma_mod_add_multiples_vanish(mi as int, mc as int);
                }
            }
            mi = mi + tile_m;
        }
        proof {
            assert forall|ki2: int, mi2: int|
                0 <= ki2 < ki + tile_k && ki2 % (kc as int) == 0 && 0 <= mi2 < n && mi2 % (mc as int)
                    == 0 implies #[trigger] a_tile_packed(
                packed@,
                a@,
                n as int,
                kc as int,
                ki2,
                mi2,
                tsz(n as int, mi2, mc as int),
            ) by {
                if ki < ki2 {
                    lemma_aligned_gap(ki as int, ki2, kc as int);
                }
            }
        }
        proof {
            if n - ki >= kc {
                vstd::arithmetic::div_mod::lemma_mod_add_multiples_vanish(ki as int, kc as int);
            }
        }
        ki = ki + tile_k;
    }
}

/// Sweeps the 16-by-16 micro-kernel down one 16-column section of the
/// current block, adding the reduction slice `[ki, ki + tile_k)` to the
/// output columns `ni + ni2 .. ni + ni2 + 16`.  `ga` and `gb` are the
/// matrices whose sub-blocks the packed buffers hold.
#[verifier::rlimit(100)]
fn sweep16(
    tile_m: usize,
    tile_k: usize,
    n: usize,
    packed_a: &Vec<i8>,
    pa_base: usize,
    packed_b: &Vec<i8>,
    pb_base: usize,
    c: &mut Vec<i8>,
    mi: usize,
    ki: usize,
    ni: usize,
    ni2: usize,
    ga: Ghost<Seq<i8>>,
    gb: Ghost<Seq<i8>>,
)
    requires
        old(c)@.len() == n * n,
        n * n <= usize::MAX,
        mi + tile_m <= n,
        ki + tile_k <= n,
        ni + ni2 + 16 <= n,
        tile_m % 16 == 0,
        ni2 % 16 == 0,
        1 <= tile_k,
        pa_base + tile_m * tile_k <= packed_a@.len(),
        pb_base + ni2 * tile_k + 16 * tile_k <= packed_b@.len(),
        packed_a@.len() <= usize::MAX,
        packed_b@.len() <= usize::MAX,
        forall|s: int, l: int, t: int|
            0 <= s < tile_m && s % 16 == 0 && 0 <= l < 16 && 0 <= t < tile_k ==> packed_a@[pa_base
                + #[trigger] sect_slot(tile_k as int, 16, s, t, l)] == ga@[mi + s + l + n * (ki
                + t)],
        forall|cc: int, t: int|
            0 <= cc < 16 && 0 <= t < tile_k ==> packed_b@[pb_base + #[trigger] sect_slot(
                tile_k as int,
                16,
                ni2 as int,
                t,
                cc,
            )] == gb@[ki + t + n * (ni + ni2 + cc)],
    ensures
        final(c)@.len() == n * n,
        forall|i: int, j: int|
            mi <= i < mi + tile_m && ni + ni2 <= j < ni + ni2 + 16 ==> final(c)@[#[trigger] (i + n
                * j)] == wrap8(
                old(c)@[i + n * j] as int + dot_range(
                    ga@,
                    i,
                    n as int,
                    gb@,
                    n * j,
                    1,
                    ki as int,
                    ki + tile_k,
                ),
            ),
        forall|i: int, j: int|
            0 <= i < n && 0 <= j < n && !(mi <= i < mi + tile_m && ni + ni2 <= j < ni + ni2 + 16)
                ==> final(c)@[#[trigger] (i + n * j)] == old(c)@[i + n * j],
{
    let mut mi3: usize = 0;
    while mi3 < tile_m
        invariant
            mi3 <= tile_m,
            mi3 % 16 == 0,
            ni2 % 16 == 0,
            tile_m % 16 == 0,
            1 <= tile_k,
            c@.len() == n * n,
            n * n <= usize::MAX,
            mi + tile_m <= n,
            ki + tile_k <= n,
            ni + ni2 + 16 <= n,
            pa_base + tile_m * tile_k <= packed_a@.len(),
            pb_base + ni2 * tile_k + 16 * tile_k <= packed_b@.len(),
            packed_a@.len() <= usize::MAX,
            packed_b@.len() <= usize::MAX,
            forall|s: int, l: int, t: int|
                0 <= s < tile_m && s % 16 == 0 && 0 <= l < 16 && 0 <= t < tile_k
                    ==> packed_a@[pa_base + #[trigger] sect_slot(tile_k as int, 16, s, t, l)]
                    == ga@[mi + s + l + n * (ki + t)],
            forall|cc: int, t: int|
                0 <= cc < 16 && 0 <= t < tile_k ==> packed_b@[pb_base + #[trigger] sect_slot(
                    tile_k as int,
                    16,
                    ni2 as int,
                    t,
                    cc,
                )] == gb@[ki + t + n * (ni + ni2 + cc)],
            forall|i: int, j: int|
                mi <= i < mi + mi3 && ni + ni2 <= j < ni + ni2 + 16 ==> c@[#[trigger] (i + n * j)]
                    == wrap8(
                    old(c)@[i + n * j] as int + dot_range(
                        ga@,
                        i,
                        n as int,
                        gb@,
                        n * j,
                        1,
                        ki as int,
                        ki + tile_k,
                    ),
                ),
            forall|i: int, j: int|
                0 <= i < n && 0 <= j < n && !(mi <= i < mi + mi3 && ni + ni2 <= j < ni + ni2 + 16)
                    ==> c@[#[trigger] (i + n * j)] == old(c)@[i + n * j],
        decreases tile_m - mi3,
    {
        proof {
            assert forall|l: int, t: int|
                0 <= l < 16 && 0 <= t < tile_k implies (pa_base + mi3 * tile_k) + #[trigger] (1
                * l) + #[trigger] (16 * t) < packed_a@.len() by {
                assert(mi3 * tile_k + l + 16 * t < tile_m * tile_k) by (nonlinear_arith)
                    requires
                        mi3 + 16 <= tile_m,
                        0 <= mi3,
                        0 <= l < 16,
                        0 <= t < tile_k,
                ;
            }
            assert forall|cc: int, t: int|
                0 <= cc < 16 && 0 <= t < tile_k implies (pb_base + ni2 * tile_k) + #[trigger] (1
                * cc) + #[trigger] (16 * t) < packed_b@.len() by {
                assert(cc + 16 * t < 16 * tile_k) by (nonlinear_arith)
                    requires
                        0 <= cc < 16,
                        0 <= t < tile_k,
                ;
            }
            assert(0 <= mi3 * tile_k && mi3 * tile_k <= tile_m * tile_k && 0 <= ni2 * tile_k)
                by (nonlinear_arith)
                requires
                    0 <= mi3 <= tile_m,
                    0 <= tile_k,
                    0 <= ni2,
            ;
        }
        let pa_off: usize = pa_base + mi3 * tile_k;
        let pb_off: usize = pb_base + ni2 * tile_k;
        let ghost c_prev = c@;
        micro_kernel(
            tile_k,
            n,
            16,
            16,
            packed_a,
            pa_off,
            1,
            16,
            packed_b,
            pb_off,
            1,
            16,
            c,
            mi + mi3,
            ni + ni2,
        );
        proof {
            assert forall|i: int, j: int|
                mi + mi3 <= i < mi + mi3 + 16 && ni + ni2 <= j < ni + ni2
                    + 16 implies c@[#[trigger] (i + n * j)] == wrap8(
                c_prev[i + n * j] as int + dot_range(
                    ga@,
                    i,
                    n as int,
                    gb@,
                    n * j,
                    1,
                    ki as int,
                    ki + tile_k,
                ),
            ) by {
                let l: int = i - (mi + mi3);
                let cc: int = j - (ni + ni2);
                assert(c@[(mi + mi3) + l + n * ((ni + ni2) + cc)] == wrap8(
                    c_prev[(mi + mi3) + l + n * ((ni + ni2) + cc)] as int + panel_dot(
                        packed_a@,
                        pa_off as int,
                        1,
                        16,
                        packed_b@,
                        pb_off as int,
                        1,
                        16,
                        l,
                        cc,
                        tile_k as int,
                    ),
                ));
                lemma_panel_to_global(
                    packed_a@,
                    packed_b@,
                    ga@,
                    gb@,
                    n as int,
                    tile_k as int,
                    16,
                    pa_base as int,
                    pb_base as int,
                    mi as int,
                    ki as int,
                    ni as int,
                    mi3 as int,
                    ni2 as int,
                    l,
                    cc,
                );
                assert(panel_dot(
                    packed_a@,
                    pa_base + mi3 * tile_k,
                    1,
                    16,
                    packed_b@,
                    pb_base + ni2 * tile_k,
                    1,
                    16,
                    l,
                    cc,
                    tile_k as int,
                ) == dot_range(ga@, i, n as int, gb@, n * j, 1, ki as int, ki + tile_k));
            }
        }
        mi3 = mi3 + 16;
    }
}

/// Adds, to the block of `c` with corner (mi, ni), the reduction slice
/// `[ki, ki + tile_k)` of the product, reading both operands from the
/// fully packed buffers at the given coarse-tile bases.
fn inner_kernel(
    tile_m: usize,
    tile_k: usize,
    tile_n: usize,
    n: usize,
    packed_a: &Vec<i8>,
    pa_base: usize,
    packed_b: &Vec<i8>,
    pb_base: usize,
    c: &mut Vec<i8>,
    mi: usize,
    ki: usize,
    ni: usize,
    ga: Ghost<Seq<i8>>,
    gb: Ghost<Seq<i8>>,
)
    requires
        old(c)@.len() == n * n,
        n * n <= usize::MAX,
        mi + tile_m <= n,
        ki + tile_k <= n,
        ni + tile_n <= n,
        tile_m % 16 == 0,
        tile_n % 16 == 0,
        1 <= tile_m,
        1 <= tile_n,
        1 <= tile_k,
        pa_base + tile_m * tile_k <= packed_a@.len(),
        pb_base + tile_n * tile_k <= packed_b@.len(),
        packed_a@.len() <= usize::MAX,
        packed_b@.len() <= usize::MAX,
        forall|s: int, l: int, t: int|
            0 <= s < tile_m && s % 16 == 0 && 0 <= l < 16 && 0 <= t < tile_k ==> packed_a@[pa_base
                + #[trigger] sect_slot(tile_k as int, 16, s, t, l)] == ga@[mi + s + l + n * (ki
                + t)],
        forall|s: int, cc: int, t: int|
            0 <= s < tile_n && s % 16 == 0 && 0 <= cc < 16 && 0 <= t < tile_k ==> packed_b@[
                pb_base + #[trigger] sect_slot(tile_k as int, 16, s, t, cc)] == gb@[ki + t + n * (
            ni + s + cc)],
    ensures
        final(c)@.len() == n * n,
        forall|i: int, j: int|
            mi <= i < mi + tile_m && ni <= j < ni + tile_n ==> final(c)@[#[trigger] (i + n * j)]
                == wrap8(
                old(c)@[i + n * j] as int + dot_range(
                    ga@,
                    i,
                    n as int,
                    gb@,
                    n * j,
                    1,
                    ki as int,
                    ki + tile_k,
                ),
            ),
        forall|i: int, j: int|
            0 <= i < n && 0 <= j < n && !(mi <= i < mi + tile_m && ni <= j < ni + tile_n)
                ==> final(c)@[#[trigger] (i + n * j)] == old(c)@[i + n * j],
{
    let mut ni2: usize = 0;
    while ni2 < tile_n
        invariant
            ni2 <= tile_n,
            ni2 % 16 == 0,
            tile_n % 16 == 0,
            tile_m % 16 == 0,
            1 <= tile_m,
            1 <= tile_k,
            c@.len() == n * n,
            n * n <= usize::MAX,
            mi + tile_m <= n,
            ki + tile_k <= n,
            ni + tile_n <= n,
            pa_base + tile_m * tile_k <= packed_a@.len(),
            pb_base + tile_n * tile_k <= packed_b@.len(),
            packed_a@.len() <= usize::MAX,
            packed_b@.len() <= usize::MAX,
            forall|s: int, l: int, t: int|
                0 <= s < tile_m && s % 16 == 0 && 0 <= l < 16 && 0 <= t < tile_k
                    ==> packed_a@[pa_base + #[trigger] sect_slot(tile_k as int, 16, s, t, l)]
                    == ga@[mi + s + l + n * (ki + t)],
            forall|s: int, cc: int, t: int|
                0 <= s < tile_n && s % 16 == 0 && 0 <= cc < 16 && 0 <= t < tile_k ==> packed_b@[
                    pb_base + #[trigger] sect_slot(tile_k as int, 16, s, t, cc)] == gb@[ki + t + n
                    * (ni + s + cc)],
            forall|i: int, j: int|
                mi <= i < mi + tile_m && ni <= j < ni + ni2 ==> c@[#[trigger] (i + n * j)]
                    == wrap8(
                    old(c)@[i + n * j] as int + dot_range(
                        ga@,
                        i,
                        n as int,
                        gb@,
                        n * j,
                        1,
                        ki as int,
                        ki + tile_k,
                    ),
                ),
            forall|i: int, j: int|
                0 <= i < n && 0 <= j < n && !(mi <= i < mi + tile_m && ni <= j < ni + ni2)
                    ==> c@[#[trigger] (i + n * j)] == old(c)@[i + n * j],
        decreases tile_n - ni2,
    {
        proof {
            assert(pb_base + ni2 * tile_k + 16 * tile_k <= pb_base + tile_n * tile_k)
                by (nonlinear_arith)
                requires
                    ni2 + 16 <= tile_n,
                    0 <= ni2,
                    0 <= tile_k,
            ;
        }
        sweep16(
            tile_m,
            tile_k,
            n,
            packed_a,
            pa_base,
            packed_b,
            pb_base,
            c,
            mi,
            ki,
            ni,
            ni2,
            ga,
            gb,
        );
        ni2 = ni2 + 16;
    }
}

/// Packs all of `b` (square, k-by-k, column-major) into the two-level
/// panel layout: coarse (kc, nc) tiles in slab order, 16-column sections
/// inside each tile.
fn pack_b(k: usize, n: usize, kc: usize, nc: usize, b: &Vec<i8>, packed: &mut Vec<i8>)
    requires
        k == n,
        b@.len() == n * n,
        old(packed)@.len() == n * n,
        n % 16 == 0,
        nc % 16 == 0,
        1 <= kc,
        1 <= nc,
    ensures
        final(packed)@.len() == n * n,
        b_packed(final(packed)@, b@, n as int, nc as int, kc as int),
{
    proof {
        assert(b.len() == b@.len() && packed.len() == packed@.len());
    }
    let mut ni: usize = 0;
    while ni < n
        invariant
            ni <= n,
            ni % nc == 0 || ni == n,
            b@.len() == n * n,
            packed@.len() == n * n,
            n * n <= usize::MAX,
            n % 16 == 0,
            nc % 16 == 0,
            1 <= kc,
            1 <= nc,
            forall|ni2: int, ki2: int|
                0 <= ni2 < ni && ni2 % (nc as int) == 0 && 0 <= ki2 < n && ki2 % (kc as int) == 0
                    ==> #[trigger] b_tile_packed(
                    packed@,
                    b@,
                    n as int,
                    nc as int,
                    kc as int,
                    ni2,
                    ki2,
                    tsz(n as int, ni2, nc as int),
                ),
        decreases n - ni,
    {
        let tile_n: usize = if n - ni < nc {
            n - ni
        } else {
            nc
        };
        proof {
            lemma_mod_trans(ni as int, nc as int, 16);
        }
        let mut ki: usize = 0;
        while ki < n
            invariant
                ki <= n,
                ki % kc == 0 || ki == n,
                ni < n,
                ni % nc == 0,
                tile_n == tsz(n as int, ni as int, nc as int),
                1 <= tile_n,
                ni + tile_n <= n,
                tile_n % 16 == 0,
                ni % 16 == 0,
                b@.len() == n * n,
                packed@.len() == n * n,
                n * n <= usize::MAX,
                n % 16 == 0,
                nc % 16 == 0,
                1 <= kc,
                1 <= nc,
                forall|ni2: int, ki2: int|
                    0 <= ni2 < ni && ni2 % (nc as int) == 0 && 0 <= ki2 < n && ki2 % (kc as int)
                        == 0 ==> #[trigger] b_tile_packed(
                        packed@,
                        b@,
                        n as int,
                        nc as int,
                        kc as int,
                        ni2,
                        ki2,
                        tsz(n as int, ni2, nc as int),
                    ),
                forall|ki2: int|
                    0 <= ki2 < ki && ki2 % (kc as int) == 0 ==> #[trigger] b_tile_packed(
                        packed@,
                        b@,
                        n as int,
                        nc as int,
                        kc as int,
                        ni as int,
                        ki2,
                        tsz(n as int, ni as int, nc as int),
                    ),
            decreases n - ki,
        {
            let tile_k: usize = if n - ki < kc {
                n - ki
            } else {
                kc
            };
            let mut nri: usize = 0;
            while nri < tile_n
                invariant
                    nri <= tile_n,
                    nri % 16 == 0,
                    tile_n == tsz(n as int, ni as int, nc as int),
                    tile_n % 16 == 0,
                    ni % 16 == 0,
                    ni < n,
                    ni % nc == 0,
                    ni + tile_n <= n,
                    ki < n,
                    ki % kc == 0,
                    tile_k == tsz(n as int, ki as int, kc as int),
                    1 <= tile_k,
                    ki + tile_k <= n,
                    b@.len() == n * n,
                    packed@.len() == n * n,
                    n * n <= usize::MAX,
                    n % 16 == 0,
                    nc % 16 == 0,
                    1 <= kc,
                    1 <= nc,
                    forall|ni2: int, ki2: int|
                        0 <= ni2 < ni && ni2 % (nc as int) == 0 && 0 <= ki2 < n && ki2 % (
                        kc as int) == 0 ==> #[trigger] b_tile_packed(
                            packed@,
                            b@,
                            n as int,
                            nc as int,
                            kc as int,
                            ni2,
                            ki2,
                            tsz(n as int, ni2, nc as int),
                        ),
                    forall|ki2: int|
                        0 <= ki2 < ki && ki2 % (kc as int) == 0 ==> #[trigger] b_tile_packed(
                            packed@,
                            b@,
                            n as int,
                            nc as int,
                            kc as int,
                            ni as int,
                            ki2,
                            tsz(n as int, ni as int, nc as int),
                        ),
                    b_tile_packed(
                        packed@,
                        b@,
                        n as int,
                        nc as int,
                        kc as int,
                        ni as int,
                        ki as int,
                        nri as int,
                    ),
                decreases tile_n - nri,
            {
                proof {
                    lemma_b_slot_bounds(
                        n as int,
                        nc as int,
                        kc as int,
                        ni as int,
                        ki as int,
                        nri as int,
                        0,
                        0,
                    );
                    assert forall|cc: int, t: int|
                        0 <= cc < 16 && 0 <= t < tile_k implies (ki + n * (ni + nri))
                        + #[trigger] ((n as int) * cc) + #[trigger] (1 * t) < n * n by {
                        assert(ki + n * (ni + nri) + n * cc + t < n * n) by (nonlinear_arith)
                            requires
                                0 <= ki,
                                0 <= ni,
                                0 <= nri,
                                ni + nri + 16 <= n,
                                ki + tile_k <= n,
                                0 <= cc < 16,
                                0 <= t < tile_k,
                        ;
                    }
                    assert(ki + n * (ni + nri) < n * n && 0 <= n * (ni + nri))
                        by (nonlinear_arith)
                        requires
                            0 <= ki < n,
                            0 <= ni,
                            0 <= nri,
                            ni + nri < n,
                            1 <= n,
                    ;
                    assert(tile_n * ki + nri * tile_k == tsz(n as int, ni as int, nc as int) * ki
                        + nri * tile_k && (nri + 16) * tile_k == nri * tile_k + 16 * tile_k && 0
                        <= tile_n * ki) by (nonlinear_arith)
                        requires
                            tile_n == tsz(n as int, ni as int, nc as int),
                            0 <= tile_n,
                            0 <= ki,
                    ;
                }
                let s_off: usize = ki + n * (ni + nri);
                let d_off: usize = n * ni + tile_n * ki + nri * tile_k;
                let ghost p_before = packed@;
                pack_panel(tile_k, 16, b, s_off, n, 1, packed, d_off);
                proof {
                    let gn: int = n as int;
                    let gnc: int = nc as int;
                    let gkc: int = kc as int;
                    let base: int = b_base(gn, gnc, ni as int, ki as int);
                    assert(d_off == base + nri * tile_k);
                    // the freshly packed section
                    assert forall|cc: int, t: int|
                        0 <= cc < 16 && 0 <= t < tile_k implies packed@[base
                        + #[trigger] sect_slot(tile_k as int, 16, nri as int, t, cc)] == b@[ki + t
                        + gn * (ni + nri + cc)] by {
                        assert(packed@[d_off + (16 * t + cc)] == b@[s_off + (gn * cc) + 1 * t]);
                        assert(base + sect_slot(tile_k as int, 16, nri as int, t, cc) == d_off + (
                        16 * t + cc));
                        assert(gn * (ni + nri) + gn * cc == gn * (ni + nri + cc))
                            by (nonlinear_arith);
                    }
                    // earlier tiles and sections are untouched
                    assert forall|ni2: int, ki2: int|
                        0 <= ni2 < ni && ni2 % (nc as int) == 0 && 0 <= ki2 < n && ki2 % (
                        kc as int) == 0 implies #[trigger] b_tile_packed(
                        packed@,
                        b@,
                        gn,
                        gnc,
                        gkc,
                        ni2,
                        ki2,
                        tsz(gn, ni2, gnc),
                    ) by {
                        lemma_b_untouched(
                            p_before,
                            packed@,
                            b@,
                            gn,
                            gnc,
                            gkc,
                            ni2,
                            ki2,
                            ni as int,
                            ki as int,
                            d_off as int,
                        );
                    }
                    assert forall|ki2: int|
                        0 <= ki2 < ki && ki2 % (kc as int) == 0 implies #[trigger] b_tile_packed(
                        packed@,
                        b@,
                        gn,
                        gnc,
                        gkc,
                        ni as int,
                        ki2,
                        tsz(gn, ni as int, gnc),
                    ) by {
                        lemma_b_untouched(
                            p_before,
                            packed@,
                            b@,
                            gn,
                            gnc,
                            gkc,
                            ni as int,
                            ki2,
                            ni as int,
                            ki as int,
                            d_off as int,
                        );
                    }
                    assert forall|nri2: int, cc: int, t: int|
                        0 <= nri2 < nri && nri2 % 16 == 0 && 0 <= cc < 16 && 0 <= t
                            < tile_k implies packed@[base + #[trigger] sect_slot(
                        tile_k as int,
                        16,
                        nri2,
                        t,
                        cc,
                    )] == b@[ki + t + gn * (ni + nri2 + cc)] by {
                        lemma_b_slot_bounds(gn, gnc, gkc, ni as int, ki as int, nri2, t, cc);
                        assert((nri2 + 16) * tile_k <= nri * tile_k) by (nonlinear_arith)
                            requires
                                nri2 + 16 <= nri,
                                0 <= tile_k,
                        ;
                    }
                }
                nri = nri + 16;
            }
            proof {
                assert forall|ki2: int|
                    0 <= ki2 < ki + tile_k && ki2 % (kc as int) == 0
                        implies #[trigger] b_tile_packed(
                    packed@,
                    b@,
                    n as int,
                    nc as int,
                    kc as int,
                    ni as int,
                    ki2,
                    tsz(n as int, ni as int, nc as int),
                ) by {
                    if ki < ki2 {
                        lemma_aligned_gap(ki as int, ki2, kc as int);
                    }
                }
                if n - ki >= kc {
                    vstd::arithmetic::div_mod::lemma_mod_add_multiples_vanish(ki as int, kc as int);
                }
            }
            ki = ki + tile_k;
        }
        proof {
            assert forall|ni2: int, ki2: int|
                0 <= ni2 < ni + tile_n && ni2 % (nc as int) == 0 && 0 <= ki2 < n && ki2 % (
                kc as int) == 0 implies #[trigger] b_tile_packed(
                packed@,
                b@,
                n as int,
                nc as int,
                kc as int,
                ni2,
                ki2,
                tsz(n as int, ni2, nc as int),
            ) by {
                if ni < ni2 {
                    lemma_aligned_gap(ni as int, ni2, nc as int);
                }
            }
            if n - ni >= nc {
                vstd::arithmetic::div_mod::lemma_mod_add_multiples_vanish(ni as int, nc as int);
            }
        }
        ni = ni + tile_n;
    }
}

/// A coarse B tile that lies entirely below the write window starting at
/// `w` keeps its packed contents when the buffer is changed only at or
/// above `w`.
proof fn lemma_b_untouched(
    before: Seq<i8>,
    after: Seq<i8>,
    b: Seq<i8>,
    n: int,
    nc: int,
    kc: int,
    ni2: int,
    ki2: int,
    ni: int,
    ki: int,
    w: int,
)
    requires
        0 < nc,
        0 < kc,
        0 <= ni2 < n,
        ni2 % nc == 0,
        0 <= ki2 < n,
        ki2 % kc == 0,
        0 <= ni < n,
        ni % nc == 0,
        0 <= ki < n,
        ki % kc == 0,
        ni2 < ni || (ni2 == ni && ki2 < ki),
        b_base(n, nc, ni, ki) <= w,
        n % 16 == 0,
        nc % 16 == 0,
        after.len() == before.len(),
        n * n <= before.len(),
        forall|p: int| 0 <= p < before.len() && p < w ==> after[p] == before[p],
        b_tile_packed(before, b, n, nc, kc, ni2, ki2, tsz(n, ni2, nc)),
    ensures
        b_tile_packed(after, b, n, nc, kc, ni2, ki2, tsz(n, ni2, nc)),
{
    assert forall|nri: int, cc: int, t: int|
        0 <= nri < tsz(n, ni2, nc) && nri % 16 == 0 && 0 <= cc < 16 && 0 <= t < tsz(n, ki2, kc)
            implies after[b_base(n, nc, ni2, ki2) + #[trigger] sect_slot(
        tsz(n, ki2, kc),
        16,
        nri,
        t,
        cc,
    )] == b[ki2 + t + n * (ni2 + nri + cc)] by {
        lemma_mod_trans(ni2, nc, 16);
        lemma_aligned_gap(nri, tsz(n, ni2, nc), 16);
        lemma_b_slot_bounds(n, nc, kc, ni2, ki2, nri, t, cc);
        lemma_b_order(n, nc, kc, ni2, ki2, ni, ki);
        assert(before[b_base(n, nc, ni2, ki2) + sect_slot(tsz(n, ki2, kc), 16, nri, t, cc)] == b[
            ki2 + t + n * (ni2 + nri + cc)]);
    }
}

/// Multiplies the column-major n-by-n matrices `a` and `b` by packing
/// both operands entirely, once, up front, and then running the blocked
/// loop nest with the 16-by-16 micro-kernel over the packed buffers.
/// `n` must be a multiple of 16.
#[verifier::rlimit(100)]
pub fn matmul6(a: &Vec<i8>, b: &Vec<i8>, n: usize) -> (c: Vec<i8>)
    requires
        a@.len() == n * n,
        b@.len() == n * n,
        n % 16 == 0,
    ensures
        is_product(a@, b@, c@, n as int),
{
    let size: usize = a.len();
    let mut c: Vec<i8> = filled_vec(size, 0i8);
    proof {
        lemma_wrap8_in_range(0);
        assert forall|i: int, j: int| 0 <= i < n && 0 <= j < n implies c@[#[trigger] (i + n * j)]
            == partial_entry(a@, b@, n as int, i, j, 0) by {
            lemma_tile_index_bounds(n as int, n as int, n as int, 0, 0, i, j);
        }
    }

    let nc: usize = 256;
    let kc: usize = 512;
    let mc: usize = 256;

    let mut packed_a: Vec<i8> = filled_vec(size, 0i8);
    let mut packed_b: Vec<i8> = filled_vec(size, 0i8);

    // pack both matrices optimally once
    pack_b(n, n, kc, nc, b, &mut packed_b);
    pack_a(n, n, kc, mc, a, &mut packed_a);

    // LOOP 5: Split B and C on the n-dimension into parts of nc size
    let mut ni: usize = 0;
    while ni < n
        invariant
            ni <= n,
            ni % 256 == 0 || ni == n,
            n % 16 == 0,
            nc == 256,
            kc == 512,
            mc == 256,
            a@.len() == n * n,
            b@.len() == n * n,
            c@.len() == n * n,
            packed_a@.len() == n * n,
            packed_b@.len() == n * n,
            n * n <= usize::MAX,
            a_packed(packed_a@, a@, n as int, 512, 256),
            b_packed(packed_b@, b@, n as int, 256, 512),
            forall|i: int, j: int|
                0 <= i < n && 0 <= j < ni ==> c@[#[trigger] (i + n * j)] == product_entry(
                    a@,
                    b@,
                    n as int,
                    i,
                    j,
                ),
            forall|i: int, j: int|
                0 <= i < n && ni <= j < n ==> c@[#[trigger] (i + n * j)] == partial_entry(
                    a@,
                    b@,
                    n as int,
                    i,
                    j,
                    0,
                ),
        decreases n - ni,
    {
        let tile_n: usize = if n - ni < nc {
            n - ni
        } else {
            nc
        };
        proof {
            lemma_mod_trans(ni as int, 256, 16);
        }

        // LOOP 4: Split A and B on the k-dimension into parts of kc size
        let mut ki: usize = 0;
        while ki < n
            invariant
                ki <= n,
                ki % 512 == 0 || ki == n,
                ni < n,
                ni % 256 == 0,
                ni % 16 == 0,
                n % 16 == 0,
                tile_n == tsz(n as int, ni as int, 256),
                tile_n % 16 == 0,
                1 <= tile_n,
                ni + tile_n <= n,
                kc == 512,
                mc == 256,
                a@.len() == n * n,
                b@.len() == n * n,
                c@.len() == n * n,
                packed_a@.len() == n * n,
                packed_b@.len() == n * n,
                n * n <= usize::MAX,
                a_packed(packed_a@, a@, n as int, 512, 256),
                b_packed(packed_b@, b@, n as int, 256, 512),
                forall|i: int, j: int|
                    0 <= i < n && 0 <= j < ni ==> c@[#[trigger] (i + n * j)] == product_entry(
                        a@,
                        b@,
                        n as int,
                        i,
                        j,
                    ),
                forall|i: int, j: int|
                    0 <= i < n && ni <= j < ni + tile_n ==> c@[#[trigger] (i + n * j)]
                        == partial_entry(a@, b@, n as int, i, j, ki as int),
                forall|i: int, j: int|
                    0 <= i < n && ni + tile_n <= j < n ==> c@[#[trigger] (i + n * j)]
                        == partial_entry(a@, b@, n as int, i, j, 0),
            decreases n - ki,
        {
            let tile_k: usize = if n - ki < kc {
                n - ki
            } else {
                kc
            };

            // LOOP 3: Split A and C on the m-dimension into parts of mc
            let mut mi: usize = 0;
            while mi < n
                invariant
                    mi <= n,
                    mi % 256 == 0 || mi == n,
                    mi % 16 == 0 || mi == n,
                    ki < n,
                    ki % 512 == 0,
                    ki + tile_k <= n,
                    tile_k == tsz(n as int, ki as int, 512),
                    1 <= tile_k,
                    ni < n,
                    ni % 256 == 0,
                    ni % 16 == 0,
                    n % 16 == 0,
                    tile_n == tsz(n as int, ni as int, 256),
                    tile_n % 16 == 0,
                    1 <= tile_n,
                    ni + tile_n <= n,
                    mc == 256,
                    a@.len() == n * n,
                    b@.len() == n * n,
                    c@.len() == n * n,
                    packed_a@.len() == n * n,
                    packed_b@.len() == n * n,
                    n * n <= usize::MAX,
                    a_packed(packed_a@, a@, n as int, 512, 256),
                    b_packed(packed_b@, b@, n as int, 256, 512),
                    forall|i: int, j: int|
                        0 <= i < n && 0 <= j < ni ==> c@[#[trigger] (i + n * j)] == product_entry(
                            a@,
                            b@,
                            n as int,
                            i,
                            j,
                        ),
                    forall|i: int, j: int|
                        0 <= i < mi && ni <= j < ni + tile_n ==> c@[#[trigger] (i + n * j)]
                            == partial_entry(a@, b@, n as int, i, j, ki + tile_k),
                    forall|i: int, j: int|
                        mi <= i < n && ni <= j < ni + tile_n ==> c@[#[trigger] (i + n * j)]
                            == partial_entry(a@, b@, n as int, i, j, ki as int),
                    forall|i: int, j: int|
                        0 <= i < n && ni + tile_n <= j < n ==> c@[#[trigger] (i + n * j)]
                            == partial_entry(a@, b@, n as int, i, j, 0),
                decreases n - mi,
            {
                let tile_m: usize = block_step(
                    a,
                    b,
                    &packed_a,
                    &packed_b,
                    &mut c,
                    n,
                    mi,
                    ki,
                    ni,
                    tile_k,
                    tile_n,
                );
                proof {
                    assert forall|i: int, j: int|
                        mi <= i < mi + tile_m && ni <= j < ni + tile_n implies c@[#[trigger] (i + n
                        * j)] == partial_entry(a@, b@, n as int, i, j, ki + tile_k) by {
                        lemma_partial_extend(a@, b@, n as int, i, j, ki as int, ki + tile_k);
                    }
                    if n - mi >= mc {
                        vstd::arithmetic::div_mod::lemma_mod_add_multiples_vanish(mi as int, 256);
                    }
                }
                mi = mi + tile_m;
            }
            proof {
                if n - ki >= kc {
                    vstd::arithmetic::div_mod::lemma_mod_add_multiples_vanish(ki as int, 512);
                }
            }
            ki = ki + tile_k;
        }
        proof {
            if n - ni >= nc {
                vstd::arithmetic::div_mod::lemma_mod_add_multiples_vanish(ni as int, 256);
            }
        }
        ni = ni + tile_n;
    }
    c
}

/// Runs one (row block, reduction slab, column slab) step of the fully
/// packed loop nest: locates the two coarse tiles in the packed buffers
/// and lets the kernel add the reduction slice to the output block.
/// Returns the clipped row-block height that was processed.
#[verifier::rlimit(100)]
fn block_step(
    a: &Vec<i8>,
    b: &Vec<i8>,
    packed_a: &Vec<i8>,
    packed_b: &Vec<i8>,
    c: &mut Vec<i8>,
    n: usize,
    mi: usize,
    ki: usize,
    ni: usize,
    tile_k: usize,
    tile_n: usize,
) -> (tile_m: usize)
    requires
        a@.len() == n * n,
        b@.len() == n * n,
        old(c)@.len() == n * n,
        packed_a@.len() == n * n,
        packed_b@.len() == n * n,
        n * n <= usize::MAX,
        n % 16 == 0,
        mi < n,
        mi % 256 == 0,
        ki < n,
        ki % 512 == 0,
        ni < n,
        ni % 256 == 0,
        ni % 16 == 0,
        tile_k == tsz(n as int, ki as int, 512),
        1 <= tile_k,
        ki + tile_k <= n,
        tile_n == tsz(n as int, ni as int, 256),
        tile_n % 16 == 0,
        1 <= tile_n,
        ni + tile_n <= n,
        a_packed(packed_a@, a@, n as int, 512, 256),
        b_packed(packed_b@, b@, n as int, 256, 512),
    ensures
        final(c)@.len() == n * n,
        tile_m == tsz(n as int, mi as int, 256),
        1 <= tile_m,
        mi + tile_m <= n,
        forall|i: int, j: int|
            mi <= i < mi + tile_m && ni <= j < ni + tile_n ==> final(c)@[#[trigger] (i + n * j)]
                == wrap8(
                old(c)@[i + n * j] as int + dot_range(
                    a@,
                    i,
                    n as int,
                    b@,
                    n * j,
                    1,
                    ki as int,
                    ki + tile_k,
                ),
            ),
        forall|i: int, j: int|
            0 <= i < n && 0 <= j < n && !(mi <= i < mi + tile_m && ni <= j < ni + tile_n)
                ==> final(c)@[#[trigger] (i + n * j)] == old(c)@[i + n * j],
{
    let mc: usize = 256;
    let tile_m: usize = if n - mi < mc {
        n - mi
    } else {
        mc
    };
    proof {
        lemma_mod_trans(mi as int, 256, 16);
        assert(a_tile_packed(
            packed_a@,
            a@,
            n as int,
            512,
            ki as int,
            mi as int,
            tsz(n as int, mi as int, 256),
        ));
        assert(b_tile_packed(
            packed_b@,
            b@,
            n as int,
            256,
            512,
            ni as int,
            ki as int,
            tsz(n as int, ni as int, 256),
        ));
        lemma_a_slot_bounds(
            n as int,
            512,
            256,
            ki as int,
            mi as int,
            tsz(n as int, mi as int, 256) - 16,
            0,
            0,
        );
        lemma_b_slot_bounds(
            n as int,
            256,
            512,
            ni as int,
            ki as int,
            tsz(n as int, ni as int, 256) - 16,
            0,
            0,
        );
        assert(tile_k * (tile_m - 16 + 16) == tile_k * tile_m && (tile_m - 16 + 16) * tile_k
            == tile_m * tile_k && (tile_n - 16 + 16) * tile_k == tile_n * tile_k && 0 <= tile_k
            * mi && 0 <= tsz(n as int, ni as int, 256) * ki) by (nonlinear_arith)
            requires
                0 <= tile_k,
                0 <= mi,
                0 <= ki,
                0 <= tsz(n as int, ni as int, 256),
        ;
    }
    let pa_base: usize = n * ki + tile_k * mi;
    let pb_base: usize = n * ni + tile_n * ki;
    inner_kernel(
        tile_m,
        tile_k,
        tile_n,
        n,
        packed_a,
        pa_base,
        packed_b,
        pb_base,
        c,
        mi,
        ki,
        ni,
        Ghost(a@),
        Ghost(b@),
    );
    tile_m
}

/// A coarse A tile that lies entirely below the write window starting at
/// `w` keeps its packed contents when the buffer is changed only at or
/// above `w`.
proof fn lemma_a_untouched(
    before: Seq<i8>,
    after: Seq<i8>,
    a: Seq<i8>,
    n: int,
    kc: int,
    mc: int,
    ki2: int,
    mi2: int,
    ki: int,
    mi: int,
    w: int,
)
    requires
        0 < kc,
        0 < mc,
        0 <= ki2 < n,
        ki2 % (kc as int) == 0,
        0 <= mi2 < n,
        mi2 % (mc as int) == 0,
        0 <= ki < n,
        ki % kc == 0,
        0 <= mi < n,
        mi % mc == 0,
        ki2 < ki || (ki2 == ki && mi2 < mi),
        a_base(n, kc, ki, mi) <= w,
        n % 16 == 0,
        mc % 16 == 0,
        after.len() == before.len(),
        n * n <= before.len(),
        forall|p: int| 0 <= p < before.len() && p < w ==> after[p] == before[p],
        a_tile_packed(before, a, n, kc, ki2, mi2, tsz(n, mi2, mc)),
    ensures
        a_tile_packed(after, a, n, kc, ki2, mi2, tsz(n, mi2, mc)),
{
    assert forall|mri: int, l: int, t: int|
        0 <= mri < tsz(n, mi2, mc) && mri % 16 == 0 && 0 <= l < 16 && 0 <= t < tsz(n, ki2, kc)
            implies after[a_base(n, kc, ki2, mi2) + #[trigger] sect_slot(
        tsz(n, ki2, kc),
        16,
        mri,
        t,
        l,
    )] == a[mi2 + mri + l + n * (ki2 + t)] by {
        lemma_mod_trans(mi2, mc, 16);
        lemma_aligned_gap(mri, tsz(n, mi2, mc), 16);
        lemma_a_slot_bounds(n, kc, mc, ki2, mi2, mri, t, l);
        lemma_a_order(n, kc, mc, ki2, mi2, ki, mi);
        assert(before[a_base(n, kc, ki2, mi2) + sect_slot(tsz(n, ki2, kc), 16, mri, t, l)] == a[mi2
            + mri + l + n * (ki2 + t)]);
    }
}

} // verus!

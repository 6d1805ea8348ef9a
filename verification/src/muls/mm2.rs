//! The first tiled multiply: an 8-by-8 micro-kernel over the full
//! reduction dimension, reading both operands in place.

use vstd::prelude::*;

verus! {

use crate::kernel::lemma_tile_index_bounds;
use crate::kernel::micro_kernel;
use crate::kernel::panel_dot;
use crate::model::filled_vec;
use crate::model::is_product;
use crate::model::product_entry;
use crate::model::wrap8;

/// Column-major flat offset of (r, c) under stride `n`.
fn at(r: usize, c: usize, n: usize) -> (idx: usize)
    requires
        r + n * c <= usize::MAX,
    ensures
        idx == r + n * c,
{
    r + n * c
}

/// Computes an 8x8 block of C with top-left corner (mi, ni), accumulating
/// over `k` steps: lane `l` of block column `cc` reads `a[a_off + l + n*t]`
/// and `b[b_off + n*cc + t]`.
fn dot8x8(
    k: usize,
    n: usize,
    a: &Vec<i8>,
    a_off: usize,
    b: &Vec<i8>,
    b_off: usize,
    c: &mut Vec<i8>,
    mi: usize,
    ni: usize,
)
    requires
        old(c)@.len() == n * n,
        mi + 8 <= n,
        ni + 8 <= n,
        forall|l: int, t: int|
            0 <= l < 8 && 0 <= t < k ==> a_off + #[trigger] (1 * l) + #[trigger] ((n as int) * t)
                < a@.len(),
        forall|cc: int, t: int|
            0 <= cc < 8 && 0 <= t < k ==> b_off + #[trigger] ((n as int) * cc) + #[trigger] (1 * t)
                < b@.len(),
    ensures
        final(c)@.len() == n * n,
        forall|l: int, cc: int|
            0 <= l < 8 && 0 <= cc < 8 ==> final(c)@[mi + l + n * (ni + cc)] == wrap8(
                old(c)@[mi + l + n * (ni + cc)] as int + #[trigger] panel_dot(
                    a@,
                    a_off as int,
                    1,
                    n as int,
                    b@,
                    b_off as int,
                    n as int,
                    1,
                    l,
                    cc,
                    k as int,
                ),
            ),
        forall|i: int, j: int|
            0 <= i < n && 0 <= j < n && !(mi <= i < mi + 8 && ni <= j < ni + 8)
                ==> final(c)@[#[trigger] (i + n * j)] == old(c)@[i + n * j],
{
    micro_kernel(k, n, 8, 8, a, a_off, 1, n, b, b_off, n, 1, c, mi, ni);
}

/// Multiplies the column-major n-by-n matrices `a` and `b` by computing
/// the output in 8-by-8 tiles, producing the wraparound 8-bit product.
/// `n` must be a multiple of the tile width 8.
pub fn matmul2(a: &Vec<i8>, b: &Vec<i8>, n: usize) -> (c: Vec<i8>)
    requires
        a@.len() == n * n,
        b@.len() == n * n,
        n % 8 == 0,
    ensures
        is_product(a@, b@, c@, n as int),
{
    let size: usize = a.len();
    let mut c: Vec<i8> = filled_vec(size, 0i8);
    proof {
        assert forall|i: int, j: int| 0 <= i < n && 0 <= j < n implies c@[#[trigger] (i + n * j)]
            == 0i8 by {
            lemma_tile_index_bounds(n as int, n as int, n as int, 0, 0, i, j);
        }
    }

    // Loop over cols in c
    let mut ni: usize = 0;
    while ni < n
        invariant
            ni <= n,
            ni % 8 == 0,
            n % 8 == 0,
            a@.len() == n * n,
            b@.len() == n * n,
            c@.len() == n * n,
            n * n <= usize::MAX,
            forall|i: int, j: int|
                0 <= i < n && 0 <= j < ni ==> c@[#[trigger] (i + n * j)] == product_entry(
                    a@,
                    b@,
                    n as int,
                    i,
                    j,
                ),
            forall|i: int, j: int|
                0 <= i < n && ni <= j < n ==> c@[#[trigger] (i + n * j)] == 0i8,
        decreases n - ni,
    {
        // Loop over rows in c
        let mut mi: usize = 0;
        while mi < n
            invariant
                ni < n,
                ni % 8 == 0,
                ni + 8 <= n,
                mi <= n,
                mi % 8 == 0,
                n % 8 == 0,
                a@.len() == n * n,
                b@.len() == n * n,
                c@.len() == n * n,
                n * n <= usize::MAX,
                forall|i: int, j: int|
                    0 <= i < n && 0 <= j < ni ==> c@[#[trigger] (i + n * j)] == product_entry(
                        a@,
                        b@,
                        n as int,
                        i,
                        j,
                    ),
                forall|i: int, j: int|
                    0 <= i < mi && ni <= j < ni + 8 ==> c@[#[trigger] (i + n * j)]
                        == product_entry(a@, b@, n as int, i, j),
                forall|i: int, j: int|
                    0 <= i < n && ni <= j < n && !(ni <= j < ni + 8 && i < mi)
                        ==> c@[#[trigger] (i + n * j)] == 0i8,
            decreases n - mi,
        {
            proof {
                lemma_block_bounds(n as int, mi as int, ni as int);
            }
            let a_off: usize = at(mi, 0, n);
            let b_off: usize = at(0, ni, n);
            let ghost c_prev = c@;
            dot8x8(n, n, a, a_off, b, b_off, &mut c, mi, ni);
            proof {
                assert forall|i: int, j: int|
                    mi <= i < mi + 8 && ni <= j < ni + 8 implies c@[#[trigger] (i + n * j)]
                    == product_entry(a@, b@, n as int, i, j) by {
                    let l: int = i - mi;
                    let cc: int = j - ni;
                    assert(c@[mi + l + n * (ni + cc)] == wrap8(
                        c_prev[mi + l + n * (ni + cc)] as int + panel_dot(
                            a@,
                            mi as int,
                            1,
                            n as int,
                            b@,
                            n * ni,
                            n as int,
                            1,
                            l,
                            cc,
                            n as int,
                        ),
                    ));
                    assert(n * ni + n * cc == n * (ni + cc)) by (nonlinear_arith);
                    assert(c_prev[i + n * j] == 0i8);
                }
            }
            mi = mi + 8;
        }
        ni = ni + 8;
    }
    c
}

/// Inside an n-by-n matrix with 8-aligned tile corner (mi, ni), every
/// micro-kernel read of this variant stays in bounds, and the next tile
/// corner stays 8-aligned.
proof fn lemma_block_bounds(n: int, mi: int, ni: int)
    requires
        0 <= mi < n,
        0 <= ni < n,
        mi % 8 == 0,
        ni % 8 == 0,
        n % 8 == 0,
    ensures
        mi + 8 <= n,
        ni + 8 <= n,
        forall|l: int, t: int|
            0 <= l < 8 && 0 <= t < n ==> mi + #[trigger] (1 * l) + #[trigger] (n * t) < n * n,
        forall|cc: int, t: int|
            0 <= cc < 8 && 0 <= t < n ==> n * ni + #[trigger] (n * cc) + #[trigger] (1 * t) < n
                * n,
        0 <= n * ni <= n * n,
{
    assert((n - mi) % 8 == 0 && (n - ni) % 8 == 0);
    assert(mi + 8 <= n && ni + 8 <= n);
    assert forall|l: int, t: int|
        0 <= l < 8 && 0 <= t < n implies mi + #[trigger] (1 * l) + #[trigger] (n * t) < n * n by {
        assert(mi + l + n * t < n * n) by (nonlinear_arith)
            requires
                0 <= mi,
                mi + 8 <= n,
                0 <= l < 8,
                0 <= t < n,
        ;
    }
    assert forall|cc: int, t: int|
        0 <= cc < 8 && 0 <= t < n implies n * ni + #[trigger] (n * cc) + #[trigger] (1 * t) < n
        * n by {
        assert(n * ni + n * cc + t < n * n) by (nonlinear_arith)
            requires
                0 <= ni,
                ni + 8 <= n,
                0 <= cc < 8,
                0 <= t < n,
        ;
    }
    assert(0 <= n * ni <= n * n) by (nonlinear_arith)
        requires
            0 <= ni <= n,
    ;
}

} // verus!

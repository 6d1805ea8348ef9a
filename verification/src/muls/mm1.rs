//! The naive multiply: a scalar dot product per output element, looping
//! over columns and rows of the output.

use vstd::prelude::*;

verus! {

use crate::kernel::lemma_tile_index_bounds;
use crate::kernel::set_entry;
use crate::model::dot_range;
use crate::model::filled_vec;
use crate::model::is_product;
use crate::model::lemma_wrap8_absorb;
use crate::model::lemma_wrap8_in_range;
use crate::model::lemma_wrap8_mul_acc;
use crate::model::product_entry;
use crate::model::wrap8;

/// Column-major flat offset of (r, c) under stride `n`.
fn at(r: usize, c: usize, n: usize) -> (idx: usize)
    requires
        r + n * c <= usize::MAX,
    ensures
        idx == r + n * c,
{
    r + n * c
}

/// Accumulates into `*c` the dot product of a row of `a` (read with column
/// stride `n`) and a contiguous column prefix of `b`, over `k` steps, with
/// wraparound 8-bit arithmetic.
fn dot(k: usize, n: usize, a: &Vec<i8>, a_off: usize, b: &Vec<i8>, b_off: usize, c: &mut i8)
    requires
        forall|t: int| 0 <= t < k ==> a_off + #[trigger] (n * t) < a@.len(),
        b_off + k <= b@.len(),
    ensures
        *final(c) == wrap8(
            *old(c) + dot_range(a@, a_off as int, n as int, b@, b_off as int, 1, 0, k as int),
        ),
{
    proof {
        assert(a.len() == a@.len());
        assert(b.len() == b@.len());
        lemma_wrap8_in_range(*c as int);
    }
    let mut ki: usize = 0;
    while ki < k
        invariant
            ki <= k,
            a@.len() <= usize::MAX,
            b_off + k <= b@.len(),
            b@.len() <= usize::MAX,
            forall|t: int| 0 <= t < k ==> a_off + #[trigger] (n * t) < a@.len(),
            *c == wrap8(
                *old(c) + dot_range(a@, a_off as int, n as int, b@, b_off as int, 1, 0, ki as int),
            ),
        decreases k - ki,
    {
        proof {
            assert(0 <= n * ki) by (nonlinear_arith);
        }
        let av: i8 = a[a_off + n * ki];
        let bv: i8 = b[b_off + ki];
        let prev: i8 = *c;
        *c = prev.wrapping_add(av.wrapping_mul(bv));
        proof {
            lemma_wrap8_mul_acc(prev, av, bv);
            lemma_wrap8_absorb(
                *old(c) + dot_range(a@, a_off as int, n as int, b@, b_off as int, 1, 0, ki as int),
                av as int * bv as int,
            );
            assert(b@[b_off + 1 * (ki as int)] == bv);
        }
        ki = ki + 1;
    }
}

/// Multiplies the column-major n-by-n matrices `a` and `b` with the naive
/// triple loop, producing the wraparound 8-bit product.
pub fn matmul1(a: &Vec<i8>, b: &Vec<i8>, n: usize) -> (c: Vec<i8>)
    requires
        a@.len() == n * n,
        b@.len() == n * n,
    ensures
        is_product(a@, b@, c@, n as int),
{
    let size: usize = a.len();
    let mut c: Vec<i8> = filled_vec(size, 0i8);
    proof {
        assert forall|i: int, j: int| 0 <= i < n && 0 <= j < n implies c@[#[trigger] (i + n * j)]
            == 0i8 by {
            lemma_tile_index_bounds(n as int, n as int, n as int, 0, 0, i, j);
        }
    }

    // Loop over cols in c
    let mut ni: usize = 0;
    while ni < n
        invariant
            ni <= n,
            a@.len() == n * n,
            b@.len() == n * n,
            c@.len() == n * n,
            n * n <= usize::MAX,
            forall|i: int, j: int|
                0 <= i < n && 0 <= j < ni ==> c@[#[trigger] (i + n * j)] == product_entry(
                    a@,
                    b@,
                    n as int,
                    i,
                    j,
                ),
            forall|i: int, j: int|
                0 <= i < n && ni <= j < n ==> c@[#[trigger] (i + n * j)] == 0i8,
        decreases n - ni,
    {
        // Loop over rows in c
        let mut mi: usize = 0;
        while mi < n
            invariant
                ni < n,
                mi <= n,
                a@.len() == n * n,
                b@.len() == n * n,
                c@.len() == n * n,
                n * n <= usize::MAX,
                forall|i: int, j: int|
                    0 <= i < n && 0 <= j < ni ==> c@[#[trigger] (i + n * j)] == product_entry(
                        a@,
                        b@,
                        n as int,
                        i,
                        j,
                    ),
                forall|i: int|
                    0 <= i < mi ==> c@[#[trigger] (i + n * (ni as int))] == product_entry(
                        a@,
                        b@,
                        n as int,
                        i,
                        ni as int,
                    ),
                forall|i: int, j: int|
                    0 <= i < n && ni <= j < n && !(j == ni && i < mi) ==> c@[#[trigger] (i + n
                        * j)] == 0i8,
            decreases n - mi,
        {
            proof {
                lemma_tile_index_bounds(n as int, n as int, n as int, 0, 0, mi as int, ni as int);
                assert forall|t: int| 0 <= t < n implies mi + #[trigger] ((n as int) * t) < n
                    * n by {
                    assert(mi + n * t < n * n) by (nonlinear_arith)
                        requires
                            0 <= mi < n,
                            0 <= t < n,
                    ;
                }
                assert(n * ni + n <= n * n) by (nonlinear_arith)
                    requires
                        0 <= ni < n,
                ;
            }
            let idx: usize = at(mi, ni, n);
            let b_off: usize = at(0, ni, n);
            let mut val: i8 = c[idx];
            dot(n, n, a, mi, b, b_off, &mut val);
            set_entry(&mut c, n, mi, ni, val);
            proof {
                lemma_wrap8_in_range(0);
                assert(c@[mi + n * (ni as int)] == product_entry(
                    a@,
                    b@,
                    n as int,
                    mi as int,
                    ni as int,
                ));
            }
            mi = mi + 1;
        }
        ni = ni + 1;
    }
    c
}

} // verus!

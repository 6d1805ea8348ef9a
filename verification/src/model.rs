//! Mathematical model shared by every multiply variant: wraparound 8-bit
//! arithmetic, strided integer dot products over flat column-major storage,
//! and the specification of the matrix product itself.

use vstd::prelude::*;

verus! {

use vstd::arithmetic::div_mod::lemma_fundamental_div_mod;
use vstd::arithmetic::div_mod::lemma_mod_equivalence;
use vstd::arithmetic::div_mod::lemma_mod_multiples_vanish;
use vstd::arithmetic::div_mod::lemma_small_mod;

/// The signed 8-bit value congruent to `x` modulo 256: the result of
/// accumulating the exact integer `x` in a wrapping 8-bit register.
pub open spec fn wrap8(x: int) -> i8 {
    if x % 256 < 128 {
        (x % 256) as i8
    } else {
        (x % 256 - 256) as i8
    }
}

/// Strided dot product, as an exact (unbounded) integer: the sum over
/// `t` in `[lo, hi)` of `a[sa + da*t] * b[sb + db*t]`.
pub open spec fn dot_range(
    a: Seq<i8>,
    sa: int,
    da: int,
    b: Seq<i8>,
    sb: int,
    db: int,
    lo: int,
    hi: int,
) -> int
    decreases hi - lo,
{
    if hi <= lo {
        0
    } else {
        dot_range(a, sa, da, b, sb, db, lo, hi - 1) + a[sa + da * (hi - 1)] * b[sb + db * (hi - 1)]
    }
}

/// Element (i, j) of the product of the column-major n-by-n matrices `a`
/// and `b` under wraparound 8-bit accumulation: the reference that every
/// multiply variant is proved against.
pub open spec fn product_entry(a: Seq<i8>, b: Seq<i8>, n: int, i: int, j: int) -> i8 {
    wrap8(dot_range(a, i, n, b, n * j, 1, 0, n))
}

/// `c` is the column-major n-by-n product of `a` and `b`, element by element.
pub open spec fn is_product(a: Seq<i8>, b: Seq<i8>, c: Seq<i8>, n: int) -> bool {
    &&& c.len() == n * n
    &&& forall|i: int, j: int|
        0 <= i < n && 0 <= j < n ==> c[i + n * j] == product_entry(a, b, n, i, j)
}

/// Element (i, j) of the output after only the first `kdone` reduction
/// steps have been accumulated: the intermediate state of a k-blocked
/// multiply.  At `kdone == n` this is `product_entry`.
pub open spec fn partial_entry(a: Seq<i8>, b: Seq<i8>, n: int, i: int, j: int, kdone: int) -> i8 {
    wrap8(dot_range(a, i, n, b, n * j, 1, 0, kdone))
}

/// Accumulating the reduction steps `[k1, k2)` onto an entry that already
/// holds the first `k1` steps yields the entry holding the first `k2`.
pub proof fn lemma_partial_extend(a: Seq<i8>, b: Seq<i8>, n: int, i: int, j: int, k1: int, k2: int)
    requires
        0 <= k1 <= k2,
    ensures
        wrap8(
            partial_entry(a, b, n, i, j, k1) as int + dot_range(a, i, n, b, n * j, 1, k1, k2),
        ) == partial_entry(a, b, n, i, j, k2),
{
    lemma_dot_range_split(a, i, n, b, n * j, 1, 0, k1, k2);
    lemma_wrap8_absorb(
        dot_range(a, i, n, b, n * j, 1, 0, k1),
        dot_range(a, i, n, b, n * j, 1, k1, k2),
    );
}

/// A dot product over `[lo, hi)` splits at any `mid` between the bounds.
pub proof fn lemma_dot_range_split(
    a: Seq<i8>,
    sa: int,
    da: int,
    b: Seq<i8>,
    sb: int,
    db: int,
    lo: int,
    mid: int,
    hi: int,
)
    requires
        lo <= mid <= hi,
    ensures
        dot_range(a, sa, da, b, sb, db, lo, hi) == dot_range(a, sa, da, b, sb, db, lo, mid)
            + dot_range(a, sa, da, b, sb, db, mid, hi),
    decreases hi - mid,
{
    if mid < hi {
        lemma_dot_range_split(a, sa, da, b, sb, db, lo, mid, hi - 1);
    }
}

/// Two dot products over the same index range agree when the strided
/// entries they read agree pointwise.
pub proof fn lemma_dot_range_equal(
    a1: Seq<i8>,
    sa1: int,
    da1: int,
    b1: Seq<i8>,
    sb1: int,
    db1: int,
    a2: Seq<i8>,
    sa2: int,
    da2: int,
    b2: Seq<i8>,
    sb2: int,
    db2: int,
    lo: int,
    hi: int,
)
    requires
        forall|t: int| lo <= t < hi ==> a1[sa1 + #[trigger] (da1 * t)] == a2[sa2 + da2 * t],
        forall|t: int| lo <= t < hi ==> b1[sb1 + #[trigger] (db1 * t)] == b2[sb2 + db2 * t],
    ensures
        dot_range(a1, sa1, da1, b1, sb1, db1, lo, hi) == dot_range(
            a2,
            sa2,
            da2,
            b2,
            sb2,
            db2,
            lo,
            hi,
        ),
    decreases hi - lo,
{
    if lo < hi {
        lemma_dot_range_equal(
            a1,
            sa1,
            da1,
            b1,
            sb1,
            db1,
            a2,
            sa2,
            da2,
            b2,
            sb2,
            db2,
            lo,
            hi - 1,
        );
        assert(a1[sa1 + da1 * (hi - 1)] == a2[sa2 + da2 * (hi - 1)]);
        assert(b1[sb1 + db1 * (hi - 1)] == b2[sb2 + db2 * (hi - 1)]);
    }
}

/// Reindexing a dot product: shifting the index range by `d` while moving
/// the start offsets along the strides reads the same entries.
pub proof fn lemma_dot_range_shift(
    a: Seq<i8>,
    sa: int,
    da: int,
    b: Seq<i8>,
    sb: int,
    db: int,
    d: int,
    lo: int,
    hi: int,
)
    ensures
        dot_range(a, sa, da, b, sb, db, lo, hi) == dot_range(
            a,
            sa + da * d,
            da,
            b,
            sb + db * d,
            db,
            lo - d,
            hi - d,
        ),
    decreases hi - lo,
{
    if lo < hi {
        lemma_dot_range_shift(a, sa, da, b, sb, db, d, lo, hi - 1);
        assert(sa + da * d + da * ((hi - d) - 1) == sa + da * (hi - 1)) by (nonlinear_arith);
        assert(sb + db * d + db * ((hi - d) - 1) == sb + db * (hi - 1)) by (nonlinear_arith);
    }
}

/// A dot product vanishes when the left operand reads only zeros.
pub proof fn lemma_dot_range_zero_left(
    a: Seq<i8>,
    sa: int,
    da: int,
    b: Seq<i8>,
    sb: int,
    db: int,
    lo: int,
    hi: int,
)
    requires
        forall|t: int| lo <= t < hi ==> a[sa + #[trigger] (da * t)] == 0i8,
    ensures
        dot_range(a, sa, da, b, sb, db, lo, hi) == 0,
    decreases hi - lo,
{
    if lo < hi {
        lemma_dot_range_zero_left(a, sa, da, b, sb, db, lo, hi - 1);
        assert(a[sa + da * (hi - 1)] == 0i8);
    }
}

/// A dot product vanishes when the right operand reads only zeros.
pub proof fn lemma_dot_range_zero_right(
    a: Seq<i8>,
    sa: int,
    da: int,
    b: Seq<i8>,
    sb: int,
    db: int,
    lo: int,
    hi: int,
)
    requires
        forall|t: int| lo <= t < hi ==> b[sb + #[trigger] (db * t)] == 0i8,
    ensures
        dot_range(a, sa, da, b, sb, db, lo, hi) == 0,
    decreases hi - lo,
{
    if lo < hi {
        lemma_dot_range_zero_right(a, sa, da, b, sb, db, lo, hi - 1);
        assert(b[sb + db * (hi - 1)] == 0i8);
    }
}

/// Congruent integers wrap to the same 8-bit value.
pub proof fn lemma_wrap8_congruent(x: int, y: int)
    requires
        (x - y) % 256 == 0,
    ensures
        wrap8(x) == wrap8(y),
{
    lemma_mod_equivalence(x, y, 256);
}

/// Wrapping is the identity on values already in the signed 8-bit range.
pub proof fn lemma_wrap8_in_range(w: int)
    requires
        -128 <= w <= 127,
    ensures
        wrap8(w) == w as i8,
{
    if w >= 0 {
        lemma_small_mod(w as nat, 256nat);
    } else {
        lemma_mod_multiples_vanish(1, w, 256);
        lemma_small_mod((w + 256) as nat, 256nat);
    }
}

/// An in-range value congruent to `x` modulo 256 is exactly `wrap8(x)`.
pub proof fn lemma_wrap8_step(x: int, w: int)
    requires
        -128 <= w <= 127,
        (x - w) % 256 == 0,
    ensures
        wrap8(x) == w as i8,
{
    lemma_wrap8_congruent(x, w);
    lemma_wrap8_in_range(w);
}

/// `wrap8(x)` is congruent to `x` modulo 256.
pub proof fn lemma_wrap8_congruent_self(x: int)
    ensures
        (wrap8(x) as int - x) % 256 == 0,
{
    lemma_fundamental_div_mod(x, 256);
    if x % 256 < 128 {
        lemma_mod_multiples_vanish(-(x / 256), 0, 256);
    } else {
        lemma_mod_multiples_vanish(-(x / 256) - 1, 0, 256);
    }
}

/// Wrapping an addend before the final wrap does not change the result.
pub proof fn lemma_wrap8_absorb(s: int, d: int)
    ensures
        wrap8(wrap8(s) as int + d) == wrap8(s + d),
{
    lemma_wrap8_congruent_self(s);
    lemma_wrap8_congruent(wrap8(s) as int + d, s + d);
}

/// One wrapping multiply-accumulate step lands on the wrap of the exact sum:
/// the bridge between the executable 8-bit operations and `wrap8`.
pub proof fn lemma_wrap8_mul_acc(acc: i8, x: i8, y: i8)
    ensures
        vstd::wrapping::i8_specs::wrapping_add(
            acc,
            vstd::wrapping::i8_specs::wrapping_mul(x, y),
        ) == wrap8(acc as int + x as int * y as int),
{
    let m: i8 = vstd::wrapping::i8_specs::wrapping_mul(x, y);
    assert(m == wrap8(x as int * y as int));
    let s: i8 = vstd::wrapping::i8_specs::wrapping_add(acc, m);
    if acc + m > 127 {
        lemma_wrap8_step(acc as int + m as int, acc as int + m as int - 256);
    } else if acc + m < -128 {
        lemma_wrap8_step(acc as int + m as int, acc as int + m as int + 256);
    } else {
        lemma_wrap8_in_range(acc as int + m as int);
    }
    assert(s == wrap8(acc as int + m as int));
    lemma_wrap8_congruent_self(x as int * y as int);
    lemma_wrap8_congruent(acc as int + m as int, acc as int + x as int * y as int);
}

/// A plain wrapping add lands on the wrap of the exact sum.
pub proof fn lemma_wrap8_add(acc: i8, d: i8)
    ensures
        vstd::wrapping::i8_specs::wrapping_add(acc, d) == wrap8(acc as int + d as int),
{
    if acc + d > 127 {
        lemma_wrap8_step(acc as int + d as int, acc as int + d as int - 256);
    } else if acc + d < -128 {
        lemma_wrap8_step(acc as int + d as int, acc as int + d as int + 256);
    } else {
        lemma_wrap8_in_range(acc as int + d as int);
    }
}

/// Two distinct multiples of `step` are at least `step` apart.
pub proof fn lemma_aligned_gap(x: int, y: int, step: int)
    requires
        0 < step,
        x % step == 0,
        y % step == 0,
        x < y,
    ensures
        x + step <= y,
{
    lemma_fundamental_div_mod(x, step);
    lemma_fundamental_div_mod(y, step);
    assert(x + step <= y) by (nonlinear_arith)
        requires
            x == step * (x / step),
            y == step * (y / step),
            x < y,
            0 < step,
    ;
}

/// Divisibility is transitive: a multiple of a multiple of `b` is a
/// multiple of `b`.
pub proof fn lemma_mod_trans(x: int, a: int, b: int)
    requires
        0 < a,
        0 < b,
        x % a == 0,
        a % b == 0,
    ensures
        x % b == 0,
{
    lemma_fundamental_div_mod(x, a);
    lemma_fundamental_div_mod(a, b);
    assert(x == b * ((a / b) * (x / a))) by (nonlinear_arith)
        requires
            x == a * (x / a),
            a == b * (a / b),
    ;
    lemma_mod_multiples_vanish((a / b) * (x / a), 0, b);
}

/// A wrapping multiply lands on the wrap of the exact product.
pub proof fn lemma_wrap8_mul(x: i8, y: i8)
    ensures
        vstd::wrapping::i8_specs::wrapping_mul(x, y) == wrap8(x as int * y as int),
{
}

/// A wrapping subtraction lands on the wrap of the exact difference.
pub proof fn lemma_wrap8_sub(x: i8, y: i8)
    ensures
        vstd::wrapping::i8_specs::wrapping_sub(x, y) == wrap8(x as int - y as int),
{
    if x - y > 127 {
        lemma_wrap8_step(x as int - y as int, x as int - y as int - 256);
    } else if x - y < -128 {
        lemma_wrap8_step(x as int - y as int, x as int - y as int + 256);
    } else {
        lemma_wrap8_in_range(x as int - y as int);
    }
}

/// Column-major flat offsets are injective on (row, column) pairs.
pub proof fn lemma_flat_unique(n: int, i1: int, j1: int, i2: int, j2: int)
    requires
        0 <= i1 < n,
        0 <= i2 < n,
        0 <= j1,
        0 <= j2,
        i1 + n * j1 == i2 + n * j2,
    ensures
        i1 == i2,
        j1 == j2,
{
    assert(i1 == i2 && j1 == j2) by (nonlinear_arith)
        requires
            0 <= i1 < n,
            0 <= i2 < n,
            0 <= j1,
            0 <= j2,
            i1 + n * j1 == i2 + n * j2,
    ;
}

/// Every flat offset below `n * n` is `i + n * j` for exactly one
/// in-range row `i` and column `j`.
pub proof fn lemma_flat_decompose(n: int, t: int)
    requires
        0 < n,
        0 <= t < n * n,
    ensures
        t == t % n + n * (t / n),
        0 <= t % n < n,
        0 <= t / n < n,
{
    lemma_fundamental_div_mod(t, n);
    assert(0 <= t % n < n) by (nonlinear_arith)
        requires
            0 < n,
            0 <= t,
    ;
    assert(0 <= t / n < n) by (nonlinear_arith)
        requires
            0 < n,
            0 <= t < n * n,
            t == n * (t / n) + t % n,
            0 <= t % n < n,
    ;
}

/// The product matrix is a function of its operands: any two sequences
/// satisfying `is_product` for the same inputs are equal.
pub proof fn lemma_product_unique(a: Seq<i8>, b: Seq<i8>, c1: Seq<i8>, c2: Seq<i8>, n: int)
    requires
        n >= 0,
        is_product(a, b, c1, n),
        is_product(a, b, c2, n),
    ensures
        c1 == c2,
{
    assert forall|t: int| 0 <= t < c1.len() implies c1[t] == c2[t] by {
        assert(n > 0) by (nonlinear_arith)
            requires
                n >= 0,
                0 <= t,
                t < n * n,
        ;
        lemma_flat_decompose(n, t);
        let i: int = t % n;
        let j: int = t / n;
        assert(c1[i + n * j] == product_entry(a, b, n, i, j));
        assert(c2[i + n * j] == product_entry(a, b, n, i, j));
    }
    assert(c1 =~= c2);
}

/// An all-zero operand, on either side, yields the all-zero product.
pub proof fn lemma_product_zero(a: Seq<i8>, b: Seq<i8>, c: Seq<i8>, n: int)
    requires
        n >= 0,
        a.len() == n * n,
        b.len() == n * n,
        is_product(a, b, c, n),
        (forall|t: int| 0 <= t < a.len() ==> a[t] == 0i8) || (forall|t: int|
            0 <= t < b.len() ==> b[t] == 0i8),
    ensures
        forall|t: int| 0 <= t < c.len() ==> c[t] == 0i8,
{
    assert forall|t: int| 0 <= t < c.len() implies c[t] == 0i8 by {
        assert(n > 0) by (nonlinear_arith)
            requires
                n >= 0,
                0 <= t,
                t < n * n,
        ;
        lemma_flat_decompose(n, t);
        let i: int = t % n;
        let j: int = t / n;
        if forall|u: int| 0 <= u < a.len() ==> a[u] == 0i8 {
            assert forall|u: int| 0 <= u < n implies a[i + #[trigger] ((n as int) * u)] == 0i8 by {
                assert(0 <= i + n * u < n * n) by (nonlinear_arith)
                    requires
                        0 <= i < n,
                        0 <= u < n,
                ;
            }
            lemma_dot_range_zero_left(a, i, n, b, n * j, 1, 0, n);
        } else {
            assert forall|u: int| 0 <= u < n implies b[n * j + #[trigger] (1int * u)] == 0i8 by {
                assert(0 <= n * j + u < n * n) by (nonlinear_arith)
                    requires
                        0 <= u < n,
                        0 <= j < n,
                ;
            }
            lemma_dot_range_zero_right(a, i, n, b, n * j, 1, 0, n);
        }
        lemma_wrap8_in_range(0);
        assert(c[t] == product_entry(a, b, n, i, j));
    }
}

/// A fresh vector of `len` copies of `val`, the scratch storage used for
/// output matrices and packing buffers.
pub fn filled_vec<T: Copy>(len: usize, val: T) -> (v: Vec<T>)
    ensures
        v@.len() == len,
        forall|t: int| 0 <= t < len ==> v@[t] == val,
{
    let mut v: Vec<T> = Vec::new();
    while v.len() < len
        invariant
            v@.len() <= len,
            forall|t: int| 0 <= t < v@.len() ==> v@[t] == val,
        decreases len - v@.len(),
    {
        v.push(val);
    }
    v
}

} // verus!

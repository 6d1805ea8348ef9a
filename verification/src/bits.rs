//! The ternary bit codec model: a ternary element is stored as a value
//! bit (nonzero?) and a sign bit (negative?), eight elements per byte.
//! A dot product of two such byte streams is recovered from two per-byte
//! population counts; this module states and proves that identity.

use vstd::prelude::*;

verus! {

use crate::model::dot_range;
use vstd::arithmetic::div_mod::lemma_fundamental_div_mod_converse_div;
use vstd::arithmetic::div_mod::lemma_fundamental_div_mod_converse_mod;

/// Bit `j` (little-endian) of a byte.
pub open spec fn bit8(x: u8, j: int) -> bool {
    (x >> (j as u8)) & 1u8 == 1u8
}

/// Bit `j` of a byte, as the integer 0 or 1.
pub open spec fn bitv(x: u8, j: int) -> int {
    if bit8(x, j) {
        1
    } else {
        0
    }
}

/// The ternary element stored at bit `j` of a (value, sign) byte pair:
/// zero when the value bit is clear, else plus or minus one by the sign
/// bit.
pub open spec fn tern8(v: u8, s: u8, j: int) -> i8 {
    if bit8(v, j) {
        if bit8(s, j) {
            -1i8
        } else {
            1i8
        }
    } else {
        0i8
    }
}

/// The same element as an unbounded integer.
pub open spec fn tern(v: u8, s: u8, j: int) -> int {
    tern8(v, s, j) as int
}

/// Population count of a byte: the number of set bits.
pub open spec fn pc8(x: u8) -> int {
    bitv(x, 0) + bitv(x, 1) + bitv(x, 2) + bitv(x, 3) + bitv(x, 4) + bitv(x, 5) + bitv(x, 6)
        + bitv(x, 7)
}

/// The dot product of the eight ternary element pairs held in one byte
/// pair of each operand, recovered from two population counts: bits set
/// in both value masks contribute plus one, and those whose sign bits
/// disagree are counted twice negatively.
pub open spec fn byte_dot(av: u8, asn: u8, bv: u8, bsn: u8) -> int {
    pc8(av & bv) - 2 * pc8((av & bv) & (asn ^ bsn))
}

/// How one bit position behaves under the mask algebra of `byte_dot`.
proof fn lemma_bit_masks(av: u8, asn: u8, bv: u8, bsn: u8, j: u8)
    by (bit_vector)
    requires
        j < 8,
    ensures
        bit8(av & bv, j as int) <==> (bit8(av, j as int) && bit8(bv, j as int)),
        bit8((av & bv) & (asn ^ bsn), j as int) <==> (bit8(av, j as int) && bit8(bv, j as int) && (
        bit8(asn, j as int) != bit8(bsn, j as int))),
{
}

/// One bit position of the identity: the masked bits contribute exactly
/// the product of the two ternary elements at that position.
proof fn lemma_tern_product(av: u8, asn: u8, bv: u8, bsn: u8, j: int)
    requires
        0 <= j < 8,
        bit8(av & bv, j) <==> (bit8(av, j) && bit8(bv, j)),
        bit8((av & bv) & (asn ^ bsn), j) <==> (bit8(av, j) && bit8(bv, j) && (bit8(asn, j) != bit8(
            bsn,
            j,
        ))),
    ensures
        bitv(av & bv, j) - 2 * bitv((av & bv) & (asn ^ bsn), j) == tern(av, asn, j) * tern(
            bv,
            bsn,
            j,
        ),
{
    if bit8(av, j) && bit8(bv, j) {
        if bit8(asn, j) != bit8(bsn, j) {
            assert(tern(av, asn, j) * tern(bv, bsn, j) == -1) by (nonlinear_arith)
                requires
                    tern(av, asn, j) * tern(bv, bsn, j) == tern(av, asn, j) * tern(bv, bsn, j),
                    tern(av, asn, j) == -1 || tern(bv, bsn, j) == -1,
                    tern(av, asn, j) == 1 || tern(bv, bsn, j) == 1,
                    tern(av, asn, j) != tern(bv, bsn, j) || tern(av, asn, j) * tern(bv, bsn, j)
                        == 1,
            ;
        } else {
            assert(tern(av, asn, j) == tern(bv, bsn, j));
            assert(tern(av, asn, j) * tern(bv, bsn, j) == 1) by (nonlinear_arith)
                requires
                    tern(av, asn, j) == tern(bv, bsn, j),
                    tern(av, asn, j) == 1 || tern(av, asn, j) == -1,
            ;
        }
    } else {
        assert(tern(av, asn, j) == 0 || tern(bv, bsn, j) == 0);
        assert(tern(av, asn, j) * tern(bv, bsn, j) == 0) by (nonlinear_arith)
            requires
                tern(av, asn, j) == 0 || tern(bv, bsn, j) == 0,
        ;
    }
}

/// The popcount identity for a single byte pair: `byte_dot` equals the
/// exact sum of the eight ternary products it encodes.
pub proof fn lemma_byte_dot(av: u8, asn: u8, bv: u8, bsn: u8)
    ensures
        byte_dot(av, asn, bv, bsn) == tern(av, asn, 0) * tern(bv, bsn, 0) + tern(av, asn, 1)
            * tern(bv, bsn, 1) + tern(av, asn, 2) * tern(bv, bsn, 2) + tern(av, asn, 3) * tern(
            bv,
            bsn,
            3,
        ) + tern(av, asn, 4) * tern(bv, bsn, 4) + tern(av, asn, 5) * tern(bv, bsn, 5) + tern(
            av,
            asn,
            6,
        ) * tern(bv, bsn, 6) + tern(av, asn, 7) * tern(bv, bsn, 7),
{
    lemma_bit_masks(av, asn, bv, bsn, 0);
    lemma_bit_masks(av, asn, bv, bsn, 1);
    lemma_bit_masks(av, asn, bv, bsn, 2);
    lemma_bit_masks(av, asn, bv, bsn, 3);
    lemma_bit_masks(av, asn, bv, bsn, 4);
    lemma_bit_masks(av, asn, bv, bsn, 5);
    lemma_bit_masks(av, asn, bv, bsn, 6);
    lemma_bit_masks(av, asn, bv, bsn, 7);
    lemma_tern_product(av, asn, bv, bsn, 0);
    lemma_tern_product(av, asn, bv, bsn, 1);
    lemma_tern_product(av, asn, bv, bsn, 2);
    lemma_tern_product(av, asn, bv, bsn, 3);
    lemma_tern_product(av, asn, bv, bsn, 4);
    lemma_tern_product(av, asn, bv, bsn, 5);
    lemma_tern_product(av, asn, bv, bsn, 6);
    lemma_tern_product(av, asn, bv, bsn, 7);
}

/// Strided dot product over bit-packed operands, as an exact integer:
/// the sum over `t` in `[lo, hi)` of the `byte_dot` of byte pair
/// `av/asn[sa + da*t]` against byte pair `bv/bsn[sb + db*t]`.
pub open spec fn bit_dot_range(
    av: Seq<u8>,
    asn: Seq<u8>,
    sa: int,
    da: int,
    bv: Seq<u8>,
    bsn: Seq<u8>,
    sb: int,
    db: int,
    lo: int,
    hi: int,
) -> int
    decreases hi - lo,
{
    if hi <= lo {
        0
    } else {
        bit_dot_range(av, asn, sa, da, bv, bsn, sb, db, lo, hi - 1) + byte_dot(
            av[sa + da * (hi - 1)],
            asn[sa + da * (hi - 1)],
            bv[sb + db * (hi - 1)],
            bsn[sb + db * (hi - 1)],
        )
    }
}

/// Two bit-packed dot products agree when the byte pairs they read agree
/// pointwise.
pub proof fn lemma_bit_dot_range_equal(
    av1: Seq<u8>,
    asn1: Seq<u8>,
    sa1: int,
    da1: int,
    bv1: Seq<u8>,
    bsn1: Seq<u8>,
    sb1: int,
    db1: int,
    av2: Seq<u8>,
    asn2: Seq<u8>,
    sa2: int,
    da2: int,
    bv2: Seq<u8>,
    bsn2: Seq<u8>,
    sb2: int,
    db2: int,
    lo: int,
    hi: int,
)
    requires
        forall|t: int|
            lo <= t < hi ==> av1[sa1 + #[trigger] (da1 * t)] == av2[sa2 + da2 * t] && asn1[sa1
                + da1 * t] == asn2[sa2 + da2 * t],
        forall|t: int|
            lo <= t < hi ==> bv1[sb1 + #[trigger] (db1 * t)] == bv2[sb2 + db2 * t] && bsn1[sb1
                + db1 * t] == bsn2[sb2 + db2 * t],
    ensures
        bit_dot_range(av1, asn1, sa1, da1, bv1, bsn1, sb1, db1, lo, hi) == bit_dot_range(
            av2,
            asn2,
            sa2,
            da2,
            bv2,
            bsn2,
            sb2,
            db2,
            lo,
            hi,
        ),
    decreases hi - lo,
{
    if lo < hi {
        lemma_bit_dot_range_equal(
            av1,
            asn1,
            sa1,
            da1,
            bv1,
            bsn1,
            sb1,
            db1,
            av2,
            asn2,
            sa2,
            da2,
            bv2,
            bsn2,
            sb2,
            db2,
            lo,
            hi - 1,
        );
        assert(av1[sa1 + da1 * (hi - 1)] == av2[sa2 + da2 * (hi - 1)]);
        assert(bv1[sb1 + db1 * (hi - 1)] == bv2[sb2 + db2 * (hi - 1)]);
    }
}

/// Reindexing a bit-packed dot product, as for `dot_range`.
pub proof fn lemma_bit_dot_range_shift(
    av: Seq<u8>,
    asn: Seq<u8>,
    sa: int,
    da: int,
    bv: Seq<u8>,
    bsn: Seq<u8>,
    sb: int,
    db: int,
    d: int,
    lo: int,
    hi: int,
)
    ensures
        bit_dot_range(av, asn, sa, da, bv, bsn, sb, db, lo, hi) == bit_dot_range(
            av,
            asn,
            sa + da * d,
            da,
            bv,
            bsn,
            sb + db * d,
            db,
            lo - d,
            hi - d,
        ),
    decreases hi - lo,
{
    if lo < hi {
        lemma_bit_dot_range_shift(av, asn, sa, da, bv, bsn, sb, db, d, lo, hi - 1);
        assert(sa + da * d + da * ((hi - d) - 1) == sa + da * (hi - 1)) by (nonlinear_arith);
        assert(sb + db * d + db * ((hi - d) - 1) == sb + db * (hi - 1)) by (nonlinear_arith);
    }
}

/// A bit-packed dot product equals the plain dot product of the ternary
/// element streams its bytes decode to: each byte step covers eight
/// element steps.
pub proof fn lemma_bit_dot_decodes(
    av: Seq<u8>,
    asn: Seq<u8>,
    sa: int,
    da: int,
    bv: Seq<u8>,
    bsn: Seq<u8>,
    sb: int,
    db: int,
    lo: int,
    hi: int,
    ea: Seq<i8>,
    ea_s: int,
    ea_d: int,
    eb: Seq<i8>,
    eb_s: int,
    eb_d: int,
)
    requires
        forall|t: int, u: int|
            lo <= t < hi && 0 <= u < 8 ==> #[trigger] tern(
                av[sa + da * t],
                asn[sa + da * t],
                u,
            ) == ea[ea_s + ea_d * (8 * t + u)] as int,
        forall|t: int, u: int|
            lo <= t < hi && 0 <= u < 8 ==> #[trigger] tern(
                bv[sb + db * t],
                bsn[sb + db * t],
                u,
            ) == eb[eb_s + eb_d * (8 * t + u)] as int,
    ensures
        bit_dot_range(av, asn, sa, da, bv, bsn, sb, db, lo, hi) == dot_range(
            ea,
            ea_s,
            ea_d,
            eb,
            eb_s,
            eb_d,
            8 * lo,
            8 * hi,
        ),
    decreases hi - lo,
{
    if hi <= lo {
        assert(8 * hi <= 8 * lo);
    } else {
        lemma_bit_dot_decodes(
            av,
            asn,
            sa,
            da,
            bv,
            bsn,
            sb,
            db,
            lo,
            hi - 1,
            ea,
            ea_s,
            ea_d,
            eb,
            eb_s,
            eb_d,
        );
        let t: int = hi - 1;
        lemma_byte_dot(av[sa + da * t], asn[sa + da * t], bv[sb + db * t], bsn[sb + db * t]);
        assert(8 * (hi - 1) == 8 * hi - 8);
        assert forall|x: int| 8 * hi - 8 < x <= 8 * hi implies #[trigger] dot_range(
            ea,
            ea_s,
            ea_d,
            eb,
            eb_s,
            eb_d,
            8 * lo,
            x,
        ) == dot_range(ea, ea_s, ea_d, eb, eb_s, eb_d, 8 * lo, x - 1) + ea[ea_s + ea_d * (x - 1)]
            * eb[eb_s + eb_d * (x - 1)] by {
            assert(8 * lo <= 8 * hi - 8);
        }
        assert(tern(av[sa + da * t], asn[sa + da * t], 0) == ea[ea_s + ea_d * (8 * t + 0)] as int);
        assert(tern(av[sa + da * t], asn[sa + da * t], 1) == ea[ea_s + ea_d * (8 * t + 1)] as int);
        assert(tern(av[sa + da * t], asn[sa + da * t], 2) == ea[ea_s + ea_d * (8 * t + 2)] as int);
        assert(tern(av[sa + da * t], asn[sa + da * t], 3) == ea[ea_s + ea_d * (8 * t + 3)] as int);
        assert(tern(av[sa + da * t], asn[sa + da * t], 4) == ea[ea_s + ea_d * (8 * t + 4)] as int);
        assert(tern(av[sa + da * t], asn[sa + da * t], 5) == ea[ea_s + ea_d * (8 * t + 5)] as int);
        assert(tern(av[sa + da * t], asn[sa + da * t], 6) == ea[ea_s + ea_d * (8 * t + 6)] as int);
        assert(tern(av[sa + da * t], asn[sa + da * t], 7) == ea[ea_s + ea_d * (8 * t + 7)] as int);
        assert(tern(bv[sb + db * t], bsn[sb + db * t], 0) == eb[eb_s + eb_d * (8 * t + 0)] as int);
        assert(tern(bv[sb + db * t], bsn[sb + db * t], 1) == eb[eb_s + eb_d * (8 * t + 1)] as int);
        assert(tern(bv[sb + db * t], bsn[sb + db * t], 2) == eb[eb_s + eb_d * (8 * t + 2)] as int);
        assert(tern(bv[sb + db * t], bsn[sb + db * t], 3) == eb[eb_s + eb_d * (8 * t + 3)] as int);
        assert(tern(bv[sb + db * t], bsn[sb + db * t], 4) == eb[eb_s + eb_d * (8 * t + 4)] as int);
        assert(tern(bv[sb + db * t], bsn[sb + db * t], 5) == eb[eb_s + eb_d * (8 * t + 5)] as int);
        assert(tern(bv[sb + db * t], bsn[sb + db * t], 6) == eb[eb_s + eb_d * (8 * t + 6)] as int);
        assert(tern(bv[sb + db * t], bsn[sb + db * t], 7) == eb[eb_s + eb_d * (8 * t + 7)] as int);
    }
}

/// The matrix whose bit-packed form is (`av`, `asn`) when, as for the A
/// operand, bytes group eight consecutive elements of one row: element
/// (i, kk) sits at bit `kk % 8` of byte (i, kk / 8), and the byte matrix
/// is column-major with stride `n`.
pub open spec fn decode_a(av: Seq<u8>, asn: Seq<u8>, n: int) -> Seq<i8> {
    Seq::new(
        (n * n) as nat,
        |p: int|
            tern8(
                av[p % n + n * ((p / n) / 8)],
                asn[p % n + n * ((p / n) / 8)],
                (p / n) % 8,
            ),
    )
}

/// The matrix whose bit-packed form is (`bv`, `bsn`) when, as for the B
/// operand, bytes group eight consecutive elements of one column: element
/// (kk, j) sits at bit `kk % 8` of byte (kk / 8, j), and the byte matrix
/// is column-major with stride `n / 8`.
pub open spec fn decode_b(bv: Seq<u8>, bsn: Seq<u8>, n: int) -> Seq<i8> {
    Seq::new(
        (n * n) as nat,
        |p: int|
            tern8(
                bv[(p % n) / 8 + (n / 8) * (p / n)],
                bsn[(p % n) / 8 + (n / 8) * (p / n)],
                (p % n) % 8,
            ),
    )
}

/// Reading one element of `decode_a` through its byte coordinates.
pub proof fn lemma_decode_a_tern(av: Seq<u8>, asn: Seq<u8>, n: int, i: int, kb: int, u: int)
    requires
        0 < n,
        0 <= i < n,
        0 <= kb,
        0 <= u < 8,
        8 * kb + u < n,
    ensures
        decode_a(av, asn, n)[i + n * (8 * kb + u)] == tern8(av[i + n * kb], asn[i + n * kb], u),
{
    let kk: int = 8 * kb + u;
    let p: int = i + n * kk;
    assert(0 <= i + n * kk < n * n) by (nonlinear_arith)
        requires
            0 <= i < n,
            0 <= kk < n,
    ;
    lemma_fundamental_div_mod_converse_mod(p, n, kk, i);
    lemma_fundamental_div_mod_converse_div(p, n, kk, i);
    lemma_fundamental_div_mod_converse_mod(kk, 8, kb, u);
    lemma_fundamental_div_mod_converse_div(kk, 8, kb, u);
}

/// Reading one element of `decode_b` through its byte coordinates.
pub proof fn lemma_decode_b_tern(bv: Seq<u8>, bsn: Seq<u8>, n: int, kb: int, u: int, j: int)
    requires
        0 < n,
        0 <= j < n,
        0 <= kb,
        0 <= u < 8,
        8 * kb + u < n,
    ensures
        decode_b(bv, bsn, n)[(8 * kb + u) + n * j] == tern8(
            bv[kb + (n / 8) * j],
            bsn[kb + (n / 8) * j],
            u,
        ),
{
    let kk: int = 8 * kb + u;
    let p: int = kk + n * j;
    assert(0 <= kk + n * j < n * n) by (nonlinear_arith)
        requires
            0 <= j < n,
            0 <= kk < n,
    ;
    lemma_fundamental_div_mod_converse_mod(p, n, j, kk);
    lemma_fundamental_div_mod_converse_div(p, n, j, kk);
    lemma_fundamental_div_mod_converse_mod(kk, 8, kb, u);
    lemma_fundamental_div_mod_converse_div(kk, 8, kb, u);
}

/// Compressing two ternary streams and taking the popcount-based packed
/// dot product gives exactly the integer dot product of the original
/// streams: the law behind the bit-packed multiply path.  The byte pairs
/// are consumed contiguously, eight elements per byte.
pub proof fn lemma_packed_dot_matches_raw(
    av: Seq<u8>,
    asn: Seq<u8>,
    bv: Seq<u8>,
    bsn: Seq<u8>,
    ea: Seq<i8>,
    eb: Seq<i8>,
    k: int,
)
    requires
        forall|t: int, u: int|
            0 <= t < k && 0 <= u < 8 ==> #[trigger] tern(av[t], asn[t], u) == ea[8 * t + u] as int,
        forall|t: int, u: int|
            0 <= t < k && 0 <= u < 8 ==> #[trigger] tern(bv[t], bsn[t], u) == eb[8 * t + u] as int,
    ensures
        bit_dot_range(av, asn, 0, 1, bv, bsn, 0, 1, 0, k) == dot_range(ea, 0, 1, eb, 0, 1, 0, 8
            * k),
{
    assert forall|t: int, u: int| 0 <= t < k && 0 <= u < 8 implies #[trigger] tern(
        av[0 + 1 * t],
        asn[0 + 1 * t],
        u,
    ) == ea[0 + 1 * (8 * t + u)] as int by {
        assert(tern(av[t], asn[t], u) == ea[8 * t + u] as int);
    }
    assert forall|t: int, u: int| 0 <= t < k && 0 <= u < 8 implies #[trigger] tern(
        bv[0 + 1 * t],
        bsn[0 + 1 * t],
        u,
    ) == eb[0 + 1 * (8 * t + u)] as int by {
        assert(tern(bv[t], bsn[t], u) == eb[8 * t + u] as int);
    }
    lemma_bit_dot_decodes(av, asn, 0, 1, bv, bsn, 0, 1, 0, k, ea, 0, 1, eb, 0, 1);
}

} // verus!

use rand::rngs::StdRng;
use rand::Rng;
use rand::SeedableRng;

use ternary_gemm::muls::mm1::matmul1;
use ternary_gemm::muls::mm2::matmul2;
use ternary_gemm::muls::mm3::matmul3;
use ternary_gemm::muls::mm4::matmul4;
use ternary_gemm::muls::mm6::matmul6;
use ternary_gemm::muls::mm9::matmul9;
use ternary_gemm::muls::mm9::prep9;

const SIZE: usize = 32;

fn rand_ternary_vec(rng: &mut impl Rng, length: usize) -> Vec<i8> {
    let mut vec = vec![0; length];
    for i in 0..vec.len() {
        vec[i] = rng.gen_range(-1..2);
    }
    vec
}

fn rand_vecs() -> (Vec<i8>, Vec<i8>) {
    let mut rng = StdRng::seed_from_u64(1337);
    let a = rand_ternary_vec(&mut rng, SIZE * SIZE);
    let b = rand_ternary_vec(&mut rng, SIZE * SIZE);
    (a, b)
}

// The naive column-major product with wraparound 8-bit accumulation.
fn reference_product(a: &[i8], b: &[i8], n: usize) -> Vec<i8> {
    let mut c = vec![0i8; n * n];
    for j in 0..n {
        for i in 0..n {
            let mut acc: i8 = 0;
            for k in 0..n {
                acc = acc.wrapping_add(a[i + n * k].wrapping_mul(b[k + n * j]));
            }
            c[i + n * j] = acc;
        }
    }
    c
}

#[test]
fn mm1_test() {
    let (a, b) = rand_vecs();
    assert_eq!(matmul1(&a, &b, SIZE), reference_product(&a, &b, SIZE));
}

#[test]
fn mm2_test() {
    let (a, b) = rand_vecs();
    assert_eq!(matmul2(&a, &b, SIZE), reference_product(&a, &b, SIZE));
}

#[test]
fn mm3_test() {
    let (a, b) = rand_vecs();
    assert_eq!(matmul3(&a, &b, SIZE), reference_product(&a, &b, SIZE));
}

#[test]
fn mm4_test() {
    let (a, b) = rand_vecs();
    assert_eq!(matmul4(&a, &b, SIZE), reference_product(&a, &b, SIZE));
}

#[test]
fn mm6_test() {
    let (a, b) = rand_vecs();
    assert_eq!(matmul6(&a, &b, SIZE), reference_product(&a, &b, SIZE));
}

#[test]
fn mm9_test() {
    let (a, b) = rand_vecs();
    let packed = prep9(&a, &b, SIZE);
    let res = matmul9(&packed.0, &packed.1, &packed.2, &packed.3, SIZE);
    assert_eq!(res, reference_product(&a, &b, SIZE));
}

// Every multiply variant returns the same matrix on the same inputs.
#[test]
fn variants_agree() {
    let (a, b) = rand_vecs();
    let c1 = matmul1(&a, &b, SIZE);
    assert_eq!(c1, matmul2(&a, &b, SIZE));
    assert_eq!(c1, matmul3(&a, &b, SIZE));
    assert_eq!(c1, matmul4(&a, &b, SIZE));
    assert_eq!(c1, matmul6(&a, &b, SIZE));
    let packed = prep9(&a, &b, SIZE);
    assert_eq!(c1, matmul9(&packed.0, &packed.1, &packed.2, &packed.3, SIZE));
}

// Repeated invocations on identical inputs yield bit-identical outputs.
#[test]
fn multiply_is_deterministic() {
    let (a, b) = rand_vecs();
    assert_eq!(matmul3(&a, &b, SIZE), matmul3(&a, &b, SIZE));
    let p1 = prep9(&a, &b, SIZE);
    let p2 = prep9(&a, &b, SIZE);
    assert_eq!(p1, p2);
    assert_eq!(
        matmul9(&p1.0, &p1.1, &p1.2, &p1.3, SIZE),
        matmul9(&p2.0, &p2.1, &p2.2, &p2.3, SIZE)
    );
}

// An all-zero operand on either side gives the all-zero product.
#[test]
fn zero_operand_gives_zero_product() {
    let (a, b) = rand_vecs();
    let z = vec![0i8; SIZE * SIZE];
    let zero = vec![0i8; SIZE * SIZE];
    assert_eq!(matmul1(&z, &b, SIZE), zero);
    assert_eq!(matmul1(&a, &z, SIZE), zero);
    assert_eq!(matmul4(&z, &b, SIZE), zero);
    assert_eq!(matmul4(&a, &z, SIZE), zero);
    let packed = prep9(&z, &b, SIZE);
    assert_eq!(matmul9(&packed.0, &packed.1, &packed.2, &packed.3, SIZE), zero);
}

// All plus-one against all minus-one: every entry is the wraparound of -n.
#[test]
fn saturated_ternary_operands() {
    let ones = vec![1i8; SIZE * SIZE];
    let neg = vec![-1i8; SIZE * SIZE];
    let expected = vec![(-(SIZE as i32)) as i8; SIZE * SIZE];
    assert_eq!(matmul2(&ones, &neg, SIZE), expected);
    let packed = prep9(&ones, &neg, SIZE);
    assert_eq!(
        matmul9(&packed.0, &packed.1, &packed.2, &packed.3, SIZE),
        expected
    );
}

// The smallest sizes each variant accepts.
#[test]
fn minimal_sizes() {
    let a1 = vec![-1i8];
    let b1 = vec![-1i8];
    assert_eq!(matmul1(&a1, &b1, 1), vec![1i8]);

    let mut rng = StdRng::seed_from_u64(7);
    let a8 = rand_ternary_vec(&mut rng, 64);
    let b8 = rand_ternary_vec(&mut rng, 64);
    assert_eq!(matmul2(&a8, &b8, 8), reference_product(&a8, &b8, 8));
    assert_eq!(matmul3(&a8, &b8, 8), reference_product(&a8, &b8, 8));

    let a16 = rand_ternary_vec(&mut rng, 256);
    let b16 = rand_ternary_vec(&mut rng, 256);
    assert_eq!(matmul4(&a16, &b16, 16), reference_product(&a16, &b16, 16));
    assert_eq!(matmul6(&a16, &b16, 16), reference_product(&a16, &b16, 16));
    let packed = prep9(&a16, &b16, 16);
    assert_eq!(
        matmul9(&packed.0, &packed.1, &packed.2, &packed.3, 16),
        reference_product(&a16, &b16, 16)
    );
}

// A size larger than the cache tile constants, so the loop nest takes
// more than one tile in every dimension at least for the micro-kernels.
#[test]
fn larger_matrix_agrees() {
    let n = 48usize;
    let mut rng = StdRng::seed_from_u64(99);
    let a = rand_ternary_vec(&mut rng, n * n);
    let b = rand_ternary_vec(&mut rng, n * n);
    let expected = reference_product(&a, &b, n);
    assert_eq!(matmul1(&a, &b, n), expected);
    assert_eq!(matmul2(&a, &b, n), expected);
    assert_eq!(matmul3(&a, &b, n), expected);
    assert_eq!(matmul4(&a, &b, n), expected);
    assert_eq!(matmul6(&a, &b, n), expected);
    let packed = prep9(&a, &b, n);
    assert_eq!(matmul9(&packed.0, &packed.1, &packed.2, &packed.3, n), expected);
}

use ternary_gemm::dots::dot_masks;
use ternary_gemm::dots::dot_naive;
use ternary_gemm::dots::dot_shifted_mask_multiplication;

fn repeat2(xs: [i8; 8]) -> Vec<i8> {
    let mut v = Vec::new();
    for _ in 0..2 {
        for x in xs.iter() {
            v.push(*x);
        }
    }
    v
}

#[test]
fn test_dot_naive() {
    let a = repeat2([100, -50, 50, 75, -74, 25, 25, 0]);
    let b = repeat2([-1, -1, -1, -1, 1, 0, -1, 1]);

    let res = dot_naive(&a, &b);

    assert_eq!(res, repeat2([-100, 50, -50, -75, -74, 0, -25, 0]));
}

#[test]
fn test_dot_masks() {
    let a = repeat2([100, -50, 50, 75, -74, 25, 25, 0]);
    let b_vals = 0b1111101111111011;
    let b_signs = 0b1111001011110010;

    let res = dot_masks(&a, b_vals, b_signs);

    assert_eq!(res, repeat2([-100, 50, -50, -75, -74, 0, -25, 0]));
}

#[test]
fn test_dot_shifted_mask_multiplication() {
    let a = repeat2([100, -50, 50, 75, -74, 25, 25, 0]);
    let b_vals = 0b1111101111111011;
    let b_signs = 0b1111001011110010;

    let res = dot_shifted_mask_multiplication(&a, b_vals, b_signs);

    assert_eq!(res, repeat2([-100, 50, -50, -75, -74, 0, -25, 0]));
}

// The three dot strategies agree lane by lane on every ternary multiplier
// pattern a 16-bit mask pair can encode for this vector.
#[test]
fn dot_strategies_agree() {
    let a = repeat2([100, -50, 50, 75, -74, 25, 25, 0]);
    let cases: [(u16, u16); 4] = [
        (0b1111101111111011, 0b1111001011110010),
        (0xffff, 0x0000),
        (0xffff, 0xffff),
        (0x0000, 0x0000),
    ];
    for (vals, signs) in cases.iter() {
        let decoded: Vec<i8> = (0..16)
            .map(|lane| {
                let sh = 15 - lane;
                if (vals >> sh) & 1 == 1 {
                    if (signs >> sh) & 1 == 1 {
                        -1
                    } else {
                        1
                    }
                } else {
                    0
                }
            })
            .collect();
        let naive = dot_naive(&a, &decoded);
        let shifted = dot_shifted_mask_multiplication(&a, *vals, *signs);
        let masked = dot_masks(&a, *vals, *signs);
        assert_eq!(naive, shifted);
        assert_eq!(naive, masked);
    }
}

// Wraparound multiplication in a lane, rather than saturation.
#[test]
fn dot_naive_wraps() {
    let mut a = vec![0i8; 16];
    let mut b = vec![0i8; 16];
    a[0] = -128;
    b[0] = -1;
    let res = dot_naive(&a, &b);
    assert_eq!(res[0], -128i8);
}

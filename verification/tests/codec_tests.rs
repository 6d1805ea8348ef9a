use ternary_gemm::muls::mm9::col_major_to_row_major;
use ternary_gemm::muls::mm9::compress;
use ternary_gemm::muls::mm9::row_major_to_col_major;

// One byte pair: value bit set for each nonzero element, sign bit for
// each negative one, least significant bit first.
#[test]
fn compress_one_byte() {
    let input: Vec<i8> = vec![1, -1, 0, 1, 0, 0, -1, 1];
    let (vals, signs) = compress(&input);
    assert_eq!(vals, vec![0b11001011u8]);
    assert_eq!(signs, vec![0b01000010u8]);
}

#[test]
fn compress_all_zero_and_all_ones() {
    let zeros: Vec<i8> = vec![0; 16];
    let (vals, signs) = compress(&zeros);
    assert_eq!(vals, vec![0u8, 0u8]);
    assert_eq!(signs, vec![0u8, 0u8]);

    let ones: Vec<i8> = vec![1; 8];
    let (vals, signs) = compress(&ones);
    assert_eq!(vals, vec![0xffu8]);
    assert_eq!(signs, vec![0u8]);

    let negs: Vec<i8> = vec![-1; 8];
    let (vals, signs) = compress(&negs);
    assert_eq!(vals, vec![0xffu8]);
    assert_eq!(signs, vec![0xffu8]);
}

#[test]
fn compress_empty() {
    let empty: Vec<i8> = Vec::new();
    let (vals, signs) = compress(&empty);
    assert!(vals.is_empty());
    assert!(signs.is_empty());
}

// The layout transforms invert each other and place each element where
// the other convention expects it.
#[test]
fn layout_round_trip() {
    // 2 rows x 3 cols, column-major: [a00 a10 | a01 a11 | a02 a12]
    let col_major: Vec<i8> = vec![1, 2, 3, 4, 5, 6];
    let row_major = col_major_to_row_major(2, 3, &col_major);
    // row-major: [a00 a01 a02 a10 a11 a12]
    assert_eq!(row_major, vec![1, 3, 5, 2, 4, 6]);
    let back = row_major_to_col_major(2, 3, &row_major);
    assert_eq!(back, col_major);
}

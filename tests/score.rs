use retrieval_rs::scan::{is_image_extension, is_listed_lowercase};
use retrieval_rs::score::{meets_threshold, score_rank};
use retrieval_rs::similarity::{check_dimensions, SimilarityError};

#[test]
fn rank_follows_float_order() {
    let values = [f32::NEG_INFINITY, -2.0, -0.5, 0.0, 1e-30, 0.5, 1.0, f32::INFINITY];
    for w in values.windows(2) {
        assert!(score_rank(w[0].to_bits()) < score_rank(w[1].to_bits()));
    }
    assert_eq!(score_rank((-0.0f32).to_bits()), score_rank(0.0f32.to_bits()));
    assert_eq!(score_rank(1.0f32.to_bits()), 0x3f80_0000);
    assert!(score_rank(f32::NAN.to_bits()) < score_rank(f32::NEG_INFINITY.to_bits()));
    assert!(score_rank((-f32::NAN).to_bits()) < score_rank(f32::NEG_INFINITY.to_bits()));
}

#[test]
fn threshold_comparison() {
    assert!(meets_threshold(0.2f32.to_bits(), 0.2f32.to_bits()));
    assert!(meets_threshold(0.9f32.to_bits(), 0.2f32.to_bits()));
    assert!(!meets_threshold(0.1f32.to_bits(), 0.2f32.to_bits()));
    assert!(meets_threshold((-0.0f32).to_bits(), 0.0f32.to_bits()));
    assert!(!meets_threshold(f32::NAN.to_bits(), (-1.0f32).to_bits()));
    assert!(!meets_threshold(0.5f32.to_bits(), f32::NAN.to_bits()));
}

#[test]
fn dimension_mismatch_is_reported() {
    let q = vec![1u32, 2, 3];
    assert_eq!(check_dimensions(&vec![vec![0, 0, 0], vec![1, 1, 1]], &q), Ok(()));
    assert_eq!(
        check_dimensions(&vec![vec![0, 0, 0], vec![1, 1]], &q),
        Err(SimilarityError::DimensionMismatch { index: 1, expected: 3, found: 2 })
    );
    assert_eq!(check_dimensions(&Vec::new(), &q), Ok(()));
}

#[test]
fn image_extensions_ignore_case() {
    assert!(is_image_extension("jpg"));
    assert!(is_image_extension("JPEG"));
    assert!(is_image_extension("Png"));
    assert!(is_image_extension("GIF"));
    assert!(is_image_extension("bmp"));
    assert!(!is_image_extension("txt"));
    assert!(!is_image_extension("jpgx"));
    assert!(!is_image_extension(""));
    assert!(is_listed_lowercase("jpeg"));
    assert!(!is_listed_lowercase("JPEG"));
}

use docsearch::error::Error;
use docsearch::metric::{cosine, distance, dot, integer_sqrt, Metric, COSINE_SCALE};

#[test]
fn dot_of_small_vectors() {
    assert_eq!(dot(&[1, 2, 3], &[4, 5, 6]), Ok(32));
    assert_eq!(dot(&[], &[]), Ok(0));
    assert_eq!(dot(&[-3, 7], &[5, -2]), Ok(-29));
}

#[test]
fn dot_of_extreme_components() {
    assert_eq!(dot(&[i16::MIN, i16::MIN], &[i16::MIN, i16::MAX]), Ok(1_073_741_824 - 1_073_709_056));
    assert_eq!(dot(&[i16::MIN], &[i16::MIN]), Ok(1_073_741_824));
}

#[test]
fn dot_rejects_unequal_lengths() {
    assert_eq!(dot(&[1, 2], &[1, 2, 3]), Err(Error::DimensionMismatch));
    assert_eq!(dot(&[1, 2, 3], &[1, 2]), Err(Error::DimensionMismatch));
}

#[test]
fn euclidean_distance_is_squared() {
    assert_eq!(distance(Metric::Euclidean, &[1, 2, 3], &[4, 5, 6]), Ok(27));
    assert_eq!(distance(Metric::Euclidean, &[0, 0], &[3, 4]), Ok(25));
    assert_eq!(distance(Metric::Euclidean, &[i16::MIN], &[i16::MAX]), Ok(65535 * 65535));
    assert_eq!(distance(Metric::Euclidean, &[7, -7], &[7, -7]), Ok(0));
}

#[test]
fn dot_product_distance_is_negated_similarity() {
    assert_eq!(distance(Metric::DotProduct, &[1, 2, 3], &[4, 5, 6]), Ok(-32));
    assert_eq!(distance(Metric::DotProduct, &[1, 0], &[-5, 9]), Ok(5));
}

#[test]
fn cosine_distance_in_millionths() {
    assert_eq!(cosine(&[3, 4], &[4, 3]), 960_000);
    assert_eq!(distance(Metric::Cosine, &[3, 4], &[4, 3]), Ok(40_000));
    assert_eq!(distance(Metric::Cosine, &[1000, 0], &[1000, 0]), Ok(0));
    assert_eq!(distance(Metric::Cosine, &[1000, 0], &[0, 1000]), Ok(COSINE_SCALE));
    assert_eq!(distance(Metric::Cosine, &[1000, 0], &[-1000, 0]), Ok(2 * COSINE_SCALE));
    assert_eq!(distance(Metric::Cosine, &[300, 400], &[-4, -3]), Ok(COSINE_SCALE + 960_000));
}

#[test]
fn cosine_of_zero_vector_is_zero() {
    assert_eq!(cosine(&[0, 0, 0], &[5, 6, 7]), 0);
    assert_eq!(distance(Metric::Cosine, &[0, 0, 0], &[5, 6, 7]), Ok(COSINE_SCALE));
    assert_eq!(distance(Metric::Cosine, &[0, 0, 0], &[0, 0, 0]), Ok(COSINE_SCALE));
}

#[test]
fn cosine_rounds_norms_down() {
    // The norms of (1, 1) round down to 1, so that the similarity is 2.
    assert_eq!(cosine(&[1, 1], &[1, 1]), 2_000_000);
    assert_eq!(distance(Metric::Cosine, &[1, 1], &[1, 1]), Ok(-1_000_000));
}

#[test]
fn distance_rejects_unequal_lengths() {
    for metric in [Metric::Euclidean, Metric::DotProduct, Metric::Cosine] {
        assert_eq!(distance(metric, &[1], &[1, 2]), Err(Error::DimensionMismatch));
        assert_eq!(distance(metric, &[], &[0]), Err(Error::DimensionMismatch));
    }
}

#[test]
fn distances_are_symmetric() {
    let vectors: Vec<Vec<i16>> = vec![
        vec![1, 2, 3],
        vec![-4, 5, -6],
        vec![0, 0, 0],
        vec![i16::MAX, i16::MIN, 17],
        vec![300, -200, 100],
    ];
    for a in &vectors {
        for b in &vectors {
            assert_eq!(dot(a, b), dot(b, a));
            for metric in [Metric::Euclidean, Metric::DotProduct, Metric::Cosine] {
                assert_eq!(distance(metric, a, b), distance(metric, b, a));
            }
        }
    }
    assert_eq!(dot(&[1], &[1, 2]), dot(&[1, 2], &[1]));
}

#[test]
fn integer_square_roots() {
    assert_eq!(integer_sqrt(0), 0);
    assert_eq!(integer_sqrt(1), 1);
    assert_eq!(integer_sqrt(15), 3);
    assert_eq!(integer_sqrt(16), 4);
    assert_eq!(integer_sqrt(17), 4);
    assert_eq!(integer_sqrt(1_000_000), 1000);
    assert_eq!(integer_sqrt(u128::MAX), u64::MAX as u128);
    assert_eq!(integer_sqrt((1u128 << 64) - 1), (1u128 << 32) - 1);
}

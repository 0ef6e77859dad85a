use vecq::lloyd::{
    boundaries, centroids, dequantize, dequantize_4bit, levels, quantize, quantize_4bit,
    BOUNDARIES_4BIT, CENTROIDS_4BIT,
};

fn value(bits: u32) -> f32 {
    f32::from_bits(bits)
}

#[test]
fn centroids_are_sorted() {
    for w in CENTROIDS_4BIT.windows(2) {
        assert!(value(w[0]) < value(w[1]), "centroids must be strictly increasing");
    }
}

#[test]
fn boundaries_are_sorted_and_interleaved() {
    for w in BOUNDARIES_4BIT.windows(2) {
        assert!(value(w[0]) < value(w[1]));
    }
    // boundaries sit between adjacent centroids
    for i in 0..15 {
        assert!(value(CENTROIDS_4BIT[i]) < value(BOUNDARIES_4BIT[i]));
        assert!(value(BOUNDARIES_4BIT[i]) < value(CENTROIDS_4BIT[i + 1]));
    }
}

#[test]
fn extreme_values_map_to_endpoints() {
    assert_eq!(quantize_4bit((-10.0f32).to_bits()), 0);
    assert_eq!(quantize_4bit(10.0f32.to_bits()), 15);
}

#[test]
fn zero_maps_near_center() {
    let i = quantize_4bit(0.0f32.to_bits());
    assert!((7..=8).contains(&i), "0.0 should map to centroid 7 or 8, got {i}");
}

#[test]
fn round_trip_error_is_bounded() {
    let mut max_gap = 0f32;
    for i in 0..15 {
        max_gap = max_gap.max(value(CENTROIDS_4BIT[i + 1]) - value(CENTROIDS_4BIT[i]));
    }
    // The worst error per coordinate must be below the largest gap of the tails.
    assert!(max_gap < 0.75, "max centroid gap {max_gap} too large");
}

#[test]
fn widths_have_their_levels() {
    for (bits, n) in [(4u8, 16usize), (5, 32), (6, 64)] {
        assert_eq!(levels(bits), n);
        assert_eq!(centroids(bits).len(), n);
        assert_eq!(boundaries(bits).len(), n - 1);
    }
}

#[test]
fn centroids_quantize_to_their_own_code() {
    for bits in [4u8, 5, 6] {
        for code in 0..levels(bits) {
            let c = dequantize(code as u8, bits);
            assert_eq!(c, centroids(bits)[code]);
            assert_eq!(quantize(c, bits), code as u8);
        }
    }
    assert_eq!(dequantize_4bit(3), CENTROIDS_4BIT[3]);
}

#[test]
fn a_boundary_belongs_to_the_lower_code() {
    for bits in [4u8, 5, 6] {
        for (i, &b) in boundaries(bits).iter().enumerate() {
            let at = quantize(b, bits);
            let next = quantize(value(b).next_up().to_bits(), bits);
            let count = boundaries(bits).iter().filter(|&&x| value(b) > value(x)).count();
            assert_eq!(at as usize, count, "boundary {i}");
            assert_eq!(next as usize, i + 1);
        }
    }
}

#[test]
fn larger_values_never_get_smaller_codes() {
    for bits in [4u8, 5, 6] {
        let mut last = 0;
        for step in -400..=400 {
            let code = quantize((step as f32 * 0.01).to_bits(), bits);
            assert!(code >= last);
            last = code;
        }
        assert_eq!(last as usize, levels(bits) - 1);
    }
}

use anka::bits::{from_rank, is_finite, is_less, is_nan, to_rank};

const SAMPLES: [f32; 12] = [
    f32::NEG_INFINITY,
    -3.4e38,
    -1.0,
    -1e-40,
    -0.0,
    0.0,
    1e-40,
    1.0,
    2.5,
    3.4e38,
    f32::INFINITY,
    f32::NAN,
];

#[test]
fn ranks_order_as_total_order_does() {
    for a in SAMPLES {
        for b in SAMPLES {
            let expected = a.total_cmp(&b);
            assert_eq!(to_rank(a.to_bits()).cmp(&to_rank(b.to_bits())), expected, "{a} {b}");
            assert_eq!(is_less(a.to_bits(), b.to_bits()), a < b, "{a} {b}");
        }
        assert_eq!(from_rank(to_rank(a.to_bits())), a.to_bits());
        assert_eq!(is_finite(a.to_bits()), a.is_finite());
        assert_eq!(is_nan(a.to_bits()), a.is_nan());
    }
}

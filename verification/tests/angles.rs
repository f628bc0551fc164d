//! Interior angles of rings, as the drawn zones are measured by.

use waiting_zones::double::Double;

fn signed_area(ring: &[(f64, f64)]) -> f64 {
    let n = ring.len();
    if n < 3 {
        return 0.0;
    }
    (0..n)
        .map(|i| {
            let (x1, y1) = ring[i];
            let (x2, y2) = ring[(i + 1) % n];
            x1 * y2 - x2 * y1
        })
        .sum::<f64>()
        / 2.0
}

/// Edges shorter than this have no direction worth measuring.
const MIN_EDGE_LENGTH_DEGREES: f64 = 1e-7;

fn interior_angles_degrees(points: &[(f64, f64)]) -> Vec<f64> {
    let n = points.len();
    let counterclockwise = signed_area(points) >= 0.0;
    (0..n)
        .filter_map(|i| {
            let (prev, cur, next) = (points[(i + n - 1) % n], points[i], points[(i + 1) % n]);
            let (inx, iny) = (cur.0 - prev.0, cur.1 - prev.1);
            let (outx, outy) = (next.0 - cur.0, next.1 - cur.1);
            let (lin, lout) = (inx.hypot(iny), outx.hypot(outy));
            if lin < MIN_EDGE_LENGTH_DEGREES || lout < MIN_EDGE_LENGTH_DEGREES {
                return None;
            }
            let cross = inx * outy - iny * outx;
            let dot = inx * outx + iny * outy;
            let turn_degrees = cross.atan2(dot).to_degrees();
            let interior = if counterclockwise { 180.0 - turn_degrees } else { 180.0 + turn_degrees };
            Some(((interior % 360.0) + 360.0) % 360.0)
        })
        .collect()
}

#[test]
fn interior_angles_degrees_reports_a_square_corner_as_90_degrees_either_winding() {
    let ccw = vec![(0.0, 0.0), (1.0, 0.0), (1.0, 1.0), (0.0, 1.0)];
    assert_eq!(interior_angles_degrees(&ccw), vec![90.0, 90.0, 90.0, 90.0]);

    let cw: Vec<(f64, f64)> = ccw.into_iter().rev().collect();
    assert_eq!(interior_angles_degrees(&cw), vec![90.0, 90.0, 90.0, 90.0]);
}

#[test]
fn interior_angles_degrees_reports_the_true_reflex_angle_not_its_convex_fold() {
    let l_shape = vec![(0.0, 0.0), (4.0, 0.0), (4.0, 1.0), (1.0, 1.0), (1.0, 4.0), (0.0, 4.0)];
    let angles = interior_angles_degrees(&l_shape);
    assert_eq!(
        angles,
        vec![90.0, 90.0, 90.0, 270.0, 90.0, 90.0],
        "expected every outer corner at 90° and the notch's own inner corner at a true 270° reflex"
    );
}

fn double(value: f64) -> Double {
    Double { bits: value.to_bits() }
}

#[test]
fn subtraction_rounds_as_the_machine_does() {
    let values = [
        0.0, -0.0, 1.0, -1.0, 0.1, 0.2, 0.3, 120.0, 61.0, 1e-310, 5e-324, -5e-324, 1e308, 1.7976931348623157e308,
        -1.7976931348623157e308, 2.2250738585072014e-308, 9007199254740993.0, 9007199254740991.0, 1e16, 1e-16, 3.5,
        123456.789, 1e22, 1.0000000000000002, 0.9999999999999999, f64::INFINITY, f64::NEG_INFINITY, 4503599627370496.5,
        4503599627370497.5, 1.5e-323, 7.3e-300, 1e300,
    ];
    for &a in values.iter() {
        for &b in values.iter() {
            let difference = a - b;
            let computed = double(a).subtract(double(b));
            if difference.is_nan() {
                assert!(computed.is_not_a_number(), "{a} - {b}");
            } else {
                assert_eq!(computed.bits, difference.to_bits(), "{a} - {b}");
            }
            let sum = a + b;
            let computed = double(a).added_to(double(b));
            if sum.is_nan() {
                assert!(computed.is_not_a_number(), "{a} + {b}");
            } else {
                assert_eq!(computed.bits, sum.to_bits(), "{a} + {b}");
            }
            assert_eq!(double(a).less_than(double(b)), a < b, "{a} < {b}");
            assert_eq!(double(a).at_most(double(b)), a <= b, "{a} <= {b}");
        }
    }
    let nan = double(f64::NAN);
    assert!(!nan.less_than(double(1.0)) && !double(1.0).at_most(nan) && !nan.at_most(nan));
}

#[test]
fn products_quotients_and_lengths_round_as_the_machine_does() {
    let values = [
        0.0, -0.0, 1.0, -1.0, 0.1, 0.2, 0.3, 120.0, 61.0, 1e-310, 5e-324, -5e-324, 1e308, 1.7976931348623157e308,
        2.2250738585072014e-308, 9007199254740993.0, 9007199254740991.0, 1e16, 1e-16, 3.5, 123456.789, 1e22, -7.25,
        1.0000000000000002, 0.9999999999999999, f64::INFINITY, f64::NEG_INFINITY, 1.5e-323, 7.3e-300, 1e300, 1e-160,
        3.0, 4.0, 5.0, 0.0001, 430000.123, -4582000.5,
    ];
    let same = |computed: Double, expected: f64, what: String| {
        if expected.is_nan() {
            assert!(computed.is_not_a_number(), "{what}");
        } else {
            assert_eq!(computed.bits, expected.to_bits(), "{what}");
        }
    };
    for &a in values.iter() {
        for &b in values.iter() {
            same(double(a).multiply(double(b)), a * b, format!("{a} * {b}"));
            same(double(a).divide(double(b)), a / b, format!("{a} / {b}"));
            same(double(a).or_larger(double(b)), if a < b { b } else { a }, format!("max {a} {b}"));
            same(double(a).or_smaller(double(b)), if b < a { b } else { a }, format!("min {a} {b}"));
            assert_eq!(double(a).equals(double(b)), a == b);
            assert_eq!(double(a).stands_before(double(b)), a.total_cmp(&b).is_lt());
            let length = f64::from_bits(double(a).hypot(double(b)).bits);
            let expected = a.hypot(b);
            if expected.is_finite() {
                // the machine's own may be off by the last bit
                let off = (length.to_bits() as i64 - expected.to_bits() as i64).abs();
                assert!(off <= 1, "hypot {a} {b}: {length} against {expected}");
            } else {
                assert_eq!(length, expected, "hypot {a} {b}");
            }
        }
    }
    for n in [0u64, 1, 2, 3, 1000, 9007199254740991, 9007199254740993, u64::MAX] {
        assert_eq!(Double::from_count(n).bits, (n as f64).to_bits());
    }
    assert_eq!(double(3.0).hypot(double(-4.0)), double(5.0));
}

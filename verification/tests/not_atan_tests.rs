use std::f32::consts::PI;

fn not_atan2(y: f32, x: f32) -> f32 {
    f32::from_bits(geosplit::not_atan::not_atan2(y.to_bits(), x.to_bits()))
}

#[test]
fn test_basic() {
    // Quick sanity check
    assert!((not_atan2(1.0, 1.0) - (PI / 4.0)).abs() < 1e-5);
    assert!((not_atan2(1.0, -1.0) - (3.0 * PI / 4.0)).abs() < 1e-5);
    assert!((not_atan2(-1.0, 1.0) - (-PI / 4.0)).abs() < 1e-5);
    assert!((not_atan2(-1.0, -1.0) - (-3.0 * PI / 4.0)).abs() < 1e-5);
}

#[test]
fn test_range() {
    // Ensure result is within [-PI, PI]
    let values = [-1e9, -1e3, -1.0, -1e-3, -1e-9, -0.0, 0.0, 1e-9, 1e-3, 1.0, 1e3, 1e9];
    for &y in &values {
        for &x in &values {
            let result = not_atan2(y, x);
            assert!(result >= -PI, "notAtan2({}, {}) = {} < -PI", y, x, result);
            assert!(result <= PI, "notAtan2({}, {}) = {} > PI", y, x, result);
        }
    }
}

fn are_both_zero_or_inf(x: f32, y: f32) -> bool {
    if x.is_infinite() && y.is_infinite() {
        return true;
    }
    if x == 0.0 && y == 0.0 {
        // This includes signed zeros because 0.0 == -0.0 here.
        return true;
    }
    false
}

#[test]
fn test_consistent_order() {
    let values = [
        f32::NEG_INFINITY,
        -1e9,
        -1e3,
        -1.0,
        -1e-3,
        -1e-9,
        -0.0,
        0.0,
        1e-9,
        1e-3,
        1.0,
        1e3,
        1e9,
        f32::INFINITY,
    ];

    for &y1 in &values {
        for &x1 in &values {
            if are_both_zero_or_inf(x1, y1) {
                continue;
            }
            for &y2 in &values {
                for &x2 in &values {
                    if are_both_zero_or_inf(x2, y2) {
                        continue;
                    }
                    let orig1 = y1.atan2(x1);
                    let orig2 = y2.atan2(x2);
                    let new1 = not_atan2(y1, x1);
                    let new2 = not_atan2(y2, x2);

                    let message = format!(
                        "inconsistent order for notAtan2({}, {}) = {} (orig {}) and notAtan2({}, {}) = {} (orig {})",
                        y1, x1, new1, orig1, y2, x2, new2, orig2
                    );

                    if (orig1 - orig2).abs() < 1e-6 {
                        // If original values are nearly equal, allow new values
                        // to be equal or ordered the same direction
                        if orig1 < orig2 {
                            assert!(new1 <= new2, "{}", message);
                        } else {
                            assert!(new1 >= new2, "{}", message);
                        }
                    } else {
                        if orig1 < orig2 {
                            assert!(new1 < new2, "{}", message);
                        } else {
                            assert!(new1 > new2, "{}", message);
                        }
                    }
                }
            }
        }
    }
}

#[test]
fn test_exact_values() {
    // These inputs hit only exact binary32 steps (ratios and scalings by
    // powers of two), so the results are pinned bit for bit.
    assert_eq!(not_atan2(1.0, 1.0), std::f32::consts::FRAC_PI_4);
    assert_eq!(not_atan2(0.0, 1.0), 0.0);
    assert_eq!(not_atan2(0.0, -1.0), PI);
    assert_eq!(not_atan2(-0.0, -1.0), -PI);
    assert_eq!(not_atan2(1.0, 0.0), std::f32::consts::FRAC_PI_2);
}

#[test]
fn test_zero_zero_is_defined() {
    // 0/0 has no angle; the substitute maps it to exactly zero, not NaN.
    assert_eq!(not_atan2(0.0, 0.0), 0.0);
    assert_eq!(not_atan2(-0.0, 0.0), 0.0);
    assert_eq!(not_atan2(0.0, -0.0), 0.0);
    assert_eq!(not_atan2(-0.0, -0.0), 0.0);
    assert!(!not_atan2(f32::INFINITY, f32::INFINITY).is_nan());
}

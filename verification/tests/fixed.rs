use ternary_pca::fixed::SQRT_INPUT_MAX;
use ternary_pca::{fp_div, fp_mul, fp_sqrt, SCALE};

fn to_fixed(v: f64) -> i32 {
    (v * 256.0).round() as i32
}

fn to_real(v: i32) -> f64 {
    v as f64 / 256.0
}

#[test]
fn test_fp_mul_basic() {
    let a = to_fixed(0.5);
    let b = to_fixed(0.5);
    assert!((to_real(fp_mul(a, b)) - 0.25).abs() < 0.01);
}

#[test]
fn test_fp_sqrt() {
    let v = to_fixed(4.0);
    let s = fp_sqrt(v);
    assert!((to_real(s) - 2.0).abs() < 0.1);
}

#[test]
fn test_fp_div() {
    let a = to_fixed(1.0);
    let b = to_fixed(4.0);
    assert!((to_real(fp_div(a, b)) - 0.25).abs() < 0.01);
}

#[test]
fn fp_mul_exact_values() {
    assert_eq!(fp_mul(128, 128), 64);
    assert_eq!(fp_mul(-128, 128), -64);
    // 3 * 100 / 256 = 1.17..., rounded toward zero
    assert_eq!(fp_mul(3, 100), 1);
    assert_eq!(fp_mul(-3, 100), -1);
    assert_eq!(fp_mul(1000, SCALE), 1000);
    assert_eq!(fp_mul(7, 9), fp_mul(9, 7));
}

#[test]
fn fp_mul_wraps_to_i32() {
    // 2^31 - 1 squared over 256 does not fit in i32; the quotient is wrapped.
    let q: i64 = (i32::MAX as i64 * i32::MAX as i64) / 256;
    assert_eq!(fp_mul(i32::MAX, i32::MAX), q as i32);
}

#[test]
fn fp_div_exact_values() {
    assert_eq!(fp_div(256, 1024), 64);
    assert_eq!(fp_div(-256, 1024), -64);
    assert_eq!(fp_div(256, -1024), -64);
    assert_eq!(fp_div(-256, -1024), 64);
    assert_eq!(fp_div(1, 3), 85);
    assert_eq!(fp_div(-1, 3), -85);
    assert_eq!(fp_div(1234, SCALE), 1234);
}

#[test]
fn fp_div_by_zero_is_zero() {
    assert_eq!(fp_div(12345, 0), 0);
    assert_eq!(fp_div(-1, 0), 0);
}

#[test]
fn fp_sqrt_exact_values() {
    assert_eq!(fp_sqrt(1024), 512);
    assert_eq!(fp_sqrt(256), 256);
    assert_eq!(fp_sqrt(64), 128);
    assert_eq!(fp_sqrt(0), 0);
    assert_eq!(fp_sqrt(-5), 0);
    assert!(fp_sqrt(1) >= 1);
}

#[test]
fn fp_sqrt_large_input() {
    // 4194304 is 16384.0; its square root is 128.0.
    assert_eq!(fp_sqrt(4194304), 32768);
}

fn isqrt(n: i64) -> i64 {
    let mut s = (n as f64).sqrt() as i64;
    while s * s > n {
        s -= 1;
    }
    while (s + 1) * (s + 1) <= n {
        s += 1;
    }
    s
}

#[test]
fn fp_sqrt_is_within_three_units_of_the_root() {
    let mut v: i64 = 1;
    while v <= SQRT_INPUT_MAX as i64 {
        let s = isqrt(v * 256);
        let r = fp_sqrt(v as i32) as i64;
        assert!(s - 1 <= r && r <= s + 2, "v = {}, r = {}, s = {}", v, r, s);
        v += if v < 70000 { 1 } else { 9973 };
    }
    let top = SQRT_INPUT_MAX as i64;
    let r = fp_sqrt(SQRT_INPUT_MAX) as i64;
    assert!(isqrt(top * 256) - 1 <= r && r <= isqrt(top * 256) + 2);
    assert_eq!(fp_sqrt(253), 253);
    assert_eq!(isqrt(253 * 256), 254);
}

use ternary_pca::{TernaryCovariance, Trit};

fn as_real(v: i32) -> f64 {
    v as f64 / 256.0
}

#[test]
fn test_covariance_dim() {
    let data: Vec<Vec<Trit>> = vec![vec![1, 0, -1], vec![0, 1, 0], vec![-1, 0, 1]];
    let cov = TernaryCovariance::from_data(&data);
    assert_eq!(cov.dim(), 3);
}

#[test]
fn test_covariance_positive_diagonal() {
    let data: Vec<Vec<Trit>> = vec![vec![1, -1], vec![-1, 1], vec![1, -1], vec![-1, 1]];
    let cov = TernaryCovariance::from_data(&data);
    assert!(as_real(cov.get_fp(0, 0)) > 0.0);
    assert!(as_real(cov.get_fp(1, 1)) > 0.0);
}

#[test]
fn test_covariance_symmetric() {
    let data: Vec<Vec<Trit>> =
        vec![vec![1, 0, -1], vec![0, 1, 0], vec![-1, 0, 1], vec![1, 1, 1]];
    let cov = TernaryCovariance::from_data(&data);
    for i in 0..cov.dim() {
        for j in 0..cov.dim() {
            assert!((as_real(cov.get_fp(i, j)) - as_real(cov.get_fp(j, i))).abs() < 0.01);
        }
    }
}

#[test]
fn test_covariance_total_variance() {
    let data: Vec<Vec<Trit>> = vec![vec![1, -1], vec![-1, 1]];
    let cov = TernaryCovariance::from_data(&data);
    let total: f64 = (0..cov.dim()).map(|i| as_real(cov.get_fp(i, i))).sum();
    assert!(total > 0.0);
}

#[test]
fn test_covariance_empty() {
    let cov = TernaryCovariance::from_data(&[]);
    assert_eq!(cov.dim(), 0);
}

#[test]
fn test_covariance_constant() {
    let data: Vec<Vec<Trit>> = vec![vec![1, 1], vec![1, 1], vec![1, 1]];
    let cov = TernaryCovariance::from_data(&data);
    // All variance should be zero
    assert!(as_real(cov.get_fp(0, 0)).abs() < 0.1);
    assert!(as_real(cov.get_fp(1, 1)).abs() < 0.1);
}

#[test]
fn test_covariance_to_f64_matrix() {
    let data: Vec<Vec<Trit>> = vec![vec![1, -1], vec![-1, 1]];
    let cov = TernaryCovariance::from_data(&data);
    let m: Vec<Vec<f64>> = (0..cov.dim())
        .map(|i| (0..cov.dim()).map(|j| as_real(cov.get_fp(i, j))).collect())
        .collect();
    assert_eq!(m.len(), 2);
    assert_eq!(m[0].len(), 2);
}

#[test]
fn covariance_exact_entries() {
    // Means are zero, deviations are +-256, each cross term is +-256, and the sum over the
    // two rows is divided by the Bessel divisor 1: variances 2.0, covariances -2.0.
    let data: Vec<Vec<Trit>> = vec![vec![1, -1], vec![-1, 1]];
    let cov = TernaryCovariance::from_data(&data);
    assert_eq!(cov.get_fp(0, 0), 512);
    assert_eq!(cov.get_fp(1, 1), 512);
    assert_eq!(cov.get_fp(0, 1), -512);
    assert_eq!(cov.get_fp(1, 0), -512);
}

#[test]
fn covariance_bessel_divisor() {
    // Column 0: values 1, 0, -1, 0 (mean 0); squared deviations 256, 0, 256, 0 sum to 512
    // (2.0); divided by n - 1 = 3: 170, i.e. 0.66.
    let data: Vec<Vec<Trit>> = vec![vec![1], vec![0], vec![-1], vec![0]];
    let cov = TernaryCovariance::from_data(&data);
    assert_eq!(cov.get_fp(0, 0), 170);
}

#[test]
fn covariance_truncated_mean() {
    // Column mean 1 * 256 / 3 = 85; deviations 171, -85, -85; fixed-point squares
    // 114, 28, 28 sum to 170; divided by 2: 85.
    let data: Vec<Vec<Trit>> = vec![vec![1], vec![0], vec![0]];
    let cov = TernaryCovariance::from_data(&data);
    assert_eq!(cov.get_fp(0, 0), 85);
}

#[test]
fn covariance_single_row_is_zero() {
    let data: Vec<Vec<Trit>> = vec![vec![1, -1, 0]];
    let cov = TernaryCovariance::from_data(&data);
    assert_eq!(cov.dim(), 3);
    for i in 0..3 {
        for j in 0..3 {
            assert_eq!(cov.get_fp(i, j), 0);
        }
    }
}

#[test]
fn covariance_constant_column_zero_row_and_column() {
    let data: Vec<Vec<Trit>> = vec![vec![1, 0, -1], vec![-1, 0, 1], vec![1, 0, 1]];
    let cov = TernaryCovariance::from_data(&data);
    for j in 0..3 {
        assert_eq!(cov.get_fp(1, j), 0);
        assert_eq!(cov.get_fp(j, 1), 0);
    }
    assert!(cov.get_fp(0, 0) > 0);
}

#[test]
fn covariance_rows_without_values() {
    let data: Vec<Vec<Trit>> = vec![vec![], vec![]];
    let cov = TernaryCovariance::from_data(&data);
    assert_eq!(cov.dim(), 0);
}

#[test]
fn covariance_clone_keeps_entries() {
    let data: Vec<Vec<Trit>> = vec![vec![1, 0], vec![0, 1], vec![-1, -1]];
    let cov = TernaryCovariance::from_data(&data);
    let copy = cov.clone();
    assert_eq!(copy.dim(), cov.dim());
    for i in 0..2 {
        for j in 0..2 {
            assert_eq!(copy.get_fp(i, j), cov.get_fp(i, j));
        }
    }
}

fn ternary_data(rows: usize, cols: usize, seed: u64) -> Vec<Vec<Trit>> {
    let mut state = seed;
    (0..rows)
        .map(|_| {
            (0..cols)
                .map(|_| {
                    state = state.wrapping_mul(6364136223846793005).wrapping_add(1442695040888963407);
                    ((state >> 33) % 3) as i8 - 1
                })
                .collect()
        })
        .collect()
}

#[test]
fn covariance_of_ternary_data_is_symmetric_and_bounded() {
    for seed in 0..20u64 {
        let data = ternary_data(2 + (seed as usize % 7), 1 + (seed as usize % 5), seed);
        let cov = TernaryCovariance::from_data(&data);
        for i in 0..cov.dim() {
            assert!(cov.get_fp(i, i) >= 0);
            for j in 0..cov.dim() {
                let e = cov.get_fp(i, j);
                assert_eq!(e, cov.get_fp(j, i));
                assert!(-2048 <= e && e <= 2048);
            }
        }
    }
}

#[test]
fn covariance_many_ternary_rows() {
    let data = ternary_data(5000, 3, 11);
    let cov = TernaryCovariance::from_data(&data);
    assert_eq!(cov.dim(), 3);
    for i in 0..3 {
        let v = cov.get_fp(i, i);
        // Each column is roughly uniform over {-1, 0, 1}: variance about 2/3, i.e. about 170.
        assert!(v > 120 && v < 230, "variance {}", v);
    }
}

#[test]
fn covariance_does_not_depend_on_row_order() {
    let data = ternary_data(9, 4, 5);
    let mut reordered = data.clone();
    reordered.reverse();
    reordered.swap(0, 4);
    let a = TernaryCovariance::from_data(&data);
    let b = TernaryCovariance::from_data(&reordered);
    for i in 0..4 {
        for j in 0..4 {
            assert_eq!(a.get_fp(i, j), b.get_fp(i, j));
        }
    }
}

#[test]
fn covariance_of_negated_data_is_unchanged() {
    let data = ternary_data(7, 3, 9);
    let negated: Vec<Vec<Trit>> =
        data.iter().map(|row| row.iter().map(|&v| -v).collect()).collect();
    let a = TernaryCovariance::from_data(&data);
    let b = TernaryCovariance::from_data(&negated);
    for i in 0..3 {
        for j in 0..3 {
            assert_eq!(a.get_fp(i, j), b.get_fp(i, j));
        }
    }
}

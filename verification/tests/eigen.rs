use ternary_pca::{EigenDecomp, TernaryCovariance, Trit};

fn variance_shares(decomp: &EigenDecomp) -> Vec<f64> {
    let total = decomp.explained_magnitude(decomp.num_components()) as f64;
    (0..decomp.num_components())
        .map(|i| {
            if total == 0.0 {
                0.0
            } else {
                decomp.eigenvalue_fp(i).unsigned_abs() as f64 / total
            }
        })
        .collect()
}

#[test]
fn test_eigen_positive() {
    let data: Vec<Vec<Trit>> = vec![vec![1, 1], vec![-1, -1], vec![1, 1], vec![-1, -1]];
    let cov = TernaryCovariance::from_data(&data);
    let decomp = EigenDecomp::compute(&cov, 2);
    // At least one eigenvalue should be positive
    let has_positive = (0..decomp.num_components()).any(|i| decomp.eigenvalue_fp(i) > 0);
    assert!(has_positive);
}

#[test]
fn test_eigen_variance_sums_to_one() {
    let data: Vec<Vec<Trit>> = vec![vec![1, 0], vec![-1, 1], vec![0, -1], vec![1, -1]];
    let cov = TernaryCovariance::from_data(&data);
    let decomp = EigenDecomp::compute(&cov, 2);
    let total: f64 = variance_shares(&decomp).iter().sum();
    assert!((total - 1.0).abs() < 0.05);
}

#[test]
fn test_eigen_cumulative() {
    let data: Vec<Vec<Trit>> = vec![
        vec![1, 0, -1],
        vec![-1, 1, 0],
        vec![0, -1, 1],
        vec![1, 1, 1],
        vec![-1, -1, -1],
    ];
    let cov = TernaryCovariance::from_data(&data);
    let decomp = EigenDecomp::compute(&cov, 3);
    let total = decomp.explained_magnitude(decomp.num_components());
    let cv = if total == 0 { 0.0 } else { decomp.explained_magnitude(3) as f64 / total as f64 };
    assert!(cv >= 0.0);
}

#[test]
fn eigen_component_count_is_capped_by_dim() {
    let data: Vec<Vec<Trit>> = vec![vec![1, 0], vec![0, 1], vec![-1, -1]];
    let cov = TernaryCovariance::from_data(&data);
    assert_eq!(EigenDecomp::compute(&cov, 5).num_components(), 2);
    assert_eq!(EigenDecomp::compute(&cov, 1).num_components(), 1);
    assert_eq!(EigenDecomp::compute(&cov, 0).num_components(), 0);
}

#[test]
fn eigen_vectors_are_bounded_and_sized() {
    let data: Vec<Vec<Trit>> = vec![vec![1, 1, 0], vec![-1, -1, 1], vec![1, 0, -1], vec![0, -1, 1]];
    let cov = TernaryCovariance::from_data(&data);
    let decomp = EigenDecomp::compute(&cov, 3);
    for c in 0..decomp.num_components() {
        let v = decomp.eigenvector_fp(c);
        assert_eq!(v.len(), 3);
        assert!(v.iter().all(|&x| -1024 <= x && x <= 1024));
    }
}

#[test]
fn eigen_of_zero_matrix() {
    // Constant data has a zero covariance matrix: the first product is the zero vector,
    // which normalizing leaves as it is, and every eigenvalue is zero.
    let data: Vec<Vec<Trit>> = vec![vec![1, -1], vec![1, -1]];
    let cov = TernaryCovariance::from_data(&data);
    let decomp = EigenDecomp::compute(&cov, 2);
    assert_eq!(decomp.num_components(), 2);
    for c in 0..2 {
        assert_eq!(decomp.eigenvalue_fp(c), 0);
        assert_eq!(decomp.eigenvector_fp(c), vec![0, 0]);
    }
    assert_eq!(decomp.explained_magnitude(2), 0);
}

#[test]
fn eigen_explained_magnitude_grows_to_total() {
    let data: Vec<Vec<Trit>> = vec![vec![1, 0, -1], vec![-1, 1, 0], vec![0, -1, 1], vec![1, 1, 1]];
    let cov = TernaryCovariance::from_data(&data);
    let decomp = EigenDecomp::compute(&cov, 3);
    let n = decomp.num_components();
    let mut previous = 0u128;
    for k in 0..=n {
        let m = decomp.explained_magnitude(k);
        assert!(previous <= m);
        previous = m;
    }
    assert_eq!(decomp.explained_magnitude(n + 10), decomp.explained_magnitude(n));
    let sum: u128 = (0..n).map(|i| decomp.eigenvalue_fp(i).unsigned_abs() as u128).sum();
    assert_eq!(sum, decomp.explained_magnitude(n));
}

#[test]
fn eigen_one_dimension_exact() {
    // Covariance [[512]] (2.0): the unit vector (256) is kept by every step, and the
    // Rayleigh quotient is 256 * 512 / 256.
    let data: Vec<Vec<Trit>> = vec![vec![1], vec![-1]];
    let cov = TernaryCovariance::from_data(&data);
    assert_eq!(cov.get_fp(0, 0), 512);
    let decomp = EigenDecomp::compute(&cov, 1);
    assert_eq!(decomp.eigenvalue_fp(0), 512);
    assert_eq!(decomp.eigenvector_fp(0), vec![256]);
}

fn ternary_data(rows: usize, cols: usize, seed: u64) -> Vec<Vec<Trit>> {
    let mut state = seed;
    (0..rows)
        .map(|_| {
            (0..cols)
                .map(|_| {
                    state = state.wrapping_mul(6364136223846793005).wrapping_add(1442695040888963407);
                    ((state >> 33) % 3) as i8 - 1
                })
                .collect()
        })
        .collect()
}

#[test]
fn eigen_on_wider_ternary_data() {
    let data = ternary_data(30, 12, 7);
    let cov = TernaryCovariance::from_data(&data);
    let decomp = EigenDecomp::compute(&cov, 3);
    assert_eq!(decomp.num_components(), 3);
    assert!(decomp.eigenvalue_fp(0) > 0);
    for c in 0..3 {
        let v = decomp.eigenvector_fp(c);
        assert_eq!(v.len(), 12);
        assert!(v.iter().all(|&x| -1024 <= x && x <= 1024));
    }
}

#[test]
fn eigen_on_many_dimensions() {
    let data = ternary_data(40, 64, 3);
    let cov = TernaryCovariance::from_data(&data);
    let decomp = EigenDecomp::compute(&cov, 2);
    assert_eq!(decomp.num_components(), 2);
    assert_eq!(decomp.eigenvector_fp(1).len(), 64);
}

#[test]
fn eigen_of_perfectly_correlated_columns() {
    // All covariances are 4/3 (341); the eigenvalues are 8/3 and 0.
    let data: Vec<Vec<Trit>> = vec![vec![1, 1], vec![-1, -1], vec![1, 1], vec![-1, -1]];
    let cov = TernaryCovariance::from_data(&data);
    assert_eq!(cov.get_fp(0, 1), 341);
    let decomp = EigenDecomp::compute(&cov, 2);
    let first = decomp.eigenvalue_fp(0) as f64 / 256.0;
    let second = decomp.eigenvalue_fp(1) as f64 / 256.0;
    assert!((first - 8.0 / 3.0).abs() <= 0.1, "first {}", first);
    assert!(second.abs() <= 0.1, "second {}", second);
}

#[test]
fn eigen_more_components_keep_the_earlier_ones() {
    let data = ternary_data(20, 5, 13);
    let cov = TernaryCovariance::from_data(&data);
    let one = EigenDecomp::compute(&cov, 1);
    let three = EigenDecomp::compute(&cov, 3);
    assert_eq!(one.num_components(), 1);
    assert_eq!(three.num_components(), 3);
    assert_eq!(one.eigenvalue_fp(0), three.eigenvalue_fp(0));
    assert_eq!(one.eigenvector_fp(0), three.eigenvector_fp(0));
}

#[test]
fn eigen_try_compute_agrees_with_compute() {
    let data = ternary_data(15, 4, 21);
    let cov = TernaryCovariance::from_data(&data);
    let checked = EigenDecomp::try_compute(&cov, 4).expect("no overflow on small ternary data");
    let plain = EigenDecomp::compute(&cov, 4);
    assert_eq!(checked.num_components(), 4);
    for c in 0..4 {
        assert_eq!(checked.eigenvalue_fp(c), plain.eigenvalue_fp(c));
        assert_eq!(checked.eigenvector_fp(c), plain.eigenvector_fp(c));
    }
    assert_eq!(EigenDecomp::try_compute(&cov, 0).map(|d| d.num_components()), Some(0));
}

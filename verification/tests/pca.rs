use ternary_pca::{EigenDecomp, TernaryCovariance, TernaryPCA, Trit};

fn to_real_projection(p: i128) -> f64 {
    p as f64 / 65536.0
}

#[test]
fn test_pca_empty_data() {
    let pca = TernaryPCA::fit(&[], 1);
    assert_eq!(pca.num_components(), 0);
}

#[test]
fn test_pca_fit_and_project() {
    let data: Vec<Vec<Trit>> = vec![vec![1, 1], vec![-1, -1], vec![1, 1], vec![-1, -1]];
    let pca = TernaryPCA::fit(&data, 1);
    assert_eq!(pca.num_components(), 1);
    let proj: Vec<f64> = pca.project_fp(&[1, 1]).into_iter().map(to_real_projection).collect();
    assert_eq!(proj.len(), 1);
}

#[test]
fn test_pca_variance_explained() {
    let data: Vec<Vec<Trit>> = vec![vec![1, 1], vec![-1, -1], vec![1, 1], vec![-1, -1]];
    let pca = TernaryPCA::fit(&data, 2);
    let decomp = pca.decomp();
    let total = decomp.explained_magnitude(decomp.num_components()) as f64;
    let ve: Vec<f64> = (0..decomp.num_components())
        .map(|i| if total == 0.0 { 0.0 } else { decomp.eigenvalue_fp(i).unsigned_abs() as f64 / total })
        .collect();
    assert_eq!(ve.len(), 2);
}

#[test]
fn test_pca_cumulative() {
    let data: Vec<Vec<Trit>> = vec![vec![1, 1], vec![-1, -1], vec![1, 1], vec![-1, -1]];
    let pca = TernaryPCA::fit(&data, 2);
    let decomp = pca.decomp();
    let total = decomp.explained_magnitude(decomp.num_components());
    let cum = if total == 0 { 0.0 } else { decomp.explained_magnitude(2) as f64 / total as f64 };
    assert!((cum - 1.0).abs() < 0.05);
}

#[test]
fn pca_means_and_dim() {
    let data: Vec<Vec<Trit>> = vec![vec![1, 0, -1], vec![1, 1, 0], vec![-1, 0, 0]];
    let pca = TernaryPCA::fit(&data, 2);
    assert_eq!(pca.dim(), 3);
    // Column sums 1, 1, -1 over 3 rows, as fixed point: 256 / 3 = 85.
    assert_eq!(pca.mean_fp(0), 85);
    assert_eq!(pca.mean_fp(1), 85);
    assert_eq!(pca.mean_fp(2), -85);
    assert_eq!(pca.num_components(), 2);
    assert_eq!(pca.decomp().num_components(), 2);
}

#[test]
fn pca_projection_exact() {
    // One dimension, mean 0, eigenvector (256): projecting t gives 256 * t * 256, i.e. t.
    let data: Vec<Vec<Trit>> = vec![vec![1], vec![-1]];
    let pca = TernaryPCA::fit(&data, 1);
    assert_eq!(pca.decomp().eigenvector_fp(0), vec![256]);
    let p = pca.project_fp(&[1]);
    assert_eq!(p, vec![65536]);
    assert_eq!(to_real_projection(p[0]), 1.0);
    assert_eq!(pca.project_fp(&[-1]), vec![-65536]);
    // An empty sample has no terms.
    assert_eq!(pca.project_fp(&[]), vec![0]);
}

#[test]
fn pca_projection_centers_on_means() {
    // Constant data: means (256, -256), zero covariance, zero eigenvectors, so every
    // projection is zero.
    let data: Vec<Vec<Trit>> = vec![vec![1, -1], vec![1, -1]];
    let pca = TernaryPCA::fit(&data, 1);
    assert_eq!(pca.mean_fp(0), 256);
    assert_eq!(pca.mean_fp(1), -256);
    assert_eq!(pca.project_fp(&[0, 1]), vec![0]);
}

#[test]
fn pca_projection_of_means_is_near_zero() {
    let data: Vec<Vec<Trit>> = vec![vec![1, 1], vec![-1, -1], vec![1, 1], vec![-1, -1]];
    let pca = TernaryPCA::fit(&data, 2);
    // Means are zero, so projecting the zero sample gives zero.
    assert_eq!(pca.project_fp(&[0, 0]), vec![0, 0]);
}

#[test]
fn pca_decomposition_matches_compute() {
    let data: Vec<Vec<Trit>> = vec![vec![1, 0, -1], vec![-1, 1, 0], vec![0, -1, 1], vec![1, 1, -1]];
    let pca = TernaryPCA::fit(&data, 2);
    let direct = EigenDecomp::compute(&TernaryCovariance::from_data(&data), 2);
    assert_eq!(pca.num_components(), direct.num_components());
    for c in 0..direct.num_components() {
        assert_eq!(pca.decomp().eigenvalue_fp(c), direct.eigenvalue_fp(c));
        assert_eq!(pca.decomp().eigenvector_fp(c), direct.eigenvector_fp(c));
    }
}

#[test]
fn pca_try_fit_agrees_with_fit() {
    let data: Vec<Vec<Trit>> = vec![vec![1, 0, -1], vec![-1, 1, 0], vec![0, -1, 1], vec![1, 1, -1]];
    let checked = TernaryPCA::try_fit(&data, 2).expect("no overflow");
    let plain = TernaryPCA::fit(&data, 2);
    assert_eq!(checked.num_components(), plain.num_components());
    for c in 0..plain.num_components() {
        assert_eq!(checked.decomp().eigenvalue_fp(c), plain.decomp().eigenvalue_fp(c));
    }
    for j in 0..3 {
        assert_eq!(checked.mean_fp(j), plain.mean_fp(j));
    }
    assert_eq!(TernaryPCA::try_fit(&[], 3).map(|p| p.num_components()), Some(0));
}

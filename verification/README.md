# ternary_pca

Principal component analysis for ternary data (`{-1, 0, +1}`) in Q8.8 fixed point
(`i32`, 256 stands for 1.0), verified with Verus.

- `src/fixed.rs` — fixed-point multiply, divide and Newton square root, with the proof
  that the square root is within three units of the exact root on its whole input range.
- `src/sums.rs` — sums of integer sequences and the condition that every running total
  fits a machine integer.
- `src/matrix.rs` — matrices stored as rows of `Vec`s.
- `src/covariance.rs` — `TernaryCovariance`: the sample covariance
  `sum (x_i - mean_i)(x_j - mean_j) / (n - 1)` in fixed point, its symmetry, its
  independence of row order and of negating the data, and bounds for ternary data.
- `src/eigen.rs` — `EigenDecomp`: power iteration with deflation, specified step by step,
  with the conditions under which no sum overflows; `try_compute` checks them.
- `src/pca.rs` — `TernaryPCA`: fit (means plus decomposition, `try_fit` checked) and
  exact projection.
- `app/lib.rs` — the `f64` views (`get`, `variance`, `eigenvalue`, `project`,
  `reconstruct`, ...) over the verified fixed-point results.

Every public function's contract states its result exactly, and its `requires` is exactly
the condition under which the computation neither indexes out of bounds nor overflows.

//! The covariance matrix of a ternary dataset, computed in fixed point.
use crate::fixed::{
    fp_div, fp_div_spec, fp_mul, fp_mul_spec, in_i32, lemma_product_bound, lemma_tdiv_bound,
    lemma_tdiv_exact, lemma_tdiv_neg, lemma_tdiv_rounding, lemma_tdiv_shrinks, tdiv, SCALE,
};
use crate::matrix::copy_matrix;
use crate::sums::{
    lemma_sum_bound, lemma_sum_const, lemma_sum_nonneg, lemma_sum_take_all, lemma_sum_take_none,
    lemma_sum_negate, lemma_sum_remove, lemma_sum_scale, lemma_sum_sub, lemma_sum_take_step,
    lemma_sum_zero, running_sums_within, sum_of,
};
use crate::Trit;
use vstd::arithmetic::mul::lemma_mul_upper_bound;
use vstd::prelude::*;

verus! {

/// Number of dimensions of a dataset: the length of its first row, or 0 when it has no rows.
pub open spec fn data_dim(data: Seq<Vec<i8>>) -> int {
    if data.len() == 0 {
        0
    } else {
        data[0].len() as int
    }
}

/// Every row of the dataset has `data_dim(data)` values.
pub open spec fn rows_have_dim(data: Seq<Vec<i8>>) -> bool {
    forall|r: int| 0 <= r < data.len() ==> #[trigger] data[r].len() == data_dim(data)
}

/// The values of column `j`, row by row.
pub open spec fn column_terms(data: Seq<Vec<i8>>, j: int) -> Seq<int> {
    Seq::new(data.len(), |r: int| data[r]@[j] as int)
}

/// The fixed-point mean of column `j`: its sum, fixed-point divided by the number of rows
/// taken as an `i32`.
pub open spec fn column_mean(data: Seq<Vec<i8>>, j: int) -> i32 {
    fp_div_spec(sum_of(column_terms(data, j)), data.len() as i32 as int)
}

/// The fixed-point deviation of value `(r, i)` from the mean of column `i`.
pub open spec fn deviation(data: Seq<Vec<i8>>, r: int, i: int) -> int {
    data[r]@[i] * 256 - column_mean(data, i)
}

/// The fixed-point products of the deviations in columns `i` and `j`, row by row.
pub open spec fn cross_terms(data: Seq<Vec<i8>>, i: int, j: int) -> Seq<int> {
    Seq::new(
        data.len(),
        |r: int| fp_mul_spec(deviation(data, r, i), deviation(data, r, j)) as int,
    )
}

/// Bessel's correction: the number of rows less one, but 1 for fewer than two rows.
pub open spec fn bessel_divisor(n: int) -> int {
    if n > 1 {
        n - 1
    } else {
        1
    }
}

/// The covariance of columns `i <= j`: the (fixed-point) sum of their cross terms divided
/// by the integer Bessel divisor, rounded toward zero. It is the sample covariance
/// `sum (x_i - mean_i)(x_j - mean_j) / (n - 1)` in fixed point.
pub open spec fn upper_entry(data: Seq<Vec<i8>>, i: int, j: int) -> i32 {
    tdiv(sum_of(cross_terms(data, i, j)), bessel_divisor(data.len() as int)) as i32
}

/// The covariance of columns `i` and `j`, taken from the upper triangle.
pub open spec fn covariance_entry(data: Seq<Vec<i8>>, i: int, j: int) -> i32 {
    if i <= j {
        upper_entry(data, i, j)
    } else {
        upper_entry(data, j, i)
    }
}

/// The covariance matrix of a dataset, `data_dim(data)` square.
pub open spec fn covariance_matrix(data: Seq<Vec<i8>>) -> Seq<Seq<i32>> {
    Seq::new(
        data_dim(data) as nat,
        |i: int| Seq::new(data_dim(data) as nat, |j: int| covariance_entry(data, i, j)),
    )
}

/// Every value that the covariance computation keeps in `i32` fits: every column's running
/// sum, every deviation from a column mean, and every running sum of cross terms.
pub open spec fn sums_fit_i32(data: Seq<Vec<i8>>) -> bool {
    &&& forall|j: int|
        0 <= j < data_dim(data) ==> running_sums_within(
            #[trigger] column_terms(data, j),
            i32::MIN as int,
            i32::MAX as int,
        )
    &&& forall|r: int, i: int|
        0 <= r < data.len() && 0 <= i < data_dim(data) ==> in_i32(#[trigger] deviation(data, r, i))
    &&& forall|i: int, j: int|
        0 <= i <= j < data_dim(data) ==> running_sums_within(
            #[trigger] cross_terms(data, i, j),
            i32::MIN as int,
            i32::MAX as int,
        )
}

/// Every value of the dataset is a trit: -1, 0 or +1.
pub open spec fn is_ternary(data: Seq<Vec<i8>>) -> bool {
    forall|r: int, j: int|
        0 <= r < data.len() && 0 <= j < data[r].len() ==> -1 <= #[trigger] data[r]@[j] <= 1
}

/// On ternary data with at most `i32::MAX` rows a column mean lies in `[-256, 256]` and a
/// deviation in `[-512, 512]`.
proof fn lemma_ternary_deviation(data: Seq<Vec<i8>>, r: int, i: int)
    requires
        data.len() <= i32::MAX,
        is_ternary(data),
        rows_have_dim(data),
        0 <= r < data.len(),
        0 <= i < data_dim(data),
    ensures
        -256 <= column_mean(data, i) <= 256,
        -512 <= deviation(data, r, i) <= 512,
{
    let s = column_terms(data, i);
    let n = data.len() as int;
    assert forall|q: int| 0 <= q < s.len() implies -1 <= #[trigger] s[q] <= 1 by {
        assert(data[q].len() == data_dim(data));
    }
    lemma_sum_bound(s, 1);
    lemma_tdiv_bound(sum_of(s) * 256, n, 256);
    assert(data[r].len() == data_dim(data));
}

/// On ternary data with at most `i32::MAX` rows every cross term lies in `[-1024, 1024]`,
/// and on the diagonal in `[0, 1024]`.
proof fn lemma_ternary_cross_term(data: Seq<Vec<i8>>, r: int, i: int, j: int)
    requires
        data.len() <= i32::MAX,
        is_ternary(data),
        rows_have_dim(data),
        0 <= r < data.len(),
        0 <= i < data_dim(data),
        0 <= j < data_dim(data),
    ensures
        -1024 <= cross_terms(data, i, j)[r] <= 1024,
        i == j ==> 0 <= cross_terms(data, i, j)[r],
{
    lemma_ternary_deviation(data, r, i);
    lemma_ternary_deviation(data, r, j);
    let a = deviation(data, r, i);
    let b = deviation(data, r, j);
    lemma_mul_upper_bound(
        if a < 0 { -a } else { a },
        512,
        if b < 0 { -b } else { b },
        512,
    );
    assert(-262144 <= a * b <= 262144) by (nonlinear_arith)
        requires
            (if a < 0 { -a } else { a }) * (if b < 0 { -b } else { b }) <= 512 * 512,
    ;
    lemma_tdiv_bound(a * b, 256, 1024);
    if i == j {
        assert(a * a >= 0) by (nonlinear_arith);
        lemma_tdiv_shrinks(a * b, 256);
    }
}

/// Ternary data with fewer than 2^21 rows of equal length never overflows the `i32` sums
/// of the covariance computation.
pub proof fn lemma_ternary_sums_fit(data: Seq<Vec<i8>>)
    requires
        is_ternary(data),
        rows_have_dim(data),
        data.len() < 0x20_0000,
    ensures
        sums_fit_i32(data),
{
    let n = data.len() as int;
    assert forall|j: int| 0 <= j < data_dim(data) implies running_sums_within(
        #[trigger] column_terms(data, j),
        i32::MIN as int,
        i32::MAX as int,
    ) by {
        let s = column_terms(data, j);
        assert forall|k: int| 0 <= k <= s.len() implies i32::MIN <= #[trigger] sum_of(s.take(k))
            <= i32::MAX by {
            let t = s.take(k);
            assert forall|q: int| 0 <= q < t.len() implies -1 <= #[trigger] t[q] <= 1 by {
                assert(data[q].len() == data_dim(data));
            }
            lemma_sum_bound(t, 1);
        }
    }
    assert forall|r: int, i: int| 0 <= r < data.len() && 0 <= i < data_dim(data) implies in_i32(
        #[trigger] deviation(data, r, i),
    ) by {
        lemma_ternary_deviation(data, r, i);
    }
    assert forall|i: int, j: int| 0 <= i <= j < data_dim(data) implies running_sums_within(
        #[trigger] cross_terms(data, i, j),
        i32::MIN as int,
        i32::MAX as int,
    ) by {
        let s = cross_terms(data, i, j);
        assert forall|k: int| 0 <= k <= s.len() implies i32::MIN <= #[trigger] sum_of(s.take(k))
            <= i32::MAX by {
            let t = s.take(k);
            assert forall|q: int| 0 <= q < t.len() implies -1024 <= #[trigger] t[q] <= 1024 by {
                lemma_ternary_cross_term(data, q, i, j);
            }
            lemma_sum_bound(t, 1024);
        }
    }
}

/// On ternary data with at most `i32::MAX` rows, every covariance lies in `[-2048, 2048]`
/// (that is, within 8.0) and every variance (diagonal entry) is non-negative.
pub proof fn lemma_ternary_covariance_bounds(data: Seq<Vec<i8>>, i: int, j: int)
    requires
        data.len() <= i32::MAX,
        is_ternary(data),
        rows_have_dim(data),
        0 <= i < data_dim(data),
        0 <= j < data_dim(data),
    ensures
        -2048 <= covariance_entry(data, i, j) <= 2048,
        i == j ==> 0 <= covariance_entry(data, i, j),
{
    let a = if i <= j { i } else { j };
    let b = if i <= j { j } else { i };
    let s = cross_terms(data, a, b);
    let n = data.len() as int;
    let d = bessel_divisor(n);
    assert forall|q: int| 0 <= q < s.len() implies -1024 <= #[trigger] s[q] <= 1024 by {
        lemma_ternary_cross_term(data, q, a, b);
    }
    lemma_sum_bound(s, 1024);
    assert(-(2048 * d) <= sum_of(s) <= 2048 * d);
    lemma_tdiv_bound(sum_of(s), d, 2048);
    if i == j {
        assert forall|q: int| 0 <= q < s.len() implies 0 <= #[trigger] s[q] by {
            lemma_ternary_cross_term(data, q, a, b);
        }
        lemma_sum_nonneg(s);
        lemma_tdiv_shrinks(sum_of(s), d);
    }
}

/// In a dataset of at most `i32::MAX` rows, a column whose values are all equal has zero
/// variance and zero covariance with every column.
pub proof fn lemma_constant_column(data: Seq<Vec<i8>>, i: int, c: i8)
    requires
        data.len() <= i32::MAX,
        data.len() >= 1,
        rows_have_dim(data),
        0 <= i < data_dim(data),
        forall|r: int| 0 <= r < data.len() ==> #[trigger] data[r]@[i] == c,
    ensures
        forall|j: int|
            0 <= j < data_dim(data) ==> #[trigger] covariance_entry(data, i, j) == 0
                && covariance_entry(data, j, i) == 0,
{
    let n = data.len() as int;
    let col = column_terms(data, i);
    assert forall|r: int| 0 <= r < col.len() implies #[trigger] col[r] == c by {}
    lemma_sum_const(col, c as int);
    assert(sum_of(col) * 256 == (256 * c) * n) by (nonlinear_arith)
        requires
            sum_of(col) == c * n,
    ;
    lemma_tdiv_exact(256 * c, n);
    assert(column_mean(data, i) == 256 * c);
    assert forall|j: int| 0 <= j < data_dim(data) implies #[trigger] covariance_entry(data, i, j)
        == 0 && covariance_entry(data, j, i) == 0 by {
        let a = if i <= j { i } else { j };
        let b = if i <= j { j } else { i };
        let s = cross_terms(data, a, b);
        assert forall|r: int| 0 <= r < s.len() implies #[trigger] s[r] == 0 by {
            assert(deviation(data, r, i) == 0);
            assert(deviation(data, r, a) * deviation(data, r, b) == 0) by (nonlinear_arith)
                requires
                    deviation(data, r, a) == 0 || deviation(data, r, b) == 0,
            ;
        }
        lemma_sum_zero(s);
    }
}

/// Ternary data with fewer than 2^21 rows of equal length meets `from_data`'s requirement,
/// and its covariance matrix is symmetric with a non-negative diagonal and entries within
/// `[-2048, 2048]`.
pub proof fn lemma_ternary_covariance(data: Seq<Vec<i8>>)
    requires
        is_ternary(data),
        rows_have_dim(data),
        data.len() < 0x20_0000,
    ensures
        sums_fit_i32(data),
        forall|i: int, j: int|
            0 <= i < data_dim(data) && 0 <= j < data_dim(data) ==> {
                &&& #[trigger] covariance_matrix(data)[i][j] == covariance_matrix(data)[j][i]
                &&& -2048 <= covariance_matrix(data)[i][j] <= 2048
            },
        forall|i: int| 0 <= i < data_dim(data) ==> 0 <= #[trigger] covariance_matrix(data)[i][i],
{
    lemma_ternary_sums_fit(data);
    assert forall|i: int, j: int| 0 <= i < data_dim(data) && 0 <= j < data_dim(data) implies {
        &&& #[trigger] covariance_matrix(data)[i][j] == covariance_matrix(data)[j][i]
        &&& -2048 <= covariance_matrix(data)[i][j] <= 2048
    } by {
        lemma_ternary_covariance_bounds(data, i, j);
    }
    assert forall|i: int| 0 <= i < data_dim(data) implies 0 <= #[trigger] covariance_matrix(
        data,
    )[i][i] by {
        lemma_ternary_covariance_bounds(data, i, i);
    }
}

/// The mean of column `i` is `256 * (column sum) / n` rounded toward zero, within
/// `[-32768, 32768]`, and every deviation from it fits comfortably in `i32`.
proof fn lemma_column_mean_exact(data: Seq<Vec<i8>>, i: int)
    requires
        1 <= data.len() <= i32::MAX,
        0 <= i < data_dim(data),
    ensures
        column_mean(data, i) == tdiv(256 * sum_of(column_terms(data, i)), data.len() as int),
        -32768 <= column_mean(data, i) <= 32768,
        forall|r: int| 0 <= r < data.len() ==> -65536 <= #[trigger] deviation(data, r, i) <= 65536,
{
    let s = column_terms(data, i);
    let n = data.len() as int;
    assert forall|q: int| 0 <= q < s.len() implies -128 <= #[trigger] s[q] <= 128 by {}
    lemma_sum_bound(s, 128);
    lemma_tdiv_bound(sum_of(s) * 256, n, 32768);
    assert(sum_of(s) * 256 == 256 * sum_of(s));
}

/// For columns `a <= b`: `256 * d * upper_entry - exact` lies strictly within
/// `256 * n + 256 * d`, where `exact` is the sum of the full products of the deviations and
/// `d` the Bessel divisor.
proof fn lemma_upper_entry_rounding(data: Seq<Vec<i8>>, a: int, b: int)
    requires
        sums_fit_i32(data),
        1 <= data.len() <= i32::MAX,
        0 <= a <= b < data_dim(data),
    ensures
        ({
            let n = data.len() as int;
            let d = bessel_divisor(n);
            let exact = sum_of(
                Seq::new(data.len(), |r: int| deviation(data, r, a) * deviation(data, r, b)),
            );
            -(256 * n + 256 * d) < 256 * d * upper_entry(data, a, b) - exact < 256 * n + 256 * d
        }),
{
    let n = data.len() as int;
    let d = bessel_divisor(n);
    lemma_column_mean_exact(data, a);
    lemma_column_mean_exact(data, b);
    let t = cross_terms(data, a, b);
    let p = Seq::new(data.len(), |r: int| deviation(data, r, a) * deviation(data, r, b));
    let t256 = Seq::new(data.len(), |r: int| 256 * t[r]);
    let e = Seq::new(data.len(), |r: int| t256[r] - p[r]);
    assert forall|r: int| 0 <= r < e.len() implies -255 <= #[trigger] e[r] <= 255 by {
        let x = deviation(data, r, a);
        let y = deviation(data, r, b);
        lemma_product_bound(x, y, 65536, 65536);
        lemma_tdiv_bound(x * y, 256, 0x100_0000);
        lemma_tdiv_rounding(x * y, 256);
        assert(t[r] == tdiv(x * y, 256));
    }
    lemma_sum_scale(t, t256, 256);
    lemma_sum_sub(t256, p, e);
    lemma_sum_bound(e, 255);
    // The whole sum of cross terms fits in `i32`, so the entry is its exact quotient.
    lemma_sum_take_all(t);
    assert(in_i32(sum_of(t.take(t.len() as int))));
    lemma_tdiv_shrinks(sum_of(t), d);
    lemma_tdiv_rounding(sum_of(t), d);
    assert(upper_entry(data, a, b) == tdiv(sum_of(t), d));
    let c = upper_entry(data, a, b) as int;
    assert(sum_of(e) == 256 * sum_of(t) - sum_of(p));
    assert(-255 * n <= sum_of(e) <= 255 * n);
    assert(-d < d * c - sum_of(t) < d);
    assert(256 * d * c - sum_of(p) == 256 * (d * c - sum_of(t)) + sum_of(e)) by (nonlinear_arith)
        requires
            sum_of(e) == 256 * sum_of(t) - sum_of(p),
    ;
}

/// Each covariance entry is the Bessel-corrected sample covariance of the full (unclamped)
/// deviations, up to fixed-point rounding: with `mean_c = 256 * (sum of column c) / n`
/// rounded toward zero and `exact = sum over rows r of (256 x[r][i] - mean_i) *
/// (256 x[r][j] - mean_j)`, the entry `C` of the covariance matrix satisfies
/// `|256 * (n - 1) * C - exact| < 256 * n + 256 * (n - 1)` (with 1 in place of `n - 1` for a
/// single row). For example a column of values 1, -1, -1 has variance 341 (1.33).
pub proof fn lemma_covariance_rounding(data: Seq<Vec<i8>>, i: int, j: int)
    requires
        rows_have_dim(data),
        sums_fit_i32(data),
        1 <= data.len() <= i32::MAX,
        0 <= i < data_dim(data),
        0 <= j < data_dim(data),
    ensures
        ({
            let n = data.len() as int;
            let mean_i = tdiv(256 * sum_of(Seq::new(data.len(), |r: int| data[r]@[i] as int)), n);
            let mean_j = tdiv(256 * sum_of(Seq::new(data.len(), |r: int| data[r]@[j] as int)), n);
            let exact = sum_of(
                Seq::new(
                    data.len(),
                    |r: int| (256 * data[r]@[i] - mean_i) * (256 * data[r]@[j] - mean_j),
                ),
            );
            let d = if n > 1 { n - 1 } else { 1 };
            -(256 * n + 256 * d) < 256 * d * covariance_matrix(data)[i][j] - exact < 256 * n
                + 256 * d
        }),
{
    let a = if i <= j { i } else { j };
    let b = if i <= j { j } else { i };
    lemma_column_mean_exact(data, i);
    lemma_column_mean_exact(data, j);
    lemma_upper_entry_rounding(data, a, b);
    let n = data.len() as int;
    let mean_i = tdiv(256 * sum_of(Seq::new(data.len(), |r: int| data[r]@[i] as int)), n);
    let mean_j = tdiv(256 * sum_of(Seq::new(data.len(), |r: int| data[r]@[j] as int)), n);
    assert(Seq::new(data.len(), |r: int| data[r]@[i] as int) =~= column_terms(data, i));
    assert(Seq::new(data.len(), |r: int| data[r]@[j] as int) =~= column_terms(data, j));
    let stated = Seq::new(
        data.len(),
        |r: int| (256 * data[r]@[i] - mean_i) * (256 * data[r]@[j] - mean_j),
    );
    let p = Seq::new(data.len(), |r: int| deviation(data, r, a) * deviation(data, r, b));
    assert forall|r: int| 0 <= r < stated.len() implies #[trigger] stated[r] == p[r] by {
        let x = deviation(data, r, i);
        let y = deviation(data, r, j);
        assert(x * y == y * x) by (nonlinear_arith);
    }
    assert(stated =~= p);
    assert(covariance_matrix(data)[i][j] == covariance_entry(data, i, j));
}

/// The values `f(row)` of the rows, in order.
pub open spec fn row_terms(rows: Seq<Vec<i8>>, f: spec_fn(Vec<i8>) -> int) -> Seq<int> {
    Seq::new(rows.len(), |r: int| f(rows[r]))
}

/// A sum over the rows does not depend on their order.
proof fn lemma_row_terms_reordered(a: Seq<Vec<i8>>, b: Seq<Vec<i8>>, f: spec_fn(Vec<i8>) -> int)
    requires
        a.to_multiset() == b.to_multiset(),
    ensures
        sum_of(row_terms(a, f)) == sum_of(row_terms(b, f)),
    decreases a.len(),
{
    a.to_multiset_ensures();
    b.to_multiset_ensures();
    if a.len() == 0 {
        assert(row_terms(a, f) =~= Seq::<int>::empty());
        assert(row_terms(b, f) =~= Seq::<int>::empty());
    } else {
        let x = a.last();
        assert(a.contains(x)) by {
            assert(a[a.len() - 1] == x);
        }
        assert(a.to_multiset().count(x) > 0);
        assert(b.to_multiset().count(x) > 0);
        assert(b.contains(x));
        let i = choose|i: int| 0 <= i < b.len() && b[i] == x;
        let a2 = a.drop_last();
        let b2 = b.remove(i);
        assert(a.remove(a.len() - 1) =~= a2);
        b2.to_multiset_ensures();
        a2.to_multiset_ensures();
        assert(a2.to_multiset() == a.to_multiset().remove(x));
        assert(b2.to_multiset() == b.to_multiset().remove(x));
        lemma_row_terms_reordered(a2, b2, f);
        assert(row_terms(a, f).drop_last() =~= row_terms(a2, f));
        assert(row_terms(b, f).remove(i) =~= row_terms(b2, f));
        lemma_sum_remove(row_terms(b, f), i);
    }
}

/// The covariance matrix does not depend on the order of the samples: reordering the rows
/// keeps their lengths equal and every entry the same.
pub proof fn lemma_covariance_row_order(data: Seq<Vec<i8>>, data2: Seq<Vec<i8>>)
    requires
        rows_have_dim(data),
        data2.to_multiset() == data.to_multiset(),
    ensures
        rows_have_dim(data2),
        data_dim(data2) == data_dim(data),
        covariance_matrix(data2) == covariance_matrix(data),
{
    data.to_multiset_ensures();
    data2.to_multiset_ensures();
    let n = data.len() as int;
    assert(data2.len() == n);
    assert forall|r: int| 0 <= r < data2.len() implies #[trigger] data2[r].len() == data_dim(
        data,
    ) by {
        assert(data2.contains(data2[r])) by {
            assert(data2[r] == data2[r]);
        }
        assert(data2.to_multiset().count(data2[r]) > 0);
        assert(data.to_multiset().count(data2[r]) > 0);
        assert(data.contains(data2[r]));
        let q = choose|q: int| 0 <= q < data.len() && data[q] == data2[r];
        assert(data[q].len() == data_dim(data));
    }
    if n > 0 {
        assert(data2[0].len() == data_dim(data));
    }
    let dim = data_dim(data);
    assert forall|j: int| 0 <= j < dim implies #[trigger] column_mean(data2, j) == column_mean(
        data,
        j,
    ) by {
        let f = |row: Vec<i8>| row@[j] as int;
        assert(column_terms(data, j) =~= row_terms(data, f));
        assert(column_terms(data2, j) =~= row_terms(data2, f));
        lemma_row_terms_reordered(data2, data, f);
    }
    assert forall|i: int, j: int| 0 <= i <= j < dim implies #[trigger] sum_of(
        cross_terms(data2, i, j),
    ) == sum_of(cross_terms(data, i, j)) by {
        let mi = column_mean(data, i);
        let mj = column_mean(data, j);
        let g = |row: Vec<i8>| fp_mul_spec(row@[i] * 256 - mi, row@[j] * 256 - mj) as int;
        assert(column_mean(data2, i) == mi && column_mean(data2, j) == mj);
        assert(cross_terms(data, i, j) =~= row_terms(data, g));
        assert(cross_terms(data2, i, j) =~= row_terms(data2, g));
        lemma_row_terms_reordered(data2, data, g);
    }
    assert(covariance_matrix(data2) =~~= covariance_matrix(data));
}

/// Negating every value of a ternary dataset (of at most `i32::MAX` rows) leaves the
/// covariance matrix unchanged: the truncated means change sign with the data.
pub proof fn lemma_covariance_negation(data: Seq<Vec<i8>>, data2: Seq<Vec<i8>>)
    requires
        data.len() <= i32::MAX,
        is_ternary(data),
        rows_have_dim(data),
        data2.len() == data.len(),
        forall|r: int| 0 <= r < data.len() ==> (#[trigger] data2[r]).len() == data[r].len(),
        forall|r: int, j: int|
            0 <= r < data.len() && 0 <= j < data[r].len() ==> #[trigger] data2[r]@[j]
                == -data[r]@[j],
    ensures
        covariance_matrix(data2) == covariance_matrix(data),
{
    let n = data.len() as int;
    let dim = data_dim(data);
    assert(data_dim(data2) == dim);
    assert forall|j: int| 0 <= j < dim implies #[trigger] column_mean(data2, j) == -column_mean(
        data,
        j,
    ) by {
        let s = column_terms(data, j);
        let t = column_terms(data2, j);
        assert forall|r: int| 0 <= r < s.len() implies #[trigger] t[r] == -s[r] by {
            assert(data[r].len() == dim);
        }
        lemma_sum_negate(s, t);
        assert forall|r: int| 0 <= r < s.len() implies -1 <= #[trigger] s[r] <= 1 by {
            assert(data[r].len() == dim);
        }
        lemma_sum_bound(s, 1);
        lemma_tdiv_bound(sum_of(s) * 256, n, 256);
        assert(sum_of(t) * 256 == -(sum_of(s) * 256));
        lemma_tdiv_neg(sum_of(s) * 256, n);
    }
    assert forall|i: int, j: int| 0 <= i <= j < dim implies #[trigger] sum_of(
        cross_terms(data2, i, j),
    ) == sum_of(cross_terms(data, i, j)) by {
        let s = cross_terms(data, i, j);
        let t = cross_terms(data2, i, j);
        assert forall|r: int| 0 <= r < s.len() implies #[trigger] t[r] == s[r] by {
            assert(data[r].len() == dim);
            let a = deviation(data, r, i);
            let b = deviation(data, r, j);
            assert(deviation(data2, r, i) == -a);
            assert(deviation(data2, r, j) == -b);
            assert((-a) * (-b) == a * b) by (nonlinear_arith);
        }
        assert(s =~= t);
    }
    assert(covariance_matrix(data2) =~~= covariance_matrix(data));
}

/// The fixed-point mean of every column of a non-empty dataset.
pub(crate) fn column_means(data: &[Vec<Trit>]) -> (means: Vec<i32>)
    requires
        data@.len() >= 1,
        rows_have_dim(data@),
        sums_fit_i32(data@),
    ensures
        means@.len() == data_dim(data@),
        forall|j: int| 0 <= j < means@.len() ==> #[trigger] means@[j] == column_mean(data@, j),
{
    let n = data.len();
    let dim = data[0].len();
    let mut means: Vec<i32> = Vec::new();
    let mut j: usize = 0;
    while j < dim
        invariant
            j <= dim,
            means@.len() == j,
            forall|c: int| 0 <= c < j ==> #[trigger] means@[c] == 0,
        decreases dim - j,
    {
        means.push(0);
        j = j + 1;
    }
    proof {
        assert forall|c: int| 0 <= c < dim implies #[trigger] means@[c] == sum_of(
            column_terms(data@, c).take(0),
        ) by {
            lemma_sum_take_none(column_terms(data@, c));
        }
    }
    let mut r: usize = 0;
    while r < n
        invariant
            n == data@.len(),
            dim == data_dim(data@),
            rows_have_dim(data@),
            sums_fit_i32(data@),
            r <= n,
            means@.len() == dim,
            forall|c: int|
                0 <= c < dim ==> #[trigger] means@[c] == sum_of(
                    column_terms(data@, c).take(r as int),
                ),
        decreases n - r,
    {
        let row = &data[r];
        assert(data@[r as int].len() == data_dim(data@));
        assert(row@.len() == dim);
        let mut c: usize = 0;
        while c < dim
            invariant
                n == data@.len(),
                dim == data_dim(data@),
                rows_have_dim(data@),
                sums_fit_i32(data@),
                r < n,
                row == data@[r as int],
                row@.len() == dim,
                c <= dim,
                means@.len() == dim,
                forall|k: int|
                    0 <= k < c ==> #[trigger] means@[k] == sum_of(
                        column_terms(data@, k).take(r + 1),
                    ),
                forall|k: int|
                    c <= k < dim ==> #[trigger] means@[k] == sum_of(
                        column_terms(data@, k).take(r as int),
                    ),
            decreases dim - c,
        {
            let ghost terms = column_terms(data@, c as int);
            proof {
                lemma_sum_take_step(terms, r as int);
                assert(running_sums_within(terms, i32::MIN as int, i32::MAX as int));
                assert(i32::MIN <= sum_of(terms.take(r + 1)) <= i32::MAX);
            }
            let updated = means[c] + row[c] as i32;
            means.set(c, updated);
            c = c + 1;
        }
        r = r + 1;
    }
    let mut c: usize = 0;
    while c < dim
        invariant
            n == data@.len(),
            n >= 1,
            dim == data_dim(data@),
            c <= dim,
            means@.len() == dim,
            forall|k: int| 0 <= k < c ==> #[trigger] means@[k] == column_mean(data@, k),
            forall|k: int|
                c <= k < dim ==> #[trigger] means@[k] == sum_of(column_terms(data@, k).take(n as int)),
        decreases dim - c,
    {
        proof {
            lemma_sum_take_all(column_terms(data@, c as int));
        }
        let m = fp_div(means[c], #[verifier::truncate] (n as i32));
        means.set(c, m);
        c = c + 1;
    }
    means
}

/// Running sums of the cross terms: entry `(i, j)`, `i <= j`, holds the sum over the first
/// `r + 1` rows when `(i, j)` comes before `(ii, jj)` in row-major order, else over `r` rows;
/// entries below the diagonal are zero.
spec fn accumulated(data: Seq<Vec<i8>>, m: Seq<Vec<i32>>, r: int, ii: int, jj: int) -> bool {
    &&& forall|i: int, j: int|
        0 <= i <= j < data_dim(data) ==> #[trigger] m[i]@[j] == sum_of(
            cross_terms(data, i, j).take(
                if i < ii || (i == ii && j < jj) {
                    r + 1
                } else {
                    r
                },
            ),
        )
    &&& forall|i: int, j: int| 0 <= j < i < data_dim(data) ==> #[trigger] m[i]@[j] == 0
}

/// A `dim` by `dim` matrix of zeros.
fn zero_matrix(dim: usize) -> (m: Vec<Vec<i32>>)
    ensures
        m@.len() == dim,
        forall|i: int| 0 <= i < dim ==> (#[trigger] m@[i])@.len() == dim,
        forall|i: int, j: int| 0 <= i < dim && 0 <= j < dim ==> #[trigger] m@[i]@[j] == 0,
{
    let mut m: Vec<Vec<i32>> = Vec::new();
    let mut i: usize = 0;
    while i < dim
        invariant
            i <= dim,
            m@.len() == i,
            forall|a: int| 0 <= a < i ==> (#[trigger] m@[a])@.len() == dim,
            forall|a: int, b: int| 0 <= a < i && 0 <= b < dim ==> #[trigger] m@[a]@[b] == 0,
        decreases dim - i,
    {
        let mut row: Vec<i32> = Vec::new();
        let mut j: usize = 0;
        while j < dim
            invariant
                j <= dim,
                row@.len() == j,
                forall|b: int| 0 <= b < j ==> #[trigger] row@[b] == 0,
            decreases dim - j,
        {
            row.push(0);
            j = j + 1;
        }
        m.push(row);
        i = i + 1;
    }
    m
}

/// Covariance matrix for ternary data, computed in fixed-point.
#[derive(Debug)]
pub struct TernaryCovariance {
    dim: usize,
    matrix: Vec<Vec<i32>>,  // fixed-point, symmetric, stored as a full matrix
}

impl View for TernaryCovariance {
    type V = Seq<Seq<i32>>;

    /// The matrix, `dim` square.
    closed spec fn view(&self) -> Seq<Seq<i32>> {
        Seq::new(self.dim as nat, |i: int| Seq::new(self.dim as nat, |j: int| self.matrix@[i]@[j]))
    }
}

impl TernaryCovariance {
    #[verifier::type_invariant]
    spec fn well_formed(&self) -> bool {
        &&& self.matrix@.len() == self.dim
        &&& forall|i: int| 0 <= i < self.dim ==> (#[trigger] self.matrix@[i])@.len() == self.dim
    }

    /// Compute covariance from a dataset (rows = samples, cols = dimensions).
    /// All values should be {-1, 0, +1}; every row must have as many values as the first,
    /// and the running sums the computation keeps in `i32` must fit.
    pub fn from_data(data: &[Vec<Trit>]) -> (cov: Self)
        requires
            rows_have_dim(data@),
            sums_fit_i32(data@),
        ensures
            cov@.len() == data_dim(data@),
            cov@ == covariance_matrix(data@),
            forall|i: int, j: int|
                0 <= i < cov@.len() && 0 <= j < cov@.len() ==> #[trigger] cov@[i][j] == cov@[j][i],
    {
        if data.len() == 0 {
            let cov = Self { dim: 0, matrix: Vec::new() };
            assert(cov@ =~~= covariance_matrix(data@));
            return cov;
        }
        let n = data.len();
        let dim = data[0].len();
        let means = column_means(data);
        let mut cov = zero_matrix(dim);
        proof {
            assert forall|i: int, j: int| 0 <= i <= j < dim implies #[trigger] cov@[i]@[j] == sum_of(
                cross_terms(data@, i, j).take(0),
            ) by {
                lemma_sum_take_none(cross_terms(data@, i, j));
            }
        }
        let mut r: usize = 0;
        while r < n
            invariant
                n == data@.len(),
                n >= 1,
                dim == data_dim(data@),
                rows_have_dim(data@),
                sums_fit_i32(data@),
                r <= n,
                means@.len() == dim,
                forall|k: int| 0 <= k < dim ==> #[trigger] means@[k] == column_mean(data@, k),
                cov@.len() == dim,
                forall|a: int| 0 <= a < dim ==> (#[trigger] cov@[a])@.len() == dim,
                accumulated(data@, cov@, r as int, 0, 0),
            decreases n - r,
        {
            let row = &data[r];
            assert(data@[r as int].len() == data_dim(data@));
            let mut i: usize = 0;
            while i < dim
                invariant
                    n == data@.len(),
                    n >= 1,
                    dim == data_dim(data@),
                    rows_have_dim(data@),
                    sums_fit_i32(data@),
                    r < n,
                    row == data@[r as int],
                    row@.len() == dim,
                    i <= dim,
                    means@.len() == dim,
                    forall|k: int| 0 <= k < dim ==> #[trigger] means@[k] == column_mean(data@, k),
                    cov@.len() == dim,
                    forall|a: int| 0 <= a < dim ==> (#[trigger] cov@[a])@.len() == dim,
                    accumulated(data@, cov@, r as int, i as int, i as int),
                decreases dim - i,
            {
                assert(in_i32(deviation(data@, r as int, i as int)));
                let di: i32 = row[i] as i32 * SCALE - means[i];
                assert(di == deviation(data@, r as int, i as int));
                let mut j: usize = i;
                while j < dim
                    invariant
                        n == data@.len(),
                        n >= 1,
                        dim == data_dim(data@),
                        rows_have_dim(data@),
                        sums_fit_i32(data@),
                        r < n,
                        row == data@[r as int],
                        row@.len() == dim,
                        i < dim,
                        i <= j <= dim,
                        di == deviation(data@, r as int, i as int),
                        means@.len() == dim,
                        forall|k: int|
                            0 <= k < dim ==> #[trigger] means@[k] == column_mean(data@, k),
                        cov@.len() == dim,
                        forall|a: int| 0 <= a < dim ==> (#[trigger] cov@[a])@.len() == dim,
                        accumulated(data@, cov@, r as int, i as int, j as int),
                    decreases dim - j,
                {
                    assert(in_i32(deviation(data@, r as int, j as int)));
                    let dj: i32 = row[j] as i32 * SCALE - means[j];
                    assert(dj == deviation(data@, r as int, j as int));
                    let val = fp_mul(di, dj);
                    let ghost terms = cross_terms(data@, i as int, j as int);
                    proof {
                        assert(val == terms[r as int]);
                        lemma_sum_take_step(terms, r as int);
                        assert(running_sums_within(terms, i32::MIN as int, i32::MAX as int));
                        assert(i32::MIN <= sum_of(terms.take(r + 1)) <= i32::MAX);
                        assert(cov@[i as int]@[j as int] == sum_of(terms.take(r as int)));
                    }
                    let updated = cov[i][j] + val;
                    cov[i][j] = updated;
                    j = j + 1;
                }
                i = i + 1;
            }
            proof {
                let m = cov@;
                assert forall|a: int, b: int| 0 <= a <= b < dim implies #[trigger] m[a]@[b]
                    == sum_of(cross_terms(data@, a, b).take(r + 1)) by {
                    assert(a < dim);
                }
            }
            r = r + 1;
        }
        let denom: i128 = if n > 1 {
            (n - 1) as i128
        } else {
            1
        };
        assert(denom == bessel_divisor(n as int));
        proof {
            assert forall|a: int, b: int| 0 <= a <= b < dim implies #[trigger] cov@[a]@[b] == sum_of(
                cross_terms(data@, a, b),
            ) by {
                lemma_sum_take_all(cross_terms(data@, a, b));
            }
        }
        let mut i: usize = 0;
        while i < dim
            invariant
                n == data@.len(),
                dim == data_dim(data@),
                denom == bessel_divisor(n as int),
                i <= dim,
                cov@.len() == dim,
                forall|a: int| 0 <= a < dim ==> (#[trigger] cov@[a])@.len() == dim,
                forall|a: int, b: int|
                    0 <= a < i && 0 <= b < dim ==> #[trigger] cov@[a]@[b] == covariance_entry(
                        data@,
                        a,
                        b,
                    ),
                forall|a: int, b: int|
                    i <= a < dim && 0 <= b < i ==> #[trigger] cov@[a]@[b] == covariance_entry(
                        data@,
                        a,
                        b,
                    ),
                forall|a: int, b: int|
                    i <= a <= b < dim ==> #[trigger] cov@[a]@[b] == sum_of(
                        cross_terms(data@, a, b),
                    ),
            decreases dim - i,
        {
            let mut j: usize = i;
            while j < dim
                invariant
                    n == data@.len(),
                    dim == data_dim(data@),
                    denom == bessel_divisor(n as int),
                    i < dim,
                    i <= j <= dim,
                    cov@.len() == dim,
                    forall|a: int| 0 <= a < dim ==> (#[trigger] cov@[a])@.len() == dim,
                    forall|a: int, b: int|
                        0 <= a < i && 0 <= b < dim ==> #[trigger] cov@[a]@[b] == covariance_entry(
                            data@,
                            a,
                            b,
                        ),
                    forall|a: int, b: int|
                        i <= a < dim && 0 <= b < i ==> #[trigger] cov@[a]@[b] == covariance_entry(
                            data@,
                            a,
                            b,
                        ),
                    forall|a: int, b: int|
                        i < a <= b < dim ==> #[trigger] cov@[a]@[b] == sum_of(
                            cross_terms(data@, a, b),
                        ),
                    forall|b: int|
                        i <= b < j ==> #[trigger] cov@[i as int]@[b] == covariance_entry(
                            data@,
                            i as int,
                            b,
                        ),
                    forall|b: int|
                        i <= b < j ==> #[trigger] cov@[b]@[i as int] == covariance_entry(
                            data@,
                            b,
                            i as int,
                        ),
                    forall|b: int|
                        j <= b < dim ==> #[trigger] cov@[i as int]@[b] == sum_of(
                            cross_terms(data@, i as int, b),
                        ),
                decreases dim - j,
            {
                let total = cov[i][j];
                proof {
                    lemma_tdiv_shrinks(total as int, denom as int);
                }
                let e = ((total as i128) / denom) as i32;
                cov[i][j] = e;
                cov[j][i] = e;
                j = j + 1;
            }
            i = i + 1;
        }
        let cov = Self { dim, matrix: cov };
        assert(cov@ =~~= covariance_matrix(data@));
        cov
    }

    /// The matrix is square: every row has `self@.len()` entries.
    pub proof fn lemma_square(&self)
        ensures
            forall|i: int| 0 <= i < self@.len() ==> (#[trigger] self@[i]).len() == self@.len(),
    {
    }

    /// The stored matrix, row by row.
    pub(crate) fn matrix_rows(&self) -> (m: &Vec<Vec<i32>>)
        ensures
            m@.len() == self@.len(),
            forall|i: int| 0 <= i < self@.len() ==> (#[trigger] m@[i])@ == self@[i],
    {
        proof {
            use_type_invariant(self);
            assert forall|i: int| 0 <= i < self@.len() implies (#[trigger] self.matrix@[i])@
                == self@[i] by {
                assert(self.matrix@[i]@ =~= self@[i]);
            }
        }
        &self.matrix
    }

    /// Dimension of the covariance matrix.
    pub fn dim(&self) -> (d: usize)
        ensures
            d == self@.len(),
    {
        self.dim
    }

    /// Covariance value at `(i, j)`, in fixed point.
    pub fn get_fp(&self, i: usize, j: usize) -> (v: i32)
        requires
            i < self@.len(),
            j < self@.len(),
        ensures
            v == self@[i as int][j as int],
    {
        proof {
            use_type_invariant(self);
        }
        self.matrix[i][j]
    }
}

impl Clone for TernaryCovariance {
    fn clone(&self) -> (c: Self)
        ensures
            c@ == self@,
    {
        proof {
            use_type_invariant(self);
        }
        let c = Self { dim: self.dim, matrix: copy_matrix(&self.matrix) };
        assert(c@ =~~= self@);
        c
    }
}

} // verus!

//! Eigenvalue decomposition of a symmetric fixed-point matrix by power iteration with
//! deflation.
use crate::covariance::TernaryCovariance;
use crate::fixed::{
    clamp, fp_div, fp_div_spec, fp_mul, fp_mul_spec, fp_sqrt, fp_sqrt_spec, in_i32, in_i64,
    lemma_product_bound, lemma_tdiv_bound, lemma_tdiv_rounding, lemma_tdiv_shrinks, tdiv,
    wide_product, SCALE, SQRT_INPUT_MAX,
};
use crate::matrix::{copy_matrix, rows_view};
use crate::sums::{
    lemma_sum_bound, lemma_sum_nonneg, lemma_sum_take_all, lemma_sum_take_none,
    lemma_sum_take_step, running_sums_within, sum_of,
};
use vstd::prelude::*;

verus! {

/// Largest magnitude a vector component keeps through power iteration (4.0 in fixed point).
pub const COMPONENT_LIMIT: i32 = 1024;

/// Number of power-iteration steps per eigenpair.
pub const POWER_STEPS: usize = 100;

/// `m` has at least `dim` rows of at least `dim` values each.
pub open spec fn covers(m: Seq<Seq<i32>>, dim: int) -> bool {
    &&& m.len() >= dim
    &&& forall|i: int| 0 <= i < dim ==> (#[trigger] m[i]).len() >= dim
}

/// The rounded fixed-point products `row[j] * v[j] / 256`, for `j < dim`.
pub open spec fn product_terms(row: Seq<i32>, v: Seq<i32>, dim: int) -> Seq<int> {
    Seq::new(dim as nat, |j: int| tdiv(row[j] * v[j], 256))
}

/// The fixed-point dot product of `row` and `v` over the first `dim` entries.
pub open spec fn row_product(row: Seq<i32>, v: Seq<i32>, dim: int) -> int {
    sum_of(product_terms(row, v, dim))
}

/// `m v`, each component clamped to `[-1024, 1024]`.
pub open spec fn clamped_product(m: Seq<Seq<i32>>, v: Seq<i32>, dim: int) -> Seq<i32> {
    Seq::new(dim as nat, |i: int| clamp(row_product(m[i], v, dim), -1024, 1024) as i32)
}

/// The squares of the components of `v`.
pub open spec fn square_terms(v: Seq<i32>) -> Seq<int> {
    Seq::new(v.len(), |j: int| v[j] * v[j])
}

/// The squared length of `v` (scale 2^16).
pub open spec fn norm_sq(v: Seq<i32>) -> int {
    sum_of(square_terms(v))
}

/// The fixed-point length of `v`: the fixed-point square root of `norm_sq(v) / 256`.
pub open spec fn norm_of(v: Seq<i32>) -> int {
    fp_sqrt_spec(tdiv(norm_sq(v), 256) as i32 as int)
}

/// `v` divided by its length, each component clamped to `[-1024, 1024]`; `v` itself when
/// its squared length or its length is zero.
pub open spec fn normalized(v: Seq<i32>) -> Seq<i32> {
    if norm_sq(v) == 0 || norm_of(v) <= 0 {
        v
    } else {
        Seq::new(
            v.len(),
            |j: int| clamp(fp_div_spec(v[j] as int, norm_of(v)) as int, -1024, 1024) as i32,
        )
    }
}

/// Normalizing `v` overflows nothing: the running sum of squares fits in `i64`, and the
/// square root's input is at most `SQRT_INPUT_MAX`.
pub open spec fn normalize_safe(v: Seq<i32>) -> bool {
    &&& running_sums_within(square_terms(v), i64::MIN as int, i64::MAX as int)
    &&& (norm_sq(v) == 0 || tdiv(norm_sq(v), 256) as i32 <= SQRT_INPUT_MAX)
}

/// One power-iteration step: `m v`, clamped, then normalized.
pub open spec fn power_step(m: Seq<Seq<i32>>, v: Seq<i32>, dim: int) -> Seq<i32> {
    normalized(clamped_product(m, v, dim))
}

/// The running sums of every row product of `m` and `v` fit in `i64`.
pub open spec fn products_safe(m: Seq<Seq<i32>>, v: Seq<i32>, dim: int) -> bool {
    forall|i: int|
        0 <= i < dim ==> running_sums_within(
            #[trigger] product_terms(m[i], v, dim),
            i64::MIN as int,
            i64::MAX as int,
        )
}

/// A power-iteration step from `v` overflows nothing.
pub open spec fn power_step_safe(m: Seq<Seq<i32>>, v: Seq<i32>, dim: int) -> bool {
    &&& products_safe(m, v, dim)
    &&& normalize_safe(clamped_product(m, v, dim))
}

/// The starting vector: every component 1.0.
pub open spec fn start_vector(dim: int) -> Seq<i32> {
    Seq::new(dim as nat, |i: int| 256i32)
}

/// The vector after `t` power-iteration steps from the normalized starting vector.
pub open spec fn iterate(m: Seq<Seq<i32>>, dim: int, t: nat) -> Seq<i32>
    decreases t,
{
    if t == 0 {
        normalized(start_vector(dim))
    } else {
        power_step(m, iterate(m, dim, (t - 1) as nat), dim)
    }
}

/// The first `t` power-iteration steps, and the first normalization, overflow nothing.
pub open spec fn iterate_safe(m: Seq<Seq<i32>>, dim: int, t: nat) -> bool
    decreases t,
{
    if t == 0 {
        normalize_safe(start_vector(dim))
    } else {
        iterate_safe(m, dim, (t - 1) as nat) && power_step_safe(
            m,
            iterate(m, dim, (t - 1) as nat),
            dim,
        )
    }
}

/// The terms of the Rayleigh quotient `v . (m v)`: `v[i] * (m v)[i] / 256`, rounded.
pub open spec fn rayleigh_terms(m: Seq<Seq<i32>>, v: Seq<i32>, dim: int) -> Seq<int> {
    Seq::new(dim as nat, |i: int| tdiv(v[i] * row_product(m[i], v, dim), 256))
}

/// The eigenvalue estimate for `v`: the Rayleigh quotient, clamped to `i32`.
pub open spec fn rayleigh(m: Seq<Seq<i32>>, v: Seq<i32>, dim: int) -> i32 {
    clamp(sum_of(rayleigh_terms(m, v, dim)), i32::MIN as int, i32::MAX as int) as i32
}

/// Computing the Rayleigh quotient overflows nothing in `i64`.
pub open spec fn rayleigh_safe(m: Seq<Seq<i32>>, v: Seq<i32>, dim: int) -> bool {
    &&& products_safe(m, v, dim)
    &&& forall|i: int| 0 <= i < dim ==> in_i64(v[i] * #[trigger] row_product(m[i], v, dim))
    &&& running_sums_within(rayleigh_terms(m, v, dim), i64::MIN as int, i64::MAX as int)
}

/// The eigenpair that `iters` steps of power iteration give for `m`.
pub open spec fn power_pair(m: Seq<Seq<i32>>, dim: int, iters: nat) -> (i32, Seq<i32>) {
    (rayleigh(m, iterate(m, dim, iters), dim), iterate(m, dim, iters))
}

/// Power iteration on `m` overflows nothing.
pub open spec fn power_safe(m: Seq<Seq<i32>>, dim: int, iters: nat) -> bool {
    iterate_safe(m, dim, iters) && rayleigh_safe(m, iterate(m, dim, iters), dim)
}

/// The fixed-point `val * vec[i] * vec[j]` that deflation subtracts from entry `(i, j)`.
pub open spec fn outer_term(val: i32, vec: Seq<i32>, i: int, j: int) -> int {
    fp_mul_spec(fp_mul_spec(val as int, vec[i] as int) as int, vec[j] as int) as int
}

/// `m - val * vec * vec^T` in fixed point, as `i32`.
pub open spec fn deflated(m: Seq<Seq<i32>>, val: i32, vec: Seq<i32>, dim: int) -> Seq<Seq<i32>> {
    Seq::new(
        dim as nat,
        |i: int| Seq::new(dim as nat, |j: int| (m[i][j] - outer_term(val, vec, i, j)) as i32),
    )
}

/// Deflating `m` by `val * vec * vec^T` overflows no `i32` subtraction.
pub open spec fn deflate_safe(m: Seq<Seq<i32>>, val: i32, vec: Seq<i32>, dim: int) -> bool {
    forall|i: int, j: int|
        0 <= i < dim && 0 <= j < dim ==> in_i32(#[trigger] m[i][j] - outer_term(val, vec, i, j))
}

/// Every running total `s[0] + ... + s[k - 1]` with `k <= j` fits in `i64`.
spec fn running_sums_fit_upto(s: Seq<int>, j: int) -> bool {
    forall|k: int| 0 <= k <= j ==> in_i64(#[trigger] sum_of(s.take(k)))
}

/// Normalize `v` to fixed-point length 1.0, clamping each component to `[-1024, 1024]`;
/// `v` stays as it is when its squared length or its length is zero. Answers `false`, in
/// place of overflowing, exactly when normalizing `v` would overflow.
fn normalize_vec(v: &mut Vec<i32>) -> (ok: bool)
    ensures
        ok == normalize_safe(old(v)@),
        ok ==> final(v)@ == normalized(old(v)@),
{
    let ghost v0 = v@;
    let ghost squares = square_terms(v0);
    let mut norm_sq: i64 = 0;
    let mut j: usize = 0;
    proof {
        lemma_sum_take_none(squares);
    }
    while j < v.len()
        invariant
            v@ == v0,
            squares == square_terms(v0),
            j <= v0.len(),
            norm_sq == sum_of(squares.take(j as int)),
            running_sums_fit_upto(squares, j as int),
        decreases v0.len() - j,
    {
        let x = v[j];
        proof {
            lemma_sum_take_step(squares, j as int);
            lemma_product_bound(x as int, x as int, 0x8000_0000, 0x8000_0000);
        }
        match norm_sq.checked_add((x as i64) * (x as i64)) {
            Some(t) => {
                norm_sq = t;
            },
            None => {
                assert(!in_i64(sum_of(squares.take(j + 1))));
                return false;
            },
        }
        j = j + 1;
    }
    proof {
        lemma_sum_take_all(squares);
        assert(running_sums_within(squares, i64::MIN as int, i64::MAX as int));
    }
    if norm_sq == 0 {
        return true;
    }
    let scaled: i64 = norm_sq / (SCALE as i64);
    let root_input: i32 = #[verifier::truncate] (scaled as i32);
    if root_input > SQRT_INPUT_MAX {
        return false;
    }
    let norm = fp_sqrt(root_input);
    if norm > 0 {
        let mut j: usize = 0;
        while j < v.len()
            invariant
                v@.len() == v0.len(),
                norm as int == norm_of(v0),
                norm > 0,
                j <= v0.len(),
                forall|k: int| j <= k < v0.len() ==> #[trigger] v@[k] == v0[k],
                forall|k: int|
                    0 <= k < j ==> #[trigger] v@[k] == clamp(
                        fp_div_spec(v0[k] as int, norm_of(v0)) as int,
                        -1024,
                        1024,
                    ) as i32,
            decreases v0.len() - j,
        {
            let mut x = fp_div(v[j], norm);
            if x < -COMPONENT_LIMIT {
                x = -COMPONENT_LIMIT;
            } else if x > COMPONENT_LIMIT {
                x = COMPONENT_LIMIT;
            }
            v.set(j, x);
            j = j + 1;
        }
        assert(v@ =~= normalized(v0));
    }
    true
}

/// The fixed-point dot product of `row` and `v` over the first `dim` entries, summed in
/// `i64`; `None`, in place of overflowing, exactly when a running sum leaves `i64`.
fn row_product_exec(row: &Vec<i32>, v: &Vec<i32>, dim: usize) -> (s: Option<i64>)
    requires
        row@.len() >= dim,
        v@.len() >= dim,
    ensures
        s is Some <==> running_sums_within(
            product_terms(row@, v@, dim as int),
            i64::MIN as int,
            i64::MAX as int,
        ),
        s matches Some(x) ==> x == row_product(row@, v@, dim as int),
{
    let ghost terms = product_terms(row@, v@, dim as int);
    let mut acc: i64 = 0;
    let mut j: usize = 0;
    proof {
        lemma_sum_take_none(terms);
    }
    while j < dim
        invariant
            row@.len() >= dim,
            v@.len() >= dim,
            terms == product_terms(row@, v@, dim as int),
            j <= dim,
            acc == sum_of(terms.take(j as int)),
            running_sums_fit_upto(terms, j as int),
        decreases dim - j,
    {
        proof {
            lemma_sum_take_step(terms, j as int);
        }
        match acc.checked_add(wide_product(row[j], v[j])) {
            Some(t) => {
                acc = t;
            },
            None => {
                assert(!in_i64(sum_of(terms.take(j + 1))));
                return None;
            },
        }
        j = j + 1;
    }
    proof {
        lemma_sum_take_all(terms);
    }
    Some(acc)
}

/// `m v` over the first `dim` rows and columns, each component clamped to `[-1024, 1024]`;
/// `None`, in place of overflowing, exactly when a row product overflows.
fn clamped_product_exec(m: &Vec<Vec<i32>>, v: &Vec<i32>, dim: usize) -> (w: Option<Vec<i32>>)
    requires
        covers(rows_view(m@), dim as int),
        v@.len() >= dim,
    ensures
        w is Some <==> products_safe(rows_view(m@), v@, dim as int),
        w matches Some(w) ==> w@ == clamped_product(rows_view(m@), v@, dim as int),
{
    let ghost mv = rows_view(m@);
    let mut w: Vec<i32> = Vec::new();
    let mut i: usize = 0;
    while i < dim
        invariant
            mv == rows_view(m@),
            covers(mv, dim as int),
            v@.len() >= dim,
            i <= dim,
            w@.len() == i,
            forall|k: int|
                0 <= k < i ==> running_sums_within(
                    #[trigger] product_terms(mv[k], v@, dim as int),
                    i64::MIN as int,
                    i64::MAX as int,
                ),
            forall|k: int|
                0 <= k < i ==> #[trigger] w@[k] == clamp(
                    row_product(mv[k], v@, dim as int),
                    -1024,
                    1024,
                ) as i32,
        decreases dim - i,
    {
        assert(mv[i as int] == m@[i as int]@);
        assert(mv[i as int].len() >= dim);
        let s = match row_product_exec(&m[i], v, dim) {
            Some(s) => s,
            None => {
                assert(!running_sums_within(
                    product_terms(mv[i as int], v@, dim as int),
                    i64::MIN as int,
                    i64::MAX as int,
                ));
                return None;
            },
        };
        let c: i32 = if s < -(COMPONENT_LIMIT as i64) {
            -COMPONENT_LIMIT
        } else if s > COMPONENT_LIMIT as i64 {
            COMPONENT_LIMIT
        } else {
            s as i32
        };
        w.push(c);
        i = i + 1;
    }
    assert(w@ =~= clamped_product(mv, v@, dim as int));
    Some(w)
}

/// Every iterate has `dim` components, each within `[-1024, 1024]`.
pub proof fn lemma_iterate_shape(m: Seq<Seq<i32>>, dim: int, t: nat)
    requires
        dim >= 0,
    ensures
        iterate(m, dim, t).len() == dim,
        forall|i: int|
            0 <= i < dim ==> -1024 <= #[trigger] iterate(m, dim, t)[i] <= 1024,
    decreases t,
{
    if t > 0 {
        lemma_iterate_shape(m, dim, (t - 1) as nat);
    }
}

/// The safety of `t` steps includes the safety of every earlier step.
pub proof fn lemma_iterate_safe_prefix(m: Seq<Seq<i32>>, dim: int, t: nat, u: nat)
    requires
        iterate_safe(m, dim, t),
        u <= t,
    ensures
        iterate_safe(m, dim, u),
    decreases t,
{
    if u < t {
        lemma_iterate_safe_prefix(m, dim, (t - 1) as nat, u);
    }
}

/// Top eigenpair of `mat` (its first `dim` rows and columns) by `iters` steps of power
/// iteration from the normalized all-ones vector, with the Rayleigh quotient as eigenvalue;
/// `None`, in place of overflowing, exactly when some step would overflow.
fn power_iteration(mat: &Vec<Vec<i32>>, dim: usize, iters: usize) -> (pair: Option<
    (i32, Vec<i32>),
>)
    requires
        covers(rows_view(mat@), dim as int),
    ensures
        pair is Some <==> power_safe(rows_view(mat@), dim as int, iters as nat),
        pair matches Some(p) ==> p.0 == power_pair(rows_view(mat@), dim as int, iters as nat).0
            && p.1@ == power_pair(rows_view(mat@), dim as int, iters as nat).1,
{
    let ghost m = rows_view(mat@);
    let mut v: Vec<i32> = Vec::new();
    let mut i: usize = 0;
    while i < dim
        invariant
            i <= dim,
            v@.len() == i,
            forall|k: int| 0 <= k < i ==> #[trigger] v@[k] == SCALE,
        decreases dim - i,
    {
        v.push(SCALE);
        i = i + 1;
    }
    assert(v@ =~= start_vector(dim as int));
    if !normalize_vec(&mut v) {
        proof {
            if iterate_safe(m, dim as int, iters as nat) {
                lemma_iterate_safe_prefix(m, dim as int, iters as nat, 0);
            }
        }
        return None;
    }
    let mut t: usize = 0;
    while t < iters
        invariant
            m == rows_view(mat@),
            covers(m, dim as int),
            t <= iters,
            iterate_safe(m, dim as int, t as nat),
            v@ == iterate(m, dim as int, t as nat),
        decreases iters - t,
    {
        proof {
            lemma_iterate_shape(m, dim as int, t as nat);
        }
        let mut w = match clamped_product_exec(mat, &v, dim) {
            Some(w) => w,
            None => {
                proof {
                    if iterate_safe(m, dim as int, iters as nat) {
                        lemma_iterate_safe_prefix(m, dim as int, iters as nat, (t + 1) as nat);
                    }
                }
                return None;
            },
        };
        if !normalize_vec(&mut w) {
            proof {
                if iterate_safe(m, dim as int, iters as nat) {
                    lemma_iterate_safe_prefix(m, dim as int, iters as nat, (t + 1) as nat);
                }
            }
            return None;
        }
        v = w;
        t = t + 1;
    }
    proof {
        lemma_iterate_shape(m, dim as int, iters as nat);
    }
    let ghost vv = v@;
    let mut mv: Vec<i64> = Vec::new();
    let mut i: usize = 0;
    while i < dim
        invariant
            m == rows_view(mat@),
            covers(m, dim as int),
            vv == v@,
            vv == iterate(m, dim as int, iters as nat),
            iterate_safe(m, dim as int, iters as nat),
            v@.len() == dim,
            i <= dim,
            mv@.len() == i,
            forall|k: int|
                0 <= k < i ==> running_sums_within(
                    #[trigger] product_terms(m[k], vv, dim as int),
                    i64::MIN as int,
                    i64::MAX as int,
                ),
            forall|k: int| 0 <= k < i ==> #[trigger] mv@[k] == row_product(m[k], vv, dim as int),
        decreases dim - i,
    {
        assert(m[i as int] == mat@[i as int]@);
        let s = match row_product_exec(&mat[i], &v, dim) {
            Some(s) => s,
            None => {
                assert(!running_sums_within(
                    product_terms(m[i as int], vv, dim as int),
                    i64::MIN as int,
                    i64::MAX as int,
                ));
                return None;
            },
        };
        mv.push(s);
        i = i + 1;
    }
    assert(products_safe(m, vv, dim as int));
    let ghost terms = rayleigh_terms(m, vv, dim as int);
    let mut lambda: i64 = 0;
    let mut i: usize = 0;
    proof {
        lemma_sum_take_none(terms);
    }
    while i < dim
        invariant
            m == rows_view(mat@),
            vv == v@,
            vv == iterate(m, dim as int, iters as nat),
            iterate_safe(m, dim as int, iters as nat),
            v@.len() == dim,
            products_safe(m, vv, dim as int),
            terms == rayleigh_terms(m, vv, dim as int),
            mv@.len() == dim,
            forall|k: int| 0 <= k < dim ==> #[trigger] mv@[k] == row_product(m[k], vv, dim as int),
            i <= dim,
            lambda == sum_of(terms.take(i as int)),
            running_sums_fit_upto(terms, i as int),
            forall|k: int| 0 <= k < i ==> in_i64(vv[k] * #[trigger] row_product(m[k], vv, dim as int)),
        decreases dim - i,
    {
        proof {
            lemma_sum_take_step(terms, i as int);
        }
        let p: i64 = match (v[i] as i64).checked_mul(mv[i]) {
            Some(p) => p,
            None => {
                assert(!in_i64(vv[i as int] * row_product(m[i as int], vv, dim as int)));
                return None;
            },
        };
        match lambda.checked_add(p / (SCALE as i64)) {
            Some(x) => {
                lambda = x;
            },
            None => {
                assert(!in_i64(sum_of(terms.take(i + 1))));
                return None;
            },
        }
        i = i + 1;
    }
    proof {
        lemma_sum_take_all(terms);
        assert(rayleigh_safe(m, vv, dim as int));
    }
    let val: i32 = if lambda < i32::MIN as i64 {
        i32::MIN
    } else if lambda > i32::MAX as i64 {
        i32::MAX
    } else {
        lambda as i32
    };
    Some((val, v))
}

/// Each power-iteration step works on the previous step's vector: the vector after `t + 1`
/// steps is one step (`m v`, clamped, normalized) from the vector after `t` steps, the first
/// vector is the normalized all-ones vector, and the eigenvalue is the Rayleigh quotient of
/// the final vector.
pub proof fn lemma_power_steps_chain(m: Seq<Seq<i32>>, dim: int, t: nat)
    ensures
        power_pair(m, dim, t + 1).1 == power_step(m, power_pair(m, dim, t).1, dim),
        power_pair(m, dim, 0).1 == normalized(start_vector(dim)),
        power_pair(m, dim, t).0 == rayleigh(m, power_pair(m, dim, t).1, dim),
{
}

/// One power step multiplies by the matrix: before normalizing, component `i` is
/// `sum_j m[i][j] * v[j] / 256` (each product rounded toward zero), clamped to
/// `[-1024, 1024]`.
pub proof fn lemma_power_step_product(m: Seq<Seq<i32>>, v: Seq<i32>, dim: int)
    requires
        dim >= 0,
    ensures
        power_step(m, v, dim) == normalized(
            Seq::new(
                dim as nat,
                |i: int|
                    clamp(
                        sum_of(Seq::new(dim as nat, |j: int| tdiv(m[i][j] * v[j], 256))),
                        -1024,
                        1024,
                    ) as i32,
            ),
        ),
{
    let w = Seq::new(
        dim as nat,
        |i: int|
            clamp(
                sum_of(Seq::new(dim as nat, |j: int| tdiv(m[i][j] * v[j], 256))),
                -1024,
                1024,
            ) as i32,
    );
    assert forall|i: int| 0 <= i < dim implies #[trigger] clamped_product(m, v, dim)[i] == w[i] by {
        assert(product_terms(m[i], v, dim) =~= Seq::new(
            dim as nat,
            |j: int| tdiv(m[i][j] * v[j], 256),
        ));
    }
    assert(clamped_product(m, v, dim) =~= w);
}

/// `b * tdiv(a, b)` and `a` differ by less than `b`, for the two rounded products of
/// deflation.
proof fn lemma_outer_term_rounding(val: int, vi: int, vj: int)
    requires
        -0x800_0000 < val < 0x800_0000,
        -1024 <= vi <= 1024,
        -1024 <= vj <= 1024,
    ensures
        -(65536 + 256 * (if vj < 0 { -vj } else { vj })) < 65536 * fp_mul_spec(
            fp_mul_spec(val, vi) as int,
            vj,
        ) - val * vi * vj < 65536 + 256 * (if vj < 0 { -vj } else { vj }),
{
    lemma_product_bound(val, vi, 0x7FF_FFFF, 1024);
    let a = tdiv(val * vi, 256);
    lemma_tdiv_bound(val * vi, 256, 0x1FFF_FFFF);
    lemma_tdiv_rounding(val * vi, 256);
    assert(fp_mul_spec(val, vi) == a);
    lemma_product_bound(a, vj, 0x1FFF_FFFF, 1024);
    let o = tdiv(a * vj, 256);
    lemma_tdiv_bound(a * vj, 256, 0x7FFF_FFFC);
    lemma_tdiv_rounding(a * vj, 256);
    assert(fp_mul_spec(a, vj) == o);
    let e1 = 256 * a - val * vi;
    let e2 = 256 * o - a * vj;
    assert(65536 * o - val * vi * vj == 256 * e2 + vj * e1) by (nonlinear_arith)
        requires
            e1 == 256 * a - val * vi,
            e2 == 256 * o - a * vj,
    ;
    assert(-(256 * (if vj < 0 { -vj } else { vj })) <= vj * e1 <= 256 * (if vj < 0 {
        -vj
    } else {
        vj
    })) by (nonlinear_arith)
        requires
            -256 < e1 < 256,
    ;
}

/// `|x| <= c` for every component.
pub open spec fn components_within(v: Seq<i32>, c: int) -> bool {
    forall|i: int| 0 <= i < v.len() ==> -c <= #[trigger] v[i] <= c
}

/// The largest dimension for which power iteration provably overflows nothing.
pub open spec fn safe_dim_limit() -> int {
    8192
}

/// A sum of at most 8192 terms each within `[-c, c]` lies within `[-8192 c, 8192 c]`, and so
/// does every running total.
proof fn lemma_short_sum_bound(s: Seq<int>, c: int)
    requires
        c >= 0,
        s.len() <= 8192,
        forall|q: int| 0 <= q < s.len() ==> -c <= #[trigger] s[q] <= c,
    ensures
        -8192 * c <= sum_of(s) <= 8192 * c,
        forall|k: int| 0 <= k <= s.len() ==> -8192 * c <= #[trigger] sum_of(s.take(k)) <= 8192 * c,
{
    lemma_sum_bound(s, c);
    assert(c * s.len() <= 8192 * c && -c * s.len() >= -8192 * c) by (nonlinear_arith)
        requires
            c >= 0,
            s.len() <= 8192,
    ;
    assert forall|k: int| 0 <= k <= s.len() implies -8192 * c <= #[trigger] sum_of(s.take(k))
        <= 8192 * c by {
        let t = s.take(k);
        assert forall|q: int| 0 <= q < t.len() implies -c <= #[trigger] t[q] <= c by {
            assert(t[q] == s[q]);
        }
        lemma_sum_bound(t, c);
        assert(c * t.len() <= 8192 * c && -c * t.len() >= -8192 * c) by (nonlinear_arith)
            requires
                c >= 0,
                t.len() <= 8192,
        ;
    }
}

/// Normalizing a vector of at most 8192 components, each within `[-1024, 1024]`, overflows
/// nothing.
pub proof fn lemma_normalize_safe_small(v: Seq<i32>)
    requires
        v.len() <= safe_dim_limit(),
        components_within(v, 1024),
    ensures
        normalize_safe(v),
{
    let sq = square_terms(v);
    assert forall|q: int| 0 <= q < sq.len() implies 0 <= #[trigger] sq[q] <= 0x10_0000 by {
        lemma_product_bound(v[q] as int, v[q] as int, 1024, 1024);
        assert(0 <= v[q] * v[q]) by (nonlinear_arith);
    }
    lemma_short_sum_bound(sq, 0x10_0000);
    lemma_sum_nonneg(sq);
    let n = norm_sq(v);
    lemma_tdiv_shrinks(n, 256);
    lemma_tdiv_bound(n, 256, 0x400_0000);
}

/// With at most 8192 dimensions and a vector within `[-1024, 1024]`, the row products of any
/// `i32` matrix and the Rayleigh quotient overflow nothing in `i64`.
pub proof fn lemma_products_safe_small(m: Seq<Seq<i32>>, v: Seq<i32>, dim: int)
    requires
        0 <= dim <= safe_dim_limit(),
        covers(m, dim),
        v.len() == dim,
        components_within(v, 1024),
    ensures
        products_safe(m, v, dim),
        rayleigh_safe(m, v, dim),
{
    assert forall|i: int| 0 <= i < dim implies running_sums_within(
        #[trigger] product_terms(m[i], v, dim),
        i64::MIN as int,
        i64::MAX as int,
    ) && -0x8000_0000_0000 <= row_product(m[i], v, dim) <= 0x8000_0000_0000 by {
        let terms = product_terms(m[i], v, dim);
        assert(m[i].len() >= dim);
        assert forall|q: int| 0 <= q < terms.len() implies -0x2_0000_0000 <= #[trigger] terms[q]
            <= 0x2_0000_0000 by {
            lemma_product_bound(m[i][q] as int, v[q] as int, 0x8000_0000, 1024);
            lemma_tdiv_bound(m[i][q] * v[q], 256, 0x2_0000_0000);
        }
        lemma_short_sum_bound(terms, 0x2_0000_0000);
    }
    let rt = rayleigh_terms(m, v, dim);
    assert forall|i: int| 0 <= i < dim implies in_i64(v[i] * #[trigger] row_product(m[i], v, dim))
        && -0x2_0000_0000_0000 <= rt[i] <= 0x2_0000_0000_0000 by {
        let b = row_product(m[i], v, dim);
        assert(-0x8000_0000_0000 <= b <= 0x8000_0000_0000);
        lemma_product_bound(v[i] as int, b, 1024, 0x8000_0000_0000);
        lemma_tdiv_bound(v[i] * b, 256, 0x2_0000_0000_0000);
    }
    lemma_short_sum_bound(rt, 0x2_0000_0000_0000);
}

/// Power iteration with at most 8192 dimensions never overflows, whatever the `i32` matrix
/// and however many steps it runs.
pub proof fn lemma_power_safe_small(m: Seq<Seq<i32>>, dim: int, iters: nat)
    requires
        0 <= dim <= safe_dim_limit(),
        covers(m, dim),
    ensures
        power_safe(m, dim, iters),
{
    lemma_iterate_safe_small(m, dim, iters);
    lemma_iterate_shape(m, dim, iters);
    lemma_products_safe_small(m, iterate(m, dim, iters), dim);
}

proof fn lemma_iterate_safe_small(m: Seq<Seq<i32>>, dim: int, t: nat)
    requires
        0 <= dim <= safe_dim_limit(),
        covers(m, dim),
    ensures
        iterate_safe(m, dim, t),
    decreases t,
{
    if t == 0 {
        lemma_normalize_safe_small(start_vector(dim));
    } else {
        let prev = iterate(m, dim, (t - 1) as nat);
        lemma_iterate_safe_small(m, dim, (t - 1) as nat);
        lemma_iterate_shape(m, dim, (t - 1) as nat);
        lemma_products_safe_small(m, prev, dim);
        lemma_normalize_safe_small(clamped_product(m, prev, dim));
    }
}

/// The matrix, eigenvalues and eigenvectors after `t` rounds of power iteration and
/// deflation starting from `m0`.
pub open spec fn deflation_state(m0: Seq<Seq<i32>>, dim: int, t: nat) -> (
    Seq<Seq<i32>>,
    Seq<i32>,
    Seq<Seq<i32>>,
)
    decreases t,
{
    if t == 0 {
        (m0, Seq::empty(), Seq::empty())
    } else {
        let prev = deflation_state(m0, dim, (t - 1) as nat);
        let pair = power_pair(prev.0, dim, POWER_STEPS as nat);
        (deflated(prev.0, pair.0, pair.1, dim), prev.1.push(pair.0), prev.2.push(pair.1))
    }
}

/// The first `t` rounds of power iteration and deflation overflow nothing.
pub open spec fn deflation_safe(m0: Seq<Seq<i32>>, dim: int, t: nat) -> bool
    decreases t,
{
    if t == 0 {
        true
    } else {
        let prev = deflation_state(m0, dim, (t - 1) as nat);
        let pair = power_pair(prev.0, dim, POWER_STEPS as nat);
        &&& deflation_safe(m0, dim, (t - 1) as nat)
        &&& power_safe(prev.0, dim, POWER_STEPS as nat)
        &&& deflate_safe(prev.0, pair.0, pair.1, dim)
    }
}

/// The number of components a decomposition keeps: `k`, but at most `dim`.
pub open spec fn kept_components(k: int, dim: int) -> int {
    if k < dim {
        k
    } else {
        dim
    }
}

/// The safety of `t` rounds includes the safety of every earlier round.
pub proof fn lemma_deflation_safe_prefix(m0: Seq<Seq<i32>>, dim: int, t: nat, u: nat)
    requires
        deflation_safe(m0, dim, t),
        u <= t,
    ensures
        deflation_safe(m0, dim, u),
    decreases t,
{
    if u < t {
        lemma_deflation_safe_prefix(m0, dim, (t - 1) as nat, u);
    }
}

/// After `t` rounds there are `t` eigenpairs, every eigenvector has `dim` components within
/// `[-1024, 1024]`, and the matrix stays `dim` square once a round has run.
pub proof fn lemma_deflation_shape(m0: Seq<Seq<i32>>, dim: int, t: nat)
    requires
        dim >= 0,
    ensures
        deflation_state(m0, dim, t).1.len() == t,
        deflation_state(m0, dim, t).2.len() == t,
        forall|c: int|
            0 <= c < t ==> (#[trigger] deflation_state(m0, dim, t).2[c]).len() == dim,
        forall|c: int, i: int|
            0 <= c < t && 0 <= i < dim ==> -1024 <= #[trigger] deflation_state(m0, dim, t).2[c][i]
                <= 1024,
    decreases t,
{
    if t > 0 {
        let prev = deflation_state(m0, dim, (t - 1) as nat);
        lemma_deflation_shape(m0, dim, (t - 1) as nat);
        lemma_iterate_shape(prev.0, dim, POWER_STEPS as nat);
        let cur = deflation_state(m0, dim, t);
        assert forall|c: int, i: int| 0 <= c < t && 0 <= i < dim implies -1024
            <= #[trigger] cur.2[c][i] <= 1024 by {
            if c < t - 1 {
                assert(cur.2[c] == prev.2[c]);
            }
        }
    }
}

/// Asking for more components never changes the earlier ones: after `k2 >= k1` rounds
/// the first `k1` eigenvalues and eigenvectors are those after `k1` rounds, and the safety
/// of `k2` rounds includes that of `k1`.
pub proof fn lemma_decomposition_prefix(m0: Seq<Seq<i32>>, dim: int, k1: nat, k2: nat)
    requires
        dim >= 0,
        k1 <= k2,
    ensures
        deflation_state(m0, dim, k2).1.take(k1 as int) == deflation_state(m0, dim, k1).1,
        deflation_state(m0, dim, k2).2.take(k1 as int) == deflation_state(m0, dim, k1).2,
        deflation_safe(m0, dim, k2) ==> deflation_safe(m0, dim, k1),
    decreases k2,
{
    lemma_deflation_shape(m0, dim, k1);
    lemma_deflation_shape(m0, dim, k2);
    if k1 < k2 {
        let k = (k2 - 1) as nat;
        lemma_decomposition_prefix(m0, dim, k1, k);
        lemma_deflation_shape(m0, dim, k);
        let prev = deflation_state(m0, dim, k);
        let cur = deflation_state(m0, dim, k2);
        assert(cur.1.take(k1 as int) =~= prev.1.take(k1 as int));
        assert(cur.2.take(k1 as int) =~= prev.2.take(k1 as int));
    } else {
        let cur = deflation_state(m0, dim, k2);
        assert(cur.1.take(k1 as int) =~= cur.1);
        assert(cur.2.take(k1 as int) =~= cur.2);
    }
    if deflation_safe(m0, dim, k2) {
        lemma_deflation_safe_prefix(m0, dim, k2, k1);
    }
}

/// Each round deflates by the outer product of its own eigenpair: entry `(i, j)` of the
/// matrix drops by `val * v[i] * v[j] / 65536`, up to the rounding of the two fixed-point
/// products (less than `1 + |v[j]| / 256`). Stated for eigenvalues below 2^27 (2^19 in
/// real terms), where neither product wraps.
pub proof fn lemma_deflation_is_outer_product(m0: Seq<Seq<i32>>, dim: int, t: nat, i: int, j: int)
    requires
        dim >= 0,
        deflation_safe(m0, dim, t + 1),
        0 <= i < dim,
        0 <= j < dim,
        -0x800_0000 < deflation_state(m0, dim, t + 1).1[t as int] < 0x800_0000,
    ensures
        ({
            let before = deflation_state(m0, dim, t).0;
            let after = deflation_state(m0, dim, t + 1).0;
            let val = deflation_state(m0, dim, t + 1).1[t as int] as int;
            let v = deflation_state(m0, dim, t + 1).2[t as int];
            let bound = 65536 + 256 * (if v[j] < 0 { -v[j] } else { v[j] as int });
            -bound < 65536 * (before[i][j] - after[i][j]) - val * v[i] * v[j] < bound
        }),
{
    let prev = deflation_state(m0, dim, t);
    let pair = power_pair(prev.0, dim, POWER_STEPS as nat);
    lemma_deflation_shape(m0, dim, t);
    assert(deflation_state(m0, dim, t + 1).1[t as int] == pair.0);
    assert(deflation_state(m0, dim, t + 1).2[t as int] == pair.1);
    lemma_iterate_shape(prev.0, dim, POWER_STEPS as nat);
    let v = pair.1;
    assert(in_i32(prev.0[i][j] - outer_term(pair.0, v, i, j)));
    lemma_outer_term_rounding(pair.0 as int, v[i] as int, v[j] as int);
    assert(65536 * (prev.0[i][j] - deflated(prev.0, pair.0, v, dim)[i][j]) == 65536
        * fp_mul_spec(fp_mul_spec(pair.0 as int, v[i] as int) as int, v[j] as int));
}

/// Deflation keeps a symmetric pair of entries symmetric, up to the rounding of the
/// fixed-point products: if entries `(i, j)` and `(j, i)` are equal before a round, they
/// differ afterwards by less than `2 + (|v[i]| + |v[j]|) / 256`. Stated for eigenvalues
/// below 2^27 (2^19 in real terms), where neither product wraps.
pub proof fn lemma_deflation_near_symmetric(m0: Seq<Seq<i32>>, dim: int, t: nat, i: int, j: int)
    requires
        dim >= 0,
        deflation_safe(m0, dim, t + 1),
        0 <= i < dim,
        0 <= j < dim,
        -0x800_0000 < deflation_state(m0, dim, t + 1).1[t as int] < 0x800_0000,
        deflation_state(m0, dim, t).0[i][j] == deflation_state(m0, dim, t).0[j][i],
    ensures
        ({
            let after = deflation_state(m0, dim, t + 1).0;
            let v = deflation_state(m0, dim, t + 1).2[t as int];
            let bound = 131072 + 256 * ((if v[i] < 0 { -v[i] } else { v[i] as int }) + (if v[j]
                < 0 {
                -v[j]
            } else {
                v[j] as int
            }));
            -bound < 65536 * (after[i][j] - after[j][i]) < bound
        }),
{
    lemma_deflation_is_outer_product(m0, dim, t, i, j);
    lemma_deflation_is_outer_product(m0, dim, t, j, i);
    let val = deflation_state(m0, dim, t + 1).1[t as int] as int;
    let v = deflation_state(m0, dim, t + 1).2[t as int];
    assert(val * v[i] * v[j] == val * v[j] * v[i]) by (nonlinear_arith);
}

/// The magnitude of each eigenvalue.
pub open spec fn magnitude_terms(values: Seq<i32>) -> Seq<int> {
    Seq::new(values.len(), |i: int| if values[i] < 0 { -values[i] } else { values[i] as int })
}

/// The sum of the magnitudes of the first `k` eigenvalues.
pub open spec fn magnitude_prefix(values: Seq<i32>, k: int) -> int {
    sum_of(magnitude_terms(values).take(k))
}

proof fn lemma_magnitude_prefix_le(values: Seq<i32>, a: int, b: int)
    requires
        0 <= a <= b <= values.len(),
    ensures
        magnitude_prefix(values, a) <= magnitude_prefix(values, b),
    decreases b - a,
{
    if a < b {
        lemma_magnitude_prefix_le(values, a, b - 1);
        lemma_sum_take_step(magnitude_terms(values), b - 1);
    }
}

/// The share of the variance explained by the first `a` components is at most that of the
/// first `b >= a` components, which is at most that of all of them: the cumulative variance
/// explained grows with `k` and reaches the total.
pub proof fn lemma_explained_monotone(values: Seq<i32>, a: int, b: int)
    requires
        0 <= a <= b <= values.len(),
    ensures
        0 <= magnitude_prefix(values, a) <= magnitude_prefix(values, b)
            <= magnitude_prefix(values, values.len() as int),
{
    lemma_sum_take_none(magnitude_terms(values));
    lemma_magnitude_prefix_le(values, 0, a);
    lemma_magnitude_prefix_le(values, a, b);
    lemma_magnitude_prefix_le(values, b, values.len() as int);
}

/// The explained magnitude counts the components in order, from the first: nothing for no
/// component, and each further component adds the magnitude of its own eigenvalue. So the
/// first `k` components explain `|values[0]| + ... + |values[k - 1]|`.
pub proof fn lemma_explained_in_order(values: Seq<i32>, k: int)
    requires
        0 <= k < values.len(),
    ensures
        magnitude_prefix(values, 0) == 0,
        magnitude_prefix(values, k + 1) == magnitude_prefix(values, k) + (if values[k] < 0 {
            -values[k]
        } else {
            values[k] as int
        }),
        magnitude_prefix(values, 1) == (if values[0] < 0 {
            -values[0]
        } else {
            values[0] as int
        }),
{
    lemma_sum_take_none(magnitude_terms(values));
    lemma_sum_take_step(magnitude_terms(values), k);
    lemma_sum_take_step(magnitude_terms(values), 0);
}

/// Result of eigenvalue decomposition.
#[derive(Debug)]
pub struct EigenDecomp {
    /// Eigenvalues in fixed-point.
    eigenvalues: Vec<i32>,
    /// Eigenvectors, each of length dim, in fixed-point.
    eigenvectors: Vec<Vec<i32>>,
    dim: usize,
}

impl EigenDecomp {
    #[verifier::type_invariant]
    spec fn well_formed(&self) -> bool {
        &&& self.eigenvectors@.len() == self.eigenvalues@.len()
        &&& forall|c: int|
            0 <= c < self.eigenvectors@.len() ==> (#[trigger] self.eigenvectors@[c])@.len()
                == self.dim
        &&& forall|c: int, i: int|
            0 <= c < self.eigenvectors@.len() && 0 <= i < self.dim ==> -1024
                <= #[trigger] self.eigenvectors@[c]@[i] <= 1024
    }

    /// The eigenvalues, in fixed point, strongest first.
    pub closed spec fn values(&self) -> Seq<i32> {
        self.eigenvalues@
    }

    /// The eigenvectors, in the order of `values`, each with `vector_dim()` fixed-point
    /// components. The stored components always lie within `[-1024, 1024]` (the type
    /// invariant), so the clamp here leaves them as they are; it makes the bound visible
    /// from the view itself (`lemma_shape`).
    pub closed spec fn vectors(&self) -> Seq<Seq<i32>> {
        Seq::new(
            self.eigenvalues@.len(),
            |c: int|
                Seq::new(
                    self.dim as nat,
                    |i: int| clamp(self.eigenvectors@[c]@[i] as int, -1024, 1024) as i32,
                ),
        )
    }

    /// The number of components of each eigenvector.
    pub closed spec fn vector_dim(&self) -> nat {
        self.dim as nat
    }

    /// An empty decomposition of dimension `dim`.
    pub(crate) fn empty(dim: usize) -> (d: Self)
        ensures
            d.values().len() == 0,
            d.vectors().len() == 0,
            d.vector_dim() == dim,
    {
        Self { eigenvalues: Vec::new(), eigenvectors: Vec::new(), dim }
    }

    /// Compute the top `k` eigenvalues and eigenvectors (at most `cov.dim()` of them) by
    /// `POWER_STEPS` steps of power iteration each, deflating the matrix by `val * v * v^T`
    /// after each. No sum of the iteration may overflow its `i64` and no deflated entry its
    /// `i32`: `try_compute` checks this, and `lemma_power_safe_small` shows the former for
    /// up to 8192 dimensions.
    pub fn compute(cov: &TernaryCovariance, k: usize) -> (d: Self)
        requires
            deflation_safe(
                cov@,
                cov@.len() as int,
                kept_components(k as int, cov@.len() as int) as nat,
            ),
        ensures
            d.vector_dim() == cov@.len(),
            d.values() == deflation_state(
                cov@,
                cov@.len() as int,
                kept_components(k as int, cov@.len() as int) as nat,
            ).1,
            d.vectors() == deflation_state(
                cov@,
                cov@.len() as int,
                kept_components(k as int, cov@.len() as int) as nat,
            ).2,
            d.values().len() == kept_components(k as int, cov@.len() as int),
    {
        Self::try_compute(cov, k).unwrap()
    }

    /// `compute`, answering `None` in place of overflowing: `Some` exactly when no sum of
    /// the power iteration and no deflated entry overflows.
    pub fn try_compute(cov: &TernaryCovariance, k: usize) -> (r: Option<Self>)
        ensures
            r is Some <==> deflation_safe(
                cov@,
                cov@.len() as int,
                kept_components(k as int, cov@.len() as int) as nat,
            ),
            r matches Some(d) ==> {
                &&& d.vector_dim() == cov@.len()
                &&& d.values() == deflation_state(
                    cov@,
                    cov@.len() as int,
                    kept_components(k as int, cov@.len() as int) as nat,
                ).1
                &&& d.vectors() == deflation_state(
                    cov@,
                    cov@.len() as int,
                    kept_components(k as int, cov@.len() as int) as nat,
                ).2
                &&& d.values().len() == kept_components(k as int, cov@.len() as int)
            },
    {
        let dim = cov.dim();
        let count = if k < dim {
            k
        } else {
            dim
        };
        let ghost m0 = cov@;
        proof {
            cov.lemma_square();
        }
        let mut mat = copy_matrix(cov.matrix_rows());
        assert(rows_view(mat@) =~~= m0);
        let mut eigenvalues: Vec<i32> = Vec::new();
        let mut eigenvectors: Vec<Vec<i32>> = Vec::new();
        let mut c: usize = 0;
        while c < count
            invariant
                m0 == cov@,
                dim == m0.len(),
                forall|a: int| 0 <= a < dim ==> (#[trigger] m0[a]).len() == dim,
                count <= dim,
                count == kept_components(k as int, dim as int),
                deflation_safe(m0, dim as int, c as nat),
                c <= count,
                mat@.len() == dim,
                forall|a: int| 0 <= a < dim ==> (#[trigger] mat@[a])@.len() == dim,
                rows_view(mat@) == deflation_state(m0, dim as int, c as nat).0,
                eigenvalues@ == deflation_state(m0, dim as int, c as nat).1,
                rows_view(eigenvectors@) == deflation_state(m0, dim as int, c as nat).2,
            decreases count - c,
        {
            let ghost prev = deflation_state(m0, dim as int, c as nat);
            proof {
                lemma_deflation_shape(m0, dim as int, c as nat);
                assert(covers(rows_view(mat@), dim as int));
            }
            let (val, vec) = match power_iteration(&mat, dim, POWER_STEPS) {
                Some(pair) => pair,
                None => {
                    proof {
                        if deflation_safe(m0, dim as int, count as nat) {
                            lemma_deflation_safe_prefix(m0, dim as int, count as nat, (c + 1) as nat);
                        }
                    }
                    return None;
                },
            };
            proof {
                lemma_iterate_shape(prev.0, dim as int, POWER_STEPS as nat);
            }
            let ghost before = mat@;
            let mut i: usize = 0;
            while i < dim
                invariant
                    m0 == cov@,
                    dim == m0.len(),
                    count == kept_components(k as int, dim as int),
                    c < count,
                    deflation_safe(m0, dim as int, c as nat),
                    prev == deflation_state(m0, dim as int, c as nat),
                    val == power_pair(prev.0, dim as int, POWER_STEPS as nat).0,
                    vec@ == power_pair(prev.0, dim as int, POWER_STEPS as nat).1,
                    power_safe(prev.0, dim as int, POWER_STEPS as nat),
                    vec@.len() == dim,
                    rows_view(before) == prev.0,
                    before.len() == dim,
                    forall|a: int| 0 <= a < dim ==> (#[trigger] before[a])@.len() == dim,
                    i <= dim,
                    mat@.len() == dim,
                    forall|a: int| 0 <= a < dim ==> (#[trigger] mat@[a])@.len() == dim,
                    forall|a: int| i <= a < dim ==> #[trigger] mat@[a] == before[a],
                    forall|a: int|
                        0 <= a < i ==> (#[trigger] mat@[a])@ == deflated(
                            prev.0,
                            val,
                            vec@,
                            dim as int,
                        )[a],
                    forall|a: int, b: int|
                        0 <= a < i && 0 <= b < dim ==> in_i32(
                            #[trigger] prev.0[a][b] - outer_term(val, vec@, a, b),
                        ),
                decreases dim - i,
            {
                let scaled_i = fp_mul(val, vec[i]);
                let mut j: usize = 0;
                while j < dim
                    invariant
                        m0 == cov@,
                        dim == m0.len(),
                        count == kept_components(k as int, dim as int),
                        c < count,
                        deflation_safe(m0, dim as int, c as nat),
                        prev == deflation_state(m0, dim as int, c as nat),
                        val == power_pair(prev.0, dim as int, POWER_STEPS as nat).0,
                        vec@ == power_pair(prev.0, dim as int, POWER_STEPS as nat).1,
                        power_safe(prev.0, dim as int, POWER_STEPS as nat),
                        vec@.len() == dim,
                        rows_view(before) == prev.0,
                        before.len() == dim,
                        forall|a: int| 0 <= a < dim ==> (#[trigger] before[a])@.len() == dim,
                        i < dim,
                        scaled_i == fp_mul_spec(val as int, vec@[i as int] as int),
                        j <= dim,
                        mat@.len() == dim,
                        forall|a: int| 0 <= a < dim ==> (#[trigger] mat@[a])@.len() == dim,
                        forall|a: int| i < a < dim ==> #[trigger] mat@[a] == before[a],
                        forall|a: int|
                            0 <= a < i ==> (#[trigger] mat@[a])@ == deflated(
                                prev.0,
                                val,
                                vec@,
                                dim as int,
                            )[a],
                        forall|b: int|
                            0 <= b < j ==> #[trigger] mat@[i as int]@[b] == deflated(
                                prev.0,
                                val,
                                vec@,
                                dim as int,
                            )[i as int][b],
                        forall|b: int|
                            j <= b < dim ==> #[trigger] mat@[i as int]@[b] == before[i as int]@[b],
                        forall|a: int, b: int|
                            0 <= a < i && 0 <= b < dim ==> in_i32(
                                #[trigger] prev.0[a][b] - outer_term(val, vec@, a, b),
                            ),
                        forall|b: int|
                            0 <= b < j ==> in_i32(
                                #[trigger] prev.0[i as int][b] - outer_term(val, vec@, i as int, b),
                            ),
                    decreases dim - j,
                {
                    let delta = fp_mul(scaled_i, vec[j]);
                    assert(prev.0[i as int][j as int] == before[i as int]@[j as int]);
                    let x = match mat[i][j].checked_sub(delta) {
                        Some(x) => x,
                        None => {
                            proof {
                                assert(!in_i32(
                                    prev.0[i as int][j as int] - outer_term(
                                        val,
                                        vec@,
                                        i as int,
                                        j as int,
                                    ),
                                ));
                                assert(!deflate_safe(prev.0, val, vec@, dim as int));
                                if deflation_safe(m0, dim as int, count as nat) {
                                    lemma_deflation_safe_prefix(
                                        m0,
                                        dim as int,
                                        count as nat,
                                        (c + 1) as nat,
                                    );
                                }
                            }
                            return None;
                        },
                    };
                    mat[i][j] = x;
                    j = j + 1;
                }
                assert(mat@[i as int]@ =~= deflated(prev.0, val, vec@, dim as int)[i as int]);
                i = i + 1;
            }
            assert(deflate_safe(prev.0, val, vec@, dim as int));
            assert(rows_view(mat@) =~~= deflated(prev.0, val, vec@, dim as int));
            eigenvalues.push(val);
            eigenvectors.push(vec);
            assert(rows_view(eigenvectors@) =~~= deflation_state(m0, dim as int, (c + 1) as nat).2);
            c = c + 1;
        }
        proof {
            lemma_deflation_shape(m0, dim as int, count as nat);
            let st = deflation_state(m0, dim as int, count as nat);
            assert forall|a: int| 0 <= a < eigenvectors@.len() implies (
            #[trigger] eigenvectors@[a])@ == st.2[a] by {
                assert(rows_view(eigenvectors@)[a] == eigenvectors@[a]@);
            }
        }
        let d = Self { eigenvalues, eigenvectors, dim };
        assert(d.vectors() =~~= deflation_state(m0, dim as int, count as nat).2);
        Some(d)
    }

    /// Number of components.
    pub fn num_components(&self) -> (n: usize)
        ensures
            n == self.values().len(),
    {
        self.eigenvalues.len()
    }

    /// There is one eigenvector per eigenvalue, each with `vector_dim()` components within
    /// `[-1024, 1024]`.
    pub proof fn lemma_shape(&self)
        ensures
            self.vectors().len() == self.values().len(),
            forall|c: int|
                0 <= c < self.vectors().len() ==> (#[trigger] self.vectors()[c]).len()
                    == self.vector_dim(),
            forall|c: int, i: int|
                0 <= c < self.vectors().len() && 0 <= i < self.vector_dim() ==> -1024
                    <= #[trigger] self.vectors()[c][i] <= 1024,
    {
    }

    /// Eigenvalue `i`, in fixed point.
    pub fn eigenvalue_fp(&self, i: usize) -> (v: i32)
        requires
            i < self.values().len(),
        ensures
            v == self.values()[i as int],
    {
        self.eigenvalues[i]
    }

    /// Eigenvector `i`, in fixed point.
    pub fn eigenvector_fp(&self, i: usize) -> (v: Vec<i32>)
        requires
            i < self.values().len(),
        ensures
            v@ == self.vectors()[i as int],
            v@.len() == self.vector_dim(),
            forall|j: int| 0 <= j < v@.len() ==> -1024 <= #[trigger] v@[j] <= 1024,
    {
        proof {
            use_type_invariant(self);
        }
        let v = self.eigenvectors[i].clone();
        assert(v@ =~= self.vectors()[i as int]);
        v
    }

    /// The sum of the magnitudes of the first `k` eigenvalues (all of them when `k` is at
    /// least their number), in fixed point: the share of the variance that those
    /// components explain, before dividing by the sum over all components.
    pub fn explained_magnitude(&self, k: usize) -> (s: u128)
        ensures
            s == magnitude_prefix(self.values(), kept_components(k as int, self.values().len() as int)),
    {
        let len = self.eigenvalues.len();
        let k = if k < len {
            k
        } else {
            len
        };
        let ghost terms = magnitude_terms(self.values());
        let mut acc: u128 = 0;
        let mut i: usize = 0;
        proof {
            lemma_sum_take_none(terms);
        }
        while i < k
            invariant
                k <= len,
                len == self.eigenvalues@.len(),
                terms == magnitude_terms(self.values()),
                self.values() == self.eigenvalues@,
                i <= k,
                acc == sum_of(terms.take(i as int)),
                acc <= i * 0x8000_0000,
            decreases k - i,
        {
            proof {
                lemma_sum_take_step(terms, i as int);
            }
            let v = self.eigenvalues[i];
            let m: u128 = if v < 0 {
                (-(v as i64)) as u128
            } else {
                v as u128
            };
            acc = acc + m;
            i = i + 1;
        }
        acc
    }
}

impl Clone for EigenDecomp {
    fn clone(&self) -> (c: Self)
        ensures
            c.values() == self.values(),
            c.vectors() == self.vectors(),
            c.vector_dim() == self.vector_dim(),
    {
        proof {
            use_type_invariant(self);
        }
        let c = Self {
            eigenvalues: self.eigenvalues.clone(),
            eigenvectors: copy_matrix(&self.eigenvectors),
            dim: self.dim,
        };
        assert(c.values() =~= self.values());
        assert(c.vectors() =~~= self.vectors());
        c
    }
}

} // verus!

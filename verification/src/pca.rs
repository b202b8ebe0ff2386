//! The PCA transformer: fit on ternary data, then project samples onto the principal
//! components.
use crate::covariance::{
    column_mean, column_means, covariance_matrix, data_dim, rows_have_dim, sums_fit_i32,
    TernaryCovariance,
};
use crate::eigen::{deflation_safe, deflation_state, kept_components, EigenDecomp};
use crate::sums::{
    lemma_sum_bound, lemma_sum_sub, lemma_sum_take_all, lemma_sum_take_none, lemma_sum_take_step,
    lemma_sum_zero, sum_of,
};
use crate::Trit;
use vstd::arithmetic::mul::lemma_mul_upper_bound;
use vstd::prelude::*;

verus! {

/// The fixed-point means of the columns of a dataset.
pub open spec fn data_means(data: Seq<Vec<i8>>) -> Seq<i32> {
    Seq::new(data_dim(data) as nat, |j: int| column_mean(data, j))
}

/// Fitting `k` components on `data` overflows nothing: the covariance sums fit, and so does
/// every step of the decomposition of the covariance matrix.
pub open spec fn fit_safe(data: Seq<Vec<i8>>, k: int) -> bool {
    &&& sums_fit_i32(data)
    &&& deflation_safe(
        covariance_matrix(data),
        data_dim(data),
        kept_components(k, data_dim(data)) as nat,
    )
}

/// The terms of the projection of `sample` onto `vec` after centering on `means`:
/// `(256 * sample[j] - means[j]) * vec[j]`, at scale 2^16.
pub open spec fn centered_terms(means: Seq<i32>, vec: Seq<i32>, sample: Seq<i8>) -> Seq<int> {
    Seq::new(sample.len(), |j: int| (sample[j] * 256 - means[j]) * vec[j])
}

/// The projection of `sample` onto `vec` after centering on `means`, at scale 2^16
/// (65536 stands for 1.0).
pub open spec fn projection(means: Seq<i32>, vec: Seq<i32>, sample: Seq<i8>) -> int {
    sum_of(centered_terms(means, vec, sample))
}

/// A projection is centered on the means: it is the projection of `256 * sample` less the
/// projection of the means, `sum_j 256 sample[j] vec[j] - sum_j means[j] vec[j]`.
pub proof fn lemma_projection_centered(means: Seq<i32>, vec: Seq<i32>, sample: Seq<i8>)
    ensures
        projection(means, vec, sample) == sum_of(
            Seq::new(sample.len(), |j: int| 256 * sample[j] * vec[j]),
        ) - sum_of(Seq::new(sample.len(), |j: int| means[j] * vec[j])),
{
    let s = Seq::new(sample.len(), |j: int| 256 * sample[j] * vec[j]);
    let t = Seq::new(sample.len(), |j: int| means[j] * vec[j]);
    let u = centered_terms(means, vec, sample);
    assert forall|j: int| 0 <= j < u.len() implies #[trigger] u[j] == s[j] - t[j] by {
        assert((sample[j] * 256 - means[j]) * vec[j] == 256 * sample[j] * vec[j] - means[j]
            * vec[j]) by (nonlinear_arith);
    }
    lemma_sum_sub(s, t, u);
}

/// A sample at the means projects to zero, and moving the means by `delta` moves every
/// projection by `-sum_j delta[j] vec[j]`.
pub proof fn lemma_projection_of_means(
    means: Seq<i32>,
    means2: Seq<i32>,
    vec: Seq<i32>,
    sample: Seq<i8>,
)
    ensures
        (forall|j: int| 0 <= j < sample.len() ==> #[trigger] means[j] == 256 * sample[j])
            ==> projection(means, vec, sample) == 0,
        projection(means2, vec, sample) - projection(means, vec, sample) == sum_of(
            Seq::new(sample.len(), |j: int| (means[j] - means2[j]) * vec[j]),
        ),
{
    if forall|j: int| 0 <= j < sample.len() ==> #[trigger] means[j] == 256 * sample[j] {
        let u = centered_terms(means, vec, sample);
        assert forall|j: int| 0 <= j < u.len() implies #[trigger] u[j] == 0 by {
            assert(sample[j] * 256 - means[j] == 0);
            assert((sample[j] * 256 - means[j]) * vec[j] == 0) by (nonlinear_arith)
                requires
                    sample[j] * 256 - means[j] == 0,
            ;
        }
        lemma_sum_zero(u);
    }
    let a = centered_terms(means2, vec, sample);
    let b = centered_terms(means, vec, sample);
    let d = Seq::new(sample.len(), |j: int| (means[j] - means2[j]) * vec[j]);
    assert forall|j: int| 0 <= j < d.len() implies #[trigger] d[j] == a[j] - b[j] by {
        assert((means[j] - means2[j]) * vec[j] == (sample[j] * 256 - means2[j]) * vec[j] - (
        sample[j] * 256 - means[j]) * vec[j]) by (nonlinear_arith);
    }
    lemma_sum_sub(a, b, d);
}

/// A centered value of a trit times an eigenvector component is at most 2^43 in magnitude.
proof fn lemma_centered_term_bound(centered: int, e: int)
    requires
        -0x8000_8000 <= centered <= 0x8000_8000,
        -1024 <= e <= 1024,
    ensures
        -0x800_0000_0000 <= centered * e <= 0x800_0000_0000,
{
    lemma_mul_upper_bound(
        if centered < 0 { -centered } else { centered },
        0x8000_8000,
        if e < 0 { -e } else { e },
        1024,
    );
    assert(-0x800_0000_0000 <= centered * e <= 0x800_0000_0000) by (nonlinear_arith)
        requires
            (if centered < 0 { -centered } else { centered }) * (if e < 0 { -e } else { e })
                <= 0x8000_8000 * 1024,
    ;
}

/// PCA transformer: project ternary data onto principal components.
#[derive(Debug)]
pub struct TernaryPCA {
    decomp: EigenDecomp,
    means: Vec<i32>,  // fixed-point means
    dim: usize,
}

impl TernaryPCA {
    #[verifier::type_invariant]
    spec fn well_formed(&self) -> bool {
        &&& self.means@.len() == self.dim
        &&& self.decomp.vector_dim() == self.dim
    }

    /// The eigen decomposition the transformer projects onto.
    pub closed spec fn eigen(&self) -> EigenDecomp {
        self.decomp
    }

    /// The fixed-point column means of the training data.
    pub closed spec fn means(&self) -> Seq<i32> {
        self.means@
    }

    /// Fit PCA on ternary data, keeping `k` components (at most the data's dimension): the
    /// column means, and the eigen decomposition of the covariance matrix. Every row must
    /// have as many values as the first, and no sum of the computation may overflow
    /// (`try_fit` checks the decomposition's part of this).
    pub fn fit(data: &[Vec<Trit>], k: usize) -> (pca: Self)
        requires
            rows_have_dim(data@),
            fit_safe(data@, k as int),
        ensures
            pca.means() == data_means(data@),
            pca.eigen().vector_dim() == data_dim(data@),
            pca.eigen().values() == deflation_state(
                covariance_matrix(data@),
                data_dim(data@),
                kept_components(k as int, data_dim(data@)) as nat,
            ).1,
            pca.eigen().vectors() == deflation_state(
                covariance_matrix(data@),
                data_dim(data@),
                kept_components(k as int, data_dim(data@)) as nat,
            ).2,
            pca.eigen().values().len() == kept_components(k as int, data_dim(data@)),
    {
        Self::try_fit(data, k).unwrap()
    }

    /// `fit`, answering `None` in place of overflowing in the decomposition: `Some` exactly
    /// when no sum of the power iteration and no deflated entry overflows.
    pub fn try_fit(data: &[Vec<Trit>], k: usize) -> (r: Option<Self>)
        requires
            rows_have_dim(data@),
            sums_fit_i32(data@),
        ensures
            r is Some <==> deflation_safe(
                covariance_matrix(data@),
                data_dim(data@),
                kept_components(k as int, data_dim(data@)) as nat,
            ),
            r matches Some(pca) ==> {
                &&& pca.means() == data_means(data@)
                &&& pca.eigen().vector_dim() == data_dim(data@)
                &&& pca.eigen().values() == deflation_state(
                    covariance_matrix(data@),
                    data_dim(data@),
                    kept_components(k as int, data_dim(data@)) as nat,
                ).1
                &&& pca.eigen().vectors() == deflation_state(
                    covariance_matrix(data@),
                    data_dim(data@),
                    kept_components(k as int, data_dim(data@)) as nat,
                ).2
                &&& pca.eigen().values().len() == kept_components(k as int, data_dim(data@))
            },
    {
        if data.len() == 0 {
            let pca = Self { decomp: EigenDecomp::empty(0), means: Vec::new(), dim: 0 };
            assert(pca.means() =~= data_means(data@));
            assert(pca.eigen().values() =~= deflation_state(covariance_matrix(data@), 0, 0).1);
            assert(pca.eigen().vectors() =~= deflation_state(covariance_matrix(data@), 0, 0).2);
            return Some(pca);
        }
        let dim = data[0].len();
        let means = column_means(data);
        let cov = TernaryCovariance::from_data(data);
        let decomp = match EigenDecomp::try_compute(&cov, k) {
            Some(d) => d,
            None => {
                return None;
            },
        };
        let pca = Self { decomp, means, dim };
        assert(pca.means() =~= data_means(data@));
        Some(pca)
    }

    /// Number of components.
    pub fn num_components(&self) -> (n: usize)
        ensures
            n == self.eigen().values().len(),
    {
        self.decomp.num_components()
    }

    /// Number of dimensions of the data the transformer was fitted on.
    pub fn dim(&self) -> (d: usize)
        ensures
            d == self.means().len(),
            d == self.eigen().vector_dim(),
    {
        proof {
            use_type_invariant(self);
        }
        self.dim
    }

    /// Fixed-point mean of dimension `j` in the training data.
    pub fn mean_fp(&self, j: usize) -> (m: i32)
        requires
            j < self.means().len(),
        ensures
            m == self.means()[j as int],
    {
        self.means[j]
    }

    /// Project a ternary vector into the reduced space, exactly: component `c` is the sum
    /// over `j` of `(256 * sample[j] - mean[j]) * eigenvector_c[j]`, at scale 2^16
    /// (divide by 65536 for the real value). A sample longer than the data's dimension can
    /// only be projected when there are no components.
    pub fn project_fp(&self, sample: &[Trit]) -> (p: Vec<i128>)
        requires
            self.eigen().values().len() == 0 || sample@.len() <= self.means().len(),
        ensures
            p@.len() == self.eigen().values().len(),
            forall|c: int|
                0 <= c < p@.len() ==> #[trigger] p@[c] == projection(
                    self.means(),
                    self.eigen().vectors()[c],
                    sample@,
                ),
    {
        proof {
            use_type_invariant(self);
        }
        let k = self.decomp.num_components();
        let mut result: Vec<i128> = Vec::new();
        let mut c: usize = 0;
        while c < k
            invariant
                k == self.eigen().values().len(),
                k == 0 || sample@.len() <= self.dim,
                self.means@.len() == self.dim,
                self.decomp.vector_dim() == self.dim,
                c <= k,
                result@.len() == c,
                forall|q: int|
                    0 <= q < c ==> #[trigger] result@[q] == projection(
                        self.means(),
                        self.eigen().vectors()[q],
                        sample@,
                    ),
            decreases k - c,
        {
            let ev = self.decomp.eigenvector_fp(c);
            let ghost terms = centered_terms(self.means@, ev@, sample@);
            let mut acc: i128 = 0;
            let mut j: usize = 0;
            proof {
                lemma_sum_take_none(terms);
            }
            while j < sample.len()
                invariant
                    sample@.len() <= self.dim,
                    self.means@.len() == self.dim,
                    ev@.len() == self.dim,
                    forall|q: int| 0 <= q < ev@.len() ==> -1024 <= #[trigger] ev@[q] <= 1024,
                    terms == centered_terms(self.means@, ev@, sample@),
                    j <= sample@.len(),
                    acc == sum_of(terms.take(j as int)),
                decreases sample@.len() - j,
            {
                let centered: i64 = sample[j] as i64 * 256 - self.means[j] as i64;
                let e = ev[j];
                proof {
                    lemma_centered_term_bound(centered as int, e as int);
                    lemma_sum_take_step(terms, j as int);
                    let t = terms.take(j + 1);
                    assert forall|q: int| 0 <= q < t.len() implies -0x800_0000_0000 <= #[trigger] t[q]
                        <= 0x800_0000_0000 by {
                        lemma_centered_term_bound(sample@[q] * 256 - self.means@[q], ev@[q] as int);
                    }
                    lemma_sum_bound(t, 0x800_0000_0000);
                    assert(t.len() <= usize::MAX);
                }
                acc = acc + (centered as i128) * (e as i128);
                j = j + 1;
            }
            proof {
                lemma_sum_take_all(terms);
            }
            result.push(acc);
            c = c + 1;
        }
        result
    }

    /// Access the eigen decomposition.
    pub fn decomp(&self) -> (d: &EigenDecomp)
        ensures
            *d == self.eigen(),
    {
        &self.decomp
    }
}

impl Clone for TernaryPCA {
    fn clone(&self) -> (c: Self)
        ensures
            c.means() == self.means(),
            c.eigen().values() == self.eigen().values(),
            c.eigen().vectors() == self.eigen().vectors(),
            c.eigen().vector_dim() == self.eigen().vector_dim(),
    {
        proof {
            use_type_invariant(self);
        }
        let c = Self { decomp: self.decomp.clone(), means: self.means.clone(), dim: self.dim };
        assert(c.means() =~= self.means());
        c
    }
}

} // verus!

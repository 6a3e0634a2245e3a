//! Ricci tensor and scalar curvature.
use vstd::prelude::*;
use vstd::arithmetic::div_mod::lemma_fundamental_div_mod_converse;
use crate::checks::{all_pairs, fails2, holds2};
use crate::covariant::{matrix_at, matrix_readable};
use crate::fold::{fold_trace, folds_to, lemma_fold_trace_push};
use crate::layout::num_components;
use crate::metric::{lemma_matrix_position, MetricTensor};
use crate::riemann::{lemma_pos4_bound, quad_at, quad_readable, RiemannTensor};
use crate::tensor::{lemma_num_components_small, IndexType, Tensor};

verus! {

/// Ricci tensor R_{ij} = R^k_{ikj} (contraction of Riemann).
#[derive(Clone, Debug)]
pub struct RicciTensor<T> {
    pub dim: usize,
    /// R_{ij} — symmetric rank-2 tensor
    pub components: Tensor<T>,
}

/// The components R^k_{ikj}, k in order, summed into R_{ij}: the mixed
/// Riemann components at (k, i, k, j), read by their own row length.
pub open spec fn ricci_terms<T>(components: &Tensor<T>, dim: nat, i: int, j: int) -> Seq<T> {
    Seq::new(dim, |k: int| quad_at(components, k, i, k, j))
}

/// Folds `plus` from `zero` over R^k_{ikj}, k in order.
fn ricci_sum<T: Copy, F: Fn(T, T) -> T>(
    riemann: &RiemannTensor<T>,
    i: usize,
    j: usize,
    zero: T,
    plus: &F,
) -> (r: T)
    requires
        i < riemann.dim,
        j < riemann.dim,
        quad_readable(&riemann.components, riemann.dim as nat),
        forall|x: T, y: T| call_requires(*plus, (x, y)),
    ensures
        folds_to(*plus, zero, ricci_terms(&riemann.components, riemann.dim as nat, i as int, j as int), r),
{
    let dim = riemann.dim;
    let ghost terms = ricci_terms(&riemann.components, dim as nat, i as int, j as int);
    let mut val = zero;
    let ghost mut partials: Seq<T> = seq![zero];
    proof {
        assert(terms.take(0) =~= Seq::<T>::empty());
    }
    let mut k: usize = 0;
    while k < dim
        invariant
            k <= dim,
            i < dim,
            j < dim,
            dim == riemann.dim,
            quad_readable(&riemann.components, dim as nat),
            terms == ricci_terms(&riemann.components, dim as nat, i as int, j as int),
            forall|x: T, y: T| call_requires(*plus, (x, y)),
            fold_trace(*plus, zero, terms.take(k as int), partials),
            partials.last() == val,
        decreases dim - k,
    {
        proof {
            lemma_pos4_bound(riemann.components.dim as nat, k as nat, i as nat, k as nat, j as nat, dim as nat);
        }
        let x = riemann.get(k, i, k, j);
        assert(x == terms[k as int]);
        val = plus(val, x);
        proof {
            lemma_fold_trace_push(*plus, zero, terms.take(k as int), partials, x, val);
            partials = partials.push(val);
            assert(terms.take(k as int).push(x) =~= terms.take(k + 1));
        }
        k = k + 1;
    }
    assert(terms.take(dim as int) =~= terms);
    val
}

impl<T: Copy> RicciTensor<T> {
    /// The index types of R_{ij}.
    pub open spec fn ricci_types() -> Seq<IndexType> {
        seq![IndexType::Covariant, IndexType::Covariant]
    }

    /// Compute the Ricci tensor by contracting the Riemann tensor,
    /// R_{ij} = R^k_{ikj}: component (i, j), stored at i * dim + j, is `plus`
    /// folded from `zero` over R^k_{ikj} for k in order (read by the mixed
    /// components' own row length), which is the sum for `plus(s, x) = s + x`.
    pub fn from_riemann_with<F: Fn(T, T) -> T>(riemann: &RiemannTensor<T>, zero: T, plus: F) -> (r:
        Self)
        requires
            riemann.dim * riemann.dim <= usize::MAX,
            quad_readable(&riemann.components, riemann.dim as nat),
            forall|x: T, y: T| call_requires(plus, (x, y)),
        ensures
            r.dim == riemann.dim,
            r.components.dim == riemann.dim,
            r.components.index_types@ == Self::ricci_types(),
            r.components.wf(),
            forall|i: int, j: int|
                0 <= i < riemann.dim && 0 <= j < riemann.dim ==> folds_to(
                    plus,
                    zero,
                    ricci_terms(&riemann.components, riemann.dim as nat, i, j),
                    #[trigger] r.components.data@[i * riemann.dim + j],
                ),
    {
        let dim = riemann.dim;
        let ghost d = dim as nat;
        let mut types: Vec<IndexType> = Vec::new();
        types.push(IndexType::Covariant);
        types.push(IndexType::Covariant);
        assert(types@ =~= Self::ricci_types());
        let mut data: Vec<T> = Vec::new();
        let mut i: usize = 0;
        assert(i * dim == 0) by (nonlinear_arith)
            requires
                i == 0,
        ;
        while i < dim
            invariant
                i <= dim,
                d == dim,
                dim == riemann.dim,
                dim * dim <= usize::MAX,
                data@.len() == i * dim,
                quad_readable(&riemann.components, d),
                forall|x: T, y: T| call_requires(plus, (x, y)),
                forall|a: int, b: int|
                    0 <= a < i && 0 <= b < dim ==> folds_to(
                        plus,
                        zero,
                        ricci_terms(&riemann.components, d, a, b),
                        #[trigger] data@[a * dim + b],
                    ),
            decreases dim - i,
        {
            assert(i * dim + dim <= dim * dim) by (nonlinear_arith)
                requires
                    i < dim,
            ;
            let mut j: usize = 0;
            while j < dim
                invariant
                    i < dim,
                    j <= dim,
                    d == dim,
                    dim == riemann.dim,
                    i * dim + dim <= dim * dim,
                    data@.len() == i * dim + j,
                    quad_readable(&riemann.components, d),
                    forall|x: T, y: T| call_requires(plus, (x, y)),
                    forall|a: int, b: int|
                        0 <= a < i && 0 <= b < dim ==> folds_to(
                            plus,
                            zero,
                            ricci_terms(&riemann.components, d, a, b),
                            #[trigger] data@[a * dim + b],
                        ),
                    forall|b: int|
                        0 <= b < j ==> folds_to(
                            plus,
                            zero,
                            ricci_terms(&riemann.components, d, i as int, b),
                            #[trigger] data@[i * dim + b],
                        ),
                decreases dim - j,
            {
                let val = ricci_sum(riemann, i, j, zero, &plus);
                let ghost before = data@;
                data.push(val);
                proof {
                    assert forall|a: int, b: int|
                        0 <= a < i && 0 <= b < dim implies #[trigger] data@[a * dim + b]
                        == before[a * dim + b] by {
                        assert(a * dim + b < i * dim) by (nonlinear_arith)
                            requires
                                a < i,
                                b < dim,
                        ;
                    }
                }
                j = j + 1;
            }
            assert(i * dim + dim == (i + 1) * dim) by (nonlinear_arith);
            proof {
                assert forall|a: int, b: int| 0 <= a < i + 1 && 0 <= b < dim implies folds_to(
                    plus,
                    zero,
                    ricci_terms(&riemann.components, d, a, b),
                    #[trigger] data@[a * dim + b],
                ) by {
                    if a == i {
                        assert(data@[i * dim + b] == data@[a * dim + b]);
                    }
                }
            }
            i = i + 1;
        }
        proof {
            lemma_num_components_small(d);
        }
        RicciTensor { dim, components: Tensor { dim, index_types: types, data } }
    }

    /// Get R_{ij}
    pub fn get(&self, i: usize, j: usize) -> (v: T)
        requires
            self.components.index_types@.len() == 2,
            i * self.components.dim + j < self.components.data@.len(),
        ensures
            v == self.components.data@[i * self.components.dim + j],
    {
        self.components.get2(i, j)
    }

    /// Check symmetry, R_{ij} = R_{ji}: whether `close(R_ij, R_ji)` holds
    /// for every i, j below the dimension.
    pub fn is_symmetric_with<F: Fn(T, T) -> bool>(&self, close: F) -> (b: bool)
        requires
            matrix_readable(&self.components, self.dim as nat),
            forall|x: T, y: T| call_requires(close, (x, y)),
        ensures
            b ==> forall|i: int, j: int|
                0 <= i < self.dim && 0 <= j < self.dim ==> call_ensures(
                    close,
                    (
                        #[trigger] matrix_at(&self.components, i, j),
                        matrix_at(&self.components, j, i),
                    ),
                    true,
                ),
            !b ==> exists|i: int, j: int|
                0 <= i < self.dim && 0 <= j < self.dim && call_ensures(
                    close,
                    (
                        #[trigger] matrix_at(&self.components, i, j),
                        matrix_at(&self.components, j, i),
                    ),
                    false,
                ),
    {
        let dim = self.dim;
        let cl = &close;
        let test = |i: usize, j: usize| -> (r: bool)
            requires
                i < dim,
                j < dim,
                dim == self.dim,
                matrix_readable(&self.components, self.dim as nat),
                forall|x: T, y: T| call_requires(*cl, (x, y)),
            ensures
                call_ensures(
                    *cl,
                    (
                        matrix_at(&self.components, i as int, j as int),
                        matrix_at(&self.components, j as int, i as int),
                    ),
                    r,
                ),
            {
                proof {
                    let w = self.components.dim as nat;
                    lemma_matrix_position(i as nat, j as nat, dim as nat, w);
                    lemma_matrix_position(j as nat, i as nat, dim as nat, w);
                }
                cl(self.get(i, j), self.get(j, i))
            };
        let b = all_pairs(dim, test);
        proof {
            if b {
                assert forall|i: int, j: int| 0 <= i < self.dim && 0 <= j < self.dim implies call_ensures(
                    close,
                    (
                        #[trigger] matrix_at(&self.components, i, j),
                        matrix_at(&self.components, j, i),
                    ),
                    true,
                ) by {
                    assert(holds2(test, i as usize, j as usize));
                }
            } else {
                let (i, j) = choose|i: usize, j: usize|
                    i < dim && j < dim && #[trigger] fails2(test, i, j);
                assert(call_ensures(
                    close,
                    (
                        matrix_at(&self.components, i as int, j as int),
                        matrix_at(&self.components, j as int, i as int),
                    ),
                    false,
                ));
            }
        }
        b
    }

    /// Zero Ricci tensor.
    pub fn zero(dim: usize, zero: T) -> (r: Self)
        requires
            num_components(dim as nat, 2) <= usize::MAX,
        ensures
            r.dim == dim,
            r.components.dim == dim,
            r.components.index_types@ == Self::ricci_types(),
            r.components.wf(),
            forall|p: int| 0 <= p < r.components.data@.len() ==> r.components.data@[p] == zero,
    {
        let mut types: Vec<IndexType> = Vec::new();
        types.push(IndexType::Covariant);
        types.push(IndexType::Covariant);
        assert(types@ =~= Self::ricci_types());
        RicciTensor { dim, components: Tensor::zeros(dim, types, zero) }
    }
}

/// Scalar curvature R = g^{ij} R_{ij}.
#[derive(Clone, Debug)]
pub struct ScalarCurvature<T> {
    pub value: T,
}

/// The pairs (g^{ij}, R_{ij}) multiplied and summed into the scalar
/// curvature, with (i, j) running over a `dim` by `dim` grid row by row.
pub open spec fn scalar_curvature_terms<T>(g_inv: &Tensor<T>, ricci: &Tensor<T>, dim: nat) -> Seq<
    (T, T),
> {
    Seq::new(
        dim * dim,
        |o: int|
            {
                let i = o / (dim as int);
                let j = o % (dim as int);
                (g_inv.data@[i * g_inv.dim + j], ricci.data@[i * ricci.dim + j])
            },
    )
}

impl<T: Copy> ScalarCurvature<T> {
    /// Compute scalar curvature from metric and Ricci tensor: `step` folded
    /// from `zero` over the pairs (g^{ij}, R_{ij}), (i, j) row by row, which
    /// is g^{ij} R_{ij} for `step(s, (g, r)) = s + g * r`.
    pub fn from_ricci_with<F: Fn(T, (T, T)) -> T>(
        metric: &MetricTensor<T>,
        ricci: &RicciTensor<T>,
        zero: T,
        step: F,
    ) -> (s: Self)
        requires
            metric.dim * metric.dim <= usize::MAX,
            matrix_readable(&metric.g_inv, metric.dim as nat),
            matrix_readable(&ricci.components, metric.dim as nat),
            forall|acc: T, x: (T, T)| call_requires(step, (acc, x)),
        ensures
            folds_to(
                step,
                zero,
                scalar_curvature_terms(&metric.g_inv, &ricci.components, metric.dim as nat),
                s.value,
            ),
    {
        let dim = metric.dim;
        let ghost d = dim as nat;
        let ghost terms = scalar_curvature_terms(&metric.g_inv, &ricci.components, d);
        let mut value = zero;
        let ghost mut partials: Seq<T> = seq![zero];
        proof {
            assert(terms.take(0) =~= Seq::<(T, T)>::empty());
        }
        let mut i: usize = 0;
        assert(i * dim == 0) by (nonlinear_arith)
            requires
                i == 0,
        ;
        while i < dim
            invariant
                i <= dim,
                d == dim,
                dim * dim <= usize::MAX,
                terms == scalar_curvature_terms(&metric.g_inv, &ricci.components, d),
                matrix_readable(&metric.g_inv, d),
                matrix_readable(&ricci.components, d),
                forall|acc: T, x: (T, T)| call_requires(step, (acc, x)),
                fold_trace(step, zero, terms.take(i * dim), partials),
                partials.last() == value,
            decreases dim - i,
        {
            assert(i * dim + dim <= dim * dim) by (nonlinear_arith)
                requires
                    i < dim,
            ;
            let mut j: usize = 0;
            while j < dim
                invariant
                    i < dim,
                    j <= dim,
                    d == dim,
                    i * dim + dim <= dim * dim,
                    terms == scalar_curvature_terms(&metric.g_inv, &ricci.components, d),
                    metric.g_inv.index_types@.len() == 2,
                    ricci.components.index_types@.len() == 2,
                    (dim - 1) * metric.g_inv.dim + (dim - 1) < metric.g_inv.data@.len(),
                    (dim - 1) * ricci.components.dim + (dim - 1) < ricci.components.data@.len(),
                    forall|acc: T, x: (T, T)| call_requires(step, (acc, x)),
                    fold_trace(step, zero, terms.take(i * dim + j), partials),
                    partials.last() == value,
                decreases dim - j,
            {
                proof {
                    lemma_matrix_position(i as nat, j as nat, d, metric.g_inv.dim as nat);
                    lemma_matrix_position(i as nat, j as nat, d, ricci.components.dim as nat);
                    lemma_fundamental_div_mod_converse(
                        (i * dim + j) as int,
                        dim as int,
                        i as int,
                        j as int,
                    );
                }
                let g = metric.get_inv(i, j);
                let r = ricci.get(i, j);
                let ghost o = i * dim + j;
                assert((g, r) == terms[o as int]);
                value = step(value, (g, r));
                proof {
                    lemma_fold_trace_push(step, zero, terms.take(o as int), partials, (g, r), value);
                    partials = partials.push(value);
                    assert(terms.take(o as int).push((g, r)) =~= terms.take(o + 1));
                }
                j = j + 1;
            }
            assert(i * dim + dim == (i + 1) * dim) by (nonlinear_arith);
            i = i + 1;
        }
        assert(terms.take(dim * dim) =~= terms);
        ScalarCurvature { value }
    }

    /// Get the scalar curvature value.
    pub fn get(&self) -> (v: T)
        ensures
            v == self.value,
    {
        self.value
    }
}

} // verus!

//! Christoffel symbols of the first and second kind, computed from a metric.
use vstd::prelude::*;
use crate::fold::folds_to;
use crate::layout::{
    constant_index, in_bounds, increment_multi_index, lemma_flat_bound, lemma_flat_unflat,
    lemma_flat_zeros, lemma_num_components_positive, lemma_unflat_flat, num_components, unflat,
};
use crate::checks::{all_triples, fails3, holds3};
use crate::covariant::{christoffel_at, christoffel_readable, matrix_readable};
use crate::metric::MetricTensor;
use crate::tensor::{component_count, lemma_num_components_small, IndexType, Tensor};

verus! {

/// Row-major position of (a, b, c) in a rank-3 array with row length `w`.
pub open spec fn pos3(w: nat, a: nat, b: nat, c: nat) -> int {
    (a * w * w + b * w + c) as int
}

/// A rank-3 tensor can be read at every (a, b, c) below `dim`, by its own row
/// length; nothing is read when `dim` is 0.
pub open spec fn triple_readable<T>(t: &Tensor<T>, dim: nat) -> bool {
    dim == 0 || (t.index_types@.len() == 3 && pos3(
        t.dim as nat,
        (dim - 1) as nat,
        (dim - 1) as nat,
        (dim - 1) as nat,
    ) < t.data@.len())
}

/// Indices below `d` never reach past position (d-1, d-1, d-1).
pub proof fn lemma_pos3_bound(w: nat, a: nat, b: nat, c: nat, d: nat)
    requires
        a < d,
        b < d,
        c < d,
    ensures
        0 <= a * w * w,
        a * w * w <= a * w * w + b * w,
        pos3(w, a, b, c) <= pos3(w, (d - 1) as nat, (d - 1) as nat, (d - 1) as nat),
{
    assert(a * w * w <= (d - 1) * w * w && b * w <= (d - 1) * w && 0 <= b * w && 0 <= a * w * w)
        by (nonlinear_arith)
        requires
            a <= d - 1,
            b <= d - 1,
    ;
}

/// The three metric derivatives combined into Γ_{kij}, for the multi-index
/// (k, i, j): (∂g_{ki}/∂x^j, ∂g_{kj}/∂x^i, ∂g_{ij}/∂x^k), where `dg` holds
/// ∂g_ij/∂x^k at position (k, i, j).
pub open spec fn first_kind_args<T>(dg: &Tensor<T>, m: Seq<usize>) -> (T, T, T) {
    let w = dg.dim as nat;
    let (k, i, j) = (m[0] as nat, m[1] as nat, m[2] as nat);
    (dg.data@[pos3(w, j, k, i)], dg.data@[pos3(w, i, k, j)], dg.data@[pos3(w, k, i, j)])
}

/// Exchanging the last two indices of Γ_{kij} exchanges the two added
/// derivatives, and reads the subtracted one at (k, j, i); so when ∂g is
/// symmetric in the metric's indices, Γ_{kij} and Γ_{kji} are combined from
/// the same three values, the two added ones in the other order.
pub proof fn lemma_first_kind_lower_symmetry<T>(dg: &Tensor<T>, k: usize, i: usize, j: usize)
    ensures
        first_kind_args(dg, seq![k, j, i]) == (
            first_kind_args(dg, seq![k, i, j]).1,
            first_kind_args(dg, seq![k, i, j]).0,
            dg.data@[pos3(dg.dim as nat, k as nat, j as nat, i as nat)],
        ),
        dg.data@[pos3(dg.dim as nat, k as nat, j as nat, i as nat)] == dg.data@[pos3(
            dg.dim as nat,
            k as nat,
            i as nat,
            j as nat,
        )] ==> first_kind_args(dg, seq![k, j, i]).2 == first_kind_args(dg, seq![k, i, j]).2,
{
}

/// Christoffel symbols Γ^k_ij (second kind) and Γ_{kij} (first kind).
#[derive(Clone, Debug)]
pub struct ChristoffelSymbols<T> {
    pub dim: usize,
    /// Γ^k_ij — rank-3 tensor: one contravariant, two covariant indices
    pub second_kind: Tensor<T>,
    /// Γ_{kij} — rank-3 tensor: all covariant
    pub first_kind: Tensor<T>,
}

impl<T: Copy> ChristoffelSymbols<T> {
    /// The index types of Γ^k_ij.
    pub open spec fn second_kind_types() -> Seq<IndexType> {
        seq![IndexType::Contravariant, IndexType::Covariant, IndexType::Covariant]
    }

    /// The index types of Γ_{kij}.
    pub open spec fn first_kind_types() -> Seq<IndexType> {
        seq![IndexType::Covariant, IndexType::Covariant, IndexType::Covariant]
    }

    /// Γ_{kij} from the metric derivatives: the component at (k, i, j) is
    /// `combine` applied to `first_kind_args`, which is
    /// ½ (∂g_{ki}/∂x^j + ∂g_{kj}/∂x^i - ∂g_{ij}/∂x^k) for
    /// `combine(a, b, c) = 0.5 * (a + b - c)`.
    pub fn first_kind_with<C: Fn(T, T, T) -> T>(dim: usize, dg: &Tensor<T>, combine: C) -> (t:
        Tensor<T>)
        requires
            num_components(dim as nat, 3) <= usize::MAX,
            triple_readable(dg, dim as nat),
            forall|a: T, b: T, c: T| call_requires(combine, (a, b, c)),
        ensures
            t.dim == dim,
            t.index_types@ == Self::first_kind_types(),
            t.wf(),
            forall|o: int|
                0 <= o < t.data@.len() ==> call_ensures(
                    combine,
                    first_kind_args(dg, unflat(o as nat, dim as nat, 3)),
                    #[trigger] t.data@[o],
                ),
    {
        let ghost d = dim as nat;
        let mut types: Vec<IndexType> = Vec::new();
        types.push(IndexType::Covariant);
        types.push(IndexType::Covariant);
        types.push(IndexType::Covariant);
        assert(types@ =~= Self::first_kind_types());
        let size = component_count(dim, 3);
        let mut data: Vec<T> = Vec::new();
        if dim == 0 {
            proof {
                lemma_num_components_small(d);
            }
            return Tensor { dim, index_types: types, data };
        }
        proof {
            lemma_num_components_positive(d, 3);
        }
        let mut idx: Vec<usize> = Vec::new();
        idx.push(0);
        idx.push(0);
        idx.push(0);
        proof {
            assert(idx@ =~= constant_index(3, 0));
            lemma_flat_zeros(3, d);
            lemma_unflat_flat(idx@, d);
        }
        let dd = dg.dim;
        let n_dg = dg.data.len();
        loop
            invariant_except_break
                data@.len() < size,
                idx@ == unflat(data@.len() as nat, d, 3),
            invariant
                d == dim,
                dim > 0,
                dd == dg.dim,
                size == num_components(d, 3),
                dg.index_types@.len() == 3,
                pos3(dd as nat, (dim - 1) as nat, (dim - 1) as nat, (dim - 1) as nat)
                    < dg.data@.len(),
                idx@.len() == 3,
                in_bounds(idx@, d),
                data@.len() <= size,
                forall|a: T, b: T, c: T| call_requires(combine, (a, b, c)),
                forall|o: int|
                    0 <= o < data@.len() ==> call_ensures(
                        combine,
                        first_kind_args(dg, unflat(o as nat, d, 3)),
                        #[trigger] data@[o],
                    ),
            ensures
                data@.len() == size,
                forall|o: int|
                    0 <= o < data@.len() ==> call_ensures(
                        combine,
                        first_kind_args(dg, unflat(o as nat, d, 3)),
                        #[trigger] data@[o],
                    ),
            decreases size - data@.len(),
        {
            let ghost o = data@.len() as nat;
            let k = idx[0];
            let i = idx[1];
            let j = idx[2];
            assert(k < dim && i < dim && j < dim);
            proof {
                lemma_pos3_bound(dd as nat, j as nat, k as nat, i as nat, d);
                lemma_pos3_bound(dd as nat, i as nat, k as nat, j as nat, d);
                lemma_pos3_bound(dd as nat, k as nat, i as nat, j as nat, d);
            }
            let a = dg.get3(j, k, i);
            let b = dg.get3(i, k, j);
            let c = dg.get3(k, i, j);
            let val = combine(a, b, c);
            data.push(val);
            assert(data@[o as int] == val);
            proof {
                lemma_flat_unflat(o, d, 3);
            }
            let carry = increment_multi_index(&mut idx, dim);
            if carry {
                break;
            }
            proof {
                lemma_unflat_flat(idx@, d);
                lemma_flat_bound(idx@, d);
            }
        }
        Tensor { dim, index_types: types, data }
    }

    /// The symbols computed from `metric` and the derivative tensor `dg`:
    /// Γ_{kij} is `combine` applied to `first_kind_args`, and Γ^k_ij is
    /// `step` folded from `zero` over the pairs (g^{kl}, Γ_{lij}).
    pub open spec fn computed_from<C: Fn(T, T, T) -> T, F: Fn(T, (T, T)) -> T>(
        &self,
        metric: &MetricTensor<T>,
        dg: &Tensor<T>,
        combine: C,
        zero: T,
        step: F,
    ) -> bool {
        &&& self.dim == metric.dim
        &&& self.first_kind.dim == metric.dim
        &&& self.first_kind.index_types@ == Self::first_kind_types()
        &&& self.first_kind.wf()
        &&& forall|o: int|
            0 <= o < self.first_kind.data@.len() ==> call_ensures(
                combine,
                first_kind_args(dg, unflat(o as nat, metric.dim as nat, 3)),
                #[trigger] self.first_kind.data@[o],
            )
        &&& self.second_kind.dim == metric.dim
        &&& self.second_kind.index_types@ == Self::second_kind_types()
        &&& self.second_kind.wf()
        &&& forall|o: int|
            0 <= o < self.second_kind.data@.len() ==> folds_to(
                step,
                zero,
                self.first_kind.index_change_terms(&metric.g_inv, 0, o as nat),
                #[trigger] self.second_kind.data@[o],
            )
    }

    /// Compute Christoffel symbols from a metric and its partial derivatives.
    ///
    /// `dg` should be ∂g_ij/∂x^k, indexed as dg.get3(k, i, j). With
    /// `combine(a, b, c) = 0.5 * (a + b - c)` and
    /// `step(s, (g, x)) = s + g * x` this is
    /// Γ_{kij} = ½ (∂g_{ki}/∂x^j + ∂g_{kj}/∂x^i - ∂g_{ij}/∂x^k) and
    /// Γ^k_ij = g^{kl} Γ_{lij}.
    pub fn from_metric_derivatives_with<C: Fn(T, T, T) -> T, F: Fn(T, (T, T)) -> T>(
        metric: &MetricTensor<T>,
        dg: &Tensor<T>,
        combine: C,
        zero: T,
        step: F,
    ) -> (r: Self)
        requires
            num_components(metric.dim as nat, 3) <= usize::MAX,
            triple_readable(dg, metric.dim as nat),
            matrix_readable(&metric.g_inv, metric.dim as nat),
            forall|a: T, b: T, c: T| call_requires(combine, (a, b, c)),
            forall|acc: T, x: (T, T)| call_requires(step, (acc, x)),
        ensures
            r.computed_from(metric, dg, combine, zero, step),
    {
        let dim = metric.dim;
        let first_kind = Self::first_kind_with(dim, dg, combine);
        let second_kind = if dim == 0 {
            let mut types: Vec<IndexType> = Vec::new();
            types.push(IndexType::Contravariant);
            types.push(IndexType::Covariant);
            types.push(IndexType::Covariant);
            assert(types@ =~= Self::second_kind_types());
            proof {
                lemma_num_components_small(0);
            }
            Tensor { dim, index_types: types, data: Vec::new() }
        } else {
            let t = first_kind.index_change_with(
                &metric.g_inv,
                0,
                IndexType::Contravariant,
                zero,
                step,
            );
            assert(t.index_types@ =~= Self::second_kind_types());
            t
        };
        ChristoffelSymbols { dim, second_kind, first_kind }
    }

    /// The derivative tensor filled from `dg_fn`: position (k, i, j) holds a
    /// value that `dg_fn(i, j, k)` may return, that is ∂g_ij/∂x^k.
    pub open spec fn tabulates_derivatives<G: Fn(usize, usize, usize) -> T>(
        dg_fn: G,
        dim: usize,
        dg: &Tensor<T>,
    ) -> bool {
        &&& dg.dim == dim
        &&& dg.index_types@ == Self::first_kind_types()
        &&& dg.wf()
        &&& forall|o: int|
            0 <= o < dg.data@.len() ==> {
                let m = unflat(o as nat, dim as nat, 3);
                call_ensures(dg_fn, (m[1], m[2], m[0]), #[trigger] dg.data@[o])
            }
    }

    /// Compute Christoffel symbols from a metric whose partial derivatives are
    /// given by `dg_fn(i, j, k) = ∂g_ij/∂x^k`.
    pub fn from_metric_fn_with<
        G: Fn(usize, usize, usize) -> T,
        C: Fn(T, T, T) -> T,
        F: Fn(T, (T, T)) -> T,
    >(metric: &MetricTensor<T>, dg_fn: G, combine: C, zero: T, step: F) -> (r: Self)
        requires
            num_components(metric.dim as nat, 3) <= usize::MAX,
            matrix_readable(&metric.g_inv, metric.dim as nat),
            forall|i: usize, j: usize, k: usize| call_requires(dg_fn, (i, j, k)),
            forall|a: T, b: T, c: T| call_requires(combine, (a, b, c)),
            forall|acc: T, x: (T, T)| call_requires(step, (acc, x)),
        ensures
            exists|dg: Tensor<T>|
                Self::tabulates_derivatives(dg_fn, metric.dim, &dg) && #[trigger] r.computed_from(
                    metric,
                    &dg,
                    combine,
                    zero,
                    step,
                ),
    {
        let dim = metric.dim;
        let ghost d = dim as nat;
        let mut types: Vec<IndexType> = Vec::new();
        types.push(IndexType::Covariant);
        types.push(IndexType::Covariant);
        types.push(IndexType::Covariant);
        assert(types@ =~= Self::first_kind_types());
        let size = component_count(dim, 3);
        let mut data: Vec<T> = Vec::new();
        if dim > 0 {
            proof {
                lemma_num_components_positive(d, 3);
            }
            let mut idx: Vec<usize> = Vec::new();
            idx.push(0);
            idx.push(0);
            idx.push(0);
            proof {
                assert(idx@ =~= constant_index(3, 0));
                lemma_flat_zeros(3, d);
                lemma_unflat_flat(idx@, d);
            }
            loop
                invariant_except_break
                    data@.len() < size,
                    idx@ == unflat(data@.len() as nat, d, 3),
                invariant
                    d == dim,
                    dim > 0,
                    size == num_components(d, 3),
                    idx@.len() == 3,
                    in_bounds(idx@, d),
                    data@.len() <= size,
                    forall|i: usize, j: usize, k: usize| call_requires(dg_fn, (i, j, k)),
                    forall|o: int|
                        0 <= o < data@.len() ==> {
                            let m = unflat(o as nat, d, 3);
                            call_ensures(dg_fn, (m[1], m[2], m[0]), #[trigger] data@[o])
                        },
                ensures
                    data@.len() == size,
                    forall|o: int|
                        0 <= o < data@.len() ==> {
                            let m = unflat(o as nat, d, 3);
                            call_ensures(dg_fn, (m[1], m[2], m[0]), #[trigger] data@[o])
                        },
                decreases size - data@.len(),
            {
                let ghost o = data@.len() as nat;
                let k = idx[0];
                let i = idx[1];
                let j = idx[2];
                let v = dg_fn(i, j, k);
                data.push(v);
                assert(data@[o as int] == v);
                proof {
                    lemma_flat_unflat(o, d, 3);
                }
                let carry = increment_multi_index(&mut idx, dim);
                if carry {
                    break;
                }
                proof {
                    lemma_unflat_flat(idx@, d);
                    lemma_flat_bound(idx@, d);
                }
            }
        } else {
            proof {
                lemma_num_components_small(d);
            }
        }
        let dg_tensor = Tensor { dim, index_types: types, data };
        proof {
            lemma_num_components_small(d);
            if d > 0 {
                assert(pos3(d, (d - 1) as nat, (d - 1) as nat, (d - 1) as nat) < d * d * d)
                    by (nonlinear_arith)
                    requires
                        d > 0,
                ;
            }
        }
        let r = Self::from_metric_derivatives_with(metric, &dg_tensor, combine, zero, step);
        assert(Self::tabulates_derivatives(dg_fn, metric.dim, &dg_tensor));
        r
    }

    /// For flat metric, all Christoffel symbols are zero.
    pub fn zero(dim: usize, zero: T) -> (r: Self)
        requires
            num_components(dim as nat, 3) <= usize::MAX,
        ensures
            r.dim == dim,
            r.second_kind.dim == dim,
            r.second_kind.index_types@ == Self::second_kind_types(),
            r.second_kind.wf(),
            forall|p: int| 0 <= p < r.second_kind.data@.len() ==> r.second_kind.data@[p] == zero,
            r.first_kind.dim == dim,
            r.first_kind.index_types@ == Self::first_kind_types(),
            r.first_kind.wf(),
            forall|p: int| 0 <= p < r.first_kind.data@.len() ==> r.first_kind.data@[p] == zero,
    {
        let mut second_types: Vec<IndexType> = Vec::new();
        second_types.push(IndexType::Contravariant);
        second_types.push(IndexType::Covariant);
        second_types.push(IndexType::Covariant);
        assert(second_types@ =~= Self::second_kind_types());
        let mut first_types: Vec<IndexType> = Vec::new();
        first_types.push(IndexType::Covariant);
        first_types.push(IndexType::Covariant);
        first_types.push(IndexType::Covariant);
        assert(first_types@ =~= Self::first_kind_types());
        ChristoffelSymbols {
            dim,
            second_kind: Tensor::zeros(dim, second_types, zero),
            first_kind: Tensor::zeros(dim, first_types, zero),
        }
    }

    /// Get Γ^k_ij
    pub fn get(&self, k: usize, i: usize, j: usize) -> (v: T)
        requires
            self.second_kind.index_types@.len() == 3,
            pos3(self.second_kind.dim as nat, k as nat, i as nat, j as nat)
                < self.second_kind.data@.len(),
        ensures
            v == self.second_kind.data@[pos3(
                self.second_kind.dim as nat,
                k as nat,
                i as nat,
                j as nat,
            )],
    {
        self.second_kind.get3(k, i, j)
    }

    /// Get Γ_{kij}
    pub fn get_first(&self, k: usize, i: usize, j: usize) -> (v: T)
        requires
            self.first_kind.index_types@.len() == 3,
            pos3(self.first_kind.dim as nat, k as nat, i as nat, j as nat)
                < self.first_kind.data@.len(),
        ensures
            v == self.first_kind.data@[pos3(
                self.first_kind.dim as nat,
                k as nat,
                i as nat,
                j as nat,
            )],
    {
        self.first_kind.get3(k, i, j)
    }

    /// Check symmetry in the lower indices, Γ^k_ij = Γ^k_ji: whether
    /// `close(Γ^k_ij, Γ^k_ji)` holds for every k, i, j below the dimension.
    pub fn is_symmetric_lower_with<F: Fn(T, T) -> bool>(&self, close: F) -> (b: bool)
        requires
            christoffel_readable(self),
            forall|x: T, y: T| call_requires(close, (x, y)),
        ensures
            b ==> forall|k: int, i: int, j: int|
                0 <= k < self.dim && 0 <= i < self.dim && 0 <= j < self.dim ==> call_ensures(
                    close,
                    (#[trigger] christoffel_at(self, k, i, j), christoffel_at(self, k, j, i)),
                    true,
                ),
            !b ==> exists|k: int, i: int, j: int|
                0 <= k < self.dim && 0 <= i < self.dim && 0 <= j < self.dim && call_ensures(
                    close,
                    (#[trigger] christoffel_at(self, k, i, j), christoffel_at(self, k, j, i)),
                    false,
                ),
    {
        let dim = self.dim;
        let cl = &close;
        let test = |k: usize, i: usize, j: usize| -> (r: bool)
            requires
                k < dim,
                i < dim,
                j < dim,
                dim == self.dim,
                christoffel_readable(self),
                forall|x: T, y: T| call_requires(*cl, (x, y)),
            ensures
                call_ensures(
                    *cl,
                    (
                        christoffel_at(self, k as int, i as int, j as int),
                        christoffel_at(self, k as int, j as int, i as int),
                    ),
                    r,
                ),
            {
                proof {
                    let w = self.second_kind.dim as nat;
                    lemma_pos3_bound(w, k as nat, i as nat, j as nat, dim as nat);
                    lemma_pos3_bound(w, k as nat, j as nat, i as nat, dim as nat);
                }
                cl(self.get(k, i, j), self.get(k, j, i))
            };
        let b = all_triples(dim, test);
        proof {
            if b {
                assert forall|k: int, i: int, j: int|
                    0 <= k < self.dim && 0 <= i < self.dim && 0 <= j < self.dim implies call_ensures(
                    close,
                    (#[trigger] christoffel_at(self, k, i, j), christoffel_at(self, k, j, i)),
                    true,
                ) by {
                    assert(holds3(test, k as usize, i as usize, j as usize));
                }
            } else {
                let (k, i, j) = choose|k: usize, i: usize, j: usize|
                    k < dim && i < dim && j < dim && #[trigger] fails3(test, k, i, j);
                assert(call_ensures(
                    close,
                    (
                        christoffel_at(self, k as int, i as int, j as int),
                        christoffel_at(self, k as int, j as int, i as int),
                    ),
                    false,
                ));
            }
        }
        b
    }
}

} // verus!

//! Riemann curvature tensor, computed from Christoffel symbols.
use vstd::prelude::*;
use crate::christoffel::{lemma_pos3_bound, pos3, ChristoffelSymbols};
use crate::covariant::{christoffel_readable, matrix_at, matrix_readable};
use crate::checks::{all_quads, fails4, holds4};
use crate::fold::{fold_trace, folds_to, lemma_fold_trace_push};
use crate::layout::{
    constant_index, in_bounds, increment_multi_index, lemma_flat_bound, lemma_flat_unflat,
    lemma_flat_zeros, lemma_num_components_positive, lemma_unflat_flat, num_components, unflat,
};
use crate::tensor::{component_count, lemma_num_components_small, IndexType, Tensor};

verus! {

/// Row-major position of (a, b, c, e) in a rank-4 array with row length `w`.
pub open spec fn pos4(w: nat, a: nat, b: nat, c: nat, e: nat) -> int {
    (a * w * w * w + b * w * w + c * w + e) as int
}

/// Indices below `d` never reach past position (d-1, d-1, d-1, d-1).
pub proof fn lemma_pos4_bound(w: nat, a: nat, b: nat, c: nat, e: nat, d: nat)
    requires
        a < d,
        b < d,
        c < d,
        e < d,
    ensures
        pos4(w, a, b, c, e) <= pos4(
            w,
            (d - 1) as nat,
            (d - 1) as nat,
            (d - 1) as nat,
            (d - 1) as nat,
        ),
{
    assert(a * w * w * w <= (d - 1) * w * w * w && b * w * w <= (d - 1) * w * w && c * w <= (d - 1)
        * w) by (nonlinear_arith)
        requires
            a <= d - 1,
            b <= d - 1,
            c <= d - 1,
    ;
}

/// The component of a rank-3 tensor at a multi-index, by its own row length.
pub open spec fn at3<T>(t: &Tensor<T>, idx: Seq<usize>) -> T {
    t.data@[pos3(t.dim as nat, idx[0] as nat, idx[1] as nat, idx[2] as nat)]
}

/// The component of a rank-4 tensor at a multi-index, by its own row length.
pub open spec fn at4<T>(t: &Tensor<T>, idx: Seq<usize>) -> T {
    t.data@[pos4(t.dim as nat, idx[0] as nat, idx[1] as nat, idx[2] as nat, idx[3] as nat)]
}

/// The component (a, b, c, e) of a rank-4 tensor, by its own row length.
pub open spec fn quad_at<T>(t: &Tensor<T>, a: int, b: int, c: int, e: int) -> T {
    t.data@[pos4(t.dim as nat, a as nat, b as nat, c as nat, e as nat)]
}

/// A rank-4 tensor can be read at every (a, b, c, e) below `dim`, by its
/// own row length (which asks nothing of it when `dim` is zero).
pub open spec fn quad_readable<T>(t: &Tensor<T>, dim: nat) -> bool {
    dim == 0 || (t.index_types@.len() == 4 && pos4(
        t.dim as nat,
        (dim - 1) as nat,
        (dim - 1) as nat,
        (dim - 1) as nat,
        (dim - 1) as nat,
    ) < t.data@.len())
}

/// For R^i_{jkl}, with m = (i, j, k, l): where ∂Γ^i_{jl}/∂x^k (added) and
/// ∂Γ^i_{jk}/∂x^l (subtracted) are read in a tensor that holds ∂Γ^i_{jk}/∂x^l
/// at (i, j, k, l).
pub open spec fn derivative_indices(m: Seq<usize>) -> (Seq<usize>, Seq<usize>) {
    (seq![m[0], m[1], m[3], m[2]], seq![m[0], m[1], m[2], m[3]])
}

/// For R^i_{jkl} and the summation index s: where Γ^i_{sk}, Γ^s_{jl} (whose
/// product is added) and Γ^i_{sl}, Γ^s_{jk} (whose product is subtracted)
/// are read.
pub open spec fn product_indices(m: Seq<usize>, s: usize) -> (
    Seq<usize>,
    Seq<usize>,
    Seq<usize>,
    Seq<usize>,
) {
    (seq![m[0], s, m[2]], seq![s, m[1], m[3]], seq![m[0], s, m[3]], seq![s, m[1], m[2]])
}

/// The same multi-index with its two lower Christoffel indices (positions 1
/// and 2) exchanged.
pub open spec fn swap_lower(idx: Seq<usize>) -> Seq<usize> {
    idx.update(1, idx[2]).update(2, idx[1])
}

/// Antisymmetry in the last two indices: R^i_{jlk} is made of the same
/// terms as R^i_{jkl} with every added term and its subtracted partner
/// exchanged.
pub proof fn lemma_riemann_kl_antisymmetry(i: usize, j: usize, k: usize, l: usize, s: usize)
    ensures
        derivative_indices(seq![i, j, l, k]) == (
            derivative_indices(seq![i, j, k, l]).1,
            derivative_indices(seq![i, j, k, l]).0,
        ),
        product_indices(seq![i, j, l, k], s) == (
            product_indices(seq![i, j, k, l], s).2,
            product_indices(seq![i, j, k, l], s).3,
            product_indices(seq![i, j, k, l], s).0,
            product_indices(seq![i, j, k, l], s).1,
        ),
{
    assert(derivative_indices(seq![i, j, l, k]).0 =~= derivative_indices(seq![i, j, k, l]).1);
    assert(derivative_indices(seq![i, j, l, k]).1 =~= derivative_indices(seq![i, j, k, l]).0);
    assert(product_indices(seq![i, j, l, k], s).0 =~= product_indices(seq![i, j, k, l], s).2);
    assert(product_indices(seq![i, j, l, k], s).1 =~= product_indices(seq![i, j, k, l], s).3);
    assert(product_indices(seq![i, j, l, k], s).2 =~= product_indices(seq![i, j, k, l], s).0);
    assert(product_indices(seq![i, j, l, k], s).3 =~= product_indices(seq![i, j, k, l], s).1);
}

/// First Bianchi identity, term by term: in R^i_{jkl} + R^i_{klj} + R^i_{ljk}
/// every added term has a subtracted partner that reads the same entries up
/// to exchanging the two lower indices of a Christoffel symbol (or of the
/// differentiated symbol), so the cyclic sum cancels whenever Γ and ∂Γ are
/// symmetric in their lower indices.
pub proof fn lemma_riemann_bianchi_cancellation(i: usize, j: usize, k: usize, l: usize, s: usize)
    ensures
        derivative_indices(seq![i, j, k, l]).0 == swap_lower(
            derivative_indices(seq![i, l, j, k]).1,
        ),
        derivative_indices(seq![i, k, l, j]).0 == swap_lower(
            derivative_indices(seq![i, j, k, l]).1,
        ),
        derivative_indices(seq![i, l, j, k]).0 == swap_lower(
            derivative_indices(seq![i, k, l, j]).1,
        ),
        product_indices(seq![i, j, k, l], s).0 == product_indices(seq![i, l, j, k], s).2,
        product_indices(seq![i, j, k, l], s).1 == swap_lower(
            product_indices(seq![i, l, j, k], s).3,
        ),
        product_indices(seq![i, k, l, j], s).0 == product_indices(seq![i, j, k, l], s).2,
        product_indices(seq![i, k, l, j], s).1 == swap_lower(
            product_indices(seq![i, j, k, l], s).3,
        ),
        product_indices(seq![i, l, j, k], s).0 == product_indices(seq![i, k, l, j], s).2,
        product_indices(seq![i, l, j, k], s).1 == swap_lower(
            product_indices(seq![i, k, l, j], s).3,
        ),
{
    assert(derivative_indices(seq![i, j, k, l]).0 =~= swap_lower(
        derivative_indices(seq![i, l, j, k]).1,
    ));
    assert(derivative_indices(seq![i, k, l, j]).0 =~= swap_lower(
        derivative_indices(seq![i, j, k, l]).1,
    ));
    assert(derivative_indices(seq![i, l, j, k]).0 =~= swap_lower(
        derivative_indices(seq![i, k, l, j]).1,
    ));
    assert(product_indices(seq![i, j, k, l], s).0 =~= product_indices(seq![i, l, j, k], s).2);
    assert(product_indices(seq![i, j, k, l], s).1 =~= swap_lower(
        product_indices(seq![i, l, j, k], s).3,
    ));
    assert(product_indices(seq![i, k, l, j], s).0 =~= product_indices(seq![i, j, k, l], s).2);
    assert(product_indices(seq![i, k, l, j], s).1 =~= swap_lower(
        product_indices(seq![i, j, k, l], s).3,
    ));
    assert(product_indices(seq![i, l, j, k], s).0 =~= product_indices(seq![i, k, l, j], s).2);
    assert(product_indices(seq![i, l, j, k], s).1 =~= swap_lower(
        product_indices(seq![i, k, l, j], s).3,
    ));
}

/// The two derivatives that start R^i_{jkl}, with m = (i, j, k, l).
pub open spec fn derivative_args<T>(dgamma: &Tensor<T>, m: Seq<usize>) -> (T, T) {
    (at4(dgamma, derivative_indices(m).0), at4(dgamma, derivative_indices(m).1))
}

/// The Christoffel products summed into R^i_{jkl}, one per summation index.
pub open spec fn product_terms<T>(gamma: &ChristoffelSymbols<T>, m: Seq<usize>) -> Seq<
    (T, T, T, T),
> {
    Seq::new(
        gamma.dim as nat,
        |s: int|
            {
                let p = product_indices(m, s as usize);
                (
                    at3(&gamma.second_kind, p.0),
                    at3(&gamma.second_kind, p.1),
                    at3(&gamma.second_kind, p.2),
                    at3(&gamma.second_kind, p.3),
                )
            },
    )
}

/// `value` is a result of `start` on the derivative terms of R^i_{jkl},
/// followed by `step` folded over its Christoffel products.
pub open spec fn curvature_component<T, S: Fn(T, T) -> T, F: Fn(T, (T, T, T, T)) -> T>(
    gamma: &ChristoffelSymbols<T>,
    dgamma: &Tensor<T>,
    start: S,
    step: F,
    m: Seq<usize>,
    value: T,
) -> bool {
    exists|init: T|
        call_ensures(start, derivative_args(dgamma, m), init) && #[trigger] folds_to(
            step,
            init,
            product_terms(gamma, m),
            value,
        )
}

/// The pairs (g_{is}, R^s_{jkl}), s in order, summed into R_{ijkl} for
/// m = (i, j, k, l): the metric read by its row length and the mixed
/// components by theirs.
pub open spec fn lowering_terms<T>(
    metric_g: &Tensor<T>,
    components: &Tensor<T>,
    dim: nat,
    m: Seq<usize>,
) -> Seq<(T, T)> {
    Seq::new(
        dim,
        |s: int|
            (
                matrix_at(metric_g, m[0] as int, s),
                quad_at(components, s, m[1] as int, m[2] as int, m[3] as int),
            ),
    )
}

/// Riemann curvature tensor R^i_{jkl}.
///
/// R^i_{jkl} = ∂Γ^i_{jl}/∂x^k - ∂Γ^i_{jk}/∂x^l
///           + Γ^i_{mk} Γ^m_{jl} - Γ^i_{ml} Γ^m_{jk}
#[derive(Clone, Debug)]
pub struct RiemannTensor<T> {
    pub dim: usize,
    /// R^i_{jkl} — rank-4 tensor with one contravariant, three covariant indices
    pub components: Tensor<T>,
    /// Fully covariant form R_{ijkl} = g_{im} R^m_{jkl}
    pub covariant: Tensor<T>,
}

impl<T: Copy> RiemannTensor<T> {
    /// The index types of R^i_{jkl}.
    pub open spec fn mixed_types() -> Seq<IndexType> {
        seq![
            IndexType::Contravariant,
            IndexType::Covariant,
            IndexType::Covariant,
            IndexType::Covariant,
        ]
    }

    /// The index types of R_{ijkl}.
    pub open spec fn covariant_types() -> Seq<IndexType> {
        seq![IndexType::Covariant, IndexType::Covariant, IndexType::Covariant, IndexType::Covariant]
    }

    /// The mixed components computed from `gamma` and `dgamma`.
    pub open spec fn components_from<S: Fn(T, T) -> T, F: Fn(T, (T, T, T, T)) -> T>(
        &self,
        gamma: &ChristoffelSymbols<T>,
        dgamma: &Tensor<T>,
        start: S,
        step: F,
    ) -> bool {
        &&& self.dim == gamma.dim
        &&& self.components.dim == gamma.dim
        &&& self.components.index_types@ == Self::mixed_types()
        &&& self.components.wf()
        &&& forall|o: int|
            0 <= o < self.components.data@.len() ==> curvature_component(
                gamma,
                dgamma,
                start,
                step,
                unflat(o as nat, gamma.dim as nat, 4),
                #[trigger] self.components.data@[o],
            )
    }

    /// Compute the Riemann tensor from Christoffel symbols and their partial
    /// derivatives, `dgamma` holding ∂Γ^i_{jk}/∂x^l at (i, j, k, l). Each
    /// component starts from `start` on the two derivative terms and folds
    /// `step` over the Christoffel products; with `start(a, b) = a - b` and
    /// `step(v, (a, b, c, e)) = v + (a * b - c * e)` this is the formula above.
    /// The covariant form is left filled with `zero`.
    pub fn from_christoffel_with<S: Fn(T, T) -> T, F: Fn(T, (T, T, T, T)) -> T>(
        gamma: &ChristoffelSymbols<T>,
        dgamma: &Tensor<T>,
        zero: T,
        start: S,
        step: F,
    ) -> (r: Self)
        requires
            num_components(gamma.dim as nat, 4) <= usize::MAX,
            quad_readable(dgamma, gamma.dim as nat),
            christoffel_readable(gamma),
            forall|a: T, b: T| call_requires(start, (a, b)),
            forall|acc: T, x: (T, T, T, T)| call_requires(step, (acc, x)),
        ensures
            r.components_from(gamma, dgamma, start, step),
            r.covariant.dim == gamma.dim,
            r.covariant.index_types@ == Self::covariant_types(),
            r.covariant.wf(),
            forall|p: int| 0 <= p < r.covariant.data@.len() ==> r.covariant.data@[p] == zero,
    {
        let dim = gamma.dim;
        let ghost d = dim as nat;
        let mut types: Vec<IndexType> = Vec::new();
        types.push(IndexType::Contravariant);
        types.push(IndexType::Covariant);
        types.push(IndexType::Covariant);
        types.push(IndexType::Covariant);
        assert(types@ =~= Self::mixed_types());
        let mut cov_types: Vec<IndexType> = Vec::new();
        cov_types.push(IndexType::Covariant);
        cov_types.push(IndexType::Covariant);
        cov_types.push(IndexType::Covariant);
        cov_types.push(IndexType::Covariant);
        assert(cov_types@ =~= Self::covariant_types());
        let size = component_count(dim, 4);
        let mut data: Vec<T> = Vec::new();
        if dim > 0 {
            proof {
                lemma_num_components_positive(d, 4);
            }
            let mut idx: Vec<usize> = Vec::new();
            idx.push(0);
            idx.push(0);
            idx.push(0);
            idx.push(0);
            proof {
                assert(idx@ =~= constant_index(4, 0));
                lemma_flat_zeros(4, d);
                lemma_unflat_flat(idx@, d);
            }
            let n_dgamma = dgamma.data.len();
            let n_gamma = gamma.second_kind.data.len();
            loop
                invariant_except_break
                    data@.len() < size,
                    idx@ == unflat(data@.len() as nat, d, 4),
                invariant
                    d == dim,
                    dim == gamma.dim,
                    dim > 0,
                    size == num_components(d, 4),
                    dgamma.index_types@.len() == 4,
                    pos4(
                        dgamma.dim as nat,
                        (dim - 1) as nat,
                        (dim - 1) as nat,
                        (dim - 1) as nat,
                        (dim - 1) as nat,
                    ) < dgamma.data@.len(),
                    gamma.second_kind.index_types@.len() == 3,
                    pos3(
                        gamma.second_kind.dim as nat,
                        (dim - 1) as nat,
                        (dim - 1) as nat,
                        (dim - 1) as nat,
                    ) < gamma.second_kind.data@.len(),
                    idx@.len() == 4,
                    in_bounds(idx@, d),
                    data@.len() <= size,
                    forall|a: T, b: T| call_requires(start, (a, b)),
                    forall|acc: T, x: (T, T, T, T)| call_requires(step, (acc, x)),
                    forall|o: int|
                        0 <= o < data@.len() ==> curvature_component(
                            gamma,
                            dgamma,
                            start,
                            step,
                            unflat(o as nat, d, 4),
                            #[trigger] data@[o],
                        ),
                ensures
                    data@.len() == size,
                    forall|o: int|
                        0 <= o < data@.len() ==> curvature_component(
                            gamma,
                            dgamma,
                            start,
                            step,
                            unflat(o as nat, d, 4),
                            #[trigger] data@[o],
                        ),
                decreases size - data@.len(),
            {
                let ghost o = data@.len() as nat;
                let ghost m = idx@;
                let i = idx[0];
                let j = idx[1];
                let k = idx[2];
                let l = idx[3];
                assert(i < dim && j < dim && k < dim && l < dim);
                assert(m =~= seq![i, j, k, l]);
                let wd = dgamma.dim;
                proof {
                    lemma_pos4_bound(wd as nat, i as nat, j as nat, l as nat, k as nat, d);
                    lemma_pos4_bound(wd as nat, i as nat, j as nat, k as nat, l as nat, d);
                    crate::tensor::lemma_partial_products4(
                        i as nat,
                        j as nat,
                        l as nat,
                        k as nat,
                        wd as nat,
                    );
                    crate::tensor::lemma_partial_products4(
                        i as nat,
                        j as nat,
                        k as nat,
                        l as nat,
                        wd as nat,
                    );
                }
                let plus = dgamma.get4(i, j, l, k);
                let minus = dgamma.get4(i, j, k, l);
                assert((plus, minus) == derivative_args(dgamma, m));
                let init = start(plus, minus);
                let ghost terms = product_terms(gamma, m);
                let mut val = init;
                let ghost mut partials: Seq<T> = seq![init];
                proof {
                    assert(terms.take(0) =~= Seq::<(T, T, T, T)>::empty());
                }
                let mut s: usize = 0;
                while s < dim
                    invariant
                        s <= dim,
                        d == dim,
                        dim == gamma.dim,
                        m == seq![i, j, k, l],
                        i < dim,
                        j < dim,
                        k < dim,
                        l < dim,
                        terms == product_terms(gamma, m),
                        gamma.second_kind.index_types@.len() == 3,
                        pos3(
                            gamma.second_kind.dim as nat,
                            (dim - 1) as nat,
                            (dim - 1) as nat,
                            (dim - 1) as nat,
                        ) < gamma.second_kind.data@.len(),
                        forall|acc: T, x: (T, T, T, T)| call_requires(step, (acc, x)),
                        fold_trace(step, init, terms.take(s as int), partials),
                        partials.last() == val,
                    decreases dim - s,
                {
                    let ws = gamma.second_kind.dim;
                    proof {
                        lemma_pos3_bound(ws as nat, i as nat, s as nat, k as nat, d);
                        lemma_pos3_bound(ws as nat, s as nat, j as nat, l as nat, d);
                        lemma_pos3_bound(ws as nat, i as nat, s as nat, l as nat, d);
                        lemma_pos3_bound(ws as nat, s as nat, j as nat, k as nat, d);
                    }
                    let a = gamma.get(i, s, k);
                    let b = gamma.get(s, j, l);
                    let c = gamma.get(i, s, l);
                    let e = gamma.get(s, j, k);
                    assert((a, b, c, e) == terms[s as int]);
                    val = step(val, (a, b, c, e));
                    proof {
                        lemma_fold_trace_push(step, init, terms.take(s as int), partials, (a, b, c, e), val);
                        partials = partials.push(val);
                        assert(terms.take(s as int).push((a, b, c, e)) =~= terms.take(s + 1));
                    }
                    s = s + 1;
                }
                proof {
                    assert(terms.take(dim as int) =~= terms);
                    assert(folds_to(step, init, terms, val));
                }
                data.push(val);
                assert(data@[o as int] == val);
                assert(curvature_component(gamma, dgamma, start, step, m, val));
                proof {
                    lemma_flat_unflat(o, d, 4);
                }
                let carry = increment_multi_index(&mut idx, dim);
                if carry {
                    break;
                }
                proof {
                    lemma_unflat_flat(idx@, d);
                    lemma_flat_bound(idx@, d);
                }
            }
        } else {
            proof {
                lemma_num_components_small(d);
            }
        }
        let components = Tensor { dim, index_types: types, data };
        RiemannTensor { dim, components, covariant: Tensor::zeros(dim, cov_types, zero) }
    }

    /// The derivative tensor filled from `dgamma_fn`: position (i, j, k, l)
    /// holds a value that `dgamma_fn(i, j, k, l)` may return.
    pub open spec fn tabulates_derivatives<G: Fn(usize, usize, usize, usize) -> T>(
        dgamma_fn: G,
        dim: usize,
        dgamma: &Tensor<T>,
    ) -> bool {
        &&& dgamma.dim == dim
        &&& dgamma.index_types@ == Self::mixed_types()
        &&& dgamma.wf()
        &&& forall|o: int|
            0 <= o < dgamma.data@.len() ==> {
                let m = unflat(o as nat, dim as nat, 4);
                call_ensures(dgamma_fn, (m[0], m[1], m[2], m[3]), #[trigger] dgamma.data@[o])
            }
    }

    /// Compute the Riemann tensor from Christoffel symbols with derivatives
    /// provided as a closure: `dgamma_fn(i, j, k, l) = ∂Γ^i_{jk}/∂x^l`.
    pub fn from_christoffel_fn_with<
        G: Fn(usize, usize, usize, usize) -> T,
        S: Fn(T, T) -> T,
        F: Fn(T, (T, T, T, T)) -> T,
    >(gamma: &ChristoffelSymbols<T>, dgamma_fn: G, zero: T, start: S, step: F) -> (r: Self)
        requires
            num_components(gamma.dim as nat, 4) <= usize::MAX,
            christoffel_readable(gamma),
            forall|i: usize, j: usize, k: usize, l: usize| call_requires(dgamma_fn, (i, j, k, l)),
            forall|a: T, b: T| call_requires(start, (a, b)),
            forall|acc: T, x: (T, T, T, T)| call_requires(step, (acc, x)),
        ensures
            exists|dgamma: Tensor<T>|
                Self::tabulates_derivatives(dgamma_fn, gamma.dim, &dgamma)
                    && #[trigger] r.components_from(gamma, &dgamma, start, step),
            r.covariant.dim == gamma.dim,
            r.covariant.index_types@ == Self::covariant_types(),
            r.covariant.wf(),
            forall|p: int| 0 <= p < r.covariant.data@.len() ==> r.covariant.data@[p] == zero,
    {
        let dim = gamma.dim;
        let ghost d = dim as nat;
        let mut types: Vec<IndexType> = Vec::new();
        types.push(IndexType::Contravariant);
        types.push(IndexType::Covariant);
        types.push(IndexType::Covariant);
        types.push(IndexType::Covariant);
        assert(types@ =~= Self::mixed_types());
        let size = component_count(dim, 4);
        let mut data: Vec<T> = Vec::new();
        if dim > 0 {
            proof {
                lemma_num_components_positive(d, 4);
            }
            let mut idx: Vec<usize> = Vec::new();
            idx.push(0);
            idx.push(0);
            idx.push(0);
            idx.push(0);
            proof {
                assert(idx@ =~= constant_index(4, 0));
                lemma_flat_zeros(4, d);
                lemma_unflat_flat(idx@, d);
            }
            loop
                invariant_except_break
                    data@.len() < size,
                    idx@ == unflat(data@.len() as nat, d, 4),
                invariant
                    d == dim,
                    dim > 0,
                    size == num_components(d, 4),
                    idx@.len() == 4,
                    in_bounds(idx@, d),
                    data@.len() <= size,
                    forall|i: usize, j: usize, k: usize, l: usize|
                        call_requires(dgamma_fn, (i, j, k, l)),
                    forall|o: int|
                        0 <= o < data@.len() ==> {
                            let m = unflat(o as nat, d, 4);
                            call_ensures(dgamma_fn, (m[0], m[1], m[2], m[3]), #[trigger] data@[o])
                        },
                ensures
                    data@.len() == size,
                    forall|o: int|
                        0 <= o < data@.len() ==> {
                            let m = unflat(o as nat, d, 4);
                            call_ensures(dgamma_fn, (m[0], m[1], m[2], m[3]), #[trigger] data@[o])
                        },
                decreases size - data@.len(),
            {
                let ghost o = data@.len() as nat;
                let v = dgamma_fn(idx[0], idx[1], idx[2], idx[3]);
                data.push(v);
                assert(data@[o as int] == v);
                proof {
                    lemma_flat_unflat(o, d, 4);
                }
                let carry = increment_multi_index(&mut idx, dim);
                if carry {
                    break;
                }
                proof {
                    lemma_unflat_flat(idx@, d);
                    lemma_flat_bound(idx@, d);
                }
            }
        } else {
            proof {
                lemma_num_components_small(d);
            }
        }
        let dgamma = Tensor { dim, index_types: types, data };
        proof {
            lemma_num_components_small(d);
            if d > 0 {
                assert(pos4(d, (d - 1) as nat, (d - 1) as nat, (d - 1) as nat, (d - 1) as nat) < d
                    * d * d * d) by (nonlinear_arith)
                    requires
                        d > 0,
                ;
            }
        }
        let r = Self::from_christoffel_with(gamma, &dgamma, zero, start, step);
        assert(Self::tabulates_derivatives(dgamma_fn, gamma.dim, &dgamma));
        r
    }

    /// Compute the fully covariant form R_{ijkl} = g_{im} R^m_{jkl}: the
    /// component at (i, j, k, l) is `step` folded from `zero` over
    /// `lowering_terms`, the pairs (g_{im}, R^m_{jkl}) for m in order, each
    /// read by its own row length; with `step(s, (g, r)) = s + g * r` this is
    /// the sum above. The mixed components are left as they are.
    pub fn compute_covariant_with<F: Fn(T, (T, T)) -> T>(
        &mut self,
        metric_g: &Tensor<T>,
        zero: T,
        step: F,
    )
        requires
            num_components(old(self).dim as nat, 4) <= usize::MAX,
            quad_readable(&old(self).components, old(self).dim as nat),
            matrix_readable(metric_g, old(self).dim as nat),
            forall|acc: T, x: (T, T)| call_requires(step, (acc, x)),
        ensures
            final(self).dim == old(self).dim,
            final(self).components == old(self).components,
            final(self).covariant.dim == old(self).dim,
            final(self).covariant.index_types@ == Self::covariant_types(),
            final(self).covariant.wf(),
            forall|o: int|
                0 <= o < final(self).covariant.data@.len() ==> folds_to(
                    step,
                    zero,
                    lowering_terms(
                        metric_g,
                        &old(self).components,
                        old(self).dim as nat,
                        unflat(o as nat, old(self).dim as nat, 4),
                    ),
                    #[trigger] final(self).covariant.data@[o],
                ),
    {
        let dim = self.dim;
        let ghost d = dim as nat;
        let mut cov_types: Vec<IndexType> = Vec::new();
        cov_types.push(IndexType::Covariant);
        cov_types.push(IndexType::Covariant);
        cov_types.push(IndexType::Covariant);
        cov_types.push(IndexType::Covariant);
        assert(cov_types@ =~= Self::covariant_types());
        let size = component_count(dim, 4);
        let mut data: Vec<T> = Vec::new();
        if dim > 0 {
            proof {
                lemma_num_components_positive(d, 4);
            }
            let mut idx: Vec<usize> = Vec::new();
            idx.push(0);
            idx.push(0);
            idx.push(0);
            idx.push(0);
            proof {
                assert(idx@ =~= constant_index(4, 0));
                lemma_flat_zeros(4, d);
                lemma_unflat_flat(idx@, d);
            }
            loop
                invariant_except_break
                    data@.len() < size,
                    idx@ == unflat(data@.len() as nat, d, 4),
                invariant
                    d == dim,
                    dim == self.dim,
                    dim > 0,
                    size == num_components(d, 4),
                    quad_readable(&self.components, d),
                    matrix_readable(metric_g, d),
                    idx@.len() == 4,
                    in_bounds(idx@, d),
                    data@.len() <= size,
                    forall|acc: T, x: (T, T)| call_requires(step, (acc, x)),
                    forall|o: int|
                        0 <= o < data@.len() ==> folds_to(
                            step,
                            zero,
                            lowering_terms(metric_g, &self.components, d, unflat(o as nat, d, 4)),
                            #[trigger] data@[o],
                        ),
                ensures
                    data@.len() == size,
                    forall|o: int|
                        0 <= o < data@.len() ==> folds_to(
                            step,
                            zero,
                            lowering_terms(metric_g, &self.components, d, unflat(o as nat, d, 4)),
                            #[trigger] data@[o],
                        ),
                decreases size - data@.len(),
            {
                let ghost o = data@.len() as nat;
                let ghost m = idx@;
                let i = idx[0];
                let j = idx[1];
                let k = idx[2];
                let l = idx[3];
                assert(i < dim && j < dim && k < dim && l < dim);
                let ghost terms = lowering_terms(metric_g, &self.components, d, m);
                let mut val = zero;
                let ghost mut partials: Seq<T> = seq![zero];
                proof {
                    assert(terms.take(0) =~= Seq::<(T, T)>::empty());
                }
                let mut s: usize = 0;
                while s < dim
                    invariant
                        s <= dim,
                        d == dim,
                        dim == self.dim,
                        m == idx@,
                        m.len() == 4,
                        m[0] == i,
                        m[1] == j,
                        m[2] == k,
                        m[3] == l,
                        i < dim,
                        j < dim,
                        k < dim,
                        l < dim,
                        terms == lowering_terms(metric_g, &self.components, d, m),
                        quad_readable(&self.components, d),
                        matrix_readable(metric_g, d),
                        forall|acc: T, x: (T, T)| call_requires(step, (acc, x)),
                        fold_trace(step, zero, terms.take(s as int), partials),
                        partials.last() == val,
                    decreases dim - s,
                {
                    proof {
                        lemma_pos4_bound(
                            self.components.dim as nat,
                            s as nat,
                            j as nat,
                            k as nat,
                            l as nat,
                            d,
                        );
                        crate::metric::lemma_matrix_position(i as nat, s as nat, d, metric_g.dim as nat);
                    }
                    let g = metric_g.get2(i, s);
                    let r = self.get(s, j, k, l);
                    assert((g, r) == terms[s as int]);
                    val = step(val, (g, r));
                    proof {
                        lemma_fold_trace_push(step, zero, terms.take(s as int), partials, (g, r), val);
                        partials = partials.push(val);
                        assert(terms.take(s as int).push((g, r)) =~= terms.take(s + 1));
                    }
                    s = s + 1;
                }
                proof {
                    assert(terms.take(dim as int) =~= terms);
                    assert(folds_to(step, zero, terms, val));
                }
                data.push(val);
                assert(data@[o as int] == val);
                proof {
                    lemma_flat_unflat(o, d, 4);
                }
                let carry = increment_multi_index(&mut idx, dim);
                if carry {
                    break;
                }
                proof {
                    lemma_unflat_flat(idx@, d);
                    lemma_flat_bound(idx@, d);
                }
            }
        } else {
            proof {
                lemma_num_components_small(d);
            }
        }
        self.covariant = Tensor { dim, index_types: cov_types, data };
    }

    /// Get R^i_{jkl}
    pub fn get(&self, i: usize, j: usize, k: usize, l: usize) -> (v: T)
        requires
            self.components.index_types@.len() == 4,
            pos4(self.components.dim as nat, i as nat, j as nat, k as nat, l as nat)
                < self.components.data@.len(),
        ensures
            v == self.components.data@[pos4(
                self.components.dim as nat,
                i as nat,
                j as nat,
                k as nat,
                l as nat,
            )],
    {
        self.components.get4(i, j, k, l)
    }

    /// Get R_{ijkl} (covariant)
    pub fn get_cov(&self, i: usize, j: usize, k: usize, l: usize) -> (v: T)
        requires
            self.covariant.index_types@.len() == 4,
            pos4(self.covariant.dim as nat, i as nat, j as nat, k as nat, l as nat)
                < self.covariant.data@.len(),
        ensures
            v == self.covariant.data@[pos4(
                self.covariant.dim as nat,
                i as nat,
                j as nat,
                k as nat,
                l as nat,
            )],
    {
        self.covariant.get4(i, j, k, l)
    }

    /// For flat space, return zero Riemann tensor.
    pub fn zero(dim: usize, zero: T) -> (r: Self)
        requires
            num_components(dim as nat, 4) <= usize::MAX,
        ensures
            r.dim == dim,
            r.components.dim == dim,
            r.components.index_types@ == Self::mixed_types(),
            r.components.wf(),
            forall|p: int| 0 <= p < r.components.data@.len() ==> r.components.data@[p] == zero,
            r.covariant.dim == dim,
            r.covariant.index_types@ == Self::covariant_types(),
            r.covariant.wf(),
            forall|p: int| 0 <= p < r.covariant.data@.len() ==> r.covariant.data@[p] == zero,
    {
        let mut types: Vec<IndexType> = Vec::new();
        types.push(IndexType::Contravariant);
        types.push(IndexType::Covariant);
        types.push(IndexType::Covariant);
        types.push(IndexType::Covariant);
        assert(types@ =~= Self::mixed_types());
        let mut cov_types: Vec<IndexType> = Vec::new();
        cov_types.push(IndexType::Covariant);
        cov_types.push(IndexType::Covariant);
        cov_types.push(IndexType::Covariant);
        cov_types.push(IndexType::Covariant);
        assert(cov_types@ =~= Self::covariant_types());
        RiemannTensor {
            dim,
            components: Tensor::zeros(dim, types, zero),
            covariant: Tensor::zeros(dim, cov_types, zero),
        }
    }

    /// Check antisymmetry in the last two indices, R^i_{jkl} = -R^i_{jlk}:
    /// whether `cancels(R^i_{jkl}, R^i_{jlk})` holds for every i, j, k, l
    /// below the dimension (with `cancels(a, b) = |a + b| <= tol` this is a
    /// tolerance check).
    pub fn is_antisymmetric_kl_with<F: Fn(T, T) -> bool>(&self, cancels: F) -> (b: bool)
        requires
            quad_readable(&self.components, self.dim as nat),
            forall|x: T, y: T| call_requires(cancels, (x, y)),
        ensures
            b ==> forall|i: int, j: int, k: int, l: int|
                0 <= i < self.dim && 0 <= j < self.dim && 0 <= k < self.dim && 0 <= l < self.dim
                    ==> call_ensures(
                    cancels,
                    (
                        #[trigger] quad_at(&self.components, i, j, k, l),
                        quad_at(&self.components, i, j, l, k),
                    ),
                    true,
                ),
            !b ==> exists|i: int, j: int, k: int, l: int|
                0 <= i < self.dim && 0 <= j < self.dim && 0 <= k < self.dim && 0 <= l < self.dim
                    && call_ensures(
                    cancels,
                    (
                        #[trigger] quad_at(&self.components, i, j, k, l),
                        quad_at(&self.components, i, j, l, k),
                    ),
                    false,
                ),
    {
        let dim = self.dim;
        let cl = &cancels;
        let test = |i: usize, j: usize, k: usize, l: usize| -> (r: bool)
            requires
                i < dim,
                j < dim,
                k < dim,
                l < dim,
                dim == self.dim,
                quad_readable(&self.components, self.dim as nat),
                forall|x: T, y: T| call_requires(*cl, (x, y)),
            ensures
                call_ensures(
                    *cl,
                    (
                        quad_at(&self.components, i as int, j as int, k as int, l as int),
                        quad_at(&self.components, i as int, j as int, l as int, k as int),
                    ),
                    r,
                ),
            {
                proof {
                    let w = self.components.dim as nat;
                    lemma_pos4_bound(w, i as nat, j as nat, k as nat, l as nat, dim as nat);
                    lemma_pos4_bound(w, i as nat, j as nat, l as nat, k as nat, dim as nat);
                }
                cl(self.get(i, j, k, l), self.get(i, j, l, k))
            };
        let b = all_quads(dim, test);
        proof {
            if b {
                assert forall|i: int, j: int, k: int, l: int|
                    0 <= i < self.dim && 0 <= j < self.dim && 0 <= k < self.dim && 0 <= l
                        < self.dim implies call_ensures(
                    cancels,
                    (
                        #[trigger] quad_at(&self.components, i, j, k, l),
                        quad_at(&self.components, i, j, l, k),
                    ),
                    true,
                ) by {
                    assert(holds4(test, i as usize, j as usize, k as usize, l as usize));
                }
            } else {
                let (i, j, k, l) = choose|i: usize, j: usize, k: usize, l: usize|
                    i < dim && j < dim && k < dim && l < dim && #[trigger] fails4(test, i, j, k, l);
                assert(call_ensures(
                    cancels,
                    (
                        quad_at(&self.components, i as int, j as int, k as int, l as int),
                        quad_at(&self.components, i as int, j as int, l as int, k as int),
                    ),
                    false,
                ));
            }
        }
        b
    }

    /// Check antisymmetry in the first two indices of the covariant form,
    /// R_{ijkl} = -R_{jikl}: whether `cancels(R_{ijkl}, R_{jikl})` holds for
    /// every i, j, k, l below the dimension.
    pub fn is_antisymmetric_ij_cov_with<F: Fn(T, T) -> bool>(&self, cancels: F) -> (b: bool)
        requires
            quad_readable(&self.covariant, self.dim as nat),
            forall|x0: T, x1: T| call_requires(cancels, (x0, x1)),
        ensures
            b ==> forall|i: int, j: int, k: int, l: int|
                0 <= i < self.dim && 0 <= j < self.dim && 0 <= k < self.dim && 0 <= l < self.dim
                    ==> call_ensures(
                    cancels,
                    (
                        #[trigger] quad_at(&self.covariant, i, j, k, l),
                        quad_at(&self.covariant, j, i, k, l),
                    ),
                    true,
                ),
            !b ==> exists|i: int, j: int, k: int, l: int|
                0 <= i < self.dim && 0 <= j < self.dim && 0 <= k < self.dim && 0 <= l < self.dim
                    && call_ensures(
                    cancels,
                    (
                        #[trigger] quad_at(&self.covariant, i, j, k, l),
                        quad_at(&self.covariant, j, i, k, l),
                    ),
                    false,
                ),
    {
        let dim = self.dim;
        let cl = &cancels;
        let test = |i: usize, j: usize, k: usize, l: usize| -> (r: bool)
            requires
                i < dim,
                j < dim,
                k < dim,
                l < dim,
                dim == self.dim,
                quad_readable(&self.covariant, self.dim as nat),
                forall|x0: T, x1: T| call_requires(*cl, (x0, x1)),
            ensures
                call_ensures(
                    *cl,
                    (
                        quad_at(&self.covariant, i as int, j as int, k as int, l as int),
                        quad_at(&self.covariant, j as int, i as int, k as int, l as int),
                    ),
                    r,
                ),
            {
                proof {
                    let w = self.covariant.dim as nat;
                    lemma_pos4_bound(w, i as nat, j as nat, k as nat, l as nat, dim as nat);
                    lemma_pos4_bound(w, j as nat, i as nat, k as nat, l as nat, dim as nat);
                }
                cl(self.get_cov(i, j, k, l), self.get_cov(j, i, k, l))
            };
        let b = all_quads(dim, test);
        proof {
            if b {
                assert forall|i: int, j: int, k: int, l: int|
                    0 <= i < self.dim && 0 <= j < self.dim && 0 <= k < self.dim && 0 <= l < self.dim implies call_ensures(
                    cancels,
                    (
                        #[trigger] quad_at(&self.covariant, i, j, k, l),
                        quad_at(&self.covariant, j, i, k, l),
                    ),
                    true,
                ) by {
                    assert(holds4(test, i as usize, j as usize, k as usize, l as usize));
                }
            } else {
                let (i, j, k, l) = choose|i: usize, j: usize, k: usize, l: usize|
                    i < dim && j < dim && k < dim && l < dim && #[trigger] fails4(test, i, j, k, l);
                assert(call_ensures(
                    cancels,
                    (
                        quad_at(&self.covariant, i as int, j as int, k as int, l as int),
                        quad_at(&self.covariant, j as int, i as int, k as int, l as int),
                    ),
                    false,
                ));
            }
        }
        b
    }

    /// Check pair symmetry of the covariant form, R_{ijkl} = R_{klij}:
    /// whether `close(R_{ijkl}, R_{klij})` holds for every i, j, k, l below
    /// the dimension.
    pub fn is_pair_symmetric_with<F: Fn(T, T) -> bool>(&self, close: F) -> (b: bool)
        requires
            quad_readable(&self.covariant, self.dim as nat),
            forall|x0: T, x1: T| call_requires(close, (x0, x1)),
        ensures
            b ==> forall|i: int, j: int, k: int, l: int|
                0 <= i < self.dim && 0 <= j < self.dim && 0 <= k < self.dim && 0 <= l < self.dim
                    ==> call_ensures(
                    close,
                    (
                        #[trigger] quad_at(&self.covariant, i, j, k, l),
                        quad_at(&self.covariant, k, l, i, j),
                    ),
                    true,
                ),
            !b ==> exists|i: int, j: int, k: int, l: int|
                0 <= i < self.dim && 0 <= j < self.dim && 0 <= k < self.dim && 0 <= l < self.dim
                    && call_ensures(
                    close,
                    (
                        #[trigger] quad_at(&self.covariant, i, j, k, l),
                        quad_at(&self.covariant, k, l, i, j),
                    ),
                    false,
                ),
    {
        let dim = self.dim;
        let cl = &close;
        let test = |i: usize, j: usize, k: usize, l: usize| -> (r: bool)
            requires
                i < dim,
                j < dim,
                k < dim,
                l < dim,
                dim == self.dim,
                quad_readable(&self.covariant, self.dim as nat),
                forall|x0: T, x1: T| call_requires(*cl, (x0, x1)),
            ensures
                call_ensures(
                    *cl,
                    (
                        quad_at(&self.covariant, i as int, j as int, k as int, l as int),
                        quad_at(&self.covariant, k as int, l as int, i as int, j as int),
                    ),
                    r,
                ),
            {
                proof {
                    let w = self.covariant.dim as nat;
                    lemma_pos4_bound(w, i as nat, j as nat, k as nat, l as nat, dim as nat);
                    lemma_pos4_bound(w, k as nat, l as nat, i as nat, j as nat, dim as nat);
                }
                cl(self.get_cov(i, j, k, l), self.get_cov(k, l, i, j))
            };
        let b = all_quads(dim, test);
        proof {
            if b {
                assert forall|i: int, j: int, k: int, l: int|
                    0 <= i < self.dim && 0 <= j < self.dim && 0 <= k < self.dim && 0 <= l < self.dim implies call_ensures(
                    close,
                    (
                        #[trigger] quad_at(&self.covariant, i, j, k, l),
                        quad_at(&self.covariant, k, l, i, j),
                    ),
                    true,
                ) by {
                    assert(holds4(test, i as usize, j as usize, k as usize, l as usize));
                }
            } else {
                let (i, j, k, l) = choose|i: usize, j: usize, k: usize, l: usize|
                    i < dim && j < dim && k < dim && l < dim && #[trigger] fails4(test, i, j, k, l);
                assert(call_ensures(
                    close,
                    (
                        quad_at(&self.covariant, i as int, j as int, k as int, l as int),
                        quad_at(&self.covariant, k as int, l as int, i as int, j as int),
                    ),
                    false,
                ));
            }
        }
        b
    }

    /// Check the first Bianchi identity, R^i_{jkl} + R^i_{klj} + R^i_{ljk} = 0:
    /// whether `vanishes(R^i_{jkl}, R^i_{klj}, R^i_{ljk})` holds for every i,
    /// j, k, l below the dimension (with `vanishes(a, b, c) = |a + b + c| <=
    /// tol` this is a tolerance check).
    pub fn satisfies_bianchi_identity_with<F: Fn(T, T, T) -> bool>(&self, vanishes: F) -> (b: bool)
        requires
            quad_readable(&self.components, self.dim as nat),
            forall|x0: T, x1: T, x2: T| call_requires(vanishes, (x0, x1, x2)),
        ensures
            b ==> forall|i: int, j: int, k: int, l: int|
                0 <= i < self.dim && 0 <= j < self.dim && 0 <= k < self.dim && 0 <= l < self.dim
                    ==> call_ensures(
                    vanishes,
                    (
                        #[trigger] quad_at(&self.components, i, j, k, l),
                        quad_at(&self.components, i, k, l, j),
                        quad_at(&self.components, i, l, j, k),
                    ),
                    true,
                ),
            !b ==> exists|i: int, j: int, k: int, l: int|
                0 <= i < self.dim && 0 <= j < self.dim && 0 <= k < self.dim && 0 <= l < self.dim
                    && call_ensures(
                    vanishes,
                    (
                        #[trigger] quad_at(&self.components, i, j, k, l),
                        quad_at(&self.components, i, k, l, j),
                        quad_at(&self.components, i, l, j, k),
                    ),
                    false,
                ),
    {
        let dim = self.dim;
        let cl = &vanishes;
        let test = |i: usize, j: usize, k: usize, l: usize| -> (r: bool)
            requires
                i < dim,
                j < dim,
                k < dim,
                l < dim,
                dim == self.dim,
                quad_readable(&self.components, self.dim as nat),
                forall|x0: T, x1: T, x2: T| call_requires(*cl, (x0, x1, x2)),
            ensures
                call_ensures(
                    *cl,
                    (
                        quad_at(&self.components, i as int, j as int, k as int, l as int),
                        quad_at(&self.components, i as int, k as int, l as int, j as int),
                        quad_at(&self.components, i as int, l as int, j as int, k as int),
                    ),
                    r,
                ),
            {
                proof {
                    let w = self.components.dim as nat;
                    lemma_pos4_bound(w, i as nat, j as nat, k as nat, l as nat, dim as nat);
                    lemma_pos4_bound(w, i as nat, k as nat, l as nat, j as nat, dim as nat);
                    lemma_pos4_bound(w, i as nat, l as nat, j as nat, k as nat, dim as nat);
                }
                cl(self.get(i, j, k, l), self.get(i, k, l, j), self.get(i, l, j, k))
            };
        let b = all_quads(dim, test);
        proof {
            if b {
                assert forall|i: int, j: int, k: int, l: int|
                    0 <= i < self.dim && 0 <= j < self.dim && 0 <= k < self.dim && 0 <= l < self.dim implies call_ensures(
                    vanishes,
                    (
                        #[trigger] quad_at(&self.components, i, j, k, l),
                        quad_at(&self.components, i, k, l, j),
                        quad_at(&self.components, i, l, j, k),
                    ),
                    true,
                ) by {
                    assert(holds4(test, i as usize, j as usize, k as usize, l as usize));
                }
            } else {
                let (i, j, k, l) = choose|i: usize, j: usize, k: usize, l: usize|
                    i < dim && j < dim && k < dim && l < dim && #[trigger] fails4(test, i, j, k, l);
                assert(call_ensures(
                    vanishes,
                    (
                        quad_at(&self.components, i as int, j as int, k as int, l as int),
                        quad_at(&self.components, i as int, k as int, l as int, j as int),
                        quad_at(&self.components, i as int, l as int, j as int, k as int),
                    ),
                    false,
                ));
            }
        }
        b
    }
}

} // verus!

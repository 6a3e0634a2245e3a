//! Laws of flat space and of vanishing fields: with exact ring arithmetic,
//! a connection that vanishes leaves derivatives unchanged, curves nothing
//! and accelerates nothing, and the Lie derivatives that pair a field with
//! itself or with a vanishing field vanish.
use vstd::prelude::*;
use crate::christoffel::{first_kind_args, pos3, ChristoffelSymbols};
use crate::covariant::{
    christoffel_at, covector_connection_terms, geodesic_terms, matrix_at, vector_connection_terms,
};
use crate::fold::folds_to;
use crate::laws::{difference_of_products, pair_product, start_subtracts};
use crate::layout::{flat_of, in_bounds, lemma_flat_bound, lemma_unflat_flat};
use crate::lie::{scalar_lie_terms, vector_lie_terms};
use crate::metric::MetricTensor;
use crate::riemann::{
    curvature_component, derivative_args, product_terms, quad_at, RiemannTensor,
};
use crate::sums::{
    lemma_fold_adds_nothing, lemma_identity_inverse, lemma_neg_identity, lemma_ring_group,
    lemma_ring_times, ring, step_adds,
};
use crate::tensor::Tensor;

verus! {

/// Every Christoffel symbol Γ^i_{jk} with indices below the dimension is `e`.
pub open spec fn connection_vanishes<T>(gamma: &ChristoffelSymbols<T>, e: T) -> bool {
    forall|i: int, j: int, k: int|
        0 <= i < gamma.dim && 0 <= j < gamma.dim && 0 <= k < gamma.dim ==> #[trigger] christoffel_at(
            gamma,
            i,
            j,
            k,
        ) == e
}

/// The negated product of a pair: (g, x) gives -(g x).
pub open spec fn negated_pair_product<T>(neg: spec_fn(T) -> T, times: spec_fn(T, T) -> T) -> spec_fn(
    (T, T),
) -> T {
    |x: (T, T)| neg(times(x.0, x.1))
}

/// The negated product of a triple: (g, x, y) gives -(g x y).
pub open spec fn negated_triple_product<T>(
    neg: spec_fn(T) -> T,
    times: spec_fn(T, T) -> T,
) -> spec_fn((T, T, T)) -> T {
    |x: (T, T, T)| neg(times(times(x.0, x.1), x.2))
}

/// In flat space the covariant derivative of a vector field is its partial
/// derivative, ∇_k V^i = ∂V^i/∂x^k: for every result of
/// `covariant_derivative_with` under a vanishing connection, computed with
/// exact ring arithmetic (`step` adds the product of its pair), each
/// component equals the partial derivative it started from.
pub proof fn lemma_flat_covariant_derivative<T, F: Fn(T, (T, T)) -> T>(
    gamma: &ChristoffelSymbols<T>,
    v: &Tensor<T>,
    dv: &Tensor<T>,
    r: &Tensor<T>,
    step: F,
    plus: spec_fn(T, T) -> T,
    neg: spec_fn(T) -> T,
    e: T,
    times: spec_fn(T, T) -> T,
    one: T,
)
    requires
        ring(plus, neg, e, times, one),
        step_adds(step, plus, pair_product(times)),
        connection_vanishes(gamma, e),
        forall|i: int, k: int|
            0 <= i < gamma.dim && 0 <= k < gamma.dim ==> folds_to(
                step,
                matrix_at(dv, i, k),
                vector_connection_terms(gamma, v, i, k),
                #[trigger] r.data@[i * gamma.dim + k],
            ),
    ensures
        forall|i: int, k: int|
            0 <= i < gamma.dim && 0 <= k < gamma.dim ==> #[trigger] r.data@[i * gamma.dim + k]
                == matrix_at(dv, i, k),
{
    lemma_ring_group(plus, neg, e, times, one);
    assert forall|i: int, k: int| 0 <= i < gamma.dim && 0 <= k < gamma.dim implies #[trigger] r.data@[i
        * gamma.dim + k] == matrix_at(dv, i, k) by {
        let items = vector_connection_terms(gamma, v, i, k);
        assert forall|n: int| 0 <= n < items.len() implies (pair_product(times))(
            #[trigger] items[n],
        ) == e by {
            assert(christoffel_at(gamma, i, n, k) == e);
            lemma_ring_times(plus, neg, e, times, one, items[n].1, e, e);
        }
        lemma_fold_adds_nothing(
            step,
            plus,
            neg,
            e,
            pair_product(times),
            matrix_at(dv, i, k),
            items,
            r.data@[i * gamma.dim + k],
        );
    }
}

/// In flat space the covariant derivative of a 1-form is its partial
/// derivative, ∇_k ω_i = ∂ω_i/∂x^k: for every result of
/// `covariant_derivative_covector_with` under a vanishing connection,
/// computed with exact ring arithmetic (`step` subtracts the product of its
/// pair), each component equals the partial derivative it started from.
pub proof fn lemma_flat_covariant_derivative_covector<T, F: Fn(T, (T, T)) -> T>(
    gamma: &ChristoffelSymbols<T>,
    omega: &Tensor<T>,
    domega: &Tensor<T>,
    r: &Tensor<T>,
    step: F,
    plus: spec_fn(T, T) -> T,
    neg: spec_fn(T) -> T,
    e: T,
    times: spec_fn(T, T) -> T,
    one: T,
)
    requires
        ring(plus, neg, e, times, one),
        step_adds(step, plus, negated_pair_product(neg, times)),
        connection_vanishes(gamma, e),
        forall|i: int, k: int|
            0 <= i < gamma.dim && 0 <= k < gamma.dim ==> folds_to(
                step,
                matrix_at(domega, i, k),
                covector_connection_terms(gamma, omega, i, k),
                #[trigger] r.data@[i * gamma.dim + k],
            ),
    ensures
        forall|i: int, k: int|
            0 <= i < gamma.dim && 0 <= k < gamma.dim ==> #[trigger] r.data@[i * gamma.dim + k]
                == matrix_at(domega, i, k),
{
    lemma_ring_group(plus, neg, e, times, one);
    lemma_neg_identity(plus, neg, e);
    assert forall|i: int, k: int| 0 <= i < gamma.dim && 0 <= k < gamma.dim implies #[trigger] r.data@[i
        * gamma.dim + k] == matrix_at(domega, i, k) by {
        let items = covector_connection_terms(gamma, omega, i, k);
        assert forall|n: int| 0 <= n < items.len() implies (negated_pair_product(neg, times))(
            #[trigger] items[n],
        ) == e by {
            assert(christoffel_at(gamma, n, i, k) == e);
            lemma_ring_times(plus, neg, e, times, one, items[n].1, e, e);
        }
        lemma_fold_adds_nothing(
            step,
            plus,
            neg,
            e,
            negated_pair_product(neg, times),
            matrix_at(domega, i, k),
            items,
            r.data@[i * gamma.dim + k],
        );
    }
}

/// Any constant velocity is a geodesic in flat space: for every result of
/// `geodesic_acceleration_with` under a vanishing connection, computed with
/// exact ring arithmetic from `e` (`step` subtracts the product of its
/// triple), every component of the acceleration is `e`.
pub proof fn lemma_flat_geodesic_acceleration<T, F: Fn(T, (T, T, T)) -> T>(
    gamma: &ChristoffelSymbols<T>,
    velocity: &Tensor<T>,
    r: &Tensor<T>,
    step: F,
    plus: spec_fn(T, T) -> T,
    neg: spec_fn(T) -> T,
    e: T,
    times: spec_fn(T, T) -> T,
    one: T,
)
    requires
        ring(plus, neg, e, times, one),
        step_adds(step, plus, negated_triple_product(neg, times)),
        connection_vanishes(gamma, e),
        forall|i: int|
            0 <= i < gamma.dim ==> folds_to(
                step,
                e,
                geodesic_terms(gamma, velocity, i),
                #[trigger] r.data@[i],
            ),
    ensures
        forall|i: int| 0 <= i < gamma.dim ==> #[trigger] r.data@[i] == e,
{
    lemma_ring_group(plus, neg, e, times, one);
    lemma_neg_identity(plus, neg, e);
    let d = gamma.dim as int;
    assert forall|i: int| 0 <= i < gamma.dim implies #[trigger] r.data@[i] == e by {
        let items = geodesic_terms(gamma, velocity, i);
        assert forall|n: int| 0 <= n < items.len() implies (negated_triple_product(neg, times))(
            #[trigger] items[n],
        ) == e by {
            assert(0 <= n / d < d && 0 <= n % d < d) by (nonlinear_arith)
                requires
                    0 <= n < d * d,
                    d > 0,
            ;
            assert(christoffel_at(gamma, i, n / d, n % d) == e);
            lemma_ring_times(plus, neg, e, times, one, items[n].1, e, e);
            lemma_ring_times(plus, neg, e, times, one, items[n].2, e, e);
        }
        lemma_fold_adds_nothing(
            step,
            plus,
            neg,
            e,
            negated_triple_product(neg, times),
            e,
            items,
            r.data@[i],
        );
    }
}

/// Flat space has no curvature: for every Riemann tensor computed, with
/// exact ring arithmetic (`start` subtracts, `step` adds a b - c e), from
/// a vanishing connection whose derivatives vanish, every component at a
/// multi-index in bounds is `e`.
pub proof fn lemma_flat_riemann<T: Copy, S: Fn(T, T) -> T, F: Fn(T, (T, T, T, T)) -> T>(
    r: &RiemannTensor<T>,
    gamma: &ChristoffelSymbols<T>,
    dgamma: &Tensor<T>,
    start: S,
    step: F,
    plus: spec_fn(T, T) -> T,
    neg: spec_fn(T) -> T,
    e: T,
    times: spec_fn(T, T) -> T,
    one: T,
    m: Seq<usize>,
)
    requires
        r.components_from(gamma, dgamma, start, step),
        ring(plus, neg, e, times, one),
        start_subtracts(start, plus, neg),
        step_adds(step, plus, difference_of_products(plus, neg, times)),
        connection_vanishes(gamma, e),
        forall|a: int, b: int, c: int, f: int|
            0 <= a < gamma.dim && 0 <= b < gamma.dim && 0 <= c < gamma.dim && 0 <= f < gamma.dim
                ==> #[trigger] quad_at(dgamma, a, b, c, f) == e,
        m.len() == 4,
        in_bounds(m, gamma.dim as nat),
    ensures
        r.components.component(m) == e,
{
    lemma_ring_group(plus, neg, e, times, one);
    lemma_neg_identity(plus, neg, e);
    let d = gamma.dim as nat;
    lemma_flat_bound(m, d);
    lemma_unflat_flat(m, d);
    let o = flat_of(m, d) as int;
    let v = r.components.data@[o];
    assert(curvature_component(gamma, dgamma, start, step, m, v));
    let items = product_terms(gamma, m);
    let init = choose|init: T|
        call_ensures(start, derivative_args(dgamma, m), init) && #[trigger] folds_to(
            step,
            init,
            items,
            v,
        );
    assert(m[0] < d && m[1] < d && m[2] < d && m[3] < d);
    let (i, j, k, l) = (m[0] as int, m[1] as int, m[2] as int, m[3] as int);
    assert(quad_at(dgamma, i, j, l, k) == e && quad_at(dgamma, i, j, k, l) == e);
    lemma_identity_inverse(plus, neg, e, e);
    assert forall|n: int| 0 <= n < items.len() implies (difference_of_products(plus, neg, times))(
        #[trigger] items[n],
    ) == e by {
        assert(christoffel_at(gamma, i, n, k) == e);
        assert(christoffel_at(gamma, n, j, l) == e);
        assert(christoffel_at(gamma, i, n, l) == e);
        assert(christoffel_at(gamma, n, j, k) == e);
        lemma_ring_times(plus, neg, e, times, one, e, e, e);
    }
    lemma_fold_adds_nothing(
        step,
        plus,
        neg,
        e,
        difference_of_products(plus, neg, times),
        init,
        items,
        v,
    );
}

/// The Lie derivative of a vector field along itself vanishes, [V, V] = 0:
/// for every result of `lie_derivative_vector_with(v, v, dv, dv, e, step)`
/// with `step` adding a b - c e exactly in a ring, every component is `e`.
pub proof fn lemma_lie_bracket_with_itself<T, F: Fn(T, (T, T, T, T)) -> T>(
    v: &Tensor<T>,
    dv: &Tensor<T>,
    r: &Tensor<T>,
    step: F,
    plus: spec_fn(T, T) -> T,
    neg: spec_fn(T) -> T,
    e: T,
    times: spec_fn(T, T) -> T,
    one: T,
)
    requires
        ring(plus, neg, e, times, one),
        step_adds(step, plus, difference_of_products(plus, neg, times)),
        forall|i: int|
            0 <= i < v.dim ==> folds_to(
                step,
                e,
                vector_lie_terms(v, v, dv, dv, i),
                #[trigger] r.data@[i],
            ),
    ensures
        forall|i: int| 0 <= i < v.dim ==> #[trigger] r.data@[i] == e,
{
    lemma_ring_group(plus, neg, e, times, one);
    assert forall|i: int| 0 <= i < v.dim implies #[trigger] r.data@[i] == e by {
        let items = vector_lie_terms(v, v, dv, dv, i);
        assert forall|n: int| 0 <= n < items.len() implies (difference_of_products(
            plus,
            neg,
            times,
        ))(#[trigger] items[n]) == e by {
            lemma_identity_inverse(plus, neg, e, times(items[n].0, items[n].1));
        }
        lemma_fold_adds_nothing(
            step,
            plus,
            neg,
            e,
            difference_of_products(plus, neg, times),
            e,
            items,
            r.data@[i],
        );
    }
}

/// The Lie derivative of a scalar along a vanishing vector field vanishes:
/// for every result of `lie_derivative_scalar_with(v, grad, e, step)` with
/// all components of `v` equal to `e` and `step` adding the product of its
/// pair exactly in a ring, the result is `e`.
pub proof fn lemma_lie_derivative_along_zero_field<T, F: Fn(T, (T, T)) -> T>(
    v: &Tensor<T>,
    grad_f: &Tensor<T>,
    r: T,
    step: F,
    plus: spec_fn(T, T) -> T,
    neg: spec_fn(T) -> T,
    e: T,
    times: spec_fn(T, T) -> T,
    one: T,
)
    requires
        ring(plus, neg, e, times, one),
        step_adds(step, plus, pair_product(times)),
        forall|j: int| 0 <= j < v.dim ==> #[trigger] v.data@[j] == e,
        folds_to(step, e, scalar_lie_terms(v, grad_f), r),
    ensures
        r == e,
{
    lemma_ring_group(plus, neg, e, times, one);
    let items = scalar_lie_terms(v, grad_f);
    assert forall|n: int| 0 <= n < items.len() implies (pair_product(times))(#[trigger] items[n])
        == e by {
        assert(v.data@[n] == e);
        lemma_ring_times(plus, neg, e, times, one, items[n].1, e, e);
    }
    lemma_fold_adds_nothing(step, plus, neg, e, pair_product(times), e, items, r);
}

/// A constant metric has a vanishing connection: for every set of
/// Christoffel symbols computed from metric derivatives that all vanish,
/// with a `combine` that gives `e` on three `e`s and exact ring arithmetic
/// for the contraction with g^{-1} (`step` adds the product of its pair,
/// starting from `e`), the symbols of both kinds at every multi-index in
/// bounds are `e`.
pub proof fn lemma_constant_metric_connection<
    T: Copy,
    C: Fn(T, T, T) -> T,
    F: Fn(T, (T, T)) -> T,
>(
    gamma: &ChristoffelSymbols<T>,
    metric: &MetricTensor<T>,
    dg: &Tensor<T>,
    combine: C,
    step: F,
    plus: spec_fn(T, T) -> T,
    neg: spec_fn(T) -> T,
    e: T,
    times: spec_fn(T, T) -> T,
    one: T,
    m: Seq<usize>,
)
    requires
        gamma.computed_from(metric, dg, combine, e, step),
        ring(plus, neg, e, times, one),
        step_adds(step, plus, pair_product(times)),
        forall|w: T| call_ensures(combine, (e, e, e), w) ==> w == e,
        forall|a: nat, b: nat, c: nat|
            a < metric.dim && b < metric.dim && c < metric.dim ==> #[trigger] dg.data@[pos3(
                dg.dim as nat,
                a,
                b,
                c,
            )] == e,
        m.len() == 3,
        in_bounds(m, metric.dim as nat),
    ensures
        gamma.first_kind.component(m) == e,
        gamma.second_kind.component(m) == e,
{
    lemma_ring_group(plus, neg, e, times, one);
    let d = metric.dim as nat;
    assert forall|q: Seq<usize>| q.len() == 3 && in_bounds(q, d) implies #[trigger] gamma.first_kind.component(q)
        == e by {
        lemma_flat_bound(q, d);
        lemma_unflat_flat(q, d);
        let o = flat_of(q, d) as int;
        assert(q[0] < d && q[1] < d && q[2] < d);
        let w = dg.dim as nat;
        let (k, i, j) = (q[0] as nat, q[1] as nat, q[2] as nat);
        assert(dg.data@[pos3(w, j, k, i)] == e);
        assert(dg.data@[pos3(w, i, k, j)] == e);
        assert(dg.data@[pos3(w, k, i, j)] == e);
        assert(call_ensures(combine, first_kind_args(dg, q), gamma.first_kind.data@[o]));
    }
    lemma_flat_bound(m, d);
    lemma_unflat_flat(m, d);
    let o = flat_of(m, d) as int;
    let items = gamma.first_kind.index_change_terms(&metric.g_inv, 0, o as nat);
    assert forall|n: int| 0 <= n < items.len() implies (pair_product(times))(#[trigger] items[n])
        == e by {
        let q = m.update(0, n as usize);
        assert(in_bounds(q, d)) by {
            assert forall|p: int| 0 <= p < q.len() implies (#[trigger] q[p]) < d by {
                if p != 0 {
                    assert(q[p] == m[p]);
                }
            }
        }
        assert(gamma.first_kind.component(q) == e);
        lemma_ring_times(plus, neg, e, times, one, items[n].0, e, e);
    }
    assert(folds_to(step, e, items, gamma.second_kind.data@[o]));
    lemma_fold_adds_nothing(step, plus, neg, e, pair_product(times), e, items, gamma.second_kind.data@[o]);
}

} // verus!

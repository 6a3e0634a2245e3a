//! Identities that tie the operations to one another under exact ring
//! arithmetic: product rules of the covariant and Lie derivatives, the
//! geodesic acceleration as the transport of the velocity, and the scalar
//! quantities as traces of raised tensors.
use vstd::prelude::*;
use crate::compatibility::{commutative, neg_pair_product};
use crate::agent_field::{belief_value, energy_terms, influence_terms, AgentFieldTheory};
use crate::christoffel::ChristoffelSymbols;
use crate::covariant::{
    choose_step, christoffel_at, covector_connection_terms, first_index_terms, geodesic_terms,
    lower_second, matrix_at, rank2_derivative_component, second_index_terms, upper_first,
    vector_connection_terms,
};
use crate::layout::lemma_flat_unflat;
use crate::tensor::IndexType;
use crate::fold::folds_to;
use crate::lie::{covector_lie_terms, rank2_lie_terms, vector_lie_terms};
use crate::christoffel::pos3;
use crate::compatibility::{lemma_flat_triple, lemma_triple_bounds};
use crate::laws::{identity_fn, lemma_outer_product_component, pair_product, start_subtracts};
use crate::products::is_outer_product;
use crate::contraction::with_pair;
use crate::lie::scalar_lie_terms;
use crate::layout::{flat_of, in_bounds, lemma_flat_bound, lemma_unflat_flat, unflat};
use crate::riemann::{at3, curvature_component, derivative_args, pos4, product_terms, quad_at, RiemannTensor};
use crate::agreement::lemma_flat_quad;
use crate::metric::MetricTensor;
use crate::ricci::{scalar_curvature_terms, RicciTensor, ScalarCurvature};
use crate::sums::{
    abelian_group, group_sum, lemma_assoc, lemma_comm, lemma_double_sum_neg, lemma_double_sum_of_two, lemma_double_sum_swap,
    lemma_flat_double_sum, lemma_folds_to_sum, lemma_identity_inverse, lemma_identity_left,
    lemma_cancel_across, lemma_ring_group, lemma_ring_times, lemma_sum_neg, lemma_sum_of_two,
    lemma_times_neg, lemma_times_sum_left, lemma_times_sum_right, ring, step_adds,
};
use crate::tensor::{lemma_num_components_small, Tensor};

verus! {

/// The row-major position of (a, b) as a multi-index.
proof fn lemma_flat_pair(a: usize, b: usize, d: nat)
    ensures
        flat_of(seq![a, b], d) == (a as nat) * d + (b as nat),
{
    let s2 = seq![a, b];
    let s1 = seq![a];
    assert(s2.drop_last() =~= s1);
    assert(s1.drop_last() =~= Seq::<usize>::empty());
    assert(s1.last() == a && s2.last() == b);
    assert(flat_of(Seq::<usize>::empty(), d) == 0);
    assert(0 * d == 0) by (nonlinear_arith);
    assert(flat_of(s1, d) == a as nat);
}

/// The row-major position of the one-entry multi-index (a).
proof fn lemma_flat_single(a: usize, d: nat)
    ensures
        flat_of(seq![a], d) == a as nat,
{
    let s1 = seq![a];
    assert(s1.drop_last() =~= Seq::<usize>::empty());
    assert(s1.last() == a);
    assert(flat_of(Seq::<usize>::empty(), d) == 0);
    assert(0 * d == 0) by (nonlinear_arith);
}

/// The multi-index (a, b) with both entries below `d`.
proof fn lemma_pair_in_bounds(a: usize, b: usize, d: nat)
    requires
        a < d,
        b < d,
    ensures
        in_bounds(seq![a, b], d),
{
    let m = seq![a, b];
    assert forall|q: int| 0 <= q < m.len() implies (#[trigger] m[q]) < d by {
        if q == 0 {
        } else {
        }
    }
}

/// The scalar curvature is the trace of the Ricci tensor with its second
/// index raised, R = R_i^i: with exact ring arithmetic (each step adding the
/// product of its pair), the scalar of `ScalarCurvature::from_ricci_with` is
/// the sum of the diagonal of any result `raised` of raising index 1 of the
/// Ricci tensor with g^{-1}.
pub proof fn lemma_scalar_curvature_is_mixed_trace<T: Copy, F: Fn(T, (T, T)) -> T>(
    metric: &MetricTensor<T>,
    ricci: &RicciTensor<T>,
    scalar: &ScalarCurvature<T>,
    raised: &Tensor<T>,
    step: F,
    plus: spec_fn(T, T) -> T,
    neg: spec_fn(T) -> T,
    e: T,
    times: spec_fn(T, T) -> T,
    one: T,
)
    requires
        ring(plus, neg, e, times, one),
        step_adds(step, plus, pair_product(times)),
        ricci.components.dim == metric.dim,
        ricci.components.index_types@.len() == 2,
        folds_to(
            step,
            e,
            scalar_curvature_terms(&metric.g_inv, &ricci.components, metric.dim as nat),
            scalar.value,
        ),
        raised.dim == metric.dim,
        raised.index_types@.len() == 2,
        raised.wf(),
        forall|o: int|
            0 <= o < raised.data@.len() ==> folds_to(
                step,
                e,
                ricci.components.index_change_terms(&metric.g_inv, 1, o as nat),
                #[trigger] raised.data@[o],
            ),
    ensures
        scalar.value == group_sum(
            plus,
            e,
            Seq::new(metric.dim as nat, |i: int| raised.data@[i * metric.dim + i]),
        ),
{
    lemma_ring_group(plus, neg, e, times, one);
    let d = metric.dim as nat;
    let r = &ricci.components;
    let gi = &metric.g_inv;
    let x = |a: int, b: int| times(matrix_at(gi, a, b), matrix_at(r, a, b));
    let terms = scalar_curvature_terms(gi, r, d);
    lemma_folds_to_sum(step, plus, neg, e, pair_product(times), e, terms, scalar.value);
    assert(terms.map_values(pair_product(times)) =~= Seq::new(
        d * d,
        |o: int| x(o / (d as int), o % (d as int)),
    ));
    lemma_flat_double_sum(plus, neg, e, x, d, d);
    lemma_identity_left(plus, neg, e, group_sum(plus, e, terms.map_values(pair_product(times))));
    lemma_num_components_small(d);
    let diag = Seq::new(d, |i: int| raised.data@[i * metric.dim + i]);
    assert forall|a: int| 0 <= a < d implies #[trigger] diag[a] == group_sum(
        plus,
        e,
        Seq::new(d, |b: int| x(a, b)),
    ) by {
        let idx = seq![a as usize, a as usize];
        lemma_pair_in_bounds(a as usize, a as usize, d);
        lemma_flat_pair(a as usize, a as usize, d);
        lemma_flat_bound(idx, d);
        lemma_unflat_flat(idx, d);
        let o = a * d + a;
        let items = r.index_change_terms(gi, 1, o as nat);
        lemma_folds_to_sum(step, plus, neg, e, pair_product(times), e, items, raised.data@[o]);
        assert forall|k: int| 0 <= k < d implies #[trigger] r.component(idx.update(1, k as usize))
            == matrix_at(r, a, k) by {
            assert(idx.update(1, k as usize) =~= seq![a as usize, k as usize]);
            lemma_flat_pair(a as usize, k as usize, d);
        }
        assert(items.map_values(pair_product(times)) =~= Seq::new(d, |b: int| x(a, b)));
        lemma_identity_left(plus, neg, e, group_sum(plus, e, items.map_values(pair_product(times))));
    }
    assert(diag =~= Seq::new(d, |a: int| group_sum(plus, e, Seq::new(d, |b: int| x(a, b)))));
}

/// The product g x y of a triple, as the kinetic energy adds it.
pub open spec fn triple_product<T>(times: spec_fn(T, T) -> T) -> spec_fn((T, T, T)) -> T {
    |x: (T, T, T)| times(times(x.0, x.1), x.2)
}

/// The kinetic part of the field energy is the gradient paired with the
/// gradient raised by the metric, g^{ij} ∂_iφ ∂_jφ = ∂_iφ (g^{-1} ∂φ)^i: with
/// exact commutative ring arithmetic (the energy step adding g x y, the
/// raising step adding the product of its pair), a result `r` of
/// `field_energy_with` is `finish` applied to Σ_i ∂_iφ (∂φ)^i, for any result
/// `raised` of raising the gradient's index with g^{-1}, with the coupling
/// and the field's value.
pub proof fn lemma_field_energy_pairs_gradient_with_raised<
    T: Copy,
    S: Fn(T, (T, T, T)) -> T,
    E: Fn(T, T, T) -> T,
    F: Fn(T, (T, T)) -> T,
>(
    theory: &AgentFieldTheory<T>,
    belief_field: &Tensor<T>,
    grad: &Tensor<T>,
    raised: &Tensor<T>,
    energy_step: S,
    finish: E,
    raise_step: F,
    r: T,
    plus: spec_fn(T, T) -> T,
    neg: spec_fn(T) -> T,
    e: T,
    times: spec_fn(T, T) -> T,
    one: T,
)
    requires
        ring(plus, neg, e, times, one),
        commutative(times),
        step_adds(energy_step, plus, triple_product(times)),
        step_adds(raise_step, plus, pair_product(times)),
        theory.config.dim == theory.metric.dim,
        grad.dim == theory.metric.dim,
        grad.index_types@.len() == 1,
        exists|sum: T|
            #[trigger] folds_to(
                energy_step,
                e,
                energy_terms(&theory.metric.g_inv, grad, theory.config.dim as nat),
                sum,
            ) && call_ensures(
                finish,
                (sum, theory.config.coupling, belief_value(belief_field, e)),
                r,
            ),
        raised.dim == theory.metric.dim,
        raised.index_types@.len() == 1,
        raised.wf(),
        forall|o: int|
            0 <= o < raised.data@.len() ==> folds_to(
                raise_step,
                e,
                grad.index_change_terms(&theory.metric.g_inv, 0, o as nat),
                #[trigger] raised.data@[o],
            ),
    ensures
        call_ensures(
            finish,
            (
                group_sum(
                    plus,
                    e,
                    Seq::new(
                        theory.metric.dim as nat,
                        |i: int| times(grad.data@[i], raised.data@[i]),
                    ),
                ),
                theory.config.coupling,
                belief_value(belief_field, e),
            ),
            r,
        ),
{
    lemma_ring_group(plus, neg, e, times, one);
    let d = theory.metric.dim as nat;
    let gi = &theory.metric.g_inv;
    let sum = choose|sum: T|
        #[trigger] folds_to(energy_step, e, energy_terms(gi, grad, d), sum) && call_ensures(
            finish,
            (sum, theory.config.coupling, belief_value(belief_field, e)),
            r,
        );
    let x = |a: int, b: int| times(times(matrix_at(gi, a, b), grad.data@[a]), grad.data@[b]);
    let terms = energy_terms(gi, grad, d);
    lemma_folds_to_sum(energy_step, plus, neg, e, triple_product(times), e, terms, sum);
    assert(terms.map_values(triple_product(times)) =~= Seq::new(
        d * d,
        |o: int| x(o / (d as int), o % (d as int)),
    ));
    lemma_flat_double_sum(plus, neg, e, x, d, d);
    lemma_identity_left(plus, neg, e, group_sum(plus, e, terms.map_values(triple_product(times))));
    lemma_num_components_small(d);
    let pairs = Seq::new(d, |i: int| times(grad.data@[i], raised.data@[i]));
    assert forall|a: int| 0 <= a < d implies #[trigger] pairs[a] == group_sum(
        plus,
        e,
        Seq::new(d, |b: int| x(a, b)),
    ) by {
        let idx = seq![a as usize];
        lemma_flat_single(a as usize, d);
        assert(idx[0] == a as usize);
        assert(in_bounds(idx, d));
        lemma_unflat_flat(idx, d);
        let items = grad.index_change_terms(gi, 0, a as nat);
        lemma_folds_to_sum(raise_step, plus, neg, e, pair_product(times), e, items, raised.data@[a]);
        assert forall|k: int| 0 <= k < d implies #[trigger] grad.component(idx.update(0, k as usize))
            == grad.data@[k] by {
            assert(idx.update(0, k as usize) =~= seq![k as usize]);
            lemma_flat_single(k as usize, d);
        }
        let prods = Seq::new(d, |b: int| times(matrix_at(gi, a, b), grad.data@[b]));
        assert(items.map_values(pair_product(times)) =~= prods);
        lemma_identity_left(plus, neg, e, group_sum(plus, e, prods));
        lemma_times_sum_left(plus, neg, e, times, one, grad.data@[a], prods);
        assert forall|b: int| 0 <= b < d implies #[trigger] times(grad.data@[a], prods[b]) == x(a, b) by {
            let g = matrix_at(gi, a, b);
            lemma_ring_times(plus, neg, e, times, one, grad.data@[a], g, grad.data@[b]);
            assert(times(grad.data@[a], g) == times(g, grad.data@[a]));
        }
        assert(Seq::new(prods.len(), |s: int| times(grad.data@[a], prods[s])) =~= Seq::new(
            d,
            |b: int| x(a, b),
        ));
    }
    assert(pairs =~= Seq::new(d, |a: int| group_sum(plus, e, Seq::new(d, |b: int| x(a, b)))));
}

/// The negated product g x y of a triple: what `a - g x y` subtracts.
pub open spec fn neg_triple_product<T>(neg: spec_fn(T) -> T, times: spec_fn(T, T) -> T) -> spec_fn(
    (T, T, T),
) -> T {
    |x: (T, T, T)| neg(times(times(x.0, x.1), x.2))
}

/// The geodesic acceleration is what the velocity's own derivative along
/// itself lacks of its covariant derivative along itself,
/// a^i = V^k ∂_kV^i - V^k ∇_kV^i: with exact ring arithmetic (the geodesic
/// step subtracting g x y, the connection step adding the product of its
/// pair), for a velocity field V with derivatives ∂_kV^i in `dv`, a result
/// `accel` of `geodesic_acceleration_with` at V and a result `nabla` of
/// `covariant_derivative_with` of V give, for every i,
/// a^i + Σ_k (∇_kV)^i V^k = Σ_k ∂_kV^i V^k.
pub proof fn lemma_geodesic_acceleration_transports_velocity<
    T: Copy,
    F: Fn(T, (T, T, T)) -> T,
    P: Fn(T, (T, T)) -> T,
>(
    gamma: &ChristoffelSymbols<T>,
    velocity: &Tensor<T>,
    dv: &Tensor<T>,
    accel: &Tensor<T>,
    nabla: &Tensor<T>,
    geodesic_step: F,
    connection_step: P,
    plus: spec_fn(T, T) -> T,
    neg: spec_fn(T) -> T,
    e: T,
    times: spec_fn(T, T) -> T,
    one: T,
)
    requires
        ring(plus, neg, e, times, one),
        step_adds(geodesic_step, plus, neg_triple_product(neg, times)),
        step_adds(connection_step, plus, pair_product(times)),
        forall|i: int|
            0 <= i < gamma.dim ==> folds_to(
                geodesic_step,
                e,
                geodesic_terms(gamma, velocity, i),
                #[trigger] accel.data@[i],
            ),
        forall|i: int, k: int|
            0 <= i < gamma.dim && 0 <= k < gamma.dim ==> folds_to(
                connection_step,
                matrix_at(dv, i, k),
                vector_connection_terms(gamma, velocity, i, k),
                #[trigger] nabla.data@[i * gamma.dim + k],
            ),
    ensures
        forall|i: int|
            0 <= i < gamma.dim ==> plus(
                #[trigger] accel.data@[i],
                group_sum(
                    plus,
                    e,
                    Seq::new(
                        gamma.dim as nat,
                        |k: int| times(nabla.data@[i * gamma.dim + k], velocity.data@[k]),
                    ),
                ),
            ) == group_sum(
                plus,
                e,
                Seq::new(gamma.dim as nat, |k: int| times(matrix_at(dv, i, k), velocity.data@[k])),
            ),
{
    assert forall|i: int| 0 <= i < gamma.dim implies plus(
        #[trigger] accel.data@[i],
        group_sum(
            plus,
            e,
            Seq::new(
                gamma.dim as nat,
                |k: int| times(nabla.data@[i * gamma.dim + k], velocity.data@[k]),
            ),
        ),
    ) == group_sum(
        plus,
        e,
        Seq::new(gamma.dim as nat, |k: int| times(matrix_at(dv, i, k), velocity.data@[k])),
    ) by {
        lemma_transport_component(
            gamma,
            velocity,
            dv,
            accel,
            nabla,
            geodesic_step,
            connection_step,
            plus,
            neg,
            e,
            times,
            one,
            i,
        );
    }
}

/// One component of the transport identity.
proof fn lemma_transport_component<T: Copy, F: Fn(T, (T, T, T)) -> T, P: Fn(T, (T, T)) -> T>(
    gamma: &ChristoffelSymbols<T>,
    velocity: &Tensor<T>,
    dv: &Tensor<T>,
    accel: &Tensor<T>,
    nabla: &Tensor<T>,
    geodesic_step: F,
    connection_step: P,
    plus: spec_fn(T, T) -> T,
    neg: spec_fn(T) -> T,
    e: T,
    times: spec_fn(T, T) -> T,
    one: T,
    i: int,
)
    requires
        ring(plus, neg, e, times, one),
        step_adds(geodesic_step, plus, neg_triple_product(neg, times)),
        step_adds(connection_step, plus, pair_product(times)),
        0 <= i < gamma.dim,
        folds_to(geodesic_step, e, geodesic_terms(gamma, velocity, i), accel.data@[i]),
        forall|k: int|
            0 <= k < gamma.dim ==> folds_to(
                connection_step,
                matrix_at(dv, i, k),
                vector_connection_terms(gamma, velocity, i, k),
                #[trigger] nabla.data@[i * gamma.dim + k],
            ),
    ensures
        plus(
            accel.data@[i],
            group_sum(
                plus,
                e,
                Seq::new(
                    gamma.dim as nat,
                    |k: int| times(nabla.data@[i * gamma.dim + k], velocity.data@[k]),
                ),
            ),
        ) == group_sum(
            plus,
            e,
            Seq::new(gamma.dim as nat, |k: int| times(matrix_at(dv, i, k), velocity.data@[k])),
        ),
{
    lemma_ring_group(plus, neg, e, times, one);
    let d = gamma.dim as nat;
    let v = |j: int| velocity.data@[j];
    let x = |j: int, k: int| times(times(christoffel_at(gamma, i, j, k), v(j)), v(k));
    let nx = |j: int, k: int| neg(x(j, k));
    // a^i = -Σ_j Σ_k Γ^i_{jk} v^j v^k
    let terms = geodesic_terms(gamma, velocity, i);
    lemma_folds_to_sum(geodesic_step, plus, neg, e, neg_triple_product(neg, times), e, terms, accel.data@[i]);
    assert(terms.map_values(neg_triple_product(neg, times)) =~= Seq::new(
        d * d,
        |o: int| nx(o / (d as int), o % (d as int)),
    ));
    lemma_flat_double_sum(plus, neg, e, nx, d, d);
    lemma_identity_left(plus, neg, e, group_sum(plus, e, terms.map_values(neg_triple_product(neg, times))));
    lemma_double_sum_neg(plus, neg, e, x, d, d);
    let rows_nx = Seq::new(d, |a: int| group_sum(plus, e, Seq::new(d, |b: int| nx(a, b))));
    let rows_neg = Seq::new(d, |a: int| group_sum(plus, e, Seq::new(d, |b: int| neg(x(a, b)))));
    assert forall|a: int| 0 <= a < d implies #[trigger] rows_nx[a] == rows_neg[a] by {
        assert(Seq::new(d, |b: int| nx(a, b)) =~= Seq::new(d, |b: int| neg(x(a, b))));
    }
    assert(rows_nx =~= rows_neg);
    let q = group_sum(plus, e, Seq::new(d, |j: int| group_sum(plus, e, Seq::new(d, |k: int| x(j, k)))));
    assert(accel.data@[i] == neg(q));
    // Σ_k (∇_kV)^i V^k = Σ_k ∂_kV^i V^k + Σ_k Σ_j Γ^i_{jk} v^j v^k
    let dterms = Seq::new(d, |k: int| times(matrix_at(dv, i, k), v(k)));
    let yterms = Seq::new(d, |k: int| group_sum(plus, e, Seq::new(d, |j: int| x(j, k))));
    let nterms = Seq::new(d, |k: int| times(nabla.data@[i * gamma.dim + k], velocity.data@[k]));
    assert forall|k: int| 0 <= k < d implies #[trigger] nterms[k] == plus(dterms[k], yterms[k]) by {
        let items = vector_connection_terms(gamma, velocity, i, k);
        lemma_folds_to_sum(
            connection_step,
            plus,
            neg,
            e,
            pair_product(times),
            matrix_at(dv, i, k),
            items,
            nabla.data@[i * gamma.dim + k],
        );
        let prods = items.map_values(pair_product(times));
        assert(prods =~= Seq::new(d, |j: int| times(christoffel_at(gamma, i, j, k), v(j))));
        lemma_ring_times(plus, neg, e, times, one, matrix_at(dv, i, k), group_sum(plus, e, prods), v(k));
        lemma_times_sum_right(plus, neg, e, times, one, prods, v(k));
        assert(Seq::new(prods.len(), |s: int| times(prods[s], v(k))) =~= Seq::new(d, |j: int| x(j, k)));
    }
    lemma_sum_of_two(plus, neg, e, dterms, yterms);
    assert(nterms =~= Seq::new(dterms.len(), |s: int| plus(dterms[s], yterms[s])));
    let swapped = |k: int, j: int| x(j, k);
    lemma_double_sum_swap(plus, neg, e, swapped, d, d);
    let rows_sw = Seq::new(d, |k: int| group_sum(plus, e, Seq::new(d, |j: int| swapped(k, j))));
    assert forall|k: int| 0 <= k < d implies #[trigger] yterms[k] == rows_sw[k] by {
        assert(Seq::new(d, |j: int| x(j, k)) =~= Seq::new(d, |j: int| swapped(k, j)));
    }
    assert(yterms =~= rows_sw);
    let cols_sw = Seq::new(d, |j: int| group_sum(plus, e, Seq::new(d, |k: int| swapped(k, j))));
    let rows_x = Seq::new(d, |j: int| group_sum(plus, e, Seq::new(d, |k: int| x(j, k))));
    assert forall|j: int| 0 <= j < d implies #[trigger] cols_sw[j] == rows_x[j] by {
        assert(Seq::new(d, |k: int| swapped(k, j)) =~= Seq::new(d, |k: int| x(j, k)));
    }
    assert(cols_sw =~= rows_x);
    assert(dterms =~= Seq::new(d, |k: int| times(matrix_at(dv, i, k), velocity.data@[k])));
    let dsum = group_sum(plus, e, dterms);
    assert(group_sum(plus, e, yterms) == q);
    assert(group_sum(plus, e, nterms) == plus(dsum, q));
    // -q + (D + q) = D
    lemma_comm(plus, neg, e, neg(q), plus(dsum, q));
    lemma_assoc(plus, neg, e, dsum, q, neg(q));
    lemma_identity_inverse(plus, neg, e, q);
    lemma_identity_inverse(plus, neg, e, dsum);
}

/// The product rule of the covariant derivative for the pairing of a 1-form
/// with a vector field, ∂_k(ω_i V^i) = (∇_kω)_i V^i + ω_i (∇_kV)^i: with
/// exact commutative ring arithmetic (the vector's step adding the product
/// of its pair, the 1-form's step subtracting it), a result `nabla_v` of
/// `covariant_derivative_with` of V and a result `nabla_omega` of
/// `covariant_derivative_covector_with` of ω under the same symbols give,
/// for every k, Σ_i (∇_kω)_i V^i + Σ_i ω_i (∇_kV)^i = Σ_i ∂_kω_i V^i +
/// Σ_i ω_i ∂_kV^i: the connection terms of the two cancel.
pub proof fn lemma_covariant_derivative_product_rule<
    T: Copy,
    F: Fn(T, (T, T)) -> T,
    G: Fn(T, (T, T)) -> T,
>(
    gamma: &ChristoffelSymbols<T>,
    v: &Tensor<T>,
    dv: &Tensor<T>,
    omega: &Tensor<T>,
    domega: &Tensor<T>,
    nabla_v: &Tensor<T>,
    nabla_omega: &Tensor<T>,
    plus_step: F,
    minus_step: G,
    plus: spec_fn(T, T) -> T,
    neg: spec_fn(T) -> T,
    e: T,
    times: spec_fn(T, T) -> T,
    one: T,
)
    requires
        ring(plus, neg, e, times, one),
        commutative(times),
        step_adds(plus_step, plus, pair_product(times)),
        step_adds(minus_step, plus, neg_pair_product(neg, times)),
        nabla_v.dim == gamma.dim,
        nabla_omega.dim == gamma.dim,
        forall|i: int, k: int|
            0 <= i < gamma.dim && 0 <= k < gamma.dim ==> folds_to(
                plus_step,
                matrix_at(dv, i, k),
                vector_connection_terms(gamma, v, i, k),
                #[trigger] nabla_v.data@[i * gamma.dim + k],
            ),
        forall|i: int, k: int|
            0 <= i < gamma.dim && 0 <= k < gamma.dim ==> folds_to(
                minus_step,
                matrix_at(domega, i, k),
                covector_connection_terms(gamma, omega, i, k),
                #[trigger] nabla_omega.data@[i * gamma.dim + k],
            ),
    ensures
        forall|k: int|
            0 <= k < gamma.dim ==> #[trigger] pairing_derivative(nabla_omega, v, omega, nabla_v, gamma.dim, k, plus, e, times)
                == pairing_derivative(domega, v, omega, dv, gamma.dim, k, plus, e, times),
{
    assert forall|k: int| 0 <= k < gamma.dim implies #[trigger] pairing_derivative(
        nabla_omega,
        v,
        omega,
        nabla_v,
        gamma.dim,
        k,
        plus,
        e,
        times,
    ) == pairing_derivative(domega, v, omega, dv, gamma.dim, k, plus, e, times) by {
        lemma_product_rule_component(
            gamma,
            v,
            dv,
            omega,
            domega,
            nabla_v,
            nabla_omega,
            plus_step,
            minus_step,
            plus,
            neg,
            e,
            times,
            one,
            k,
        );
    }
}

/// Σ_i a_{ik} V^i + Σ_i ω_i b_{ik}: the derivative along x^k of the pairing
/// ω_i V^i, given the derivatives `a` of ω and `b` of V (row i, column k,
/// each read by its own row length).
pub open spec fn pairing_derivative<T>(
    a: &Tensor<T>,
    v: &Tensor<T>,
    omega: &Tensor<T>,
    b: &Tensor<T>,
    dim: usize,
    k: int,
    plus: spec_fn(T, T) -> T,
    e: T,
    times: spec_fn(T, T) -> T,
) -> T {
    plus(
        group_sum(plus, e, Seq::new(dim as nat, |i: int| times(matrix_at(a, i, k), v.data@[i]))),
        group_sum(plus, e, Seq::new(dim as nat, |i: int| times(omega.data@[i], matrix_at(b, i, k)))),
    )
}

/// One column of the product rule.
proof fn lemma_product_rule_component<T: Copy, F: Fn(T, (T, T)) -> T, G: Fn(T, (T, T)) -> T>(
    gamma: &ChristoffelSymbols<T>,
    v: &Tensor<T>,
    dv: &Tensor<T>,
    omega: &Tensor<T>,
    domega: &Tensor<T>,
    nabla_v: &Tensor<T>,
    nabla_omega: &Tensor<T>,
    plus_step: F,
    minus_step: G,
    plus: spec_fn(T, T) -> T,
    neg: spec_fn(T) -> T,
    e: T,
    times: spec_fn(T, T) -> T,
    one: T,
    k: int,
)
    requires
        ring(plus, neg, e, times, one),
        commutative(times),
        step_adds(plus_step, plus, pair_product(times)),
        step_adds(minus_step, plus, neg_pair_product(neg, times)),
        0 <= k < gamma.dim,
        nabla_v.dim == gamma.dim,
        nabla_omega.dim == gamma.dim,
        forall|i: int|
            0 <= i < gamma.dim ==> folds_to(
                plus_step,
                matrix_at(dv, i, k),
                vector_connection_terms(gamma, v, i, k),
                #[trigger] nabla_v.data@[i * gamma.dim + k],
            ),
        forall|i: int|
            0 <= i < gamma.dim ==> folds_to(
                minus_step,
                matrix_at(domega, i, k),
                covector_connection_terms(gamma, omega, i, k),
                #[trigger] nabla_omega.data@[i * gamma.dim + k],
            ),
    ensures
        pairing_derivative(nabla_omega, v, omega, nabla_v, gamma.dim, k, plus, e, times)
            == pairing_derivative(domega, v, omega, dv, gamma.dim, k, plus, e, times),
{
    lemma_ring_group(plus, neg, e, times, one);
    let d = gamma.dim as nat;
    let dd = gamma.dim as int;
    let z = |i: int, j: int| times(times(christoffel_at(gamma, j, i, k), omega.data@[j]), v.data@[i]);
    let w = |i: int, j: int| times(omega.data@[i], times(christoffel_at(gamma, i, j, k), v.data@[j]));
    let zrows = Seq::new(d, |i: int| group_sum(plus, e, Seq::new(d, |j: int| z(i, j))));
    let wrows = Seq::new(d, |i: int| group_sum(plus, e, Seq::new(d, |j: int| w(i, j))));
    // (∇_kω)_i V^i = ∂_kω_i V^i - Σ_j Γ^j_{ik} ω_j V^i
    let pterms = Seq::new(d, |i: int| times(matrix_at(domega, i, k), v.data@[i]));
    let nzterms = Seq::new(d, |i: int| neg(zrows[i]));
    let left = Seq::new(d, |i: int| times(matrix_at(nabla_omega, i, k), v.data@[i]));
    assert forall|i: int| 0 <= i < d implies #[trigger] left[i] == plus(pterms[i], nzterms[i]) by {
        let items = covector_connection_terms(gamma, omega, i, k);
        lemma_folds_to_sum(
            minus_step,
            plus,
            neg,
            e,
            neg_pair_product(neg, times),
            matrix_at(domega, i, k),
            items,
            nabla_omega.data@[i * dd + k],
        );
        let prods = Seq::new(d, |j: int| times(christoffel_at(gamma, j, i, k), omega.data@[j]));
        assert(items.map_values(neg_pair_product(neg, times)) =~= Seq::new(
            prods.len(),
            |s: int| neg(prods[s]),
        ));
        lemma_sum_neg(plus, neg, e, prods);
        let a = group_sum(plus, e, prods);
        lemma_ring_times(plus, neg, e, times, one, matrix_at(domega, i, k), neg(a), v.data@[i]);
        lemma_times_neg(plus, neg, e, times, one, a, v.data@[i]);
        lemma_times_sum_right(plus, neg, e, times, one, prods, v.data@[i]);
        assert(Seq::new(prods.len(), |s: int| times(prods[s], v.data@[i])) =~= Seq::new(
            d,
            |j: int| z(i, j),
        ));
    }
    lemma_sum_of_two(plus, neg, e, pterms, nzterms);
    assert(left =~= Seq::new(pterms.len(), |s: int| plus(pterms[s], nzterms[s])));
    lemma_sum_neg(plus, neg, e, zrows);
    assert(nzterms =~= Seq::new(zrows.len(), |s: int| neg(zrows[s])));
    // ω_i (∇_kV)^i = ω_i ∂_kV^i + Σ_j ω_i Γ^i_{jk} V^j
    let qterms = Seq::new(d, |i: int| times(omega.data@[i], matrix_at(dv, i, k)));
    let right = Seq::new(d, |i: int| times(omega.data@[i], matrix_at(nabla_v, i, k)));
    assert forall|i: int| 0 <= i < d implies #[trigger] right[i] == plus(qterms[i], wrows[i]) by {
        let items = vector_connection_terms(gamma, v, i, k);
        lemma_folds_to_sum(
            plus_step,
            plus,
            neg,
            e,
            pair_product(times),
            matrix_at(dv, i, k),
            items,
            nabla_v.data@[i * dd + k],
        );
        let prods = Seq::new(d, |j: int| times(christoffel_at(gamma, i, j, k), v.data@[j]));
        assert(items.map_values(pair_product(times)) =~= prods);
        lemma_ring_times(plus, neg, e, times, one, omega.data@[i], matrix_at(dv, i, k), group_sum(plus, e, prods));
        lemma_times_sum_left(plus, neg, e, times, one, omega.data@[i], prods);
        assert(Seq::new(prods.len(), |s: int| times(omega.data@[i], prods[s])) =~= Seq::new(
            d,
            |j: int| w(i, j),
        ));
    }
    lemma_sum_of_two(plus, neg, e, qterms, wrows);
    assert(right =~= Seq::new(qterms.len(), |s: int| plus(qterms[s], wrows[s])));
    // Σ_i Σ_j ω_i Γ^i_{jk} V^j = Σ_i Σ_j Γ^j_{ik} ω_j V^i
    lemma_double_sum_swap(plus, neg, e, w, d, d);
    let wcols = Seq::new(d, |j: int| group_sum(plus, e, Seq::new(d, |i: int| w(i, j))));
    assert forall|j: int| 0 <= j < d implies #[trigger] wcols[j] == zrows[j] by {
        assert forall|i: int| 0 <= i < d implies #[trigger] w(i, j) == z(j, i) by {
            let g = christoffel_at(gamma, i, j, k);
            lemma_ring_times(plus, neg, e, times, one, omega.data@[i], g, v.data@[j]);
            assert(times(omega.data@[i], g) == times(g, omega.data@[i]));
        }
        assert(Seq::new(d, |i: int| w(i, j)) =~= Seq::new(d, |i: int| z(j, i)));
    }
    assert(wcols =~= zrows);
    let s = group_sum(plus, e, zrows);
    lemma_cancel_across(plus, neg, e, group_sum(plus, e, pterms), group_sum(plus, e, qterms), s);
}

/// a b + c e for a quadruple (a, b, c, e): what the 1-form's Lie step adds.
pub open spec fn sum_of_products<T>(plus: spec_fn(T, T) -> T, times: spec_fn(T, T) -> T) -> spec_fn(
    (T, T, T, T),
) -> T {
    |x: (T, T, T, T)| plus(times(x.0, x.1), times(x.2, x.3))
}

/// a b - c e for a quadruple (a, b, c, e): what the bracket's step adds.
pub open spec fn difference_of_products<T>(
    plus: spec_fn(T, T) -> T,
    neg: spec_fn(T) -> T,
    times: spec_fn(T, T) -> T,
) -> spec_fn((T, T, T, T)) -> T {
    |x: (T, T, T, T)| plus(times(x.0, x.1), neg(times(x.2, x.3)))
}

/// Σ_i a_i b_i over the first `n` entries.
pub open spec fn dot<T>(
    a: &Tensor<T>,
    b: &Tensor<T>,
    n: nat,
    plus: spec_fn(T, T) -> T,
    e: T,
    times: spec_fn(T, T) -> T,
) -> T {
    group_sum(plus, e, Seq::new(n, |i: int| times(a.data@[i], b.data@[i])))
}

/// The product rule of the Lie derivative for the pairing of a 1-form with
/// a vector field, L_V(ω(W)) = (L_Vω)(W) + ω([V, W]): with exact commutative
/// ring arithmetic (the 1-form's step adding a b + c e, the bracket's step
/// adding a b - c e), a result `lie_omega` of `lie_derivative_covector_with`
/// of ω along V and a result `lie_w` of `lie_derivative_vector_with` of W
/// along V, with the same derivatives ∂V, give
/// (L_Vω)_i W^i + ω_i [V, W]^i = V^j ∂_j(ω_i W^i), the derivative of the
/// pairing along V.
pub proof fn lemma_lie_derivative_product_rule<
    T: Copy,
    C: Fn(T, (T, T, T, T)) -> T,
    B: Fn(T, (T, T, T, T)) -> T,
>(
    v: &Tensor<T>,
    dv: &Tensor<T>,
    omega: &Tensor<T>,
    domega: &Tensor<T>,
    w: &Tensor<T>,
    dw: &Tensor<T>,
    lie_omega: &Tensor<T>,
    lie_w: &Tensor<T>,
    covector_step: C,
    bracket_step: B,
    plus: spec_fn(T, T) -> T,
    neg: spec_fn(T) -> T,
    e: T,
    times: spec_fn(T, T) -> T,
    one: T,
)
    requires
        ring(plus, neg, e, times, one),
        commutative(times),
        step_adds(covector_step, plus, sum_of_products(plus, times)),
        step_adds(bracket_step, plus, difference_of_products(plus, neg, times)),
        forall|i: int|
            0 <= i < v.dim ==> folds_to(
                covector_step,
                e,
                covector_lie_terms(v, omega, domega, dv, i),
                #[trigger] lie_omega.data@[i],
            ),
        forall|i: int|
            0 <= i < v.dim ==> folds_to(
                bracket_step,
                e,
                vector_lie_terms(v, w, dw, dv, i),
                #[trigger] lie_w.data@[i],
            ),
    ensures
        plus(
            dot(lie_omega, w, v.dim as nat, plus, e, times),
            dot(omega, lie_w, v.dim as nat, plus, e, times),
        ) == group_sum(
            plus,
            e,
            Seq::new(
                v.dim as nat,
                |j: int|
                    times(
                        v.data@[j],
                        pairing_derivative(domega, w, omega, dw, v.dim, j, plus, e, times),
                    ),
            ),
        ),
{
    lemma_ring_group(plus, neg, e, times, one);
    let d = v.dim as nat;
    let vv = |j: int| v.data@[j];
    let om = |j: int| omega.data@[j];
    let ww = |j: int| w.data@[j];
    let t1 = |i: int, j: int| times(times(vv(j), matrix_at(domega, i, j)), ww(i));
    let t2 = |i: int, j: int| times(times(om(j), matrix_at(dv, j, i)), ww(i));
    let t3 = |i: int, j: int| times(om(i), times(vv(j), matrix_at(dw, i, j)));
    let t4 = |i: int, j: int| times(om(i), neg(times(ww(j), matrix_at(dv, i, j))));
    let u = |i: int, j: int| times(om(i), times(ww(j), matrix_at(dv, i, j)));
    // (L_Vω)(W) = Σ_i Σ_j (t1 + t2)
    let rows12 = Seq::new(d, |a: int| group_sum(plus, e, Seq::new(d, |b: int| plus(t1(a, b), t2(a, b)))));
    let lterms = Seq::new(d, |i: int| times(lie_omega.data@[i], w.data@[i]));
    assert forall|i: int| 0 <= i < d implies #[trigger] lterms[i] == rows12[i] by {
        let items = covector_lie_terms(v, omega, domega, dv, i);
        lemma_folds_to_sum(covector_step, plus, neg, e, sum_of_products(plus, times), e, items, lie_omega.data@[i]);
        let c = items.map_values(sum_of_products(plus, times));
        lemma_identity_left(plus, neg, e, group_sum(plus, e, c));
        lemma_times_sum_right(plus, neg, e, times, one, c, ww(i));
        assert forall|j: int| 0 <= j < d implies #[trigger] times(c[j], ww(i)) == plus(t1(i, j), t2(i, j)) by {
            lemma_ring_times(
                plus,
                neg,
                e,
                times,
                one,
                times(vv(j), matrix_at(domega, i, j)),
                times(om(j), matrix_at(dv, j, i)),
                ww(i),
            );
        }
        assert(Seq::new(c.len(), |s: int| times(c[s], ww(i))) =~= Seq::new(d, |b: int| plus(t1(i, b), t2(i, b))));
    }
    assert(lterms =~= rows12);
    lemma_double_sum_of_two(plus, neg, e, t1, t2, d, d);
    // ω([V, W]) = Σ_i Σ_j (t3 + t4)
    let rows34 = Seq::new(d, |a: int| group_sum(plus, e, Seq::new(d, |b: int| plus(t3(a, b), t4(a, b)))));
    let rterms = Seq::new(d, |i: int| times(omega.data@[i], lie_w.data@[i]));
    assert forall|i: int| 0 <= i < d implies #[trigger] rterms[i] == rows34[i] by {
        let items = vector_lie_terms(v, w, dw, dv, i);
        lemma_folds_to_sum(bracket_step, plus, neg, e, difference_of_products(plus, neg, times), e, items, lie_w.data@[i]);
        let c = items.map_values(difference_of_products(plus, neg, times));
        lemma_identity_left(plus, neg, e, group_sum(plus, e, c));
        lemma_times_sum_left(plus, neg, e, times, one, om(i), c);
        assert forall|j: int| 0 <= j < d implies #[trigger] times(om(i), c[j]) == plus(t3(i, j), t4(i, j)) by {
            lemma_ring_times(
                plus,
                neg,
                e,
                times,
                one,
                om(i),
                times(vv(j), matrix_at(dw, i, j)),
                neg(times(ww(j), matrix_at(dv, i, j))),
            );
        }
        assert(Seq::new(c.len(), |s: int| times(om(i), c[s])) =~= Seq::new(d, |b: int| plus(t3(i, b), t4(i, b))));
    }
    assert(rterms =~= rows34);
    lemma_double_sum_of_two(plus, neg, e, t3, t4, d, d);
    // Σ Σ t4 = -Σ Σ t2
    let rows4 = Seq::new(d, |a: int| group_sum(plus, e, Seq::new(d, |b: int| t4(a, b))));
    let rowsnu = Seq::new(d, |a: int| group_sum(plus, e, Seq::new(d, |b: int| neg(u(a, b)))));
    assert forall|a: int| 0 <= a < d implies #[trigger] rows4[a] == rowsnu[a] by {
        assert forall|b: int| 0 <= b < d implies #[trigger] t4(a, b) == neg(u(a, b)) by {
            lemma_times_neg(plus, neg, e, times, one, om(a), times(ww(b), matrix_at(dv, a, b)));
        }
        assert(Seq::new(d, |b: int| t4(a, b)) =~= Seq::new(d, |b: int| neg(u(a, b))));
    }
    assert(rows4 =~= rowsnu);
    lemma_double_sum_neg(plus, neg, e, u, d, d);
    lemma_double_sum_swap(plus, neg, e, u, d, d);
    let ucols = Seq::new(d, |b: int| group_sum(plus, e, Seq::new(d, |a: int| u(a, b))));
    let rows2 = Seq::new(d, |a: int| group_sum(plus, e, Seq::new(d, |b: int| t2(a, b))));
    assert forall|b: int| 0 <= b < d implies #[trigger] ucols[b] == rows2[b] by {
        assert forall|a: int| 0 <= a < d implies #[trigger] u(a, b) == t2(b, a) by {
            let x = matrix_at(dv, a, b);
            lemma_ring_times(plus, neg, e, times, one, om(a), ww(b), x);
            lemma_ring_times(plus, neg, e, times, one, om(a), x, ww(b));
            assert(times(ww(b), x) == times(x, ww(b)));
        }
        assert(Seq::new(d, |a: int| u(a, b)) =~= Seq::new(d, |a: int| t2(b, a)));
    }
    assert(ucols =~= rows2);
    // V^j ∂_j(ω_i W^i) = Σ_i Σ_j (t1 + t3)
    let rhs = Seq::new(
        d,
        |j: int| times(v.data@[j], pairing_derivative(domega, w, omega, dw, v.dim, j, plus, e, times)),
    );
    let r1 = |j: int, i: int| t1(i, j);
    let r3 = |j: int, i: int| t3(i, j);
    let rrows = Seq::new(d, |a: int| group_sum(plus, e, Seq::new(d, |b: int| plus(r1(a, b), r3(a, b)))));
    assert forall|j: int| 0 <= j < d implies #[trigger] rhs[j] == rrows[j] by {
        let p1 = Seq::new(d, |i: int| times(matrix_at(domega, i, j), w.data@[i]));
        let p3 = Seq::new(d, |i: int| times(omega.data@[i], matrix_at(dw, i, j)));
        lemma_ring_times(plus, neg, e, times, one, vv(j), group_sum(plus, e, p1), group_sum(plus, e, p3));
        lemma_times_sum_left(plus, neg, e, times, one, vv(j), p1);
        lemma_times_sum_left(plus, neg, e, times, one, vv(j), p3);
        let q1 = Seq::new(p1.len(), |s: int| times(vv(j), p1[s]));
        let q3 = Seq::new(p3.len(), |s: int| times(vv(j), p3[s]));
        lemma_sum_of_two(plus, neg, e, q1, q3);
        assert forall|i: int| 0 <= i < d implies #[trigger] plus(q1[i], q3[i]) == plus(r1(j, i), r3(j, i)) by {
            lemma_ring_times(plus, neg, e, times, one, vv(j), matrix_at(domega, i, j), ww(i));
            lemma_ring_times(plus, neg, e, times, one, vv(j), om(i), matrix_at(dw, i, j));
            lemma_ring_times(plus, neg, e, times, one, om(i), vv(j), matrix_at(dw, i, j));
            assert(times(vv(j), om(i)) == times(om(i), vv(j)));
        }
        assert(Seq::new(q1.len(), |s: int| plus(q1[s], q3[s])) =~= Seq::new(
            d,
            |b: int| plus(r1(j, b), r3(j, b)),
        ));
    }
    assert(rhs =~= rrows);
    let r13 = |j: int, i: int| plus(r1(j, i), r3(j, i));
    lemma_double_sum_swap(plus, neg, e, r13, d, d);
    let rcols = Seq::new(d, |i: int| group_sum(plus, e, Seq::new(d, |j: int| r13(j, i))));
    let rows13 = Seq::new(d, |a: int| group_sum(plus, e, Seq::new(d, |b: int| plus(t1(a, b), t3(a, b)))));
    assert forall|i: int| 0 <= i < d implies #[trigger] rcols[i] == rows13[i] by {
        assert(Seq::new(d, |j: int| r13(j, i)) =~= Seq::new(d, |b: int| plus(t1(i, b), t3(i, b))));
    }
    assert(rcols =~= rows13);
    let rrows2 = Seq::new(d, |a: int| group_sum(plus, e, Seq::new(d, |b: int| r13(a, b))));
    assert forall|a: int| 0 <= a < d implies #[trigger] rrows2[a] == rrows[a] by {
        assert(Seq::new(d, |b: int| r13(a, b)) =~= Seq::new(d, |b: int| plus(r1(a, b), r3(a, b))));
    }
    assert(rrows2 =~= rrows);
    lemma_double_sum_of_two(plus, neg, e, t1, t3, d, d);
    let s1 = group_sum(plus, e, Seq::new(d, |a: int| group_sum(plus, e, Seq::new(d, |b: int| t1(a, b)))));
    let s2 = group_sum(plus, e, rows2);
    let s3 = group_sum(plus, e, Seq::new(d, |a: int| group_sum(plus, e, Seq::new(d, |b: int| t3(a, b)))));
    assert(group_sum(plus, e, rows4) == neg(s2));
    lemma_cancel_across(plus, neg, e, s1, s3, s2);
    assert(lterms =~= Seq::new(d, |i: int| times(lie_omega.data@[i], w.data@[i])));
}

/// g (a^i - b^i)(a^j - b^j) for a tuple (g, a^i, b^i, a^j, b^j): what the
/// influence step adds.
pub open spec fn separation_product<T>(
    plus: spec_fn(T, T) -> T,
    neg: spec_fn(T) -> T,
    times: spec_fn(T, T) -> T,
) -> spec_fn((T, T, T, T, T)) -> T {
    |x: (T, T, T, T, T)| times(times(x.0, plus(x.1, neg(x.2))), plus(x.3, neg(x.4)))
}

/// The influence decays with the squared metric length of the separation
/// of the two agents: with exact commutative ring arithmetic (the step
/// adding g (a^i - b^i)(a^j - b^j)), a result `r` of `influence_with` is
/// `decay` applied to the coupling and δ_i g_ij δ^j, summed as
/// Σ_i δ^i (Σ_j g_ij δ^j), where δ = a - b.
pub proof fn lemma_influence_is_metric_length<T: Copy, S: Fn(T, (T, T, T, T, T)) -> T, D: Fn(T, T) -> T>(
    theory: &AgentFieldTheory<T>,
    agent_a: &Tensor<T>,
    agent_b: &Tensor<T>,
    step: S,
    decay: D,
    r: T,
    plus: spec_fn(T, T) -> T,
    neg: spec_fn(T) -> T,
    e: T,
    times: spec_fn(T, T) -> T,
    one: T,
)
    requires
        ring(plus, neg, e, times, one),
        commutative(times),
        step_adds(step, plus, separation_product(plus, neg, times)),
        exists|dist: T|
            #[trigger] folds_to(
                step,
                e,
                influence_terms(&theory.metric.g, agent_a, agent_b, theory.config.dim as nat),
                dist,
            ) && call_ensures(decay, (theory.config.coupling, dist), r),
    ensures
        call_ensures(
            decay,
            (
                theory.config.coupling,
                group_sum(
                    plus,
                    e,
                    Seq::new(
                        theory.config.dim as nat,
                        |i: int|
                            times(
                                plus(agent_a.data@[i], neg(agent_b.data@[i])),
                                group_sum(
                                    plus,
                                    e,
                                    Seq::new(
                                        theory.config.dim as nat,
                                        |j: int|
                                            times(
                                                matrix_at(&theory.metric.g, i, j),
                                                plus(agent_a.data@[j], neg(agent_b.data@[j])),
                                            ),
                                    ),
                                ),
                            ),
                    ),
                ),
            ),
            r,
        ),
{
    lemma_ring_group(plus, neg, e, times, one);
    let d = theory.config.dim as nat;
    let g = &theory.metric.g;
    let delta = |i: int| plus(agent_a.data@[i], neg(agent_b.data@[i]));
    let dist = choose|dist: T|
        #[trigger] folds_to(step, e, influence_terms(g, agent_a, agent_b, d), dist) && call_ensures(
            decay,
            (theory.config.coupling, dist),
            r,
        );
    let x = |a: int, b: int| times(times(matrix_at(g, a, b), delta(a)), delta(b));
    let terms = influence_terms(g, agent_a, agent_b, d);
    lemma_folds_to_sum(step, plus, neg, e, separation_product(plus, neg, times), e, terms, dist);
    assert(terms.map_values(separation_product(plus, neg, times)) =~= Seq::new(
        d * d,
        |o: int| x(o / (d as int), o % (d as int)),
    ));
    lemma_flat_double_sum(plus, neg, e, x, d, d);
    lemma_identity_left(plus, neg, e, group_sum(plus, e, terms.map_values(separation_product(plus, neg, times))));
    let outer = Seq::new(
        d,
        |i: int| times(delta(i), group_sum(plus, e, Seq::new(d, |j: int| times(matrix_at(g, i, j), delta(j))))),
    );
    assert forall|a: int| 0 <= a < d implies #[trigger] outer[a] == group_sum(
        plus,
        e,
        Seq::new(d, |b: int| x(a, b)),
    ) by {
        let prods = Seq::new(d, |j: int| times(matrix_at(g, a, j), delta(j)));
        lemma_times_sum_left(plus, neg, e, times, one, delta(a), prods);
        assert forall|b: int| 0 <= b < d implies #[trigger] times(delta(a), prods[b]) == x(a, b) by {
            let gab = matrix_at(g, a, b);
            lemma_ring_times(plus, neg, e, times, one, delta(a), gab, delta(b));
            assert(times(delta(a), gab) == times(gab, delta(a)));
        }
        assert(Seq::new(prods.len(), |s: int| times(delta(a), prods[s])) =~= Seq::new(
            d,
            |b: int| x(a, b),
        ));
    }
    assert(outer =~= Seq::new(d, |a: int| group_sum(plus, e, Seq::new(d, |b: int| x(a, b)))));
    let stated = Seq::new(
        d,
        |i: int|
            times(
                plus(agent_a.data@[i], neg(agent_b.data@[i])),
                group_sum(
                    plus,
                    e,
                    Seq::new(
                        d,
                        |j: int| times(matrix_at(g, i, j), plus(agent_a.data@[j], neg(agent_b.data@[j]))),
                    ),
                ),
            ),
    );
    assert forall|i: int| 0 <= i < d implies #[trigger] stated[i] == outer[i] by {
        assert(Seq::new(
            d,
            |j: int| times(matrix_at(g, i, j), plus(agent_a.data@[j], neg(agent_b.data@[j]))),
        ) =~= Seq::new(d, |j: int| times(matrix_at(g, i, j), delta(j))));
    }
    assert(stated =~= outer);
}

/// ab + ce + fg for a sextuple (a, b, c, e, f, g): what the Lie step of a
/// rank-2 tensor adds.
pub open spec fn three_products<T>(plus: spec_fn(T, T) -> T, times: spec_fn(T, T) -> T) -> spec_fn(
    (T, T, T, T, T, T),
) -> T {
    |x: (T, T, T, T, T, T)| plus(plus(times(x.0, x.1), times(x.2, x.3)), times(x.4, x.5))
}

/// ((a + b) + c) + d = (a + c) + (b + d).
proof fn lemma_swap_middle<T>(plus: spec_fn(T, T) -> T, neg: spec_fn(T) -> T, e: T, a: T, b: T, c: T, f: T)
    requires
        abelian_group(plus, neg, e),
    ensures
        plus(plus(plus(a, b), c), f) == plus(plus(a, c), plus(b, f)),
{
    lemma_assoc(plus, neg, e, a, b, c);
    lemma_comm(plus, neg, e, b, c);
    lemma_assoc(plus, neg, e, a, c, b);
    lemma_assoc(plus, neg, e, plus(a, c), b, f);
}

/// The Lie derivative obeys the product rule on a tensor product of 1-forms,
/// L_V(ω ⊗ η) = L_Vω ⊗ η + ω ⊗ L_Vη: with exact commutative ring arithmetic
/// (the rank-2 step adding ab + ce + fg, the 1-form step adding ab + ce), for
/// T_ij = ω_i η_j with derivatives ∂_kT_ij = ∂_kω_i η_j + ω_i ∂_kη_j, a
/// result `lie_t` of `lie_derivative_rank2_covariant_with` and results
/// `lie_omega`, `lie_eta` of `lie_derivative_covector_with` along the same
/// V satisfy (L_VT)_ij = (L_Vω)_i η_j + ω_i (L_Vη)_j.
pub proof fn lemma_lie_derivative_tensor_product_rule<
    T: Copy,
    R: Fn(T, (T, T, T, T, T, T)) -> T,
    C: Fn(T, (T, T, T, T)) -> T,
>(
    v: &Tensor<T>,
    dv: &Tensor<T>,
    omega: &Tensor<T>,
    domega: &Tensor<T>,
    eta: &Tensor<T>,
    deta: &Tensor<T>,
    t: &Tensor<T>,
    dt: &Tensor<T>,
    lie_t: &Tensor<T>,
    lie_omega: &Tensor<T>,
    lie_eta: &Tensor<T>,
    rank2_step: R,
    covector_step: C,
    plus: spec_fn(T, T) -> T,
    neg: spec_fn(T) -> T,
    e: T,
    times: spec_fn(T, T) -> T,
    one: T,
)
    requires
        ring(plus, neg, e, times, one),
        commutative(times),
        step_adds(rank2_step, plus, three_products(plus, times)),
        step_adds(covector_step, plus, sum_of_products(plus, times)),
        forall|i: int, j: int|
            0 <= i < v.dim && 0 <= j < v.dim ==> #[trigger] matrix_at(t, i, j) == times(
                omega.data@[i],
                eta.data@[j],
            ),
        forall|i: usize, j: usize, k: usize|
            i < v.dim && j < v.dim && k < v.dim ==> #[trigger] dt.data@[pos3(
                dt.dim as nat,
                i as nat,
                j as nat,
                k as nat,
            )] == plus(
                times(matrix_at(domega, i as int, k as int), eta.data@[j as int]),
                times(omega.data@[i as int], matrix_at(deta, j as int, k as int)),
            ),
        forall|i: int, j: int|
            0 <= i < v.dim && 0 <= j < v.dim ==> folds_to(
                rank2_step,
                e,
                rank2_lie_terms(v, t, dt, dv, i, j),
                #[trigger] lie_t.data@[i * v.dim + j],
            ),
        forall|i: int|
            0 <= i < v.dim ==> folds_to(
                covector_step,
                e,
                covector_lie_terms(v, omega, domega, dv, i),
                #[trigger] lie_omega.data@[i],
            ),
        forall|i: int|
            0 <= i < v.dim ==> folds_to(
                covector_step,
                e,
                covector_lie_terms(v, eta, deta, dv, i),
                #[trigger] lie_eta.data@[i],
            ),
    ensures
        forall|i: int, j: int|
            0 <= i < v.dim && 0 <= j < v.dim ==> #[trigger] lie_t.data@[i * v.dim + j] == plus(
                times(lie_omega.data@[i], eta.data@[j]),
                times(omega.data@[i], lie_eta.data@[j]),
            ),
{
    lemma_ring_group(plus, neg, e, times, one);
    let d = v.dim as nat;
    assert forall|i: int, j: int| 0 <= i < v.dim && 0 <= j < v.dim implies #[trigger] lie_t.data@[i
        * v.dim + j] == plus(
        times(lie_omega.data@[i], eta.data@[j]),
        times(omega.data@[i], lie_eta.data@[j]),
    ) by {
        let vk = |k: int| v.data@[k];
        let wi = omega.data@[i];
        let hj = eta.data@[j];
        let ft = rank2_lie_terms(v, t, dt, dv, i, j);
        lemma_folds_to_sum(rank2_step, plus, neg, e, three_products(plus, times), e, ft, lie_t.data@[i * v.dim + j]);
        let f = ft.map_values(three_products(plus, times));
        lemma_identity_left(plus, neg, e, group_sum(plus, e, f));
        let co = covector_lie_terms(v, omega, domega, dv, i);
        lemma_folds_to_sum(covector_step, plus, neg, e, sum_of_products(plus, times), e, co, lie_omega.data@[i]);
        let ca = co.map_values(sum_of_products(plus, times));
        lemma_identity_left(plus, neg, e, group_sum(plus, e, ca));
        let ce = covector_lie_terms(v, eta, deta, dv, j);
        lemma_folds_to_sum(covector_step, plus, neg, e, sum_of_products(plus, times), e, ce, lie_eta.data@[j]);
        let cb = ce.map_values(sum_of_products(plus, times));
        lemma_identity_left(plus, neg, e, group_sum(plus, e, cb));
        lemma_times_sum_right(plus, neg, e, times, one, ca, hj);
        lemma_times_sum_left(plus, neg, e, times, one, wi, cb);
        let aa = Seq::new(ca.len(), |s: int| times(ca[s], hj));
        let bb = Seq::new(cb.len(), |s: int| times(wi, cb[s]));
        lemma_sum_of_two(plus, neg, e, aa, bb);
        assert forall|k: int| 0 <= k < d implies #[trigger] f[k] == plus(aa[k], bb[k]) by {
            let dwik = matrix_at(domega, i, k);
            let dhjk = matrix_at(deta, j, k);
            let wk = omega.data@[k];
            let hk = eta.data@[k];
            let dvki = matrix_at(dv, k, i);
            let dvkj = matrix_at(dv, k, j);
            assert(at3(dt, seq![i as usize, j as usize, k as usize]) == plus(times(dwik, hj), times(wi, dhjk)));
            let a1 = times(vk(k), times(dwik, hj));
            let b1 = times(vk(k), times(wi, dhjk));
            let a2 = times(times(wk, hj), dvki);
            let b2 = times(times(wi, hk), dvkj);
            lemma_ring_times(plus, neg, e, times, one, vk(k), times(dwik, hj), times(wi, dhjk));
            lemma_swap_middle(plus, neg, e, a1, b1, a2, b2);
            // aa[k] = (V^k ∂_kω_i + ω_k ∂_iV^k) η_j = a1 + a2
            lemma_ring_times(plus, neg, e, times, one, times(vk(k), dwik), times(wk, dvki), hj);
            lemma_ring_times(plus, neg, e, times, one, vk(k), dwik, hj);
            lemma_ring_times(plus, neg, e, times, one, wk, dvki, hj);
            lemma_ring_times(plus, neg, e, times, one, wk, hj, dvki);
            assert(times(dvki, hj) == times(hj, dvki));
            // bb[k] = ω_i (V^k ∂_kη_j + η_k ∂_jV^k) = b1 + b2
            lemma_ring_times(plus, neg, e, times, one, wi, times(vk(k), dhjk), times(hk, dvkj));
            lemma_ring_times(plus, neg, e, times, one, wi, vk(k), dhjk);
            lemma_ring_times(plus, neg, e, times, one, vk(k), wi, dhjk);
            assert(times(wi, vk(k)) == times(vk(k), wi));
            lemma_ring_times(plus, neg, e, times, one, wi, hk, dvkj);
        }
        assert(f =~= Seq::new(aa.len(), |s: int| plus(aa[s], bb[s])));
    }
}

/// The covariant derivative obeys the product rule on a tensor product of
/// vector fields, ∇_k(V ⊗ W) = ∇_kV ⊗ W + V ⊗ ∇_kW: with exact commutative
/// ring arithmetic (`step` adding the product of its pair), for
/// T^{ij} = V^i W^j with derivatives ∂_kT^{ij} = ∂_kV^i W^j + V^i ∂_kW^j, a
/// result `r` of `covariant_derivative_rank2_with` of T and results
/// `nabla_v`, `nabla_w` of `covariant_derivative_with` of V and W under the
/// same symbols satisfy ∇_kT^{ij} = (∇_kV)^i W^j + V^i (∇_kW)^j.
pub proof fn lemma_covariant_derivative_tensor_product_rule<T: Copy, G: Fn(T, (T, T)) -> T>(
    gamma: &ChristoffelSymbols<T>,
    v: &Tensor<T>,
    dv: &Tensor<T>,
    w: &Tensor<T>,
    dw: &Tensor<T>,
    t: &Tensor<T>,
    dt: &Tensor<T>,
    r: &Tensor<T>,
    nabla_v: &Tensor<T>,
    nabla_w: &Tensor<T>,
    step: G,
    minus_step: G,
    plus: spec_fn(T, T) -> T,
    neg: spec_fn(T) -> T,
    e: T,
    times: spec_fn(T, T) -> T,
    one: T,
)
    requires
        ring(plus, neg, e, times, one),
        commutative(times),
        step_adds(step, plus, pair_product(times)),
        gamma.dim <= usize::MAX,
        t.index_types@ == seq![IndexType::Contravariant, IndexType::Contravariant],
        forall|a: int, b: int|
            0 <= a < gamma.dim && 0 <= b < gamma.dim ==> #[trigger] matrix_at(t, a, b) == times(
                v.data@[a],
                w.data@[b],
            ),
        forall|i: usize, j: usize, k: usize|
            i < gamma.dim && j < gamma.dim && k < gamma.dim ==> #[trigger] dt.data@[pos3(
                dt.dim as nat,
                i as nat,
                j as nat,
                k as nat,
            )] == plus(
                times(matrix_at(dv, i as int, k as int), w.data@[j as int]),
                times(v.data@[i as int], matrix_at(dw, j as int, k as int)),
            ),
        nabla_v.dim == gamma.dim,
        nabla_w.dim == gamma.dim,
        forall|i: int, k: int|
            0 <= i < gamma.dim && 0 <= k < gamma.dim ==> folds_to(
                step,
                matrix_at(dv, i, k),
                vector_connection_terms(gamma, v, i, k),
                #[trigger] nabla_v.data@[i * gamma.dim + k],
            ),
        forall|i: int, k: int|
            0 <= i < gamma.dim && 0 <= k < gamma.dim ==> folds_to(
                step,
                matrix_at(dw, i, k),
                vector_connection_terms(gamma, w, i, k),
                #[trigger] nabla_w.data@[i * gamma.dim + k],
            ),
        r.dim == gamma.dim,
        r.index_types@.len() == 3,
        r.wf(),
        forall|o: int|
            0 <= o < r.data@.len() ==> rank2_derivative_component(
                gamma,
                t,
                dt,
                step,
                minus_step,
                unflat(o as nat, gamma.dim as nat, 3),
                #[trigger] r.data@[o],
            ),
    ensures
        forall|i: usize, j: usize, k: usize|
            i < gamma.dim && j < gamma.dim && k < gamma.dim ==> #[trigger] r.data@[pos3(
                gamma.dim as nat,
                i as nat,
                j as nat,
                k as nat,
            )] == plus(
                times(matrix_at(nabla_v, i as int, k as int), w.data@[j as int]),
                times(v.data@[i as int], matrix_at(nabla_w, j as int, k as int)),
            ),
{
    lemma_ring_group(plus, neg, e, times, one);
    let d = gamma.dim as nat;
    lemma_num_components_small(d);
    assert forall|o: int| 0 <= o < r.data@.len() implies #[trigger] r.data@[o] == plus(
        times(
            matrix_at(nabla_v, unflat(o as nat, gamma.dim as nat, 3)[0] as int, unflat(o as nat, gamma.dim as nat, 3)[2] as int),
            w.data@[unflat(o as nat, gamma.dim as nat, 3)[1] as int],
        ),
        times(
            v.data@[unflat(o as nat, gamma.dim as nat, 3)[0] as int],
            matrix_at(nabla_w, unflat(o as nat, gamma.dim as nat, 3)[1] as int, unflat(o as nat, gamma.dim as nat, 3)[2] as int),
        ),
    ) by {
        assert(d > 0) by (nonlinear_arith)
            requires
                0 <= o < d * d * d,
        ;
        lemma_flat_unflat(o as nat, d, 3);
        let m = unflat(o as nat, d, 3);
        let (i, j, k) = (m[0] as int, m[1] as int, m[2] as int);
        assert(m[0] < d && m[1] < d && m[2] < d);
        let value = r.data@[o];
        assert(upper_first(t) && !lower_second(t));
        let items1 = first_index_terms(gamma, t, true, i, j, k);
        let items2 = second_index_terms(gamma, t, false, i, j, k);
        let mid = choose|mid: T|
            #[trigger] folds_to(step, at3(dt, m), items1, mid) && folds_to(step, mid, items2, value);
        let vi = v.data@[i];
        let wj = w.data@[j];
        let a = times(matrix_at(dv, i, k), wj);
        let b = times(vi, matrix_at(dw, j, k));
        assert(at3(dt, m) == plus(a, b));
        // the first index: Σ_l Γ^i_{lk} V^l W^j = (Σ_l Γ^i_{lk} V^l) W^j
        lemma_folds_to_sum(step, plus, neg, e, pair_product(times), plus(a, b), items1, mid);
        let pv = vector_connection_terms(gamma, v, i, k).map_values(pair_product(times));
        lemma_folds_to_sum(step, plus, neg, e, pair_product(times), matrix_at(dv, i, k), vector_connection_terms(gamma, v, i, k), nabla_v.data@[i * gamma.dim + k]);
        lemma_times_sum_right(plus, neg, e, times, one, pv, wj);
        assert forall|l: int| 0 <= l < d implies #[trigger] items1.map_values(pair_product(times))[l] == times(pv[l], wj) by {
            lemma_ring_times(plus, neg, e, times, one, christoffel_at(gamma, i, l, k), v.data@[l], wj);
        }
        assert(items1.map_values(pair_product(times)) =~= Seq::new(pv.len(), |s: int| times(pv[s], wj)));
        let pw = group_sum(plus, e, pv);
        lemma_ring_times(plus, neg, e, times, one, matrix_at(dv, i, k), pw, wj);
        // the second index: Σ_l Γ^j_{lk} V^i W^l = V^i (Σ_l Γ^j_{lk} W^l)
        lemma_folds_to_sum(step, plus, neg, e, pair_product(times), mid, items2, value);
        let qw = vector_connection_terms(gamma, w, j, k).map_values(pair_product(times));
        lemma_folds_to_sum(step, plus, neg, e, pair_product(times), matrix_at(dw, j, k), vector_connection_terms(gamma, w, j, k), nabla_w.data@[j * gamma.dim + k]);
        lemma_times_sum_left(plus, neg, e, times, one, vi, qw);
        assert forall|l: int| 0 <= l < d implies #[trigger] items2.map_values(pair_product(times))[l] == times(vi, qw[l]) by {
            let g = christoffel_at(gamma, j, l, k);
            lemma_ring_times(plus, neg, e, times, one, vi, g, w.data@[l]);
            lemma_ring_times(plus, neg, e, times, one, g, vi, w.data@[l]);
            assert(times(vi, g) == times(g, vi));
        }
        assert(items2.map_values(pair_product(times)) =~= Seq::new(qw.len(), |s: int| times(vi, qw[s])));
        let qs = group_sum(plus, e, qw);
        lemma_ring_times(plus, neg, e, times, one, vi, matrix_at(dw, j, k), qs);
        lemma_swap_middle(plus, neg, e, a, b, times(pw, wj), times(vi, qs));
    }
    assert forall|i: usize, j: usize, k: usize|
        i < gamma.dim && j < gamma.dim && k < gamma.dim implies #[trigger] r.data@[pos3(
        gamma.dim as nat,
        i as nat,
        j as nat,
        k as nat,
    )] == plus(
        times(matrix_at(nabla_v, i as int, k as int), w.data@[j as int]),
        times(v.data@[i as int], matrix_at(nabla_w, j as int, k as int)),
    ) by {
        let idx = seq![i, j, k];
        lemma_triple_bounds(i, j, k, d);
        lemma_flat_bound(idx, d);
        lemma_unflat_flat(idx, d);
        lemma_flat_triple(i, j, k, d);
        let o = flat_of(idx, d) as int;
        assert(unflat(o as nat, d, 3) == idx);
        assert(idx[0] == i && idx[1] == j && idx[2] == k);
    }
}

/// The curvature formula, R^i_{jkl} = ∂_kΓ^i_{jl} - ∂_lΓ^i_{jk} +
/// Σ_m (Γ^i_{mk} Γ^m_{jl} - Γ^i_{ml} Γ^m_{jk}): with exact ring arithmetic
/// (`start` subtracting its second argument from its first, `step` adding
/// a b - c e), the mixed components of a Riemann tensor computed from
/// symbols `gamma` and derivatives `dgamma` (∂_lΓ^i_{jk} at (i, j, k, l))
/// are given by the formula at every (i, j, k, l).
pub proof fn lemma_riemann_curvature_formula<
    T: Copy,
    S: Fn(T, T) -> T,
    F: Fn(T, (T, T, T, T)) -> T,
>(
    riemann: &RiemannTensor<T>,
    gamma: &ChristoffelSymbols<T>,
    dgamma: &Tensor<T>,
    start: S,
    step: F,
    plus: spec_fn(T, T) -> T,
    neg: spec_fn(T) -> T,
    e: T,
    times: spec_fn(T, T) -> T,
    one: T,
)
    requires
        ring(plus, neg, e, times, one),
        start_subtracts(start, plus, neg),
        step_adds(step, plus, difference_of_products(plus, neg, times)),
        riemann.components_from(gamma, dgamma, start, step),
    ensures
        forall|i: usize, j: usize, k: usize, l: usize|
            i < gamma.dim && j < gamma.dim && k < gamma.dim && l < gamma.dim ==> #[trigger] riemann.components.data@[pos4(
                gamma.dim as nat,
                i as nat,
                j as nat,
                k as nat,
                l as nat,
            )] == plus(
                plus(
                    quad_at(dgamma, i as int, j as int, l as int, k as int),
                    neg(quad_at(dgamma, i as int, j as int, k as int, l as int)),
                ),
                group_sum(
                    plus,
                    e,
                    Seq::new(
                        gamma.dim as nat,
                        |m: int|
                            plus(
                                times(christoffel_at(gamma, i as int, m, k as int), christoffel_at(gamma, m, j as int, l as int)),
                                neg(times(christoffel_at(gamma, i as int, m, l as int), christoffel_at(gamma, m, j as int, k as int))),
                            ),
                    ),
                ),
            ),
{
    lemma_ring_group(plus, neg, e, times, one);
    let d = gamma.dim as nat;
    assert forall|i: usize, j: usize, k: usize, l: usize|
        i < gamma.dim && j < gamma.dim && k < gamma.dim && l < gamma.dim implies #[trigger] riemann.components.data@[pos4(
        gamma.dim as nat,
        i as nat,
        j as nat,
        k as nat,
        l as nat,
    )] == plus(
        plus(
            quad_at(dgamma, i as int, j as int, l as int, k as int),
            neg(quad_at(dgamma, i as int, j as int, k as int, l as int)),
        ),
        group_sum(
            plus,
            e,
            Seq::new(
                gamma.dim as nat,
                |m: int|
                    plus(
                        times(christoffel_at(gamma, i as int, m, k as int), christoffel_at(gamma, m, j as int, l as int)),
                        neg(times(christoffel_at(gamma, i as int, m, l as int), christoffel_at(gamma, m, j as int, k as int))),
                    ),
            ),
        ),
    ) by {
        let idx = seq![i, j, k, l];
        assert(in_bounds(idx, d)) by {
            assert forall|q: int| 0 <= q < idx.len() implies (#[trigger] idx[q]) < d by {
                if q == 0 {
                } else if q == 1 {
                } else if q == 2 {
                } else {
                }
            }
        }
        lemma_flat_bound(idx, d);
        lemma_unflat_flat(idx, d);
        lemma_flat_quad(i, j, k, l, d);
        let o = flat_of(idx, d) as int;
        let value = riemann.components.data@[o];
        assert(curvature_component(gamma, dgamma, start, step, idx, value));
        let init = choose|init: T|
            call_ensures(start, derivative_args(dgamma, idx), init) && #[trigger] folds_to(
                step,
                init,
                product_terms(gamma, idx),
                value,
            );
        lemma_folds_to_sum(step, plus, neg, e, difference_of_products(plus, neg, times), init, product_terms(gamma, idx), value);
        assert(product_terms(gamma, idx).map_values(difference_of_products(plus, neg, times)) =~= Seq::new(
            gamma.dim as nat,
            |m: int|
                plus(
                    times(christoffel_at(gamma, i as int, m, k as int), christoffel_at(gamma, m, j as int, l as int)),
                    neg(times(christoffel_at(gamma, i as int, m, l as int), christoffel_at(gamma, m, j as int, k as int))),
                ),
        ));
    }
}

/// `mul` multiplies as `times` does.
pub open spec fn multiplies<T, M: Fn(T, T) -> T>(mul: M, times: spec_fn(T, T) -> T) -> bool {
    forall|a: T, b: T, r: T| #[trigger] call_ensures(mul, (a, b), r) ==> r == times(a, b)
}

/// Contracting the outer product of a vector and a 1-form gives their
/// pairing, tr(V ⊗ ω) = Σ_i V^i ω_i: with exact ring arithmetic (`mul`
/// multiplying, `add` adding, from `e`), for an outer product `t` of
/// `outer_product_with` of a rank-1 `v` and a rank-1 `w`, the only
/// component of the contraction `contracted` of `contract_with` over its two
/// indices is Σ_i v_i w_i.
pub proof fn lemma_contracted_outer_product_is_pairing<T: Copy, M: Fn(T, T) -> T, A: Fn(T, T) -> T>(
    v: &Tensor<T>,
    w: &Tensor<T>,
    t: &Tensor<T>,
    contracted: &Tensor<T>,
    mul: M,
    add: A,
    plus: spec_fn(T, T) -> T,
    neg: spec_fn(T) -> T,
    e: T,
    times: spec_fn(T, T) -> T,
    one: T,
)
    requires
        ring(plus, neg, e, times, one),
        multiplies(mul, times),
        step_adds(add, plus, identity_fn::<T>()),
        v.wf(),
        w.wf(),
        v.index_types@.len() == 1,
        w.index_types@.len() == 1,
        v.dim == w.dim,
        is_outer_product(t, v, w, mul),
        contracted.data@.len() > 0,
        forall|o: int|
            0 <= o < contracted.data@.len() ==> folds_to(
                add,
                e,
                t.contraction_terms(0, 1, o as nat),
                #[trigger] contracted.data@[o],
            ),
    ensures
        contracted.data@[0] == group_sum(
            plus,
            e,
            Seq::new(v.dim as nat, |i: int| times(v.data@[i], w.data@[i])),
        ),
{
    lemma_ring_group(plus, neg, e, times, one);
    let d = v.dim as nat;
    let terms = t.contraction_terms(0, 1, 0);
    lemma_folds_to_sum(add, plus, neg, e, identity_fn::<T>(), e, terms, contracted.data@[0]);
    let ids = terms.map_values(identity_fn::<T>());
    lemma_identity_left(plus, neg, e, group_sum(plus, e, ids));
    assert(t.index_types@.len() == 2);
    assert(unflat(0, d, 0) =~= Seq::<usize>::empty());
    assert forall|c: int| 0 <= c < d implies #[trigger] ids[c] == times(v.data@[c], w.data@[c]) by {
        let mc = seq![c as usize];
        lemma_flat_single(c as usize, d);
        assert(in_bounds(mc, d)) by {
            assert forall|q: int| 0 <= q < mc.len() implies (#[trigger] mc[q]) < d by {}
        }
        lemma_outer_product_component(t, v, w, mul, mc, mc);
        assert(with_pair(Seq::<usize>::empty(), 0, 1, c as usize) =~= mc + mc);
    }
    assert(ids =~= Seq::new(d, |i: int| times(v.data@[i], w.data@[i])));
}

/// The Lie derivative of the pairing ω(W) along V is the Lie derivative of
/// that scalar: with exact commutative ring arithmetic, when `grad` holds the
/// derivatives ∂_j(ω_i W^i) and `scalar` is a result of
/// `lie_derivative_scalar_with` of `grad` along V (its step adding the
/// product of its pair), then (L_Vω)_i W^i + ω_i [V, W]^i is that scalar,
/// for results `lie_omega` and `lie_w` as in the product rule.
pub proof fn lemma_lie_derivative_of_pairing<
    T: Copy,
    C: Fn(T, (T, T, T, T)) -> T,
    B: Fn(T, (T, T, T, T)) -> T,
    P: Fn(T, (T, T)) -> T,
>(
    v: &Tensor<T>,
    dv: &Tensor<T>,
    omega: &Tensor<T>,
    domega: &Tensor<T>,
    w: &Tensor<T>,
    dw: &Tensor<T>,
    lie_omega: &Tensor<T>,
    lie_w: &Tensor<T>,
    grad: &Tensor<T>,
    scalar: T,
    covector_step: C,
    bracket_step: B,
    scalar_step: P,
    plus: spec_fn(T, T) -> T,
    neg: spec_fn(T) -> T,
    e: T,
    times: spec_fn(T, T) -> T,
    one: T,
)
    requires
        ring(plus, neg, e, times, one),
        commutative(times),
        step_adds(covector_step, plus, sum_of_products(plus, times)),
        step_adds(bracket_step, plus, difference_of_products(plus, neg, times)),
        step_adds(scalar_step, plus, pair_product(times)),
        forall|i: int|
            0 <= i < v.dim ==> folds_to(
                covector_step,
                e,
                covector_lie_terms(v, omega, domega, dv, i),
                #[trigger] lie_omega.data@[i],
            ),
        forall|i: int|
            0 <= i < v.dim ==> folds_to(
                bracket_step,
                e,
                vector_lie_terms(v, w, dw, dv, i),
                #[trigger] lie_w.data@[i],
            ),
        forall|j: int|
            0 <= j < v.dim ==> #[trigger] grad.data@[j] == pairing_derivative(
                domega,
                w,
                omega,
                dw,
                v.dim,
                j,
                plus,
                e,
                times,
            ),
        folds_to(scalar_step, e, scalar_lie_terms(v, grad), scalar),
    ensures
        plus(
            dot(lie_omega, w, v.dim as nat, plus, e, times),
            dot(omega, lie_w, v.dim as nat, plus, e, times),
        ) == scalar,
{
    lemma_ring_group(plus, neg, e, times, one);
    lemma_lie_derivative_product_rule(
        v,
        dv,
        omega,
        domega,
        w,
        dw,
        lie_omega,
        lie_w,
        covector_step,
        bracket_step,
        plus,
        neg,
        e,
        times,
        one,
    );
    let terms = scalar_lie_terms(v, grad);
    lemma_folds_to_sum(scalar_step, plus, neg, e, pair_product(times), e, terms, scalar);
    lemma_identity_left(plus, neg, e, group_sum(plus, e, terms.map_values(pair_product(times))));
    assert(terms.map_values(pair_product(times)) =~= Seq::new(
        v.dim as nat,
        |j: int| times(v.data@[j], pairing_derivative(domega, w, omega, dw, v.dim, j, plus, e, times)),
    ));
}

} // verus!

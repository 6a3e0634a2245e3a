//! Metric compatibility of the Levi-Civita connection, ∇_k g_ij = 0: with
//! exact commutative arithmetic, the covariant derivative of the metric
//! under the Christoffel symbols computed from it vanishes.
use vstd::prelude::*;
use crate::christoffel::{first_kind_args, pos3, ChristoffelSymbols};
use crate::covariant::{
    choose_step, christoffel_at, first_index_terms, lower_second, matrix_at,
    rank2_derivative_component, second_index_terms, upper_first,
};
use crate::fold::{fold_trace, folds_to};
use crate::laws::{
    derivatives_symmetric, lemma_index_change_is_sum, left_inverse, pair_product, product_entry,
};
use crate::layout::{flat_of, in_bounds, lemma_flat_bound, lemma_flat_unflat, lemma_unflat_flat, unflat};
use crate::riemann::at3;
use crate::tensor::{lemma_num_components_small, IndexType, Tensor};
use crate::metric::MetricTensor;
use crate::sums::{
    abelian_group, group_sum, lemma_assoc, lemma_comm, lemma_double_sum_swap, lemma_identity_inverse,
    lemma_fold_is_sum, lemma_folds_to_sum, lemma_identity_left, lemma_neg_identity, lemma_neg_plus,
    lemma_ring_group, lemma_ring_times, lemma_sum_neg,
    lemma_sum_single, lemma_times_sum_left, lemma_times_sum_right, ring, step_adds,
};

verus! {

/// `times` does not depend on the order of its arguments.
pub open spec fn commutative<T>(times: spec_fn(T, T) -> T) -> bool {
    forall|a: T, b: T| #[trigger] times(a, b) == times(b, a)
}

/// `combine(a, b, c)` answers h (a + b - c), which is ½ (a + b - c) when
/// `h + h` is one.
pub open spec fn combine_halves<T, C: Fn(T, T, T) -> T>(
    combine: C,
    plus: spec_fn(T, T) -> T,
    neg: spec_fn(T) -> T,
    times: spec_fn(T, T) -> T,
    h: T,
) -> bool {
    forall|a: T, b: T, c: T, r: T|
        #[trigger] call_ensures(combine, (a, b, c), r) ==> r == times(h, plus(plus(a, b), neg(c)))
}

/// The negated product of a pair: what `s - g * x` subtracts.
pub open spec fn neg_pair_product<T>(neg: spec_fn(T) -> T, times: spec_fn(T, T) -> T) -> spec_fn(
    (T, T),
) -> T {
    |x: (T, T)| neg(times(x.0, x.1))
}

/// (P + Q - R) + (P + R - Q) = P + P.
proof fn lemma_halves_cancel<T>(plus: spec_fn(T, T) -> T, neg: spec_fn(T) -> T, e: T, p: T, q: T, r: T)
    requires
        abelian_group(plus, neg, e),
    ensures
        plus(plus(plus(p, q), neg(r)), plus(plus(p, r), neg(q))) == plus(p, p),
{
    let y = plus(plus(p, r), neg(q));
    // (P + Q) - R + Y = (P + Q) + (-R + Y)
    lemma_assoc(plus, neg, e, plus(p, q), neg(r), y);
    // -R + ((P + R) - Q) = (-R + (P + R)) - Q
    lemma_assoc(plus, neg, e, neg(r), plus(p, r), neg(q));
    // -R + (P + R) = -R + (R + P) = (-R + R) + P = P
    lemma_comm(plus, neg, e, p, r);
    lemma_assoc(plus, neg, e, neg(r), r, p);
    lemma_comm(plus, neg, e, neg(r), r);
    lemma_identity_inverse(plus, neg, e, r);
    lemma_comm(plus, neg, e, e, p);
    lemma_identity_inverse(plus, neg, e, p);
    // (P + Q) + (P - Q) = P + (Q + (P - Q)) = P + ((Q - Q) + P) = P + P
    lemma_assoc(plus, neg, e, p, q, plus(p, neg(q)));
    lemma_comm(plus, neg, e, p, neg(q));
    lemma_assoc(plus, neg, e, q, neg(q), p);
    lemma_identity_inverse(plus, neg, e, q);
}

/// The row-major position of (a, b, c) as a multi-index.
pub proof fn lemma_flat_triple(a: usize, b: usize, c: usize, d: nat)
    ensures
        flat_of(seq![a, b, c], d) == pos3(d, a as nat, b as nat, c as nat),
{
    let s3 = seq![a, b, c];
    let s2 = seq![a, b];
    let s1 = seq![a];
    assert(s3.drop_last() =~= s2);
    assert(s2.drop_last() =~= s1);
    assert(s1.drop_last() =~= Seq::<usize>::empty());
    assert(s1.last() == a && s2.last() == b && s3.last() == c);
    assert(flat_of(Seq::<usize>::empty(), d) == 0);
    assert(0 * d == 0) by (nonlinear_arith);
    assert(flat_of(s1, d) == a as nat);
    assert(flat_of(s2, d) == (a as nat) * d + (b as nat));
    assert(flat_of(s3, d) == ((a as nat) * d + (b as nat)) * d + (c as nat));
    assert(((a as nat) * d + (b as nat)) * d + (c as nat) == (a as nat) * d * d + (b as nat) * d + (c as nat))
        by (nonlinear_arith);
}

/// The multi-index (a, b, c) with each entry below `d`.
pub proof fn lemma_triple_bounds(a: usize, b: usize, c: usize, d: nat)
    requires
        a < d,
        b < d,
        c < d,
    ensures
        in_bounds(seq![a, b, c], d),
{
    let m = seq![a, b, c];
    assert forall|q: int| 0 <= q < m.len() implies (#[trigger] m[q]) < d by {
        if q == 0 {
        } else if q == 1 {
        } else {
        }
    }
}

/// One symbol of the second kind is the metric inverse applied to those of
/// the first kind: Γ^l_{pk} = Σ_m g^{lm} Γ_{mpk}.
proof fn lemma_second_kind_entry<T: Copy, C: Fn(T, T, T) -> T, F: Fn(T, (T, T)) -> T>(
    gamma: &ChristoffelSymbols<T>,
    metric: &MetricTensor<T>,
    dg: &Tensor<T>,
    combine: C,
    step: F,
    plus: spec_fn(T, T) -> T,
    neg: spec_fn(T) -> T,
    e: T,
    times: spec_fn(T, T) -> T,
    one: T,
    l: int,
    p: int,
    k: int,
)
    requires
        ring(plus, neg, e, times, one),
        step_adds(step, plus, pair_product(times)),
        gamma.computed_from(metric, dg, combine, e, step),
        0 <= l < metric.dim,
        0 <= p < metric.dim,
        0 <= k < metric.dim,
    ensures
        christoffel_at(gamma, l, p, k) == group_sum(
            plus,
            e,
            Seq::new(
                metric.dim as nat,
                |m: int|
                    times(
                        matrix_at(&metric.g_inv, l, m),
                        gamma.first_kind.component(seq![m as usize, p as usize, k as usize]),
                    ),
            ),
        ),
{
    let d = metric.dim as nat;
    let idx = seq![l as usize, p as usize, k as usize];
    lemma_triple_bounds(l as usize, p as usize, k as usize, d);
    lemma_flat_bound(idx, d);
    lemma_unflat_flat(idx, d);
    lemma_flat_triple(l as usize, p as usize, k as usize, d);
    let o = flat_of(idx, d);
    let value = gamma.second_kind.data@[o as int];
    lemma_index_change_is_sum(&gamma.first_kind, &metric.g_inv, 0, o, value, step, plus, neg, e, times, one);
    assert forall|m: int| 0 <= m < d implies #[trigger] idx.update(0, m as usize) == seq![
        m as usize,
        p as usize,
        k as usize,
    ] by {
        assert(idx.update(0, m as usize) =~= seq![m as usize, p as usize, k as usize]);
    }
    assert(Seq::new(
        d,
        |m: int|
            times(
                metric.g_inv.data@[idx[0] * metric.g_inv.dim + m],
                gamma.first_kind.component(idx.update(0, m as usize)),
            ),
    ) =~= Seq::new(
        d,
        |m: int|
            times(
                matrix_at(&metric.g_inv, l, m),
                gamma.first_kind.component(seq![m as usize, p as usize, k as usize]),
            ),
    ));
}

/// Lowering the upper index of the symbols of the second kind with the
/// metric gives back those of the first kind: Σ_l Γ^l_{pk} g_{al} = Γ_{apk},
/// when g^{-1} is a right inverse of g and the arithmetic is an exact
/// commutative ring.
proof fn lemma_lowered_connection<T: Copy, C: Fn(T, T, T) -> T, F: Fn(T, (T, T)) -> T>(
    gamma: &ChristoffelSymbols<T>,
    metric: &MetricTensor<T>,
    dg: &Tensor<T>,
    combine: C,
    step: F,
    plus: spec_fn(T, T) -> T,
    neg: spec_fn(T) -> T,
    e: T,
    times: spec_fn(T, T) -> T,
    one: T,
    a: int,
    p: int,
    k: int,
)
    requires
        ring(plus, neg, e, times, one),
        commutative(times),
        step_adds(step, plus, pair_product(times)),
        gamma.computed_from(metric, dg, combine, e, step),
        left_inverse(&metric.g, &metric.g_inv, metric.dim as nat, plus, e, times, one),
        0 <= a < metric.dim,
        0 <= p < metric.dim,
        0 <= k < metric.dim,
    ensures
        group_sum(
            plus,
            e,
            Seq::new(
                metric.dim as nat,
                |l: int| times(christoffel_at(gamma, l, p, k), matrix_at(&metric.g, a, l)),
            ),
        ) == gamma.first_kind.component(seq![a as usize, p as usize, k as usize]),
{
    lemma_ring_group(plus, neg, e, times, one);
    let d = metric.dim as nat;
    let g = &metric.g;
    let gi = &metric.g_inv;
    let fk = |m: int| gamma.first_kind.component(seq![m as usize, p as usize, k as usize]);
    let inner = |l: int| Seq::new(d, |m: int| times(matrix_at(gi, l, m), fk(m)));
    let x = |l: int, m: int| times(times(matrix_at(gi, l, m), fk(m)), matrix_at(g, a, l));
    let outer = Seq::new(d, |l: int| times(christoffel_at(gamma, l, p, k), matrix_at(g, a, l)));
    // Σ_l (Σ_m g^{lm} Γ_{mpk}) g_{al} = Σ_l Σ_m (g^{lm} Γ_{mpk}) g_{al}
    assert forall|l: int| 0 <= l < d implies #[trigger] outer[l] == group_sum(
        plus,
        e,
        Seq::new(d, |m: int| x(l, m)),
    ) by {
        lemma_second_kind_entry(gamma, metric, dg, combine, step, plus, neg, e, times, one, l, p, k);
        assert(Seq::new(
            d,
            |m: int|
                times(
                    matrix_at(gi, l, m),
                    gamma.first_kind.component(seq![m as usize, p as usize, k as usize]),
                ),
        ) =~= inner(l));
        lemma_times_sum_right(plus, neg, e, times, one, inner(l), matrix_at(g, a, l));
        assert(Seq::new(inner(l).len(), |s: int| times(inner(l)[s], matrix_at(g, a, l))) =~= Seq::new(
            d,
            |m: int| x(l, m),
        ));
    }
    assert(outer =~= Seq::new(d, |l: int| group_sum(plus, e, Seq::new(d, |m: int| x(l, m)))));
    lemma_double_sum_swap(plus, neg, e, x, d, d);
    // Σ_m Σ_l (g^{lm} Γ_{mpk}) g_{al} = Σ_m Γ_{mpk} (Σ_l g_{al} g^{lm}) = Σ_m Γ_{mpk} δ_{am}
    let cols = Seq::new(d, |m: int| group_sum(plus, e, Seq::new(d, |l: int| x(l, m))));
    let delta = Seq::new(d, |m: int| times(fk(m), if a == m { one } else { e }));
    assert forall|m: int| 0 <= m < d implies #[trigger] cols[m] == delta[m] by {
        let prods = Seq::new(d, |l: int| times(matrix_at(g, a, l), matrix_at(gi, l, m)));
        lemma_times_sum_left(plus, neg, e, times, one, fk(m), prods);
        assert forall|l: int| 0 <= l < d implies #[trigger] times(fk(m), prods[l]) == x(l, m) by {
            let gim = matrix_at(gi, l, m);
            let gal = matrix_at(g, a, l);
            assert(times(gim, fk(m)) == times(fk(m), gim));
            lemma_ring_times(plus, neg, e, times, one, fk(m), gim, gal);
            assert(times(gim, gal) == times(gal, gim));
        }
        assert(Seq::new(prods.len(), |s: int| times(fk(m), prods[s])) =~= Seq::new(
            d,
            |l: int| x(l, m),
        ));
        assert(product_entry(g, gi, d, plus, e, times, a, m) == if a == m {
            one
        } else {
            e
        });
    }
    assert(cols =~= delta);
    assert forall|m: int| 0 <= m < d && m != a implies #[trigger] delta[m] == e by {
        lemma_ring_times(plus, neg, e, times, one, fk(m), fk(m), fk(m));
    }
    lemma_sum_single(plus, neg, e, delta, a);
    lemma_ring_times(plus, neg, e, times, one, fk(a), fk(a), fk(a));
    assert(times(fk(a), one) == times(one, fk(a)));
}

/// One symbol of the first kind is `combine` on its three derivatives:
/// Γ_{abc} = h (∂g_{ab}/∂x^c + ∂g_{ac}/∂x^b - ∂g_{bc}/∂x^a).
proof fn lemma_first_kind_entry<T: Copy, C: Fn(T, T, T) -> T, F: Fn(T, (T, T)) -> T>(
    gamma: &ChristoffelSymbols<T>,
    metric: &MetricTensor<T>,
    dg: &Tensor<T>,
    combine: C,
    step: F,
    plus: spec_fn(T, T) -> T,
    neg: spec_fn(T) -> T,
    e: T,
    times: spec_fn(T, T) -> T,
    h: T,
    a: usize,
    b: usize,
    c: usize,
)
    requires
        combine_halves(combine, plus, neg, times, h),
        gamma.computed_from(metric, dg, combine, e, step),
        a < metric.dim,
        b < metric.dim,
        c < metric.dim,
    ensures
        gamma.first_kind.component(seq![a, b, c]) == times(
            h,
            plus(
                plus(first_kind_args(dg, seq![a, b, c]).0, first_kind_args(dg, seq![a, b, c]).1),
                neg(first_kind_args(dg, seq![a, b, c]).2),
            ),
        ),
{
    let d = metric.dim as nat;
    let idx = seq![a, b, c];
    lemma_triple_bounds(a, b, c, d);
    lemma_flat_bound(idx, d);
    lemma_unflat_flat(idx, d);
    let o = flat_of(idx, d) as int;
    assert(call_ensures(combine, first_kind_args(dg, idx), gamma.first_kind.data@[o]));
}

/// The metric is covariantly constant at one component, ∇_k g_ij = 0.
proof fn lemma_compatibility_component<
    T: Copy,
    C: Fn(T, T, T) -> T,
    F: Fn(T, (T, T)) -> T,
    G: Fn(T, (T, T)) -> T,
>(
    metric: &MetricTensor<T>,
    dg: &Tensor<T>,
    gamma: &ChristoffelSymbols<T>,
    combine: C,
    step: F,
    dt: &Tensor<T>,
    plus_step: G,
    minus_step: G,
    plus: spec_fn(T, T) -> T,
    neg: spec_fn(T) -> T,
    e: T,
    times: spec_fn(T, T) -> T,
    one: T,
    h: T,
    i: usize,
    j: usize,
    k: usize,
    value: T,
)
    requires
        ring(plus, neg, e, times, one),
        commutative(times),
        plus(h, h) == one,
        combine_halves(combine, plus, neg, times, h),
        step_adds(step, plus, pair_product(times)),
        step_adds(minus_step, plus, neg_pair_product(neg, times)),
        metric.g.index_types@ == seq![IndexType::Covariant, IndexType::Covariant],
        forall|a: int, b: int|
            0 <= a < metric.dim && 0 <= b < metric.dim ==> #[trigger] matrix_at(&metric.g, a, b)
                == matrix_at(&metric.g, b, a),
        left_inverse(&metric.g, &metric.g_inv, metric.dim as nat, plus, e, times, one),
        derivatives_symmetric(dg, metric.dim as nat),
        gamma.computed_from(metric, dg, combine, e, step),
        dt.data@[pos3(dt.dim as nat, i as nat, j as nat, k as nat)] == dg.data@[pos3(
            dg.dim as nat,
            k as nat,
            i as nat,
            j as nat,
        )],
        i < metric.dim,
        j < metric.dim,
        k < metric.dim,
        rank2_derivative_component(gamma, &metric.g, dt, plus_step, minus_step, seq![i, j, k], value),
    ensures
        value == e,
{
    lemma_ring_group(plus, neg, e, times, one);
    let d = metric.dim as nat;
    let g = &metric.g;
    let m = seq![i, j, k];
    assert(!upper_first(g) && lower_second(g));
    assert(choose_step(upper_first(g), plus_step, minus_step) == minus_step);
    assert(choose_step(lower_second(g), minus_step, plus_step) == minus_step);
    let items1 = first_index_terms(gamma, g, false, i as int, j as int, k as int);
    let items2 = second_index_terms(gamma, g, true, i as int, j as int, k as int);
    let mid = choose|mid: T|
        #[trigger] folds_to(minus_step, at3(dt, m), items1, mid) && folds_to(
            minus_step,
            mid,
            items2,
            value,
        );
    let f = neg_pair_product(neg, times);
    // mid = ∂_k g_ij - Σ_l Γ^l_{ik} g_{lj} = ∂_k g_ij - Γ_{jik}
    let p1 = choose|p: Seq<T>| #[trigger] fold_trace(minus_step, at3(dt, m), items1, p) && p.last() == mid;
    lemma_fold_is_sum(minus_step, plus, neg, e, f, at3(dt, m), items1, p1);
    let xs1 = Seq::new(d, |l: int| times(christoffel_at(gamma, l, i as int, k as int), matrix_at(g, j as int, l)));
    assert(items1.map_values(f) =~= Seq::new(xs1.len(), |s: int| neg(xs1[s])));
    lemma_sum_neg(plus, neg, e, xs1);
    lemma_lowered_connection(gamma, metric, dg, combine, step, plus, neg, e, times, one, j as int, i as int, k as int);
    // value = mid - Σ_l Γ^l_{jk} g_{il} = mid - Γ_{ijk}
    let p2 = choose|p: Seq<T>| #[trigger] fold_trace(minus_step, mid, items2, p) && p.last() == value;
    lemma_fold_is_sum(minus_step, plus, neg, e, f, mid, items2, p2);
    let xs2 = Seq::new(d, |l: int| times(christoffel_at(gamma, l, j as int, k as int), matrix_at(g, i as int, l)));
    assert(items2.map_values(f) =~= Seq::new(xs2.len(), |s: int| neg(xs2[s])));
    lemma_sum_neg(plus, neg, e, xs2);
    lemma_lowered_connection(gamma, metric, dg, combine, step, plus, neg, e, times, one, i as int, j as int, k as int);
    // Γ_{jik} = h (P + Q - R) and Γ_{ijk} = h (P + R - Q), P = ∂_k g_ij
    lemma_first_kind_entry(gamma, metric, dg, combine, step, plus, neg, e, times, h, j, i, k);
    lemma_first_kind_entry(gamma, metric, dg, combine, step, plus, neg, e, times, h, i, j, k);
    let w = dg.dim as nat;
    let pp = dg.data@[pos3(w, k as nat, i as nat, j as nat)];
    let qq = dg.data@[pos3(w, i as nat, j as nat, k as nat)];
    let rr = dg.data@[pos3(w, j as nat, i as nat, k as nat)];
    assert(dg.data@[pos3(w, k as nat, j as nat, i as nat)] == pp);
    let x1 = plus(plus(pp, qq), neg(rr));
    let x2 = plus(plus(pp, rr), neg(qq));
    let g1 = times(h, x1);
    let g2 = times(h, x2);
    // value = (P - Γ_{jik}) - Γ_{ijk} = P - (Γ_{jik} + Γ_{ijk})
    lemma_assoc(plus, neg, e, pp, neg(g1), neg(g2));
    lemma_neg_plus(plus, neg, e, g1, g2);
    // Γ_{jik} + Γ_{ijk} = h (x1 + x2) = h (P + P) = (h + h) P = P
    lemma_ring_times(plus, neg, e, times, one, h, x1, x2);
    lemma_halves_cancel(plus, neg, e, pp, qq, rr);
    lemma_ring_times(plus, neg, e, times, one, h, pp, pp);
    lemma_ring_times(plus, neg, e, times, one, h, h, pp);
    lemma_ring_times(plus, neg, e, times, one, pp, pp, pp);
    lemma_identity_inverse(plus, neg, e, pp);
}

/// Metric compatibility, ∇_k g_ij = 0: with exact commutative ring
/// arithmetic (`h` a half, h + h = 1; `combine(a, b, c) = h (a + b - c)`;
/// `step` adding the product of its pair; `minus_step` subtracting it), a
/// symmetric metric with g^{-1} a right inverse of g, symbols `gamma`
/// computed from it and metric derivatives `dg` symmetric in the metric's
/// indices, every component of the covariant derivative `r` of the metric
/// computed from the same derivatives (`dt` holding at (i, j, k) what `dg`
/// holds at (k, i, j)) is zero.
pub proof fn lemma_metric_compatibility<
    T: Copy,
    C: Fn(T, T, T) -> T,
    F: Fn(T, (T, T)) -> T,
    G: Fn(T, (T, T)) -> T,
>(
    metric: &MetricTensor<T>,
    dg: &Tensor<T>,
    gamma: &ChristoffelSymbols<T>,
    combine: C,
    step: F,
    dt: &Tensor<T>,
    plus_step: G,
    minus_step: G,
    r: &Tensor<T>,
    plus: spec_fn(T, T) -> T,
    neg: spec_fn(T) -> T,
    e: T,
    times: spec_fn(T, T) -> T,
    one: T,
    h: T,
)
    requires
        ring(plus, neg, e, times, one),
        commutative(times),
        plus(h, h) == one,
        combine_halves(combine, plus, neg, times, h),
        step_adds(step, plus, pair_product(times)),
        step_adds(minus_step, plus, neg_pair_product(neg, times)),
        metric.dim <= usize::MAX,
        metric.g.index_types@ == seq![IndexType::Covariant, IndexType::Covariant],
        forall|a: int, b: int|
            0 <= a < metric.dim && 0 <= b < metric.dim ==> #[trigger] matrix_at(&metric.g, a, b)
                == matrix_at(&metric.g, b, a),
        left_inverse(&metric.g, &metric.g_inv, metric.dim as nat, plus, e, times, one),
        derivatives_symmetric(dg, metric.dim as nat),
        gamma.computed_from(metric, dg, combine, e, step),
        forall|i: usize, j: usize, k: usize|
            i < metric.dim && j < metric.dim && k < metric.dim ==> #[trigger] dt.data@[pos3(
                dt.dim as nat,
                i as nat,
                j as nat,
                k as nat,
            )] == dg.data@[pos3(dg.dim as nat, k as nat, i as nat, j as nat)],
        r.dim == gamma.dim,
        r.index_types@.len() == 3,
        r.wf(),
        forall|o: int|
            0 <= o < r.data@.len() ==> rank2_derivative_component(
                gamma,
                &metric.g,
                dt,
                plus_step,
                minus_step,
                unflat(o as nat, gamma.dim as nat, 3),
                #[trigger] r.data@[o],
            ),
    ensures
        forall|o: int| 0 <= o < r.data@.len() ==> #[trigger] r.data@[o] == e,
{
    let d = metric.dim as nat;
    lemma_num_components_small(d);
    assert forall|o: int| 0 <= o < r.data@.len() implies #[trigger] r.data@[o] == e by {
        assert(d > 0) by (nonlinear_arith)
            requires
                0 <= o < d * d * d,
        ;
        lemma_flat_unflat(o as nat, d, 3);
        let m = unflat(o as nat, d, 3);
        let (i, j, k) = (m[0], m[1], m[2]);
        assert(m[0] < d && m[1] < d && m[2] < d);
        assert(m =~= seq![i, j, k]);
        lemma_compatibility_component(
            metric,
            dg,
            gamma,
            combine,
            step,
            dt,
            plus_step,
            minus_step,
            plus,
            neg,
            e,
            times,
            one,
            h,
            i,
            j,
            k,
            r.data@[o],
        );
    }
}

/// The identity map δ^i_j is covariantly constant, ∇_k δ^i_j = 0: with exact
/// commutative ring arithmetic (`plus_step` adding the product of its pair,
/// `minus_step` subtracting it), for any symbols `gamma`, a tensor `delta`
/// of type (1, 1) holding one on its diagonal and `e` elsewhere, and
/// vanishing derivatives `dt`, every component of the covariant derivative
/// `r` of `delta` is zero: the connection terms of its upper and of its
/// lower index cancel.
pub proof fn lemma_kronecker_delta_is_parallel<T: Copy, G: Fn(T, (T, T)) -> T>(
    gamma: &ChristoffelSymbols<T>,
    delta: &Tensor<T>,
    dt: &Tensor<T>,
    plus_step: G,
    minus_step: G,
    r: &Tensor<T>,
    plus: spec_fn(T, T) -> T,
    neg: spec_fn(T) -> T,
    e: T,
    times: spec_fn(T, T) -> T,
    one: T,
)
    requires
        ring(plus, neg, e, times, one),
        commutative(times),
        step_adds(plus_step, plus, pair_product(times)),
        step_adds(minus_step, plus, neg_pair_product(neg, times)),
        gamma.dim <= usize::MAX,
        delta.index_types@ == seq![IndexType::Contravariant, IndexType::Covariant],
        forall|a: int, b: int|
            0 <= a < gamma.dim && 0 <= b < gamma.dim ==> #[trigger] matrix_at(delta, a, b) == if a
                == b {
                one
            } else {
                e
            },
        forall|a: usize, b: usize, c: usize|
            a < gamma.dim && b < gamma.dim && c < gamma.dim ==> #[trigger] dt.data@[pos3(
                dt.dim as nat,
                a as nat,
                b as nat,
                c as nat,
            )] == e,
        r.dim == gamma.dim,
        r.index_types@.len() == 3,
        r.wf(),
        forall|o: int|
            0 <= o < r.data@.len() ==> rank2_derivative_component(
                gamma,
                delta,
                dt,
                plus_step,
                minus_step,
                unflat(o as nat, gamma.dim as nat, 3),
                #[trigger] r.data@[o],
            ),
    ensures
        forall|o: int| 0 <= o < r.data@.len() ==> #[trigger] r.data@[o] == e,
{
    lemma_ring_group(plus, neg, e, times, one);
    let d = gamma.dim as nat;
    lemma_num_components_small(d);
    assert forall|o: int| 0 <= o < r.data@.len() implies #[trigger] r.data@[o] == e by {
        assert(d > 0) by (nonlinear_arith)
            requires
                0 <= o < d * d * d,
        ;
        lemma_flat_unflat(o as nat, d, 3);
        let m = unflat(o as nat, d, 3);
        let (i, j, k) = (m[0] as int, m[1] as int, m[2] as int);
        assert(m[0] < d && m[1] < d && m[2] < d);
        let value = r.data@[o];
        assert(upper_first(delta) && lower_second(delta));
        let items1 = first_index_terms(gamma, delta, true, i, j, k);
        let items2 = second_index_terms(gamma, delta, true, i, j, k);
        let mid = choose|mid: T|
            #[trigger] folds_to(plus_step, at3(dt, m), items1, mid) && folds_to(
                minus_step,
                mid,
                items2,
                value,
            );
        assert(at3(dt, m) == e);
        // mid = Σ_l Γ^i_{lk} δ^l_j = Γ^i_{jk}
        lemma_folds_to_sum(plus_step, plus, neg, e, pair_product(times), e, items1, mid);
        let s1 = items1.map_values(pair_product(times));
        assert forall|l: int| 0 <= l < d && l != j implies #[trigger] s1[l] == e by {
            lemma_ring_times(plus, neg, e, times, one, christoffel_at(gamma, i, l, k), e, e);
        }
        lemma_sum_single(plus, neg, e, s1, j);
        let g = christoffel_at(gamma, i, j, k);
        assert(times(g, one) == times(one, g));
        lemma_ring_times(plus, neg, e, times, one, g, g, g);
        lemma_identity_left(plus, neg, e, group_sum(plus, e, s1));
        assert(mid == g);
        // value = Γ^i_{jk} - Σ_l Γ^l_{jk} δ^i_l = Γ^i_{jk} - Γ^i_{jk}
        lemma_folds_to_sum(minus_step, plus, neg, e, neg_pair_product(neg, times), mid, items2, value);
        let s2 = items2.map_values(neg_pair_product(neg, times));
        assert forall|l: int| 0 <= l < d && l != i implies #[trigger] s2[l] == e by {
            lemma_ring_times(plus, neg, e, times, one, christoffel_at(gamma, l, j, k), e, e);
            lemma_neg_identity(plus, neg, e);
        }
        lemma_sum_single(plus, neg, e, s2, i);
        lemma_identity_inverse(plus, neg, e, g);
    }
}

} // verus!

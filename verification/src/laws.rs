//! Laws of the index algebra that relate several operations.
use vstd::prelude::*;
use vstd::arithmetic::div_mod::{
    lemma_div_denominator, lemma_fundamental_div_mod, lemma_fundamental_div_mod_converse,
    lemma_mod_breakdown,
};
use crate::christoffel::{first_kind_args, lemma_first_kind_lower_symmetry, pos3, ChristoffelSymbols};
use crate::covariant::{christoffel_at, matrix_at, matrix_readable};
use crate::metric::MetricTensor;
use crate::fold::{fold_trace, folds_to, lemma_fold_trace_mirror, step_mirrors};
use crate::layout::{
    flat_of, in_bounds, lemma_flat_bound, lemma_flat_concat, lemma_flat_unflat, lemma_unflat_flat,
    unflat,
};
use crate::riemann::{
    at3, curvature_component, derivative_args, derivative_indices,
    lemma_riemann_bianchi_cancellation, lemma_riemann_kl_antisymmetry, product_indices,
    product_terms, quad_at, swap_lower, RiemannTensor,
};
use crate::sums::{
    abelian_group, group_sum, lemma_comm, lemma_cyclic_differences, lemma_double_sum_swap,
    lemma_fold_is_sum, lemma_identity_inverse, lemma_regroup_pairs, lemma_ring_group,
    lemma_ring_times, lemma_sum_of_identities, lemma_sum_of_three, lemma_sum_single,
    lemma_times_sum_left, lemma_times_sum_right, ring, step_adds,
};
use crate::lie::vector_lie_terms;
use crate::products::is_outer_product;
use crate::tensor::Tensor;

verus! {

/// The outer product at a concatenated multi-index is the product of the
/// factors' components, (A ⊗ B)(ma, mb) = A(ma) B(mb): for an outer product
/// of two well-formed tensors over the same dimension and multi-indices in
/// bounds of their ranks, the component at ma ++ mb is a result of `times`
/// on A's component at ma and B's at mb.
pub proof fn lemma_outer_product_component<T: Copy, F: Fn(T, T) -> T>(
    t: &Tensor<T>,
    a: &Tensor<T>,
    b: &Tensor<T>,
    times: F,
    ma: Seq<usize>,
    mb: Seq<usize>,
)
    requires
        is_outer_product(t, a, b, times),
        a.wf(),
        b.wf(),
        a.dim == b.dim,
        ma.len() == a.index_types@.len(),
        mb.len() == b.index_types@.len(),
        in_bounds(ma, a.dim as nat),
        in_bounds(mb, a.dim as nat),
    ensures
        call_ensures(times, (a.component(ma), b.component(mb)), t.component(ma + mb)),
{
    let d = a.dim as nat;
    let na = a.data@.len() as int;
    let nb = b.data@.len() as int;
    if ma.len() == 0 && mb.len() == 0 {
        assert(ma + mb =~= Seq::<usize>::empty());
        assert(na == 1 && nb == 1);
        assert(t.data@.len() == 1) by (nonlinear_arith)
            requires
                t.data@.len() == na * nb,
                na == 1,
                nb == 1,
        ;
        assert(call_ensures(times, (a.data@[0int / nb], b.data@[0int % nb]), t.data@[0]));
    } else {
        assert(d > 0) by {
            if ma.len() > 0 {
                assert(ma[0] < d);
            } else {
                assert(mb[0] < d);
            }
        }
        lemma_flat_concat(ma, mb, d);
        lemma_flat_bound(ma, d);
        lemma_flat_bound(mb, d);
        lemma_fundamental_div_mod_converse(
            flat_of(ma + mb, d) as int,
            nb,
            flat_of(ma, d) as int,
            flat_of(mb, d) as int,
        );
        let p = flat_of(ma + mb, d) as int;
        assert(p < na * nb) by (nonlinear_arith)
            requires
                p == flat_of(ma, d) * nb + flat_of(mb, d),
                flat_of(ma, d) < na,
                flat_of(mb, d) < nb,
        ;
        assert(call_ensures(times, (a.data@[p / nb], b.data@[p % nb]), t.data@[p]));
    }
}

/// At every position p, (A ⊗ B) ⊗ C and A ⊗ (B ⊗ C) read the same
/// components of A, B and C (with `nb` and `nc` components in B and C), and
/// their index types agree.
proof fn lemma_outer_product_positions<I>(
    p: int,
    nb: int,
    nc: int,
    ta: Seq<I>,
    tb: Seq<I>,
    tc: Seq<I>,
)
    requires
        p >= 0,
        nb > 0,
        nc > 0,
    ensures
        (p / nc) / nb == p / (nb * nc),
        (p / nc) % nb == (p % (nb * nc)) / nc,
        p % nc == (p % (nb * nc)) % nc,
        (ta + tb) + tc == ta + (tb + tc),
{
    lemma_div_denominator(p, nc, nb);
    assert(nc * nb == nb * nc) by (nonlinear_arith);
    lemma_mod_breakdown(p, nc, nb);
    let r = p % (nb * nc);
    let q = (p / nc) % nb;
    let s = p % nc;
    lemma_fundamental_div_mod(p, nc);
    assert(0 <= s < nc);
    assert(r == nc * q + s);
    lemma_fundamental_div_mod_converse(r, nc, q, s);
    assert((ta + tb) + tc =~= ta + (tb + tc));
}

/// Antisymmetry of the Lie bracket, [V, W] = -[W, V]: for results `lvw` of
/// the bracket of W along V and `lwv` of V along W (both folded from a
/// `zero` that `neg` fixes), whenever `step` negates its answer when its
/// accumulator is negated and the two products of its term are exchanged
/// (as s + (a b - c e) does), every component of `lwv` is `neg` of that of
/// `lvw`.
pub proof fn lemma_lie_bracket_antisymmetry<T: Copy, F: Fn(T, (T, T, T, T)) -> T>(
    lvw: &Tensor<T>,
    lwv: &Tensor<T>,
    v: &Tensor<T>,
    w: &Tensor<T>,
    dv: &Tensor<T>,
    dw: &Tensor<T>,
    zero: T,
    step: F,
    neg: spec_fn(T) -> T,
)
    requires
        v.dim == w.dim,
        forall|i: int|
            0 <= i < v.dim ==> folds_to(
                step,
                zero,
                vector_lie_terms(v, w, dw, dv, i),
                #[trigger] lvw.data@[i],
            ),
        forall|i: int|
            0 <= i < w.dim ==> folds_to(
                step,
                zero,
                vector_lie_terms(w, v, dv, dw, i),
                #[trigger] lwv.data@[i],
            ),
        neg(zero) == zero,
        step_mirrors(step, neg, product_swap::<T>()),
    ensures
        forall|i: int| 0 <= i < v.dim ==> #[trigger] lwv.data@[i] == neg(lvw.data@[i]),
{
    assert forall|i: int| 0 <= i < v.dim implies #[trigger] lwv.data@[i] == neg(lvw.data@[i]) by {
        let items1 = vector_lie_terms(v, w, dw, dv, i);
        let items2 = vector_lie_terms(w, v, dv, dw, i);
        assert(folds_to(step, zero, items1, lvw.data@[i]));
        assert(folds_to(step, zero, items2, lwv.data@[i]));
        assert forall|n: int| 0 <= n < items1.len() implies #[trigger] items2[n] == (product_swap::<
            T,
        >())(items1[n]) by {}
        let p1 = choose|p: Seq<T>|
            #[trigger] fold_trace(step, zero, items1, p) && p.last() == lvw.data@[i];
        let p2 = choose|p: Seq<T>|
            #[trigger] fold_trace(step, zero, items2, p) && p.last() == lwv.data@[i];
        lemma_fold_trace_mirror(step, zero, items1, p1, zero, items2, p2, neg, product_swap::<T>());
    }
}

/// Exchanging the two products of a curvature or bracket term:
/// (a, b, c, e) becomes (c, e, a, b).
pub open spec fn product_swap<T>() -> spec_fn((T, T, T, T)) -> (T, T, T, T) {
    |x: (T, T, T, T)| (x.2, x.3, x.0, x.1)
}

/// `start` answers `neg` of its answer when its two arguments are exchanged,
/// as subtraction does.
pub open spec fn start_antisymmetric<T, S: Fn(T, T) -> T>(start: S, neg: spec_fn(T) -> T) -> bool {
    forall|a: T, b: T, x: T, y: T|
        #![trigger call_ensures(start, (a, b), x), call_ensures(start, (b, a), y)]
        call_ensures(start, (a, b), x) && call_ensures(start, (b, a), y) ==> y == neg(x)
}

/// The multi-index (i, j, k, l) with each entry below `d`.
proof fn lemma_quad_in_bounds(i: usize, j: usize, k: usize, l: usize, d: nat)
    requires
        i < d,
        j < d,
        k < d,
        l < d,
    ensures
        in_bounds(seq![i, j, k, l], d),
        seq![i, j, k, l].len() == 4,
{
    let m = seq![i, j, k, l];
    assert forall|p: int| 0 <= p < m.len() implies (#[trigger] m[p]) < d by {
        if p == 0 {
        } else if p == 1 {
        } else if p == 2 {
        } else {
        }
    }
}

/// Antisymmetry of the Riemann tensor in its last two indices,
/// R^i_{jlk} = -R^i_{jkl}: for every Riemann tensor computed from Christoffel
/// symbols, whenever `start` is antisymmetric (as a - b is) and `step`
/// negates its answer when its accumulator is negated and the two products
/// of its term are exchanged (as v + (a b - c e) does, exactly, also in
/// floating point), the component at (i, j, l, k) is `neg` of the one at
/// (i, j, k, l).
pub proof fn lemma_riemann_antisymmetric_kl<T: Copy, S: Fn(T, T) -> T, F: Fn(T, (T, T, T, T)) -> T>(
    r: &RiemannTensor<T>,
    gamma: &ChristoffelSymbols<T>,
    dgamma: &Tensor<T>,
    start: S,
    step: F,
    neg: spec_fn(T) -> T,
    i: usize,
    j: usize,
    k: usize,
    l: usize,
)
    requires
        r.components_from(gamma, dgamma, start, step),
        i < gamma.dim,
        j < gamma.dim,
        k < gamma.dim,
        l < gamma.dim,
        start_antisymmetric(start, neg),
        step_mirrors(step, neg, product_swap::<T>()),
    ensures
        r.components.component(seq![i, j, l, k]) == neg(r.components.component(seq![i, j, k, l])),
{
    let d = gamma.dim as nat;
    let m1 = seq![i, j, k, l];
    let m2 = seq![i, j, l, k];
    lemma_quad_in_bounds(i, j, k, l, d);
    lemma_quad_in_bounds(i, j, l, k, d);
    lemma_flat_bound(m1, d);
    lemma_flat_bound(m2, d);
    lemma_unflat_flat(m1, d);
    lemma_unflat_flat(m2, d);
    let o1 = flat_of(m1, d) as int;
    let o2 = flat_of(m2, d) as int;
    let v1 = r.components.data@[o1];
    let v2 = r.components.data@[o2];
    assert(curvature_component(gamma, dgamma, start, step, m1, v1));
    assert(curvature_component(gamma, dgamma, start, step, m2, v2));
    let items1 = product_terms(gamma, m1);
    let items2 = product_terms(gamma, m2);
    let init1 = choose|init: T|
        call_ensures(start, derivative_args(dgamma, m1), init) && #[trigger] folds_to(
            step,
            init,
            items1,
            v1,
        );
    let init2 = choose|init: T|
        call_ensures(start, derivative_args(dgamma, m2), init) && #[trigger] folds_to(
            step,
            init,
            items2,
            v2,
        );
    lemma_riemann_kl_antisymmetry(i, j, k, l, 0);
    assert(derivative_args(dgamma, m2) == (
        derivative_args(dgamma, m1).1,
        derivative_args(dgamma, m1).0,
    ));
    assert(init2 == neg(init1));
    assert forall|n: int| 0 <= n < items1.len() implies #[trigger] items2[n] == (product_swap::<T>())(
        items1[n],
    ) by {
        lemma_riemann_kl_antisymmetry(i, j, k, l, n as usize);
    }
    let p1 = choose|p: Seq<T>| #[trigger] fold_trace(step, init1, items1, p) && p.last() == v1;
    let p2 = choose|p: Seq<T>| #[trigger] fold_trace(step, init2, items2, p) && p.last() == v2;
    lemma_fold_trace_mirror(step, init1, items1, p1, init2, items2, p2, neg, product_swap::<T>());
}

/// The identity on values.
pub open spec fn identity_fn<A>() -> spec_fn(A) -> A {
    |x: A| x
}

/// `combine` answers alike when its first two arguments are exchanged, as
/// ½ (a + b - c) does.
pub open spec fn combine_symmetric<T, C: Fn(T, T, T) -> T>(combine: C) -> bool {
    forall|a: T, b: T, c: T, x: T, y: T|
        #![trigger call_ensures(combine, (a, b, c), x), call_ensures(combine, (b, a, c), y)]
        call_ensures(combine, (a, b, c), x) && call_ensures(combine, (b, a, c), y) ==> x == y
}

/// The metric derivatives ∂g_ij/∂x^k, stored at (k, i, j), are symmetric in
/// i and j for all indices below `dim`, as the derivatives of a symmetric
/// metric are.
pub open spec fn derivatives_symmetric<T>(dg: &Tensor<T>, dim: nat) -> bool {
    forall|k: usize, i: usize, j: usize|
        k < dim && i < dim && j < dim ==> #[trigger] dg.data@[pos3(
            dg.dim as nat,
            k as nat,
            i as nat,
            j as nat,
        )] == dg.data@[pos3(dg.dim as nat, k as nat, j as nat, i as nat)]
}

/// The multi-index (a, b, c) with each entry below `d`.
proof fn lemma_triple_in_bounds(a: usize, b: usize, c: usize, d: nat)
    requires
        a < d,
        b < d,
        c < d,
    ensures
        in_bounds(seq![a, b, c], d),
        seq![a, b, c].len() == 3,
{
    let m = seq![a, b, c];
    assert forall|p: int| 0 <= p < m.len() implies (#[trigger] m[p]) < d by {
        if p == 0 {
        } else if p == 1 {
        } else {
        }
    }
}

/// Symmetry of the Christoffel symbols of the first kind in their last two
/// indices, Γ_{kij} = Γ_{kji}: when the metric derivatives are symmetric in
/// the metric's indices and `combine` does not depend on the order of its
/// first two arguments, the symbols computed from them are symmetric.
pub proof fn lemma_christoffel_first_kind_symmetric<
    T: Copy,
    C: Fn(T, T, T) -> T,
    F: Fn(T, (T, T)) -> T,
>(
    gamma: &ChristoffelSymbols<T>,
    metric: &MetricTensor<T>,
    dg: &Tensor<T>,
    combine: C,
    zero: T,
    step: F,
    k: usize,
    i: usize,
    j: usize,
)
    requires
        gamma.computed_from(metric, dg, combine, zero, step),
        k < metric.dim,
        i < metric.dim,
        j < metric.dim,
        derivatives_symmetric(dg, metric.dim as nat),
        combine_symmetric(combine),
    ensures
        gamma.first_kind.component(seq![k, i, j]) == gamma.first_kind.component(seq![k, j, i]),
{
    let d = metric.dim as nat;
    let m1 = seq![k, i, j];
    let m2 = seq![k, j, i];
    lemma_triple_in_bounds(k, i, j, d);
    lemma_triple_in_bounds(k, j, i, d);
    lemma_flat_bound(m1, d);
    lemma_flat_bound(m2, d);
    lemma_unflat_flat(m1, d);
    lemma_unflat_flat(m2, d);
    let o1 = flat_of(m1, d) as int;
    let o2 = flat_of(m2, d) as int;
    assert(call_ensures(combine, first_kind_args(dg, m1), gamma.first_kind.data@[o1]));
    assert(call_ensures(combine, first_kind_args(dg, m2), gamma.first_kind.data@[o2]));
    lemma_first_kind_lower_symmetry(dg, k, i, j);
    assert(dg.data@[pos3(dg.dim as nat, k as nat, i as nat, j as nat)] == dg.data@[pos3(
        dg.dim as nat,
        k as nat,
        j as nat,
        i as nat,
    )]);
}

/// Symmetry of the Christoffel symbols of the second kind in their lower
/// indices, Γ^k_ij = Γ^k_ji: when the metric derivatives are symmetric in the
/// metric's indices, `combine` does not depend on the order of its first two
/// arguments, and `step` answers alike on alike arguments, the symbols
/// computed from them are symmetric (and so are those of the first kind).
pub proof fn lemma_christoffel_lower_symmetric<
    T: Copy,
    C: Fn(T, T, T) -> T,
    F: Fn(T, (T, T)) -> T,
>(
    gamma: &ChristoffelSymbols<T>,
    metric: &MetricTensor<T>,
    dg: &Tensor<T>,
    combine: C,
    zero: T,
    step: F,
    k: usize,
    i: usize,
    j: usize,
)
    requires
        gamma.computed_from(metric, dg, combine, zero, step),
        k < metric.dim,
        i < metric.dim,
        j < metric.dim,
        derivatives_symmetric(dg, metric.dim as nat),
        combine_symmetric(combine),
        step_mirrors(step, identity_fn::<T>(), identity_fn::<(T, T)>()),
    ensures
        gamma.first_kind.component(seq![k, i, j]) == gamma.first_kind.component(seq![k, j, i]),
        gamma.second_kind.component(seq![k, i, j]) == gamma.second_kind.component(seq![k, j, i]),
{
    lemma_christoffel_first_kind_symmetric(gamma, metric, dg, combine, zero, step, k, i, j);
    let d = metric.dim as nat;
    let m1 = seq![k, i, j];
    let m2 = seq![k, j, i];
    lemma_triple_in_bounds(k, i, j, d);
    lemma_triple_in_bounds(k, j, i, d);
    lemma_flat_bound(m1, d);
    lemma_flat_bound(m2, d);
    lemma_unflat_flat(m1, d);
    lemma_unflat_flat(m2, d);
    let o1 = flat_of(m1, d) as int;
    let o2 = flat_of(m2, d) as int;
    let v1 = gamma.second_kind.data@[o1];
    let v2 = gamma.second_kind.data@[o2];
    let items1 = gamma.first_kind.index_change_terms(&metric.g_inv, 0, o1 as nat);
    let items2 = gamma.first_kind.index_change_terms(&metric.g_inv, 0, o2 as nat);
    assert(folds_to(step, zero, items1, v1));
    assert(folds_to(step, zero, items2, v2));
    assert forall|n: int| 0 <= n < items1.len() implies #[trigger] items2[n] == (identity_fn::<
        (T, T),
    >())(items1[n]) by {
        lemma_christoffel_first_kind_symmetric(
            gamma,
            metric,
            dg,
            combine,
            zero,
            step,
            n as usize,
            i,
            j,
        );
        assert(m1.update(0, n as usize) =~= seq![n as usize, i, j]);
        assert(m2.update(0, n as usize) =~= seq![n as usize, j, i]);
    }
    let p1 = choose|p: Seq<T>| #[trigger] fold_trace(step, zero, items1, p) && p.last() == v1;
    let p2 = choose|p: Seq<T>| #[trigger] fold_trace(step, zero, items2, p) && p.last() == v2;
    lemma_fold_trace_mirror(step, zero, items1, p1, zero, items2, p2, identity_fn::<T>(), identity_fn::<(T, T)>());
}

/// `times` is associative on the values it is applied to:
/// (x y) z and x (y z) are the same however each product came out.
pub open spec fn times_associative<T, F: Fn(T, T) -> T>(times: F) -> bool {
    forall|x: T, y: T, z: T, xy: T, xy_z: T, yz: T, x_yz: T|
        #![trigger call_ensures(times, (x, y), xy), call_ensures(times, (xy, z), xy_z), call_ensures(times, (y, z), yz), call_ensures(times, (x, yz), x_yz)]
        call_ensures(times, (x, y), xy) && call_ensures(times, (xy, z), xy_z) && call_ensures(
            times,
            (y, z),
            yz,
        ) && call_ensures(times, (x, yz), x_yz) ==> xy_z == x_yz
}

/// Associativity of the outer product, (A ⊗ B) ⊗ C = A ⊗ (B ⊗ C): for any
/// outer products computed with a `times` that is associative, the two
/// groupings have the same index types and the same components.
pub proof fn lemma_outer_product_associative<T, F: Fn(T, T) -> T>(
    a: &Tensor<T>,
    b: &Tensor<T>,
    c: &Tensor<T>,
    ab: &Tensor<T>,
    ab_c: &Tensor<T>,
    bc: &Tensor<T>,
    a_bc: &Tensor<T>,
    times: F,
)
    requires
        is_outer_product(ab, a, b, times),
        is_outer_product(ab_c, ab, c, times),
        is_outer_product(bc, b, c, times),
        is_outer_product(a_bc, a, bc, times),
        times_associative(times),
    ensures
        ab_c.dim == a_bc.dim,
        ab_c.index_types@ == a_bc.index_types@,
        ab_c.data@ == a_bc.data@,
{
    let na = a.data@.len() as int;
    let nb = b.data@.len() as int;
    let nc = c.data@.len() as int;
    assert(ab_c.data@.len() == a_bc.data@.len()) by (nonlinear_arith)
        requires
            ab_c.data@.len() == (na * nb) * nc,
            a_bc.data@.len() == na * (nb * nc),
    ;
    assert(ab_c.index_types@ =~= a_bc.index_types@);
    assert forall|p: int| 0 <= p < ab_c.data@.len() implies #[trigger] ab_c.data@[p]
        == a_bc.data@[p] by {
        assert(nb > 0 && nc > 0) by (nonlinear_arith)
            requires
                0 <= p < (na * nb) * nc,
                na >= 0,
                nb >= 0,
                nc >= 0,
        ;
        lemma_outer_product_positions(p, nb, nc, a.index_types@, b.index_types@, c.index_types@);
        let q = p / nc;
        let s = p % (nb * nc);
        assert(q < na * nb) by (nonlinear_arith)
            requires
                0 <= p < (na * nb) * nc,
                nc > 0,
                q == p / nc,
        ;
        assert(0 <= s < nb * nc) by (nonlinear_arith)
            requires
                nb > 0,
                nc > 0,
                s == p % (nb * nc),
        ;
        assert(0 <= q) by (nonlinear_arith)
            requires
                0 <= p,
                nc > 0,
                q == p / nc,
        ;
        let x = a.data@[q / nb];
        let y = b.data@[q % nb];
        let z = c.data@[p % nc];
        assert(call_ensures(times, (x, y), ab.data@[q]));
        assert(call_ensures(times, (ab.data@[q], z), ab_c.data@[p]));
        assert(call_ensures(times, (b.data@[s / nc], c.data@[s % nc]), bc.data@[s]));
        assert(call_ensures(times, (a.data@[p / (nb * nc)], bc.data@[s]), a_bc.data@[p]));
    }
    assert(ab_c.data@ =~= a_bc.data@);
}

/// `start` subtracts its second argument from its first.
pub open spec fn start_subtracts<T, S: Fn(T, T) -> T>(
    start: S,
    plus: spec_fn(T, T) -> T,
    neg: spec_fn(T) -> T,
) -> bool {
    forall|a: T, b: T, w: T| #[trigger] call_ensures(start, (a, b), w) ==> w == plus(a, neg(b))
}

/// The value a curvature term (a, b, c, e) contributes: a b - c e.
pub open spec fn difference_of_products<T>(
    plus: spec_fn(T, T) -> T,
    neg: spec_fn(T) -> T,
    times: spec_fn(T, T) -> T,
) -> spec_fn((T, T, T, T)) -> T {
    |x: (T, T, T, T)| plus(times(x.0, x.1), neg(times(x.2, x.3)))
}

/// Γ^a_{bc} = Γ^a_{cb} for all indices below the dimension.
pub open spec fn christoffel_symmetric<T>(gamma: &ChristoffelSymbols<T>) -> bool {
    forall|a: int, b: int, c: int|
        0 <= a < gamma.dim && 0 <= b < gamma.dim && 0 <= c < gamma.dim ==> #[trigger] christoffel_at(
            gamma,
            a,
            b,
            c,
        ) == christoffel_at(gamma, a, c, b)
}

/// ∂Γ^a_{bc}/∂x^f = ∂Γ^a_{cb}/∂x^f for all indices below `dim`.
pub open spec fn christoffel_derivatives_symmetric<T>(dgamma: &Tensor<T>, dim: nat) -> bool {
    forall|a: int, b: int, c: int, f: int|
        0 <= a < dim && 0 <= b < dim && 0 <= c < dim && 0 <= f < dim ==> #[trigger] quad_at(
            dgamma,
            a,
            b,
            c,
            f,
        ) == quad_at(dgamma, a, c, b, f)
}

/// The component of a Riemann tensor computed with exact arithmetic is its
/// starting difference plus the sum of its curvature terms.
proof fn lemma_riemann_component_sum<T: Copy, S: Fn(T, T) -> T, F: Fn(T, (T, T, T, T)) -> T>(
    r: &RiemannTensor<T>,
    gamma: &ChristoffelSymbols<T>,
    dgamma: &Tensor<T>,
    start: S,
    step: F,
    plus: spec_fn(T, T) -> T,
    neg: spec_fn(T) -> T,
    e: T,
    times: spec_fn(T, T) -> T,
    m: Seq<usize>,
)
    requires
        r.components_from(gamma, dgamma, start, step),
        m.len() == 4,
        in_bounds(m, gamma.dim as nat),
        abelian_group(plus, neg, e),
        start_subtracts(start, plus, neg),
        step_adds(step, plus, difference_of_products(plus, neg, times)),
    ensures
        r.components.component(m) == plus(
            plus(derivative_args(dgamma, m).0, neg(derivative_args(dgamma, m).1)),
            group_sum(plus, e, product_terms(gamma, m).map_values(difference_of_products(plus, neg, times))),
        ),
{
    let d = gamma.dim as nat;
    lemma_flat_bound(m, d);
    lemma_unflat_flat(m, d);
    let o = flat_of(m, d) as int;
    let v = r.components.data@[o];
    assert(curvature_component(gamma, dgamma, start, step, m, v));
    let items = product_terms(gamma, m);
    let init = choose|init: T|
        call_ensures(start, derivative_args(dgamma, m), init) && #[trigger] folds_to(
            step,
            init,
            items,
            v,
        );
    let p = choose|p: Seq<T>| #[trigger] fold_trace(step, init, items, p) && p.last() == v;
    lemma_fold_is_sum(step, plus, neg, e, difference_of_products(plus, neg, times), init, items, p);
}

/// First Bianchi identity, R^i_{jkl} + R^i_{klj} + R^i_{ljk} = 0: for every
/// Riemann tensor computed from Christoffel symbols symmetric in their lower
/// indices (and derivatives of them that are), with arithmetic that is exact
/// in an abelian group — `start` subtracts, and `step` adds a b - c e for
/// any product `times` — the three cyclic components sum to the identity.
pub proof fn lemma_riemann_first_bianchi<
    T: Copy,
    S: Fn(T, T) -> T,
    F: Fn(T, (T, T, T, T)) -> T,
>(
    r: &RiemannTensor<T>,
    gamma: &ChristoffelSymbols<T>,
    dgamma: &Tensor<T>,
    start: S,
    step: F,
    plus: spec_fn(T, T) -> T,
    neg: spec_fn(T) -> T,
    e: T,
    times: spec_fn(T, T) -> T,
    i: usize,
    j: usize,
    k: usize,
    l: usize,
)
    requires
        r.components_from(gamma, dgamma, start, step),
        i < gamma.dim,
        j < gamma.dim,
        k < gamma.dim,
        l < gamma.dim,
        abelian_group(plus, neg, e),
        start_subtracts(start, plus, neg),
        step_adds(step, plus, difference_of_products(plus, neg, times)),
        christoffel_symmetric(gamma),
        christoffel_derivatives_symmetric(dgamma, gamma.dim as nat),
    ensures
        plus(
            plus(r.components.component(seq![i, j, k, l]), r.components.component(seq![i, k, l, j])),
            r.components.component(seq![i, l, j, k]),
        ) == e,
{
    let d = gamma.dim as nat;
    let m1 = seq![i, j, k, l];
    let m2 = seq![i, k, l, j];
    let m3 = seq![i, l, j, k];
    lemma_quad_in_bounds(i, j, k, l, d);
    lemma_quad_in_bounds(i, k, l, j, d);
    lemma_quad_in_bounds(i, l, j, k, d);
    let term = difference_of_products(plus, neg, times);
    lemma_riemann_component_sum(r, gamma, dgamma, start, step, plus, neg, e, times, m1);
    lemma_riemann_component_sum(r, gamma, dgamma, start, step, plus, neg, e, times, m2);
    lemma_riemann_component_sum(r, gamma, dgamma, start, step, plus, neg, e, times, m3);
    // The starting differences cancel cyclically.
    lemma_riemann_bianchi_cancellation(i, j, k, l, 0);
    let (a1, b1) = derivative_args(dgamma, m1);
    let (a2, b2) = derivative_args(dgamma, m2);
    let (a3, b3) = derivative_args(dgamma, m3);
    assert(swap_lower(derivative_indices(m3).1) =~= seq![i, j, l, k]);
    assert(swap_lower(derivative_indices(m1).1) =~= seq![i, k, j, l]);
    assert(swap_lower(derivative_indices(m2).1) =~= seq![i, l, k, j]);
    let (ii, jj, kk, ll) = (i as int, j as int, k as int, l as int);
    assert(quad_at(dgamma, ii, jj, ll, kk) == quad_at(dgamma, ii, ll, jj, kk));
    assert(quad_at(dgamma, ii, kk, jj, ll) == quad_at(dgamma, ii, jj, kk, ll));
    assert(quad_at(dgamma, ii, ll, kk, jj) == quad_at(dgamma, ii, kk, ll, jj));
    assert(a1 == b3 && a2 == b1 && a3 == b2);
    lemma_cyclic_differences(plus, neg, e, a1, b1, b2);
    // The curvature terms cancel cyclically, summation index by summation index.
    let u = product_terms(gamma, m1).map_values(term);
    let v = product_terms(gamma, m2).map_values(term);
    let w = product_terms(gamma, m3).map_values(term);
    let total = Seq::new(u.len(), |s: int| plus(plus(u[s], v[s]), w[s]));
    assert forall|s: int| 0 <= s < total.len() implies #[trigger] total[s] == e by {
        let su = s as usize;
        lemma_riemann_bianchi_cancellation(i, j, k, l, su);
        let (p1, p2, p3) = (
            product_indices(m1, su),
            product_indices(m2, su),
            product_indices(m3, su),
        );
        let g = &gamma.second_kind;
        assert(p1.1 =~= seq![su, j, l] && p3.3 =~= seq![su, l, j]);
        assert(p2.1 =~= seq![su, k, j] && p1.3 =~= seq![su, j, k]);
        assert(p3.1 =~= seq![su, l, k] && p2.3 =~= seq![su, k, l]);
        let (jj, kk, ll) = (j as int, k as int, l as int);
        assert(christoffel_at(gamma, s, jj, ll) == christoffel_at(gamma, s, ll, jj));
        assert(christoffel_at(gamma, s, jj, kk) == christoffel_at(gamma, s, kk, jj));
        assert(christoffel_at(gamma, s, kk, ll) == christoffel_at(gamma, s, ll, kk));
        let x1 = times(at3(g, p1.0), at3(g, p1.1));
        let y1 = times(at3(g, p1.2), at3(g, p1.3));
        let y2 = times(at3(g, p2.2), at3(g, p2.3));
        assert(times(at3(g, p2.0), at3(g, p2.1)) == y1);
        assert(times(at3(g, p3.0), at3(g, p3.1)) == y2);
        assert(times(at3(g, p3.2), at3(g, p3.3)) == x1);
        lemma_cyclic_differences(plus, neg, e, x1, y1, y2);
    }
    lemma_sum_of_three(plus, neg, e, u, v, w);
    lemma_sum_of_identities(plus, neg, e, total);
    let (s1, s2, s3) = (group_sum(plus, e, u), group_sum(plus, e, v), group_sum(plus, e, w));
    let (d1, d2, d3) = (plus(a1, neg(b1)), plus(a2, neg(b2)), plus(a3, neg(b3)));
    lemma_regroup_pairs(plus, neg, e, d1, s1, d2, s2, d3, s3);
    lemma_identity_inverse(plus, neg, e, e);
}

/// The product of a pair: (g, x) gives g x.
pub open spec fn pair_product<T>(times: spec_fn(T, T) -> T) -> spec_fn((T, T)) -> T {
    |x: (T, T)| times(x.0, x.1)
}

/// Entry (i, k) of the product of the matrices `p` and `q` over `dim`
/// terms: Σ_a p_ia q_ak, summed in order.
pub open spec fn product_entry<T>(
    p: &Tensor<T>,
    q: &Tensor<T>,
    dim: nat,
    plus: spec_fn(T, T) -> T,
    e: T,
    times: spec_fn(T, T) -> T,
    i: int,
    k: int,
) -> T {
    group_sum(plus, e, Seq::new(dim, |a: int| times(matrix_at(p, i, a), matrix_at(q, a, k))))
}

/// `p` is a left inverse of `q` over `dim` indices: their product is the
/// identity matrix.
pub open spec fn left_inverse<T>(
    p: &Tensor<T>,
    q: &Tensor<T>,
    dim: nat,
    plus: spec_fn(T, T) -> T,
    e: T,
    times: spec_fn(T, T) -> T,
    one: T,
) -> bool {
    forall|i: int, k: int|
        0 <= i < dim && 0 <= k < dim ==> #[trigger] product_entry(p, q, dim, plus, e, times, i, k)
            == if i == k {
            one
        } else {
            e
        }
}

/// The sum that changing index `pos` of `t` at the multi-index `idx` with
/// the matrix `m` computes: Σ_k m_{idx[pos], k} t(idx with k at pos).
pub open spec fn index_change_sum<T: Copy>(
    t: &Tensor<T>,
    m: &Tensor<T>,
    pos: int,
    idx: Seq<usize>,
    plus: spec_fn(T, T) -> T,
    e: T,
    times: spec_fn(T, T) -> T,
) -> T {
    group_sum(
        plus,
        e,
        Seq::new(
            t.dim as nat,
            |k: int| times(m.data@[idx[pos] * m.dim + k], t.component(idx.update(pos, k as usize))),
        ),
    )
}

/// With exact ring arithmetic, a component computed by changing an index
/// is the sum of its products.
pub proof fn lemma_index_change_is_sum<T: Copy, F: Fn(T, (T, T)) -> T>(
    t: &Tensor<T>,
    m: &Tensor<T>,
    pos: int,
    o: nat,
    value: T,
    step: F,
    plus: spec_fn(T, T) -> T,
    neg: spec_fn(T) -> T,
    e: T,
    times: spec_fn(T, T) -> T,
    one: T,
)
    requires
        ring(plus, neg, e, times, one),
        step_adds(step, plus, pair_product(times)),
        folds_to(step, e, t.index_change_terms(m, pos, o), value),
    ensures
        value == index_change_sum(
            t,
            m,
            pos,
            unflat(o, t.dim as nat, t.index_types@.len()),
            plus,
            e,
            times,
        ),
{
    lemma_ring_group(plus, neg, e, times, one);
    let items = t.index_change_terms(m, pos, o);
    let p = choose|p: Seq<T>| #[trigger] fold_trace(step, e, items, p) && p.last() == value;
    lemma_fold_is_sum(step, plus, neg, e, pair_product(times), e, items, p);
    let idx = unflat(o, t.dim as nat, t.index_types@.len());
    let sum_seq = Seq::new(
        t.dim as nat,
        |k: int| times(m.data@[idx[pos] * m.dim + k], t.component(idx.update(pos, k as usize))),
    );
    assert(items.map_values(pair_product(times)) =~= sum_seq);
    let total = group_sum(plus, e, sum_seq);
    lemma_comm(plus, neg, e, e, total);
    lemma_identity_inverse(plus, neg, e, total);
}

/// Raising an index undoes lowering it, (g^{-1} (g v)) = v: for every
/// tensor, every index position, and results `lowered` of lowering that
/// index with g and `raised` of raising it back with g^{-1}, computed with
/// exact ring arithmetic (each `step` adds the product of its pair) from a
/// g^{-1} that is a left inverse of g, `raised` holds the components of the
/// tensor.
pub proof fn lemma_lower_raise_roundtrip<T: Copy, F: Fn(T, (T, T)) -> T>(
    metric: &MetricTensor<T>,
    v: &Tensor<T>,
    lowered: &Tensor<T>,
    raised: &Tensor<T>,
    pos: int,
    step: F,
    plus: spec_fn(T, T) -> T,
    neg: spec_fn(T) -> T,
    e: T,
    times: spec_fn(T, T) -> T,
    one: T,
)
    requires
        ring(plus, neg, e, times, one),
        step_adds(step, plus, pair_product(times)),
        v.dim == metric.dim,
        metric.dim > 0,
        v.wf(),
        0 <= pos < v.index_types@.len(),
        metric.dim <= usize::MAX,
        matrix_readable(&metric.g, metric.dim as nat),
        matrix_readable(&metric.g_inv, metric.dim as nat),
        left_inverse(&metric.g_inv, &metric.g, metric.dim as nat, plus, e, times, one),
        lowered.dim == v.dim,
        lowered.index_types@.len() == v.index_types@.len(),
        lowered.wf(),
        forall|o: int|
            0 <= o < lowered.data@.len() ==> folds_to(
                step,
                e,
                v.index_change_terms(&metric.g, pos, o as nat),
                #[trigger] lowered.data@[o],
            ),
        raised.dim == v.dim,
        raised.index_types@.len() == v.index_types@.len(),
        raised.wf(),
        forall|o: int|
            0 <= o < raised.data@.len() ==> folds_to(
                step,
                e,
                lowered.index_change_terms(&metric.g_inv, pos, o as nat),
                #[trigger] raised.data@[o],
            ),
    ensures
        raised.data@ == v.data@,
{
    assert forall|o: int| 0 <= o < raised.data@.len() implies #[trigger] raised.data@[o]
        == v.data@[o] by {
        lemma_roundtrip_component(metric, v, lowered, raised, pos, step, plus, neg, e, times, one, o);
    }
    assert(raised.data@ =~= v.data@);
}

/// One component of the roundtrip.
proof fn lemma_roundtrip_component<T: Copy, F: Fn(T, (T, T)) -> T>(
    metric: &MetricTensor<T>,
    v: &Tensor<T>,
    lowered: &Tensor<T>,
    raised: &Tensor<T>,
    pos: int,
    step: F,
    plus: spec_fn(T, T) -> T,
    neg: spec_fn(T) -> T,
    e: T,
    times: spec_fn(T, T) -> T,
    one: T,
    o: int,
)
    requires
        ring(plus, neg, e, times, one),
        step_adds(step, plus, pair_product(times)),
        v.dim == metric.dim,
        metric.dim > 0,
        v.wf(),
        0 <= pos < v.index_types@.len(),
        metric.dim <= usize::MAX,
        matrix_readable(&metric.g, metric.dim as nat),
        matrix_readable(&metric.g_inv, metric.dim as nat),
        left_inverse(&metric.g_inv, &metric.g, metric.dim as nat, plus, e, times, one),
        lowered.dim == v.dim,
        lowered.index_types@.len() == v.index_types@.len(),
        lowered.wf(),
        forall|o: int|
            0 <= o < lowered.data@.len() ==> folds_to(
                step,
                e,
                v.index_change_terms(&metric.g, pos, o as nat),
                #[trigger] lowered.data@[o],
            ),
        raised.dim == v.dim,
        raised.index_types@.len() == v.index_types@.len(),
        raised.wf(),
        forall|o: int|
            0 <= o < raised.data@.len() ==> folds_to(
                step,
                e,
                lowered.index_change_terms(&metric.g_inv, pos, o as nat),
                #[trigger] raised.data@[o],
            ),
        0 <= o < raised.data@.len(),
    ensures
        raised.data@[o] == v.data@[o],
{
    lemma_ring_group(plus, neg, e, times, one);
    let d = metric.dim as nat;
    let r = v.index_types@.len();
    let g = &metric.g;
    let gi = &metric.g_inv;
    lemma_flat_unflat(o as nat, d, r);
    let idx = unflat(o as nat, d, r);
    let i = idx[pos] as int;
    // raised[o] = Σ_a g^{ia} lowered(idx with a at pos)
    lemma_index_change_is_sum(lowered, gi, pos, o as nat, raised.data@[o], step, plus, neg, e, times, one);
    let vk = |k: int| v.component(idx.update(pos, k as usize));
    let inner = |a: int| group_sum(plus, e, Seq::new(d, |k: int| times(matrix_at(g, a, k), vk(k))));
    assert forall|a: int| 0 <= a < d implies #[trigger] lowered.component(idx.update(pos, a as usize))
        == inner(a) by {
        let idx_a = idx.update(pos, a as usize);
        assert(in_bounds(idx_a, d)) by {
            assert forall|p: int| 0 <= p < idx_a.len() implies (#[trigger] idx_a[p]) < d by {
                if p != pos {
                    assert(idx_a[p] == idx[p]);
                }
            }
        }
        lemma_flat_bound(idx_a, d);
        lemma_unflat_flat(idx_a, d);
        let o_a = flat_of(idx_a, d) as int;
        lemma_index_change_is_sum(v, g, pos, o_a as nat, lowered.data@[o_a], step, plus, neg, e, times, one);
        assert forall|k: int| 0 <= k < d implies #[trigger] idx_a.update(pos, k as usize)
            == idx.update(pos, k as usize) by {
            assert(idx_a.update(pos, k as usize) =~= idx.update(pos, k as usize));
        }
        assert(Seq::new(
            d,
            |k: int| times(g.data@[idx_a[pos] * g.dim + k], v.component(idx_a.update(pos, k as usize))),
        ) =~= Seq::new(d, |k: int| times(matrix_at(g, a, k), vk(k))));
    }
    let outer = Seq::new(d, |a: int| times(matrix_at(gi, i, a), inner(a)));
    assert(Seq::new(
        d,
        |a: int| times(gi.data@[idx[pos] * gi.dim + a], lowered.component(idx.update(pos, a as usize))),
    ) =~= outer);
    // Σ_a g^{ia} Σ_k g_{ak} v_k = Σ_a Σ_k (g^{ia} g_{ak}) v_k
    let x = |a: int, k: int| times(times(matrix_at(gi, i, a), matrix_at(g, a, k)), vk(k));
    assert forall|a: int| 0 <= a < d implies #[trigger] outer[a] == group_sum(
        plus,
        e,
        Seq::new(d, |k: int| x(a, k)),
    ) by {
        let terms = Seq::new(d, |k: int| times(matrix_at(g, a, k), vk(k)));
        lemma_times_sum_left(plus, neg, e, times, one, matrix_at(gi, i, a), terms);
        assert forall|k: int| 0 <= k < d implies #[trigger] times(matrix_at(gi, i, a), terms[k])
            == x(a, k) by {
            lemma_ring_times(plus, neg, e, times, one, matrix_at(gi, i, a), matrix_at(g, a, k), vk(k));
        }
        assert(Seq::new(terms.len(), |s: int| times(matrix_at(gi, i, a), terms[s])) =~= Seq::new(
            d,
            |k: int| x(a, k),
        ));
    }
    assert(outer =~= Seq::new(d, |a: int| group_sum(plus, e, Seq::new(d, |k: int| x(a, k)))));
    // = Σ_k Σ_a (g^{ia} g_{ak}) v_k = Σ_k δ_ik v_k
    lemma_double_sum_swap(plus, neg, e, x, d, d);
    let cols = Seq::new(d, |k: int| group_sum(plus, e, Seq::new(d, |a: int| x(a, k))));
    let delta = Seq::new(d, |k: int| times(if i == k { one } else { e }, vk(k)));
    assert forall|k: int| 0 <= k < d implies #[trigger] cols[k] == delta[k] by {
        let prods = Seq::new(d, |a: int| times(matrix_at(gi, i, a), matrix_at(g, a, k)));
        lemma_times_sum_right(plus, neg, e, times, one, prods, vk(k));
        assert(Seq::new(prods.len(), |s: int| times(prods[s], vk(k))) =~= Seq::new(
            d,
            |a: int| x(a, k),
        ));
        assert(product_entry(gi, g, d, plus, e, times, i, k) == if i == k {
            one
        } else {
            e
        });
    }
    assert(cols =~= delta);
    assert forall|k: int| 0 <= k < d && k != i implies #[trigger] delta[k] == e by {
        lemma_ring_times(plus, neg, e, times, one, vk(k), vk(k), vk(k));
    }
    lemma_sum_single(plus, neg, e, delta, i);
    lemma_ring_times(plus, neg, e, times, one, vk(i), vk(i), vk(i));
    assert(idx.update(pos, i as usize) =~= idx);
}

} // verus!

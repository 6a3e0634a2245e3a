//! The operations that take their input in two forms (a closure or a tensor
//! of derivatives, one call or a composition of calls) agree, whenever the
//! arithmetic handed to them answers alike on alike arguments.
use vstd::prelude::*;
use crate::christoffel::{first_kind_args, ChristoffelSymbols};
use crate::layout::{flat_of, in_bounds, lemma_flat_bound, lemma_flat_unflat, lemma_unflat_flat, unflat};
use crate::contraction::with_pair;
use crate::covariant::matrix_at;
use crate::riemann::{
    curvature_component, derivative_args, lowering_terms, pos4, product_terms, quad_at, RiemannTensor,
};
use crate::covariant::{geodesic_component_passes, geodesic_component_tested, geodesic_terms};
use crate::fold::{fold_trace, folds_to, lemma_fold_trace_mirror, step_mirrors};
use crate::laws::identity_fn;
use crate::agent_field::{ricci_diagonal, ricci_from, AgentFieldAnalysis, AgentFieldTheory};
use crate::ricci::{ricci_terms, scalar_curvature_terms, RicciTensor, ScalarCurvature};
use vstd::arithmetic::div_mod::{lemma_fundamental_div_mod, lemma_mod_pos_bound};
use crate::metric::MetricTensor;
use crate::lie::{
    covector_lie_terms, lie_kind_spec, rank2_lie_terms, scalar_lie_terms, vector_lie_terms,
    LieDerivativeKind,
};
use crate::tensor::{lemma_num_components_small, IndexType, Tensor};

verus! {

/// `step` answers alike on alike arguments.
pub open spec fn step_deterministic<T, A, F: Fn(T, A) -> T>(step: F) -> bool {
    step_mirrors(step, identity_fn::<T>(), identity_fn::<A>())
}

/// `f` answers alike on alike arguments.
pub open spec fn binary_deterministic<T, F: Fn(T, T) -> T>(f: F) -> bool {
    forall|a: T, b: T, x: T, y: T|
        #![trigger call_ensures(f, (a, b), x), call_ensures(f, (a, b), y)]
        call_ensures(f, (a, b), x) && call_ensures(f, (a, b), y) ==> x == y
}

/// `f` answers alike on alike arguments.
pub open spec fn ternary_deterministic<T, F: Fn(T, T, T) -> T>(f: F) -> bool {
    forall|a: T, b: T, c: T, x: T, y: T|
        #![trigger call_ensures(f, (a, b, c), x), call_ensures(f, (a, b, c), y)]
        call_ensures(f, (a, b, c), x) && call_ensures(f, (a, b, c), y) ==> x == y
}

/// `f` answers alike on alike indices.
pub open spec fn index3_deterministic<T, G: Fn(usize, usize, usize) -> T>(f: G) -> bool {
    forall|i: usize, j: usize, k: usize, x: T, y: T|
        #![trigger call_ensures(f, (i, j, k), x), call_ensures(f, (i, j, k), y)]
        call_ensures(f, (i, j, k), x) && call_ensures(f, (i, j, k), y) ==> x == y
}

/// `f` answers alike on alike indices.
pub open spec fn index4_deterministic<T, G: Fn(usize, usize, usize, usize) -> T>(f: G) -> bool {
    forall|i: usize, j: usize, k: usize, l: usize, x: T, y: T|
        #![trigger call_ensures(f, (i, j, k, l), x), call_ensures(f, (i, j, k, l), y)]
        call_ensures(f, (i, j, k, l), x) && call_ensures(f, (i, j, k, l), y) ==> x == y
}

/// `f` answers alike on alike arguments.
pub open spec fn test_deterministic<T, N: Fn(T) -> bool>(f: N) -> bool {
    forall|a: T, x: bool, y: bool|
        #![trigger call_ensures(f, (a,), x), call_ensures(f, (a,), y)]
        call_ensures(f, (a,), x) && call_ensures(f, (a,), y) ==> x == y
}

/// A fold of a `step` that answers alike on alike arguments has one result
/// for a given start and items.
pub proof fn lemma_folds_to_unique<T, A, F: Fn(T, A) -> T>(
    step: F,
    init: T,
    items: Seq<A>,
    r1: T,
    r2: T,
)
    requires
        folds_to(step, init, items, r1),
        folds_to(step, init, items, r2),
        step_deterministic(step),
    ensures
        r1 == r2,
{
    let p1 = choose|p: Seq<T>| #[trigger] fold_trace(step, init, items, p) && p.last() == r1;
    let p2 = choose|p: Seq<T>| #[trigger] fold_trace(step, init, items, p) && p.last() == r2;
    lemma_fold_trace_mirror(step, init, items, p1, init, items, p2, identity_fn::<T>(), identity_fn::<A>());
}

/// Two tensors of one shape whose components agree entry by entry.
pub open spec fn same_tensor<T>(a: &Tensor<T>, b: &Tensor<T>) -> bool {
    &&& a.dim == b.dim
    &&& a.index_types@ == b.index_types@
    &&& a.data@ == b.data@
}

/// Christoffel symbols from a derivative closure agree with those from a
/// tensor of derivatives: when `dg_fn` answers alike on alike indices, and
/// `combine` and `step` answer alike on alike arguments, the symbols that
/// `from_metric_fn_with` returns (computed from some tabulation of `dg_fn`)
/// are those that `from_metric_derivatives_with` computes from any tensor
/// `dg` holding dg_fn(i, j, k) at (k, i, j).
pub proof fn lemma_metric_fn_agrees_with_derivatives<
    T: Copy,
    G: Fn(usize, usize, usize) -> T,
    C: Fn(T, T, T) -> T,
    F: Fn(T, (T, T)) -> T,
>(
    metric: &MetricTensor<T>,
    dg_fn: G,
    dg: &Tensor<T>,
    combine: C,
    zero: T,
    step: F,
    from_fn: &ChristoffelSymbols<T>,
    from_table: &ChristoffelSymbols<T>,
)
    requires
        exists|dg1: Tensor<T>|
            ChristoffelSymbols::<T>::tabulates_derivatives(dg_fn, metric.dim, &dg1)
                && #[trigger] from_fn.computed_from(metric, &dg1, combine, zero, step),
        ChristoffelSymbols::<T>::tabulates_derivatives(dg_fn, metric.dim, dg),
        from_table.computed_from(metric, dg, combine, zero, step),
        index3_deterministic(dg_fn),
        ternary_deterministic(combine),
        step_deterministic(step),
    ensures
        from_fn.dim == from_table.dim,
        same_tensor(&from_fn.first_kind, &from_table.first_kind),
        same_tensor(&from_fn.second_kind, &from_table.second_kind),
{
    let dg1 = choose|dg1: Tensor<T>|
        ChristoffelSymbols::<T>::tabulates_derivatives(dg_fn, metric.dim, &dg1)
            && #[trigger] from_fn.computed_from(metric, &dg1, combine, zero, step);
    assert(dg1.data@ =~= dg.data@);
    let f1 = from_fn.first_kind;
    let f2 = from_table.first_kind;
    assert forall|o: int| 0 <= o < f1.data@.len() implies #[trigger] f1.data@[o] == f2.data@[o] by {
        let m = unflat(o as nat, metric.dim as nat, 3);
        assert(first_kind_args(&dg1, m) == first_kind_args(dg, m));
    }
    assert(f1.data@ =~= f2.data@);
    let s1 = from_fn.second_kind;
    let s2 = from_table.second_kind;
    assert forall|o: int| 0 <= o < s1.data@.len() implies #[trigger] s1.data@[o] == s2.data@[o] by {
        let t1 = f1.index_change_terms(&metric.g_inv, 0, o as nat);
        let t2 = f2.index_change_terms(&metric.g_inv, 0, o as nat);
        assert(t1 =~= t2);
        lemma_folds_to_unique(step, zero, t1, s1.data@[o], s2.data@[o]);
    }
    assert(s1.data@ =~= s2.data@);
}

/// The covariant form as `from_christoffel_with` leaves it: of the
/// symbols' dimension, fully covariant, and filled with `zero`.
pub open spec fn covariant_left_zero<T: Copy>(r: &RiemannTensor<T>, dim: usize, zero: T) -> bool {
    &&& r.covariant.dim == dim
    &&& r.covariant.index_types@ == RiemannTensor::<T>::covariant_types()
    &&& r.covariant.wf()
    &&& forall|p: int| 0 <= p < r.covariant.data@.len() ==> r.covariant.data@[p] == zero
}

/// The Riemann tensor from a derivative closure agrees with the one from a
/// tensor of derivatives: when `dgamma_fn` answers alike on alike indices,
/// and `start` and `step` answer alike on alike arguments, the tensor that
/// `from_christoffel_fn_with` returns (computed from some tabulation of
/// `dgamma_fn`) is the one that `from_christoffel_with` computes from any
/// tensor `dgamma` holding dgamma_fn(i, j, k, l) at (i, j, k, l), in its
/// mixed components and in its covariant form.
pub proof fn lemma_christoffel_fn_agrees_with_derivatives<
    T: Copy,
    G: Fn(usize, usize, usize, usize) -> T,
    S: Fn(T, T) -> T,
    F: Fn(T, (T, T, T, T)) -> T,
>(
    gamma: &ChristoffelSymbols<T>,
    dgamma_fn: G,
    dgamma: &Tensor<T>,
    zero: T,
    start: S,
    step: F,
    from_fn: &RiemannTensor<T>,
    from_table: &RiemannTensor<T>,
)
    requires
        exists|dg1: Tensor<T>|
            RiemannTensor::<T>::tabulates_derivatives(dgamma_fn, gamma.dim, &dg1)
                && #[trigger] from_fn.components_from(gamma, &dg1, start, step),
        covariant_left_zero(from_fn, gamma.dim, zero),
        RiemannTensor::<T>::tabulates_derivatives(dgamma_fn, gamma.dim, dgamma),
        from_table.components_from(gamma, dgamma, start, step),
        covariant_left_zero(from_table, gamma.dim, zero),
        index4_deterministic(dgamma_fn),
        binary_deterministic(start),
        step_deterministic(step),
    ensures
        from_fn.dim == from_table.dim,
        same_tensor(&from_fn.components, &from_table.components),
        same_tensor(&from_fn.covariant, &from_table.covariant),
{
    let dg1 = choose|dg1: Tensor<T>|
        RiemannTensor::<T>::tabulates_derivatives(dgamma_fn, gamma.dim, &dg1)
            && #[trigger] from_fn.components_from(gamma, &dg1, start, step);
    assert(dg1.data@ =~= dgamma.data@);
    let c1 = from_fn.components;
    let c2 = from_table.components;
    assert forall|o: int| 0 <= o < c1.data@.len() implies #[trigger] c1.data@[o] == c2.data@[o] by {
        let m = unflat(o as nat, gamma.dim as nat, 4);
        assert(curvature_component(gamma, &dg1, start, step, m, c1.data@[o]));
        assert(curvature_component(gamma, dgamma, start, step, m, c2.data@[o]));
        let i1 = choose|init: T|
            call_ensures(start, derivative_args(&dg1, m), init) && #[trigger] folds_to(
                step,
                init,
                product_terms(gamma, m),
                c1.data@[o],
            );
        let i2 = choose|init: T|
            call_ensures(start, derivative_args(dgamma, m), init) && #[trigger] folds_to(
                step,
                init,
                product_terms(gamma, m),
                c2.data@[o],
            );
        assert(derivative_args(&dg1, m) == derivative_args(dgamma, m));
        lemma_folds_to_unique(step, i1, product_terms(gamma, m), c1.data@[o], c2.data@[o]);
    }
    assert(c1.data@ =~= c2.data@);
    assert(from_fn.covariant.data@ =~= from_table.covariant.data@);
}

/// The geodesic test agrees with the acceleration: when `step` and
/// `negligible` answer alike on alike arguments, the answer `b` of
/// `is_geodesic_with` is true exactly when `negligible` holds of every
/// component of the acceleration `accel` that `geodesic_acceleration_with`
/// computes with the same arithmetic.
pub proof fn lemma_is_geodesic_agrees_with_acceleration<
    T: Copy,
    F: Fn(T, (T, T, T)) -> T,
    N: Fn(T) -> bool,
>(
    gamma: &ChristoffelSymbols<T>,
    velocity: &Tensor<T>,
    zero: T,
    step: F,
    negligible: N,
    accel: &Tensor<T>,
    b: bool,
)
    requires
        forall|i: int|
            0 <= i < gamma.dim ==> folds_to(
                step,
                zero,
                geodesic_terms(gamma, velocity, i),
                #[trigger] accel.data@[i],
            ),
        b ==> forall|i: int|
            0 <= i < gamma.dim ==> #[trigger] geodesic_component_passes(
                gamma,
                velocity,
                zero,
                step,
                negligible,
                i,
            ),
        !b ==> exists|i: int, a: T|
            0 <= i < gamma.dim && #[trigger] geodesic_component_tested(
                gamma,
                velocity,
                zero,
                step,
                negligible,
                i,
                a,
                false,
            ),
        step_deterministic(step),
        test_deterministic(negligible),
    ensures
        b == forall|i: int|
            0 <= i < gamma.dim ==> call_ensures(negligible, (#[trigger] accel.data@[i],), true),
{
    if b {
        assert forall|i: int| 0 <= i < gamma.dim implies call_ensures(
            negligible,
            (#[trigger] accel.data@[i],),
            true,
        ) by {
            assert(geodesic_component_passes(gamma, velocity, zero, step, negligible, i));
            let a = choose|a: T|
                #[trigger] geodesic_component_tested(gamma, velocity, zero, step, negligible, i, a, true);
            lemma_folds_to_unique(step, zero, geodesic_terms(gamma, velocity, i), a, accel.data@[i]);
        }
    } else {
        let (i, a) = choose|i: int, a: T|
            0 <= i < gamma.dim && #[trigger] geodesic_component_tested(
                gamma,
                velocity,
                zero,
                step,
                negligible,
                i,
                a,
                false,
            );
        lemma_folds_to_unique(step, zero, geodesic_terms(gamma, velocity, i), a, accel.data@[i]);
        assert(call_ensures(negligible, (accel.data@[i],), false));
    }
}

/// A position below m * m is that of the row o / m and the column o % m,
/// both below m.
proof fn lemma_row_column(o: int, m: int)
    requires
        0 <= m,
        0 <= o < m * m,
    ensures
        0 <= o / m < m,
        0 <= o % m < m,
        o == (o / m) * m + o % m,
{
    assert(m > 0) by (nonlinear_arith)
        requires
            0 <= m,
            0 <= o < m * m,
    ;
    lemma_fundamental_div_mod(o, m);
    lemma_mod_pos_bound(o, m);
    let q = o / m;
    let r = o % m;
    assert(0 <= q < m) by (nonlinear_arith)
        requires
            o == m * q + r,
            0 <= r < m,
            0 <= o < m * m,
    ;
    assert(o == q * m + r) by (nonlinear_arith)
        requires
            o == m * q + r,
    ;
}

/// The analysis agrees with its parts: when `plus` and `step` answer alike on
/// alike arguments, the curvature and the interaction modes of an analysis
/// `a` of `analyze_with` are the scalar curvature `scalar` that
/// `ScalarCurvature::from_ricci_with` computes from the metric and a Ricci
/// tensor `ricci` of `RicciTensor::from_riemann_with`, and that Ricci
/// tensor's diagonal.
pub proof fn lemma_analysis_agrees_with_ricci<T: Copy, P: Fn(T, T) -> T, S: Fn(T, (T, T)) -> T>(
    theory: &AgentFieldTheory<T>,
    riemann: &RiemannTensor<T>,
    zero: T,
    plus: P,
    step: S,
    a: &AgentFieldAnalysis<T>,
    ricci: &RicciTensor<T>,
    scalar: &ScalarCurvature<T>,
)
    requires
        theory.metric.dim <= riemann.dim,
        theory.config.dim <= riemann.dim,
        exists|r: RicciTensor<T>|
            #[trigger] ricci_from(riemann, zero, plus, r) && folds_to(
                step,
                zero,
                scalar_curvature_terms(
                    &theory.metric.g_inv,
                    &r.components,
                    theory.metric.dim as nat,
                ),
                a.curvature,
            ) && a.ricci_eigenvalues@ == ricci_diagonal(&r, theory.config.dim as nat),
        ricci_from(riemann, zero, plus, *ricci),
        folds_to(
            step,
            zero,
            scalar_curvature_terms(&theory.metric.g_inv, &ricci.components, theory.metric.dim as nat),
            scalar.value,
        ),
        step_deterministic(plus),
        step_deterministic(step),
    ensures
        a.curvature == scalar.value,
        a.ricci_eigenvalues@ == ricci_diagonal(ricci, theory.config.dim as nat),
{
    let r = choose|r: RicciTensor<T>|
        #[trigger] ricci_from(riemann, zero, plus, r) && folds_to(
            step,
            zero,
            scalar_curvature_terms(&theory.metric.g_inv, &r.components, theory.metric.dim as nat),
            a.curvature,
        ) && a.ricci_eigenvalues@ == ricci_diagonal(&r, theory.config.dim as nat);
    let rd = riemann.dim as int;
    assert forall|i: int, j: int| 0 <= i < rd && 0 <= j < rd implies r.components.data@[i * rd + j]
        == #[trigger] ricci.components.data@[i * rd + j] by {
        let terms = ricci_terms(&riemann.components, riemann.dim as nat, i, j);
        assert(folds_to(plus, zero, terms, r.components.data@[i * rd + j]));
        assert(folds_to(plus, zero, terms, ricci.components.data@[i * rd + j]));
        lemma_folds_to_unique(plus, zero, terms, r.components.data@[i * rd + j], ricci.components.data@[i * rd + j]);
    }
    let md = theory.metric.dim as int;
    let t1 = scalar_curvature_terms(&theory.metric.g_inv, &r.components, md as nat);
    let t2 = scalar_curvature_terms(&theory.metric.g_inv, &ricci.components, md as nat);
    assert forall|o: int| 0 <= o < t1.len() implies #[trigger] t1[o] == t2[o] by {
        lemma_row_column(o, md);
        let i = o / md;
        let j = o % md;
        assert(r.components.data@[i * rd + j] == ricci.components.data@[i * rd + j]);
    }
    assert(t1 =~= t2);
    lemma_folds_to_unique(step, zero, t1, a.curvature, scalar.value);
    let cd = theory.config.dim as nat;
    assert forall|i: int| 0 <= i < cd implies #[trigger] ricci_diagonal(&r, cd)[i] == ricci_diagonal(
        ricci,
        cd,
    )[i] by {
        assert(r.components.data@[i * rd + i] == ricci.components.data@[i * rd + i]);
    }
    assert(ricci_diagonal(&r, cd) =~= ricci_diagonal(ricci, cd));
}

/// The Lie derivative of a scalar agrees with the scalar formula: when
/// `step` answers alike on alike arguments, a result `r` of
/// `lie_derivative_with` on a scalar holds exactly the value `value` of
/// `lie_derivative_scalar_with` on the same field and gradient.
pub proof fn lemma_lie_dispatch_scalar<T: Copy, F: Fn(T, (T, T)) -> T>(
    v: &Tensor<T>,
    tensor: &Tensor<T>,
    dtensor: &Tensor<T>,
    zero: T,
    step: F,
    r: &Tensor<T>,
    value: T,
)
    requires
        lie_kind_spec(tensor.index_types@) == Some(LieDerivativeKind::Scalar),
        r.index_types@ == Seq::<IndexType>::empty(),
        r.data@.len() == 1,
        folds_to(step, zero, scalar_lie_terms(v, dtensor), r.data@[0]),
        folds_to(step, zero, scalar_lie_terms(v, dtensor), value),
        step_deterministic(step),
    ensures
        r.data@ == seq![value],
{
    lemma_folds_to_unique(step, zero, scalar_lie_terms(v, dtensor), r.data@[0], value);
    assert(r.data@ =~= seq![value]);
}

/// The Lie derivative of a vector field agrees with the bracket: when `step`
/// answers alike on alike arguments, a result `r` of `lie_derivative_with` on
/// a contravariant vector `w` is the result `r2` of
/// `lie_derivative_vector_with` on the same arguments.
pub proof fn lemma_lie_dispatch_vector<T: Copy, F: Fn(T, (T, T, T, T)) -> T>(
    v: &Tensor<T>,
    w: &Tensor<T>,
    dw: &Tensor<T>,
    dv: &Tensor<T>,
    zero: T,
    step: F,
    r: &Tensor<T>,
    r2: &Tensor<T>,
)
    requires
        lie_kind_spec(w.index_types@) == Some(LieDerivativeKind::Vector),
        r.dim == v.dim,
        r.index_types@ == seq![IndexType::Contravariant],
        r.wf(),
        forall|i: int|
            0 <= i < v.dim ==> folds_to(step, zero, vector_lie_terms(v, w, dw, dv, i), #[trigger] r.data@[i]),
        r2.dim == v.dim,
        r2.index_types@ == seq![IndexType::Contravariant],
        r2.wf(),
        forall|i: int|
            0 <= i < v.dim ==> folds_to(step, zero, vector_lie_terms(v, w, dw, dv, i), #[trigger] r2.data@[i]),
        step_deterministic(step),
    ensures
        same_tensor(r, r2),
{
    lemma_num_components_small(v.dim as nat);
    assert forall|i: int| 0 <= i < r.data@.len() implies #[trigger] r.data@[i] == r2.data@[i] by {
        lemma_folds_to_unique(step, zero, vector_lie_terms(v, w, dw, dv, i), r.data@[i], r2.data@[i]);
    }
    assert(r.data@ =~= r2.data@);
}

/// The Lie derivative of a 1-form agrees with its formula: when `step`
/// answers alike on alike arguments, a result `r` of `lie_derivative_with` on
/// a 1-form `omega` is the result `r2` of `lie_derivative_covector_with` on
/// the same arguments.
pub proof fn lemma_lie_dispatch_covector<T: Copy, F: Fn(T, (T, T, T, T)) -> T>(
    v: &Tensor<T>,
    omega: &Tensor<T>,
    domega: &Tensor<T>,
    dv: &Tensor<T>,
    zero: T,
    step: F,
    r: &Tensor<T>,
    r2: &Tensor<T>,
)
    requires
        lie_kind_spec(omega.index_types@) == Some(LieDerivativeKind::Covector),
        r.dim == v.dim,
        r.index_types@ == seq![IndexType::Covariant],
        r.wf(),
        forall|i: int|
            0 <= i < v.dim ==> folds_to(
                step,
                zero,
                covector_lie_terms(v, omega, domega, dv, i),
                #[trigger] r.data@[i],
            ),
        r2.dim == v.dim,
        r2.index_types@ == seq![IndexType::Covariant],
        r2.wf(),
        forall|i: int|
            0 <= i < v.dim ==> folds_to(
                step,
                zero,
                covector_lie_terms(v, omega, domega, dv, i),
                #[trigger] r2.data@[i],
            ),
        step_deterministic(step),
    ensures
        same_tensor(r, r2),
{
    lemma_num_components_small(v.dim as nat);
    assert forall|i: int| 0 <= i < r.data@.len() implies #[trigger] r.data@[i] == r2.data@[i] by {
        lemma_folds_to_unique(step, zero, covector_lie_terms(v, omega, domega, dv, i), r.data@[i], r2.data@[i]);
    }
    assert(r.data@ =~= r2.data@);
}

/// The Lie derivative of a tensor with two covariant indices agrees with its
/// formula: when `step` answers alike on alike arguments, a result `r` of
/// `lie_derivative_with` on such a tensor `t` is the result `r2` of
/// `lie_derivative_rank2_covariant_with` on the same arguments.
pub proof fn lemma_lie_dispatch_rank2<T: Copy, F: Fn(T, (T, T, T, T, T, T)) -> T>(
    v: &Tensor<T>,
    t: &Tensor<T>,
    dt: &Tensor<T>,
    dv: &Tensor<T>,
    zero: T,
    step: F,
    r: &Tensor<T>,
    r2: &Tensor<T>,
)
    requires
        lie_kind_spec(t.index_types@) == Some(LieDerivativeKind::CovariantRank2),
        r.dim == v.dim,
        r.index_types@ == seq![IndexType::Covariant, IndexType::Covariant],
        r.wf(),
        forall|i: int, j: int|
            0 <= i < v.dim && 0 <= j < v.dim ==> folds_to(
                step,
                zero,
                rank2_lie_terms(v, t, dt, dv, i, j),
                #[trigger] r.data@[i * v.dim + j],
            ),
        r2.dim == v.dim,
        r2.index_types@ == seq![IndexType::Covariant, IndexType::Covariant],
        r2.wf(),
        forall|i: int, j: int|
            0 <= i < v.dim && 0 <= j < v.dim ==> folds_to(
                step,
                zero,
                rank2_lie_terms(v, t, dt, dv, i, j),
                #[trigger] r2.data@[i * v.dim + j],
            ),
        step_deterministic(step),
    ensures
        same_tensor(r, r2),
{
    let d = v.dim as int;
    lemma_num_components_small(v.dim as nat);
    assert forall|o: int| 0 <= o < r.data@.len() implies #[trigger] r.data@[o] == r2.data@[o] by {
        lemma_row_column(o, d);
        let i = o / d;
        let j = o % d;
        assert(o == i * v.dim + j);
        lemma_folds_to_unique(step, zero, rank2_lie_terms(v, t, dt, dv, i, j), r.data@[o], r2.data@[o]);
    }
    assert(r.data@ =~= r2.data@);
}

/// The row-major position of (a, b, c, f) as a multi-index.
pub proof fn lemma_flat_quad(a: usize, b: usize, c: usize, f: usize, d: nat)
    ensures
        flat_of(seq![a, b, c, f], d) == pos4(d, a as nat, b as nat, c as nat, f as nat),
{
    let s4 = seq![a, b, c, f];
    let s3 = seq![a, b, c];
    let s2 = seq![a, b];
    let s1 = seq![a];
    assert(s4.drop_last() =~= s3);
    assert(s3.drop_last() =~= s2);
    assert(s2.drop_last() =~= s1);
    assert(s1.drop_last() =~= Seq::<usize>::empty());
    assert(s1.last() == a && s2.last() == b && s3.last() == c && s4.last() == f);
    assert(flat_of(Seq::<usize>::empty(), d) == 0);
    assert(0 * d == 0) by (nonlinear_arith);
    let (na, nb, nc, nf) = (a as nat, b as nat, c as nat, f as nat);
    assert(flat_of(s1, d) == na);
    assert(flat_of(s2, d) == na * d + nb);
    assert(flat_of(s3, d) == (na * d + nb) * d + nc);
    assert(flat_of(s4, d) == ((na * d + nb) * d + nc) * d + nf);
    assert(((na * d + nb) * d + nc) * d + nf == na * d * d * d + nb * d * d + nc * d + nf)
        by (nonlinear_arith);
}

/// The covariant form of the Riemann tensor is its first index lowered:
/// when `step` answers alike on alike arguments, the covariant form that
/// `compute_covariant_with` computes with the metric g is the tensor
/// `lowered` that `MetricTensor::lower_index_with` gives for index 0 of the
/// mixed components, entry by entry.
pub proof fn lemma_covariant_form_is_lowered_first_index<T: Copy, F: Fn(T, (T, T)) -> T>(
    metric: &MetricTensor<T>,
    components: &Tensor<T>,
    covariant: &Tensor<T>,
    lowered: &Tensor<T>,
    zero: T,
    step: F,
)
    requires
        components.dim == metric.dim,
        components.index_types@.len() == 4,
        covariant.dim == metric.dim,
        covariant.wf(),
        covariant.index_types@.len() == 4,
        forall|o: int|
            0 <= o < covariant.data@.len() ==> folds_to(
                step,
                zero,
                lowering_terms(&metric.g, components, metric.dim as nat, unflat(o as nat, metric.dim as nat, 4)),
                #[trigger] covariant.data@[o],
            ),
        lowered.dim == metric.dim,
        lowered.wf(),
        lowered.index_types@.len() == 4,
        forall|o: int|
            0 <= o < lowered.data@.len() ==> folds_to(
                step,
                zero,
                components.index_change_terms(&metric.g, 0, o as nat),
                #[trigger] lowered.data@[o],
            ),
        step_deterministic(step),
    ensures
        covariant.data@ == lowered.data@,
{
    let d = metric.dim as nat;
    assert forall|o: int| 0 <= o < covariant.data@.len() implies #[trigger] covariant.data@[o]
        == lowered.data@[o] by {
        lemma_num_components_small(d);
        assert(d > 0) by (nonlinear_arith)
            requires
                0 <= o < d * d * d * d,
        ;
        lemma_flat_unflat(o as nat, d, 4);
        let m = unflat(o as nat, d, 4);
        let t1 = lowering_terms(&metric.g, components, d, m);
        let t2 = components.index_change_terms(&metric.g, 0, o as nat);
        assert forall|s: int| 0 <= s < d implies #[trigger] t1[s] == t2[s] by {
            lemma_flat_quad(s as usize, m[1], m[2], m[3], d);
            assert(m.update(0, s as usize) =~= seq![s as usize, m[1], m[2], m[3]]);
        }
        assert(t1 =~= t2);
        lemma_folds_to_unique(step, zero, t1, covariant.data@[o], lowered.data@[o]);
    }
    assert(covariant.data@ =~= lowered.data@);
}

/// The Ricci tensor is the contraction of the first and third indices of
/// the Riemann tensor: when `plus` answers alike on alike arguments, each
/// component R_ij of a Ricci tensor of `RicciTensor::from_riemann_with` is
/// the component at (i, j) of the tensor `contracted` that
/// `Tensor::contract_with` gives for indices 0 and 2 of the mixed
/// components.
pub proof fn lemma_ricci_is_contraction<T: Copy, P: Fn(T, T) -> T>(
    riemann: &RiemannTensor<T>,
    ricci: &RicciTensor<T>,
    contracted: &Tensor<T>,
    zero: T,
    plus: P,
)
    requires
        riemann.components.dim == riemann.dim,
        riemann.components.index_types@.len() == 4,
        ricci_from(riemann, zero, plus, *ricci),
        contracted.dim == riemann.dim,
        contracted.wf(),
        contracted.index_types@.len() == 2,
        forall|o: int|
            0 <= o < contracted.data@.len() ==> folds_to(
                plus,
                zero,
                riemann.components.contraction_terms(0, 2, o as nat),
                #[trigger] contracted.data@[o],
            ),
        step_deterministic(plus),
    ensures
        forall|i: int, j: int|
            0 <= i < riemann.dim && 0 <= j < riemann.dim ==> #[trigger] matrix_at(&ricci.components, i, j)
                == matrix_at(contracted, i, j),
{
    let d = riemann.dim as nat;
    lemma_num_components_small(d);
    assert forall|i: int, j: int| 0 <= i < d && 0 <= j < d implies #[trigger] matrix_at(
        &ricci.components,
        i,
        j,
    ) == matrix_at(contracted, i, j) by {
        let kept = seq![i as usize, j as usize];
        assert(in_bounds(kept, d)) by {
            assert forall|q: int| 0 <= q < kept.len() implies (#[trigger] kept[q]) < d by {
                if q == 0 {
                } else {
                }
            }
        }
        lemma_flat_bound(kept, d);
        lemma_unflat_flat(kept, d);
        assert(kept.drop_last() =~= seq![i as usize]);
        assert(seq![i as usize].drop_last() =~= Seq::<usize>::empty());
        assert(flat_of(Seq::<usize>::empty(), d) == 0);
        assert(0 * d == 0) by (nonlinear_arith);
        assert(flat_of(seq![i as usize], d) == i);
        assert(flat_of(kept, d) == i * d + j);
        let o = i * d + j;
        let t1 = ricci_terms(&riemann.components, d, i, j);
        let t2 = riemann.components.contraction_terms(0, 2, o as nat);
        assert forall|c: int| 0 <= c < d implies #[trigger] t1[c] == t2[c] by {
            assert(with_pair(kept, 0, 2, c as usize) =~= seq![c as usize, i as usize, c as usize, j as usize]);
            lemma_flat_quad(c as usize, i as usize, c as usize, j as usize, d);
        }
        assert(t1 =~= t2);
        lemma_folds_to_unique(plus, zero, t1, ricci.components.data@[o], contracted.data@[o]);
    }
}

} // verus!

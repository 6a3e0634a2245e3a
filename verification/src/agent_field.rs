//! Agent field theory — modeling agent interactions as tensor fields on a manifold.
//!
//! This models agents as points on a manifold where:
//! - The metric encodes interaction strength between agents
//! - Tensor fields represent agent properties (beliefs, actions, influence)
//! - Curvature represents inherent conflict or tension in the agent space
//! - Geodesics represent optimal influence propagation paths
use vstd::prelude::*;
use vstd::arithmetic::div_mod::lemma_fundamental_div_mod_converse;
use crate::christoffel::ChristoffelSymbols;
use crate::covariant::{
    christoffel_readable, geodesic_acceleration_with, geodesic_terms, matrix_at, matrix_readable,
};
use crate::fold::{fold_trace, folds_to, lemma_fold_trace_push};
use crate::layout::num_components;
use crate::lie::{lie_derivative_scalar_with, scalar_lie_terms};
use crate::metric::{lemma_matrix_position, MetricTensor};
use crate::ricci::{ricci_terms, scalar_curvature_terms, RicciTensor, ScalarCurvature};
use crate::riemann::{quad_readable, RiemannTensor};
use crate::tensor::{lemma_num_components_small, IndexType, Tensor};

verus! {

/// Configuration for an agent field theory.
#[derive(Clone, Copy, Debug)]
pub struct AgentFieldConfig<T> {
    /// Dimension of the agent state space.
    pub dim: usize,
    /// Agent interaction strength.
    pub coupling: T,
    /// Whether to include self-interaction.
    pub self_interaction: bool,
}

/// Result of analyzing an agent field.
#[derive(Clone, Debug)]
pub struct AgentFieldAnalysis<T> {
    /// Dimension.
    pub dim: usize,
    /// Scalar curvature of the agent manifold.
    pub curvature: T,
    /// Whether the manifold is flat (no inherent conflict).
    pub is_flat: bool,
    /// Ricci tensor eigenvalues (interaction modes), approximated by its diagonal.
    pub ricci_eigenvalues: Vec<T>,
    /// Agent field energy.
    pub field_energy: T,
}

/// Agent field theory on a manifold.
pub struct AgentFieldTheory<T> {
    pub config: AgentFieldConfig<T>,
    pub metric: MetricTensor<T>,
    pub gamma: ChristoffelSymbols<T>,
}

/// The tuples (g_ij, a^i, b^i, a^j, b^j), (i, j) row by row, that the
/// influence distance sums as g_ij (a^i - b^i)(a^j - b^j).
pub open spec fn influence_terms<T>(g: &Tensor<T>, a: &Tensor<T>, b: &Tensor<T>, dim: nat) -> Seq<
    (T, T, T, T, T),
> {
    Seq::new(
        dim * dim,
        |o: int|
            {
                let i = o / (dim as int);
                let j = o % (dim as int);
                (g.data@[i * g.dim + j], a.data@[i], b.data@[i], a.data@[j], b.data@[j])
            },
    )
}

/// The triples (g^ij, ∂φ/∂x^i, ∂φ/∂x^j), (i, j) row by row, of the kinetic
/// part of the field energy.
pub open spec fn energy_terms<T>(g_inv: &Tensor<T>, grad: &Tensor<T>, dim: nat) -> Seq<(T, T, T)> {
    Seq::new(
        dim * dim,
        |o: int|
            {
                let i = o / (dim as int);
                let j = o % (dim as int);
                (g_inv.data@[i * g_inv.dim + j], grad.data@[i], grad.data@[j])
            },
    )
}

/// The value of a belief field that enters its potential: the scalar itself
/// for a rank-0 field, `zero` for any other.
pub open spec fn belief_value<T>(belief_field: &Tensor<T>, zero: T) -> T {
    if belief_field.index_types@.len() == 0 {
        belief_field.data@[0]
    } else {
        zero
    }
}

/// `ricci` is a Ricci tensor that `RicciTensor::from_riemann_with` may
/// return for these arguments.
pub open spec fn ricci_from<T: Copy, P: Fn(T, T) -> T>(
    riemann: &RiemannTensor<T>,
    zero: T,
    plus: P,
    ricci: RicciTensor<T>,
) -> bool {
    &&& ricci.dim == riemann.dim
    &&& ricci.components.dim == riemann.dim
    &&& ricci.components.index_types@ == RicciTensor::<T>::ricci_types()
    &&& ricci.components.wf()
    &&& forall|i: int, j: int|
        0 <= i < riemann.dim && 0 <= j < riemann.dim ==> folds_to(
            plus,
            zero,
            ricci_terms(&riemann.components, riemann.dim as nat, i, j),
            #[trigger] ricci.components.data@[i * riemann.dim + j],
        )
}

/// The diagonal R_ii of a Ricci tensor for i below `dim`.
pub open spec fn ricci_diagonal<T>(ricci: &RicciTensor<T>, dim: nat) -> Seq<T> {
    Seq::new(dim, |i: int| matrix_at(&ricci.components, i, i))
}

impl<T: Copy> AgentFieldTheory<T> {
    /// Create a new agent field theory with a given metric and Christoffel symbols.
    pub fn new(config: AgentFieldConfig<T>, metric: MetricTensor<T>, gamma: ChristoffelSymbols<T>) -> (r:
        Self)
        ensures
            r.config == config,
            r.metric == metric,
            r.gamma == gamma,
    {
        AgentFieldTheory { config, metric, gamma }
    }

    /// Create a flat agent space (no inherent tension) of dimension `dim` on
    /// the given flat metric: coupling `unit_coupling`, self-interaction on,
    /// and all Christoffel symbols `zero`.
    pub fn flat_with(dim: usize, metric: MetricTensor<T>, unit_coupling: T, zero: T) -> (r: Self)
        requires
            num_components(dim as nat, 3) <= usize::MAX,
        ensures
            r.config == (AgentFieldConfig { dim, coupling: unit_coupling, self_interaction: true }),
            r.metric == metric,
            r.gamma.dim == dim,
            r.gamma.second_kind.index_types@ == ChristoffelSymbols::<T>::second_kind_types(),
            r.gamma.second_kind.dim == dim,
            r.gamma.second_kind.wf(),
            forall|p: int|
                0 <= p < r.gamma.second_kind.data@.len() ==> r.gamma.second_kind.data@[p] == zero,
            r.gamma.first_kind.index_types@ == ChristoffelSymbols::<T>::first_kind_types(),
            r.gamma.first_kind.dim == dim,
            r.gamma.first_kind.wf(),
            forall|p: int|
                0 <= p < r.gamma.first_kind.data@.len() ==> r.gamma.first_kind.data@[p] == zero,
    {
        let config = AgentFieldConfig { dim, coupling: unit_coupling, self_interaction: true };
        let gamma = ChristoffelSymbols::zero(dim, zero);
        AgentFieldTheory { config, metric, gamma }
    }

    /// The influence distance and its decay: `step` is folded from `zero`
    /// over `influence_terms` (giving g_ij (a^i - b^i)(a^j - b^j) summed for
    /// `step(s, (g, ai, bi, aj, bj)) = s + g * (ai - bi) * (aj - bj)`), and the
    /// result is `decay(coupling, distance)`, exp(-coupling · distance) for
    /// the exponential decay.
    pub fn influence_with<S: Fn(T, (T, T, T, T, T)) -> T, D: Fn(T, T) -> T>(
        &self,
        agent_a: &Tensor<T>,
        agent_b: &Tensor<T>,
        zero: T,
        step: S,
        decay: D,
    ) -> (r: T)
        requires
            self.config.dim * self.config.dim <= usize::MAX,
            agent_a.index_types@.len() == 1,
            agent_b.index_types@.len() == 1,
            agent_a.data@.len() >= self.config.dim,
            agent_b.data@.len() >= self.config.dim,
            matrix_readable(&self.metric.g, self.config.dim as nat),
            forall|acc: T, x: (T, T, T, T, T)| call_requires(step, (acc, x)),
            forall|c: T, d: T| call_requires(decay, (c, d)),
        ensures
            exists|dist: T|
                #[trigger] folds_to(
                    step,
                    zero,
                    influence_terms(&self.metric.g, agent_a, agent_b, self.config.dim as nat),
                    dist,
                ) && call_ensures(decay, (self.config.coupling, dist), r),
    {
        let dim = self.config.dim;
        let ghost d = dim as nat;
        let ghost terms = influence_terms(&self.metric.g, agent_a, agent_b, d);
        let mut dist = zero;
        let ghost mut partials: Seq<T> = seq![zero];
        proof {
            assert(terms.take(0) =~= Seq::<(T, T, T, T, T)>::empty());
        }
        let mut i: usize = 0;
        assert(i * dim == 0) by (nonlinear_arith)
            requires
                i == 0,
        ;
        while i < dim
            invariant
                i <= dim,
                d == dim,
                dim == self.config.dim,
                dim * dim <= usize::MAX,
                terms == influence_terms(&self.metric.g, agent_a, agent_b, d),
                agent_a.index_types@.len() == 1,
                agent_b.index_types@.len() == 1,
                agent_a.data@.len() >= dim,
                agent_b.data@.len() >= dim,
                matrix_readable(&self.metric.g, d),
                forall|acc: T, x: (T, T, T, T, T)| call_requires(step, (acc, x)),
                fold_trace(step, zero, terms.take(i * dim), partials),
                partials.last() == dist,
            decreases dim - i,
        {
            assert(i * dim + dim <= dim * dim) by (nonlinear_arith)
                requires
                    i < dim,
            ;
            let mut j: usize = 0;
            while j < dim
                invariant
                    i < dim,
                    j <= dim,
                    d == dim,
                    i * dim + dim <= dim * dim,
                    terms == influence_terms(&self.metric.g, agent_a, agent_b, d),
                    agent_a.index_types@.len() == 1,
                    agent_b.index_types@.len() == 1,
                    agent_a.data@.len() >= dim,
                    agent_b.data@.len() >= dim,
                    matrix_readable(&self.metric.g, d),
                    forall|acc: T, x: (T, T, T, T, T)| call_requires(step, (acc, x)),
                    fold_trace(step, zero, terms.take(i * dim + j), partials),
                    partials.last() == dist,
                decreases dim - j,
            {
                proof {
                    lemma_matrix_position(i as nat, j as nat, d, self.metric.g.dim as nat);
                    lemma_fundamental_div_mod_converse(
                        (i * dim + j) as int,
                        dim as int,
                        i as int,
                        j as int,
                    );
                }
                let item = (
                    self.metric.get(i, j),
                    agent_a.get1(i),
                    agent_b.get1(i),
                    agent_a.get1(j),
                    agent_b.get1(j),
                );
                let ghost o = i * dim + j;
                assert(item == terms[o as int]);
                dist = step(dist, item);
                proof {
                    lemma_fold_trace_push(step, zero, terms.take(o as int), partials, item, dist);
                    partials = partials.push(dist);
                    assert(terms.take(o as int).push(item) =~= terms.take(o + 1));
                }
                j = j + 1;
            }
            assert(i * dim + dim == (i + 1) * dim) by (nonlinear_arith);
            i = i + 1;
        }
        assert(terms.take(dim * dim) =~= terms);
        assert(folds_to(step, zero, terms, dist));
        decay(self.config.coupling, dist)
    }

    /// Compute the field energy of a belief field (scalar field): `step` is
    /// folded from `zero` over `energy_terms` (g^ij ∂φ/∂x^i ∂φ/∂x^j summed for
    /// `step(s, (g, x, y)) = s + g * x * y`), and the result is
    /// `finish(sum, coupling, φ)` with φ the field's value (`zero` unless the
    /// field is a scalar), ½ sum + ½ coupling φ² for the energy formula.
    pub fn field_energy_with<S: Fn(T, (T, T, T)) -> T, E: Fn(T, T, T) -> T>(
        &self,
        belief_field: &Tensor<T>,
        grad: &Tensor<T>,
        zero: T,
        step: S,
        finish: E,
    ) -> (r: T)
        requires
            self.config.dim * self.config.dim <= usize::MAX,
            self.config.dim > 0 ==> grad.index_types@.len() == 1,
            grad.data@.len() >= self.config.dim,
            matrix_readable(&self.metric.g_inv, self.config.dim as nat),
            belief_field.index_types@.len() == 0 ==> belief_field.data@.len() > 0,
            forall|acc: T, x: (T, T, T)| call_requires(step, (acc, x)),
            forall|e: T, c: T, p: T| call_requires(finish, (e, c, p)),
        ensures
            exists|sum: T|
                #[trigger] folds_to(
                    step,
                    zero,
                    energy_terms(&self.metric.g_inv, grad, self.config.dim as nat),
                    sum,
                ) && call_ensures(
                    finish,
                    (sum, self.config.coupling, belief_value(belief_field, zero)),
                    r,
                ),
    {
        let dim = self.config.dim;
        let ghost d = dim as nat;
        let ghost terms = energy_terms(&self.metric.g_inv, grad, d);
        let mut energy = zero;
        let ghost mut partials: Seq<T> = seq![zero];
        proof {
            assert(terms.take(0) =~= Seq::<(T, T, T)>::empty());
        }
        let mut i: usize = 0;
        assert(i * dim == 0) by (nonlinear_arith)
            requires
                i == 0,
        ;
        while i < dim
            invariant
                i <= dim,
                d == dim,
                dim == self.config.dim,
                dim * dim <= usize::MAX,
                terms == energy_terms(&self.metric.g_inv, grad, d),
                dim > 0 ==> grad.index_types@.len() == 1,
                grad.data@.len() >= dim,
                matrix_readable(&self.metric.g_inv, d),
                forall|acc: T, x: (T, T, T)| call_requires(step, (acc, x)),
                fold_trace(step, zero, terms.take(i * dim), partials),
                partials.last() == energy,
            decreases dim - i,
        {
            assert(i * dim + dim <= dim * dim) by (nonlinear_arith)
                requires
                    i < dim,
            ;
            let mut j: usize = 0;
            while j < dim
                invariant
                    i < dim,
                    j <= dim,
                    d == dim,
                    i * dim + dim <= dim * dim,
                    terms == energy_terms(&self.metric.g_inv, grad, d),
                    dim > 0 ==> grad.index_types@.len() == 1,
                    grad.data@.len() >= dim,
                    matrix_readable(&self.metric.g_inv, d),
                    forall|acc: T, x: (T, T, T)| call_requires(step, (acc, x)),
                    fold_trace(step, zero, terms.take(i * dim + j), partials),
                    partials.last() == energy,
                decreases dim - j,
            {
                proof {
                    lemma_matrix_position(i as nat, j as nat, d, self.metric.g_inv.dim as nat);
                    lemma_fundamental_div_mod_converse(
                        (i * dim + j) as int,
                        dim as int,
                        i as int,
                        j as int,
                    );
                }
                let item = (self.metric.get_inv(i, j), grad.get1(i), grad.get1(j));
                let ghost o = i * dim + j;
                assert(item == terms[o as int]);
                energy = step(energy, item);
                proof {
                    lemma_fold_trace_push(step, zero, terms.take(o as int), partials, item, energy);
                    partials = partials.push(energy);
                    assert(terms.take(o as int).push(item) =~= terms.take(o + 1));
                }
                j = j + 1;
            }
            assert(i * dim + dim == (i + 1) * dim) by (nonlinear_arith);
            i = i + 1;
        }
        assert(terms.take(dim * dim) =~= terms);
        assert(folds_to(step, zero, terms, energy));
        let phi = if belief_field.index_types.len() == 0 {
            belief_field.data[0]
        } else {
            zero
        };
        finish(energy, self.config.coupling, phi)
    }

    /// Compute the rate of change of a belief field along an agent's
    /// trajectory: the Lie derivative of the belief along the velocity.
    pub fn belief_transport_rate_with<F: Fn(T, (T, T)) -> T>(
        &self,
        velocity: &Tensor<T>,
        belief_grad: &Tensor<T>,
        zero: T,
        step: F,
    ) -> (r: T)
        requires
            velocity.index_types@.len() == 1,
            belief_grad.index_types@.len() == 1,
            velocity.dim == belief_grad.dim,
            velocity.data@.len() >= velocity.dim,
            belief_grad.data@.len() >= velocity.dim,
            forall|acc: T, x: (T, T)| call_requires(step, (acc, x)),
        ensures
            folds_to(step, zero, scalar_lie_terms(velocity, belief_grad), r),
    {
        lie_derivative_scalar_with(velocity, belief_grad, zero, step)
    }

    /// Compute geodesic deviation — how nearby agents diverge: the geodesic
    /// acceleration of the velocity under this theory's connection.
    pub fn geodesic_deviation_with<F: Fn(T, (T, T, T)) -> T>(
        &self,
        velocity: &Tensor<T>,
        zero: T,
        step: F,
    ) -> (r: Tensor<T>)
        requires
            velocity.index_types@.len() == 1,
            velocity.dim == self.gamma.dim,
            velocity.data@.len() >= self.gamma.dim,
            self.gamma.dim * self.gamma.dim <= usize::MAX,
            christoffel_readable(&self.gamma),
            forall|acc: T, x: (T, T, T)| call_requires(step, (acc, x)),
        ensures
            r.dim == self.gamma.dim,
            r.index_types@ == seq![IndexType::Contravariant],
            r.wf(),
            forall|i: int|
                0 <= i < self.gamma.dim ==> folds_to(
                    step,
                    zero,
                    geodesic_terms(&self.gamma, velocity, i),
                    #[trigger] r.data@[i],
                ),
    {
        geodesic_acceleration_with(&self.gamma, velocity, zero, step)
    }

    /// Full analysis of the agent field manifold: the Ricci tensor of the
    /// Riemann tensor (`plus` folded from `zero`), the scalar curvature from
    /// it and the metric (`step` folded from `zero`), the Ricci diagonal as
    /// the interaction modes, flatness as `negligible(curvature)`, and a
    /// field energy of `zero`.
    pub fn analyze_with<P: Fn(T, T) -> T, S: Fn(T, (T, T)) -> T, N: Fn(T) -> bool>(
        &self,
        riemann: &RiemannTensor<T>,
        zero: T,
        plus: P,
        step: S,
        negligible: N,
    ) -> (a: AgentFieldAnalysis<T>)
        requires
            riemann.dim * riemann.dim <= usize::MAX,
            quad_readable(&riemann.components, riemann.dim as nat),
            self.metric.dim * self.metric.dim <= usize::MAX,
            self.metric.dim <= riemann.dim,
            self.config.dim <= riemann.dim,
            matrix_readable(&self.metric.g_inv, self.metric.dim as nat),
            forall|x: T, y: T| call_requires(plus, (x, y)),
            forall|acc: T, x: (T, T)| call_requires(step, (acc, x)),
            forall|x: T| call_requires(negligible, (x,)),
        ensures
            a.dim == self.config.dim,
            a.field_energy == zero,
            call_ensures(negligible, (a.curvature,), a.is_flat),
            exists|ricci: RicciTensor<T>|
                #[trigger] ricci_from(riemann, zero, plus, ricci) && folds_to(
                    step,
                    zero,
                    scalar_curvature_terms(
                        &self.metric.g_inv,
                        &ricci.components,
                        self.metric.dim as nat,
                    ),
                    a.curvature,
                ) && a.ricci_eigenvalues@ == ricci_diagonal(&ricci, self.config.dim as nat),
    {
        let ricci = RicciTensor::from_riemann_with(riemann, zero, plus);
        let ghost rd = riemann.dim as nat;
        proof {
            lemma_num_components_small(rd);
            if self.metric.dim > 0 {
                lemma_matrix_position(
                    (self.metric.dim - 1) as nat,
                    (self.metric.dim - 1) as nat,
                    rd,
                    rd,
                );
                assert((rd - 1) * rd + (rd - 1) < rd * rd) by (nonlinear_arith)
                    requires
                        rd > 0,
                ;
            }
        }
        let scalar = ScalarCurvature::from_ricci_with(&self.metric, &ricci, zero, step);
        let dim = self.config.dim;
        let mut eigenvalues: Vec<T> = Vec::new();
        let mut i: usize = 0;
        while i < dim
            invariant
                i <= dim,
                dim == self.config.dim,
                dim <= riemann.dim,
                ricci.components.dim == riemann.dim,
                ricci.components.index_types@.len() == 2,
                ricci.components.data@.len() == rd * rd,
                rd == riemann.dim,
                eigenvalues@ =~= ricci_diagonal(&ricci, i as nat),
            decreases dim - i,
        {
            proof {
                lemma_matrix_position(i as nat, i as nat, rd, rd);
                assert((rd - 1) * rd + (rd - 1) < rd * rd) by (nonlinear_arith)
                    requires
                        rd > 0,
                ;
            }
            eigenvalues.push(ricci.get(i, i));
            i = i + 1;
        }
        let curvature = scalar.get();
        let is_flat = negligible(curvature);
        assert(ricci_from(riemann, zero, plus, ricci));
        AgentFieldAnalysis {
            dim,
            curvature,
            is_flat,
            ricci_eigenvalues: eigenvalues,
            field_energy: zero,
        }
    }

    /// Full analysis with belief field: `analyze_with`, with the field energy
    /// of `field_energy_with` in place of `zero`.
    pub fn analyze_with_field_with<
        P: Fn(T, T) -> T,
        S: Fn(T, (T, T)) -> T,
        N: Fn(T) -> bool,
        ES: Fn(T, (T, T, T)) -> T,
        E: Fn(T, T, T) -> T,
    >(
        &self,
        riemann: &RiemannTensor<T>,
        belief_field: &Tensor<T>,
        grad: &Tensor<T>,
        zero: T,
        plus: P,
        step: S,
        negligible: N,
        energy_step: ES,
        finish: E,
    ) -> (a: AgentFieldAnalysis<T>)
        requires
            riemann.dim * riemann.dim <= usize::MAX,
            quad_readable(&riemann.components, riemann.dim as nat),
            self.metric.dim * self.metric.dim <= usize::MAX,
            self.metric.dim <= riemann.dim,
            self.config.dim <= riemann.dim,
            matrix_readable(&self.metric.g_inv, self.metric.dim as nat),
            self.config.dim * self.config.dim <= usize::MAX,
            self.config.dim > 0 ==> grad.index_types@.len() == 1,
            grad.data@.len() >= self.config.dim,
            matrix_readable(&self.metric.g_inv, self.config.dim as nat),
            belief_field.index_types@.len() == 0 ==> belief_field.data@.len() > 0,
            forall|x: T, y: T| call_requires(plus, (x, y)),
            forall|acc: T, x: (T, T)| call_requires(step, (acc, x)),
            forall|x: T| call_requires(negligible, (x,)),
            forall|acc: T, x: (T, T, T)| call_requires(energy_step, (acc, x)),
            forall|e: T, c: T, p: T| call_requires(finish, (e, c, p)),
        ensures
            a.dim == self.config.dim,
            call_ensures(negligible, (a.curvature,), a.is_flat),
            exists|ricci: RicciTensor<T>|
                #[trigger] ricci_from(riemann, zero, plus, ricci) && folds_to(
                    step,
                    zero,
                    scalar_curvature_terms(
                        &self.metric.g_inv,
                        &ricci.components,
                        self.metric.dim as nat,
                    ),
                    a.curvature,
                ) && a.ricci_eigenvalues@ == ricci_diagonal(&ricci, self.config.dim as nat),
            exists|sum: T|
                #[trigger] folds_to(
                    energy_step,
                    zero,
                    energy_terms(&self.metric.g_inv, grad, self.config.dim as nat),
                    sum,
                ) && call_ensures(
                    finish,
                    (sum, self.config.coupling, belief_value(belief_field, zero)),
                    a.field_energy,
                ),
    {
        let mut analysis = self.analyze_with(riemann, zero, plus, step, negligible);
        analysis.field_energy = self.field_energy_with(belief_field, grad, zero, energy_step, finish);
        analysis
    }
}

} // verus!

use lau_tensor_analysis::agent_field::{AgentFieldConfig, AgentFieldTheory};
use lau_tensor_analysis::christoffel::ChristoffelSymbols;
use lau_tensor_analysis::metric::{MetricSignature, MetricTensor};
use lau_tensor_analysis::ricci::{RicciTensor, ScalarCurvature};
use lau_tensor_analysis::riemann::RiemannTensor;
use lau_tensor_analysis::tensor::{IndexType, Tensor};
use nalgebra::DMatrix;

fn add_product(s: f64, (a, b): (f64, f64)) -> f64 {
    s + a * b
}

fn plus(a: f64, b: f64) -> f64 {
    a + b
}

fn difference(a: f64, b: f64) -> f64 {
    a - b
}

fn first_kind(a: f64, b: f64, c: f64) -> f64 {
    0.5 * (a + b - c)
}

fn curvature_step(v: f64, (a, b, c, e): (f64, f64, f64, f64)) -> f64 {
    v + (a * b - c * e)
}

fn geodesic_step(v: f64, (g, x, y): (f64, f64, f64)) -> f64 {
    v - g * x * y
}

fn influence_step(s: f64, (g, ai, bi, aj, bj): (f64, f64, f64, f64, f64)) -> f64 {
    let diff_i = ai - bi;
    let diff_j = aj - bj;
    s + g * diff_i * diff_j
}

fn exponential_decay(coupling: f64, dist: f64) -> f64 {
    (-coupling * dist).exp()
}

fn energy_step(s: f64, (g, x, y): (f64, f64, f64)) -> f64 {
    s + g * x * y
}

fn energy_total(kinetic: f64, coupling: f64, phi: f64) -> f64 {
    let e = kinetic * 0.5;
    e + 0.5 * coupling * phi * phi
}

fn flat_within(x: f64) -> bool {
    x.abs() < 1e-10
}

fn metric_from_rows(dim: usize, rows: Vec<f64>, signature: MetricSignature) -> MetricTensor<f64> {
    let m = DMatrix::from_row_slice(dim, dim, &rows);
    let inv = m.try_inverse().expect("Metric must be invertible");
    let mut inv_data = vec![0.0; dim * dim];
    for i in 0..dim {
        for j in 0..dim {
            inv_data[i * dim + j] = inv[(i, j)];
        }
    }
    MetricTensor {
        dim,
        g: Tensor::rank2(dim, [IndexType::Covariant, IndexType::Covariant], rows),
        g_inv: Tensor::rank2(dim, [IndexType::Contravariant, IndexType::Contravariant], inv_data),
        signature,
    }
}

fn flat_metric(dim: usize) -> MetricTensor<f64> {
    let mut rows = vec![0.0; dim * dim];
    for i in 0..dim {
        rows[i * dim + i] = 1.0;
    }
    metric_from_rows(dim, rows, MetricSignature::Riemannian)
}

fn flat_theory(dim: usize) -> AgentFieldTheory<f64> {
    AgentFieldTheory::flat_with(dim, flat_metric(dim), 1.0, 0.0)
}

#[test]
fn test_flat_agent_space() {
    let aft = flat_theory(3);
    assert_eq!(aft.config.dim, 3);
    assert!(aft.config.self_interaction);
}

#[test]
fn test_flat_agent_curvature() {
    let aft = flat_theory(3);
    let riemann = RiemannTensor::zero(3, 0.0);
    let analysis = aft.analyze_with(&riemann, 0.0, plus, add_product, flat_within);
    assert!(analysis.is_flat);
    assert!((analysis.curvature).abs() < 1e-10);
}

#[test]
fn test_agent_influence() {
    let aft = flat_theory(2);
    let a = Tensor::vector(2, vec![0.0, 0.0], IndexType::Contravariant);
    let b = Tensor::vector(2, vec![1.0, 1.0], IndexType::Contravariant);
    let inf = aft.influence_with(&a, &b, 0.0, influence_step, exponential_decay);
    assert!(inf > 0.0);
    assert!(inf <= 1.0);
}

#[test]
fn test_belief_transport() {
    let aft = flat_theory(2);
    let vel = Tensor::vector(2, vec![1.0, 0.0], IndexType::Contravariant);
    let grad = Tensor::vector(2, vec![0.5, 0.3], IndexType::Covariant);
    let rate = aft.belief_transport_rate_with(&vel, &grad, 0.0, add_product);
    assert!((rate - 0.5).abs() < 1e-10);
}

#[test]
fn test_geodesic_deviation_flat() {
    let aft = flat_theory(3);
    let vel = Tensor::vector(3, vec![1.0, 0.0, 0.0], IndexType::Contravariant);
    let dev = aft.geodesic_deviation_with(&vel, 0.0, geodesic_step);
    assert!(dev.data.iter().all(|&x| x.abs() < 1e-10));
}

#[test]
fn test_field_energy() {
    let aft = flat_theory(2);
    let phi = Tensor::scalar_with_dim(1.0, 2);
    let grad = Tensor::vector(2, vec![1.0, 1.0], IndexType::Covariant);
    let energy = aft.field_energy_with(&phi, &grad, 0.0, energy_step, energy_total);
    // 1/2 * (1 + 1) + 1/2 * 1 * 1 = 1.5
    assert!((energy - 1.5).abs() < 1e-10);
}

#[test]
fn test_sphere_agent_analysis() {
    let theta = std::f64::consts::FRAC_PI_4;
    let metric = metric_from_rows(2, vec![1.0, 0.0, 0.0, theta.sin().powi(2)], MetricSignature::Riemannian);
    let gamma = ChristoffelSymbols::from_metric_fn_with(
        &metric,
        |i, j, k| if i == 1 && j == 1 && k == 0 { 2.0 * theta.sin() * theta.cos() } else { 0.0 },
        first_kind,
        0.0,
        add_product,
    );
    let config = AgentFieldConfig { dim: 2, coupling: 1.0, self_interaction: true };
    let aft = AgentFieldTheory::new(config, metric, gamma);

    let dgamma_fn = |i: usize, j: usize, k: usize, l: usize| -> f64 {
        if i == 0 && j == 1 && k == 1 && l == 0 { -(2.0 * theta).cos() }
        else if i == 1 && j == 0 && k == 1 && l == 0 { -1.0 / theta.sin().powi(2) }
        else if i == 1 && j == 1 && k == 0 && l == 0 { -1.0 / theta.sin().powi(2) }
        else { 0.0 }
    };
    let mut riemann = RiemannTensor::from_christoffel_fn_with(&aft.gamma, dgamma_fn, 0.0, difference, curvature_step);
    riemann.compute_covariant_with(&aft.metric.g, 0.0, add_product);

    let analysis = aft.analyze_with(&riemann, 0.0, plus, add_product, flat_within);
    assert!(!analysis.is_flat);
    assert!((analysis.curvature - 2.0).abs() < 1e-6);
}

#[test]
fn influence_decays_with_the_metric_distance() {
    // g_ij (a - b)^i (a - b)^j = 2 on the flat plane for a = (0, 0), b = (1, 1).
    let aft = flat_theory(2);
    let a = Tensor::vector(2, vec![0.0, 0.0], IndexType::Contravariant);
    let b = Tensor::vector(2, vec![1.0, 1.0], IndexType::Contravariant);
    let inf = aft.influence_with(&a, &b, 0.0, influence_step, exponential_decay);
    assert!((inf - (-2.0f64).exp()).abs() < 1e-12);
    assert_eq!(aft.influence_with(&a, &a, 0.0, influence_step, exponential_decay), 1.0);
}

#[test]
fn influence_uses_the_off_diagonal_metric() {
    // g = [[2, 1], [1, 3]], a - b = (1, -1): 2 - 1 - 1 + 3 = 3, coupling 1.
    let metric = metric_from_rows(2, vec![2.0, 1.0, 1.0, 3.0], MetricSignature::Riemannian);
    let config = AgentFieldConfig { dim: 2, coupling: 1.0, self_interaction: true };
    let aft = AgentFieldTheory::new(config, metric, ChristoffelSymbols::zero(2, 0.0));
    let a = Tensor::vector(2, vec![1.0, 0.0], IndexType::Contravariant);
    let b = Tensor::vector(2, vec![0.0, 1.0], IndexType::Contravariant);
    let inf = aft.influence_with(&a, &b, 0.0, influence_step, exponential_decay);
    assert!((inf - (-3.0f64).exp()).abs() < 1e-12);
}

#[test]
fn field_energy_of_a_non_scalar_field_has_no_potential() {
    let aft = flat_theory(2);
    let field = Tensor::vector(2, vec![5.0, 5.0], IndexType::Covariant);
    let grad = Tensor::vector(2, vec![1.0, 2.0], IndexType::Covariant);
    let energy = aft.field_energy_with(&field, &grad, 0.0, energy_step, energy_total);
    assert_eq!(energy, 2.5);
}

#[test]
fn analysis_lists_the_ricci_diagonal() {
    let aft = flat_theory(2);
    let mut riemann = RiemannTensor::zero(2, 0.0);
    riemann.components.set4(1, 0, 1, 0, 3.0);
    let analysis = aft.analyze_with(&riemann, 0.0, plus, add_product, flat_within);
    assert_eq!(analysis.dim, 2);
    assert_eq!(analysis.ricci_eigenvalues, vec![3.0, 0.0]);
    assert_eq!(analysis.curvature, 3.0);
    assert!(!analysis.is_flat);
    assert_eq!(analysis.field_energy, 0.0);
}

#[test]
fn analysis_with_field_reports_the_field_energy() {
    let aft = flat_theory(2);
    let riemann = RiemannTensor::zero(2, 0.0);
    let phi = Tensor::scalar_with_dim(1.0, 2);
    let grad = Tensor::vector(2, vec![1.0, 1.0], IndexType::Covariant);
    let analysis = aft.analyze_with_field_with(
        &riemann, &phi, &grad, 0.0, plus, add_product, flat_within, energy_step, energy_total,
    );
    assert!(analysis.is_flat);
    assert_eq!(analysis.ricci_eigenvalues, vec![0.0, 0.0]);
    assert!((analysis.field_energy - 1.5).abs() < 1e-10);
}

#[test]
fn analysis_matches_ricci_and_scalar_curvature() {
    let aft = flat_theory(2);
    let mut riemann = RiemannTensor::zero(2, 0.0);
    riemann.components.set4(0, 1, 0, 1, 2.5);
    riemann.components.set4(1, 0, 1, 0, -1.5);
    let analysis = aft.analyze_with(&riemann, 0.0, plus, add_product, flat_within);
    let ricci = RicciTensor::from_riemann_with(&riemann, 0.0, plus);
    let scalar = ScalarCurvature::from_ricci_with(&aft.metric, &ricci, 0.0, add_product);
    assert_eq!(analysis.curvature, scalar.get());
    assert_eq!(analysis.ricci_eigenvalues, vec![ricci.get(0, 0), ricci.get(1, 1)]);
}

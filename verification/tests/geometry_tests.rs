use lau_tensor_analysis::christoffel::ChristoffelSymbols;
use lau_tensor_analysis::covariant::{
    covariant_derivative_covector_with, covariant_derivative_rank2_with, covariant_derivative_vector,
    covariant_derivative_with, geodesic_acceleration_with, is_geodesic_with,
    parallel_transport_condition_with,
};
use lau_tensor_analysis::metric::{MetricSignature, MetricTensor};
use lau_tensor_analysis::ricci::{RicciTensor, ScalarCurvature};
use lau_tensor_analysis::riemann::RiemannTensor;
use lau_tensor_analysis::tensor::{IndexType, Tensor};
use nalgebra::DMatrix;

fn add_product(s: f64, (a, b): (f64, f64)) -> f64 {
    s + a * b
}

fn sub_product(s: f64, (a, b): (f64, f64)) -> f64 {
    s - a * b
}

fn plus(a: f64, b: f64) -> f64 {
    a + b
}

fn difference(a: f64, b: f64) -> f64 {
    a - b
}

fn first_kind(a: f64, b: f64, c: f64) -> f64 {
    0.5 * (a + b - c)
}

fn curvature_step(v: f64, (a, b, c, e): (f64, f64, f64, f64)) -> f64 {
    v + (a * b - c * e)
}

fn geodesic_step(v: f64, (g, x, y): (f64, f64, f64)) -> f64 {
    v - g * x * y
}

fn within(tol: f64) -> impl Fn(f64, f64) -> bool {
    move |a: f64, b: f64| !((a - b).abs() > tol)
}

fn cancels_within(tol: f64) -> impl Fn(f64, f64) -> bool {
    move |a: f64, b: f64| !((a + b).abs() > tol)
}

fn vanishes_within(tol: f64) -> impl Fn(f64, f64, f64) -> bool {
    move |a: f64, b: f64, c: f64| !((a + b + c).abs() > tol)
}

fn below(tol: f64) -> impl Fn(f64) -> bool {
    move |a: f64| a.abs() < tol
}

fn metric_from_rows(dim: usize, rows: Vec<f64>, signature: MetricSignature) -> MetricTensor<f64> {
    let m = DMatrix::from_row_slice(dim, dim, &rows);
    let inv = m.try_inverse().expect("Metric must be invertible");
    let mut inv_data = vec![0.0; dim * dim];
    for i in 0..dim {
        for j in 0..dim {
            inv_data[i * dim + j] = inv[(i, j)];
        }
    }
    MetricTensor {
        dim,
        g: Tensor::rank2(dim, [IndexType::Covariant, IndexType::Covariant], rows),
        g_inv: Tensor::rank2(dim, [IndexType::Contravariant, IndexType::Contravariant], inv_data),
        signature,
    }
}

fn flat(dim: usize) -> MetricTensor<f64> {
    let mut rows = vec![0.0; dim * dim];
    for i in 0..dim {
        rows[i * dim + i] = 1.0;
    }
    metric_from_rows(dim, rows, MetricSignature::Riemannian)
}

fn minkowski(dim: usize) -> MetricTensor<f64> {
    let mut rows = vec![0.0; dim * dim];
    for i in 0..dim {
        rows[i * dim + i] = 1.0;
    }
    rows[0] = -1.0;
    metric_from_rows(dim, rows, MetricSignature::Lorentzian)
}

fn sphere_2_at_theta(theta: f64) -> MetricTensor<f64> {
    let sin2 = theta.sin().powi(2);
    metric_from_rows(2, vec![1.0, 0.0, 0.0, sin2], MetricSignature::Riemannian)
}

fn christoffel_from<G: Fn(usize, usize, usize) -> f64>(metric: &MetricTensor<f64>, dg: G) -> ChristoffelSymbols<f64> {
    ChristoffelSymbols::from_metric_fn_with(metric, dg, first_kind, 0.0, add_product)
}

/// Christoffel symbols of the unit 2-sphere at polar angle theta.
fn sphere_christoffel(metric: &MetricTensor<f64>, theta: f64) -> ChristoffelSymbols<f64> {
    christoffel_from(metric, |i, j, k| {
        if i == 1 && j == 1 && k == 0 { 2.0 * theta.sin() * theta.cos() } else { 0.0 }
    })
}

/// Riemann tensor of the unit 2-sphere at polar angle theta, with its
/// covariant form.
fn sphere_riemann(metric: &MetricTensor<f64>, gamma: &ChristoffelSymbols<f64>, theta: f64) -> RiemannTensor<f64> {
    let dgamma_fn = |i: usize, j: usize, k: usize, l: usize| -> f64 {
        if i == 0 && j == 1 && k == 1 && l == 0 { -(2.0 * theta).cos() }
        else if i == 1 && j == 0 && k == 1 && l == 0 { -1.0 / theta.sin().powi(2) }
        else if i == 1 && j == 1 && k == 0 && l == 0 { -1.0 / theta.sin().powi(2) }
        else { 0.0 }
    };
    let mut riemann = RiemannTensor::from_christoffel_fn_with(gamma, dgamma_fn, 0.0, difference, curvature_step);
    riemann.compute_covariant_with(&metric.g, 0.0, add_product);
    riemann
}

// ─── Christoffel symbols ───

#[test]
fn test_flat_christoffel_zero() {
    let gamma = ChristoffelSymbols::zero(3, 0.0);
    assert_eq!(gamma.get(0, 0, 0), 0.0);
    assert!(gamma.is_symmetric_lower_with(within(1e-10)));
}

#[test]
fn test_flat_metric_christoffel() {
    // Flat metric has zero derivatives, so zero Christoffel symbols
    let metric = flat(3);
    let gamma = christoffel_from(&metric, |_, _, _| 0.0);
    assert_eq!(gamma.get(0, 0, 0), 0.0);
    assert_eq!(gamma.get(1, 0, 0), 0.0);
}

#[test]
fn test_sphere_christoffel() {
    // 2-sphere at θ = π/4
    let theta = std::f64::consts::FRAC_PI_4;
    let metric = sphere_2_at_theta(theta);
    let gamma = sphere_christoffel(&metric, theta);

    // Γ^θ_φφ = -sinθ cosθ
    let expected = -theta.sin() * theta.cos();
    assert!((gamma.get(0, 1, 1) - expected).abs() < 1e-10,
        "Γ^θ_φφ = {}, expected {}", gamma.get(0, 1, 1), expected);

    // Γ^φ_θφ = Γ^φ_φθ = cosθ/sinθ = cotθ
    let expected2 = theta.cos() / theta.sin();
    assert!((gamma.get(1, 0, 1) - expected2).abs() < 1e-10,
        "Γ^φ_θφ = {}, expected {}", gamma.get(1, 0, 1), expected2);
    assert!((gamma.get(1, 1, 0) - expected2).abs() < 1e-10);

    assert!(gamma.is_symmetric_lower_with(within(1e-10)));
}

#[test]
fn test_christoffel_first_kind_symmetry() {
    // Γ_{kij} should be symmetric in (i,j)
    let metric = sphere_2_at_theta(std::f64::consts::FRAC_PI_4);
    let gamma = christoffel_from(&metric, |i, j, k| {
        if i == 1 && j == 1 && k == 0 { 2.0 * std::f64::consts::FRAC_PI_4.sin() * std::f64::consts::FRAC_PI_4.cos() } else { 0.0 }
    });
    for k in 0..2 {
        for i in 0..2 {
            for j in 0..2 {
                assert!((gamma.get_first(k, i, j) - gamma.get_first(k, j, i)).abs() < 1e-10);
            }
        }
    }
}

#[test]
fn test_metric_compatibility_sphere() {
    let theta = std::f64::consts::FRAC_PI_4;
    let metric = sphere_2_at_theta(theta);
    let gamma = sphere_christoffel(&metric, theta);
    assert!(gamma.is_symmetric_lower_with(within(1e-10)));
}

#[test]
fn test_christoffel_symmetry_general_metric() {
    // Create a general 2D metric and verify Christoffel symmetry
    let metric = metric_from_rows(2, vec![2.0, 0.5, 0.5, 3.0], MetricSignature::Riemannian);

    // Assume some non-trivial derivatives
    let gamma = christoffel_from(&metric, |i, j, k| {
        match (i, j, k) {
            (0, 0, 0) => 0.1,
            (0, 0, 1) => 0.2,
            (0, 1, 0) => 0.2,
            (0, 1, 1) => 0.3,
            (1, 0, 0) => 0.2,
            (1, 0, 1) => 0.3,
            (1, 1, 0) => 0.3,
            (1, 1, 1) => -0.1,
            _ => 0.0,
        }
    });

    assert!(gamma.is_symmetric_lower_with(within(1e-10)));
}

#[test]
fn asymmetric_derivatives_break_lower_symmetry() {
    // ∂g_01/∂x^1 without the matching ∂g_10/∂x^1 is not the derivative of a
    // symmetric metric, and the symbols it gives are not symmetric.
    let metric = flat(2);
    let gamma = christoffel_from(&metric, |i, j, k| if (i, j, k) == (0, 1, 1) { 1.0 } else { 0.0 });
    assert!(!gamma.is_symmetric_lower_with(within(1e-10)));
}

#[test]
fn second_kind_raises_the_first_index_with_the_inverse_metric() {
    // With g = diag(2, 4), g^kl = diag(1/2, 1/4), and ∂g_00/∂x^0 = 1,
    // Γ_{000} = ½ and Γ^0_{00} = ¼.
    let metric = metric_from_rows(2, vec![2.0, 0.0, 0.0, 4.0], MetricSignature::Riemannian);
    let gamma = christoffel_from(&metric, |i, j, k| if (i, j, k) == (0, 0, 0) { 1.0 } else { 0.0 });
    assert_eq!(gamma.get_first(0, 0, 0), 0.5);
    assert_eq!(gamma.get(0, 0, 0), 0.25);
    assert_eq!(gamma.get(1, 0, 0), 0.0);
}

// ─── Covariant derivatives and geodesics ───

#[test]
fn test_flat_covariant_derivative() {
    // In flat space, covariant derivative = partial derivative
    let gamma = ChristoffelSymbols::zero(3, 0.0);
    let v = Tensor::vector(3, vec![1.0, 2.0, 3.0], IndexType::Contravariant);
    let dv = Tensor::rank2(3, [IndexType::Contravariant, IndexType::Covariant], vec![
        0.0, 0.0, 0.0,
        0.0, 0.0, 0.0,
        0.0, 0.0, 0.0,
    ]);
    let result = covariant_derivative_with(&gamma, &v, &dv, add_product);
    // All zeros
    assert!(result.data.iter().all(|&x| x.abs() < 1e-10));
}

#[test]
fn test_geodesic_flat_space() {
    // Any constant velocity is a geodesic in flat space
    let gamma = ChristoffelSymbols::zero(3, 0.0);
    let v = Tensor::vector(3, vec![1.0, 2.0, 3.0], IndexType::Contravariant);
    assert!(is_geodesic_with(&gamma, &v, 0.0, geodesic_step, below(1e-10)));
}

#[test]
fn test_geodesic_acceleration_flat() {
    let gamma = ChristoffelSymbols::zero(3, 0.0);
    let v = Tensor::vector(3, vec![1.0, 0.0, 0.0], IndexType::Contravariant);
    let accel = geodesic_acceleration_with(&gamma, &v, 0.0, geodesic_step);
    assert!(accel.data.iter().all(|&x| x.abs() < 1e-10));
}

#[test]
fn test_covariant_derivative_covector_flat() {
    let gamma = ChristoffelSymbols::zero(2, 0.0);
    let omega = Tensor::vector(2, vec![1.0, 2.0], IndexType::Covariant);
    let domega = Tensor::rank2(2, [IndexType::Covariant, IndexType::Covariant], vec![
        0.5, 0.0,
        0.0, 0.5,
    ]);
    let result = covariant_derivative_covector_with(&gamma, &omega, &domega, sub_product);
    // In flat space, equals partial derivative
    assert!((result.get2(0, 0) - 0.5).abs() < 1e-10);
    assert!((result.get2(1, 1) - 0.5).abs() < 1e-10);
}

#[test]
fn test_parallel_transport_flat() {
    let gamma = ChristoffelSymbols::zero(2, 0.0);
    let v = Tensor::vector(2, vec![1.0, 0.0], IndexType::Contravariant);
    let dv = Tensor::rank2(2, [IndexType::Contravariant, IndexType::Covariant], vec![0.0; 4]);
    assert!(parallel_transport_condition_with(&gamma, &v, &dv, add_product, below(1e-10)));
}

#[test]
fn test_geodesic_on_sphere() {
    // Great circle on sphere: at θ = π/2, velocity along φ direction
    let theta = std::f64::consts::FRAC_PI_2;
    let metric = sphere_2_at_theta(theta);
    let gamma = sphere_christoffel(&metric, theta);

    // Velocity purely along φ: (0, 1)
    let vel = Tensor::vector(2, vec![0.0, 1.0], IndexType::Contravariant);
    let accel = geodesic_acceleration_with(&gamma, &vel, 0.0, geodesic_step);

    // At θ = π/2, Γ^θ_φφ = -sinθ cosθ = 0, so a^θ = 0
    // Γ^φ_θφ = cot(π/2) = 0, so a^φ = 0
    assert!(accel.data.iter().all(|&x| x.abs() < 1e-10),
        "Great circle should be geodesic: accel = {:?}", accel.data);
}

#[test]
fn test_geodesic_sphere_meridian() {
    // Meridian on sphere: velocity purely along θ
    let theta = std::f64::consts::FRAC_PI_4;
    let metric = sphere_2_at_theta(theta);
    let gamma = sphere_christoffel(&metric, theta);

    let vel = Tensor::vector(2, vec![1.0, 0.0], IndexType::Contravariant);
    let accel = geodesic_acceleration_with(&gamma, &vel, 0.0, geodesic_step);

    // Γ^θ_θθ = 0, Γ^φ_θθ = 0
    assert!(accel.data.iter().all(|&x| x.abs() < 1e-10));
}

#[test]
fn latitude_circle_is_not_a_geodesic() {
    // Away from the equator, moving along φ accelerates towards the equator:
    // a^θ = -Γ^θ_φφ = sinθ cosθ.
    let theta = std::f64::consts::FRAC_PI_4;
    let metric = sphere_2_at_theta(theta);
    let gamma = sphere_christoffel(&metric, theta);
    let vel = Tensor::vector(2, vec![0.0, 1.0], IndexType::Contravariant);
    let accel = geodesic_acceleration_with(&gamma, &vel, 0.0, geodesic_step);
    assert!((accel.get1(0) - theta.sin() * theta.cos()).abs() < 1e-10);
    assert!(!is_geodesic_with(&gamma, &vel, 0.0, geodesic_step, below(1e-10)));
}

#[test]
fn covariant_derivative_adds_the_connection_term() {
    // ∇_k V^i = ∂V^i/∂x^k + Γ^i_{jk} V^j with the sphere symbols at π/4.
    let theta = std::f64::consts::FRAC_PI_4;
    let metric = sphere_2_at_theta(theta);
    let gamma = sphere_christoffel(&metric, theta);
    let v = Tensor::vector(2, vec![0.0, 1.0], IndexType::Contravariant);
    let dv = Tensor::rank2(2, [IndexType::Contravariant, IndexType::Covariant], vec![0.0; 4]);
    let r = covariant_derivative_with(&gamma, &v, &dv, add_product);
    // (i, k) = (0, 1): Γ^0_{11} V^1 = -sinθ cosθ; (1, 0): Γ^1_{10} V^1 = cotθ
    assert!((r.get2(0, 1) + theta.sin() * theta.cos()).abs() < 1e-10);
    assert!((r.get2(1, 0) - theta.cos() / theta.sin()).abs() < 1e-10);
    assert!(!parallel_transport_condition_with(&gamma, &v, &dv, add_product, below(1e-10)));
}

#[test]
fn covariant_derivative_of_mixed_rank2_tensor() {
    // ∇_k T^i_j = ∂T^i_j/∂x^k + Γ^i_{lk} T^l_j - Γ^l_{jk} T^i_l; for the
    // identity T^i_j = δ^i_j the two connection terms cancel.
    let theta = std::f64::consts::FRAC_PI_3;
    let metric = sphere_2_at_theta(theta);
    let gamma = sphere_christoffel(&metric, theta);
    let t = Tensor::rank2(2, [IndexType::Contravariant, IndexType::Covariant], vec![1.0, 0.0, 0.0, 1.0]);
    let dt = Tensor::zeros(2, vec![IndexType::Contravariant, IndexType::Covariant, IndexType::Covariant], 0.0);
    let plus_step: fn(f64, (f64, f64)) -> f64 = add_product;
    let minus_step: fn(f64, (f64, f64)) -> f64 = sub_product;
    let r = covariant_derivative_rank2_with(&gamma, &t, &dt, plus_step, minus_step);
    assert_eq!(r.index_types, vec![IndexType::Contravariant, IndexType::Covariant, IndexType::Covariant]);
    assert!(r.data.iter().all(|&x| x.abs() < 1e-12));
    // The metric itself, g_ij, is covariantly constant.
    let dg = {
        let mut d = Tensor::zeros(2, vec![IndexType::Covariant; 3], 0.0);
        d.set3(1, 1, 0, 2.0 * theta.sin() * theta.cos());
        d
    };
    let rg = covariant_derivative_rank2_with(&gamma, &metric.g, &dg, plus_step, minus_step);
    assert!(rg.data.iter().all(|&x| x.abs() < 1e-12), "∇g = {:?}", rg.data);
}

#[test]
fn vector_covariant_derivative_without_connection_is_the_derivative() {
    let gamma = ChristoffelSymbols::zero(2, 0.0);
    let dt = Tensor::rank2(2, [IndexType::Contravariant, IndexType::Covariant], vec![1.0, 2.0, 3.0, 4.0]);
    let r = covariant_derivative_vector(&gamma, &dt, add_product);
    assert_eq!(r.index_types, vec![IndexType::Contravariant, IndexType::Covariant]);
    assert_eq!(r.data, dt.data);
}

#[test]
fn vector_covariant_derivative_reads_the_field_from_the_derivative_data() {
    let mut gamma = ChristoffelSymbols::zero(2, 0.0);
    // Γ^0_{10} = 1: ∇_0 T^0 = ∂T^0/∂x^0 + Γ^0_{10} T^1, with T^1 = dt.data[1].
    gamma.second_kind.set3(0, 1, 0, 1.0);
    let dt = Tensor::rank2(2, [IndexType::Contravariant, IndexType::Covariant], vec![1.0, 2.0, 3.0, 4.0]);
    let r = covariant_derivative_vector(&gamma, &dt, add_product);
    assert_eq!(r.data, vec![3.0, 2.0, 3.0, 4.0]);
}

#[test]
fn vector_covariant_derivative_in_dimension_zero_is_empty() {
    let gamma = ChristoffelSymbols::zero(0, 0.0);
    let dt = Tensor::rank2(0, [IndexType::Contravariant, IndexType::Covariant], vec![]);
    let r = covariant_derivative_vector(&gamma, &dt, add_product);
    assert!(r.data.is_empty());
}

// ─── Riemann tensor ───

#[test]
fn test_flat_riemann_zero() {
    let riemann = RiemannTensor::zero(3, 0.0);
    for i in 0..3 {
        for j in 0..3 {
            for k in 0..3 {
                for l in 0..3 {
                    assert_eq!(riemann.get(i, j, k, l), 0.0);
                }
            }
        }
    }
}

#[test]
fn test_flat_riemann_symmetries() {
    let riemann = RiemannTensor::zero(3, 0.0);
    assert!(riemann.is_antisymmetric_kl_with(cancels_within(1e-10)));
    assert!(riemann.satisfies_bianchi_identity_with(vanishes_within(1e-10)));
}

#[test]
fn test_sphere_riemann_nonzero() {
    // 2-sphere at θ = π/4
    let theta = std::f64::consts::FRAC_PI_4;
    let metric = sphere_2_at_theta(theta);
    let gamma = sphere_christoffel(&metric, theta);
    let riemann = sphere_riemann(&metric, &gamma, theta);

    // On a sphere of radius 1, R_θφθφ should equal sin²θ
    let r_0101 = riemann.get_cov(0, 1, 0, 1);
    assert!((r_0101 - theta.sin().powi(2)).abs() < 1e-8,
        "R_θφθφ = {}, expected {}", r_0101, theta.sin().powi(2));
}

#[test]
fn test_sphere_riemann_symmetries() {
    let theta = std::f64::consts::FRAC_PI_4;
    let metric = sphere_2_at_theta(theta);
    let gamma = sphere_christoffel(&metric, theta);
    let riemann = sphere_riemann(&metric, &gamma, theta);

    assert!(riemann.is_antisymmetric_kl_with(cancels_within(1e-8)));
    assert!(riemann.is_antisymmetric_ij_cov_with(cancels_within(1e-8)));
    assert!(riemann.is_pair_symmetric_with(within(1e-8)));
    assert!(riemann.satisfies_bianchi_identity_with(vanishes_within(1e-8)));
}

#[test]
fn test_bianchi_identity() {
    // For flat space, Bianchi identity is trivially satisfied
    let riemann = RiemannTensor::zero(4, 0.0);
    assert!(riemann.satisfies_bianchi_identity_with(vanishes_within(1e-10)));
}

#[test]
fn test_sphere_bianchi_identity_detailed() {
    let theta = std::f64::consts::FRAC_PI_3;
    let metric = sphere_2_at_theta(theta);
    let gamma = sphere_christoffel(&metric, theta);
    let riemann = sphere_riemann(&metric, &gamma, theta);

    assert!(riemann.satisfies_bianchi_identity_with(vanishes_within(1e-8)));
    assert!(riemann.is_antisymmetric_kl_with(cancels_within(1e-8)));
    assert!(riemann.is_pair_symmetric_with(within(1e-8)));
}

#[test]
fn riemann_symmetry_checks_report_failures() {
    // A single nonzero component breaks every symmetry that pairs it with another.
    let mut riemann = RiemannTensor::zero(2, 0.0);
    riemann.components.set4(0, 0, 0, 1, 1.0);
    riemann.covariant.set4(0, 1, 0, 0, 1.0);
    assert!(!riemann.is_antisymmetric_kl_with(cancels_within(1e-10)));
    assert!(!riemann.satisfies_bianchi_identity_with(vanishes_within(1e-10)));
    assert!(!riemann.is_antisymmetric_ij_cov_with(cancels_within(1e-10)));
    assert!(!riemann.is_pair_symmetric_with(within(1e-10)));
}

#[test]
fn riemann_from_christoffel_formula_on_dimension_one() {
    // R^0_{000} = ∂Γ/∂x^0 - ∂Γ/∂x^0 + Γ Γ - Γ Γ = 0 whatever the values.
    let metric = metric_from_rows(1, vec![2.0], MetricSignature::Riemannian);
    let gamma = christoffel_from(&metric, |_, _, _| 3.0);
    let riemann = RiemannTensor::from_christoffel_fn_with(&gamma, |_, _, _, _| 5.0, 0.0, difference, curvature_step);
    assert_eq!(riemann.get(0, 0, 0, 0), 0.0);
}

// ─── Ricci tensor and scalar curvature ───

#[test]
fn test_flat_ricci_zero() {
    let ricci = RicciTensor::zero(3, 0.0);
    for i in 0..3 {
        for j in 0..3 {
            assert_eq!(ricci.get(i, j), 0.0);
        }
    }
}

#[test]
fn test_flat_scalar_curvature_zero() {
    let metric = flat(3);
    let ricci = RicciTensor::zero(3, 0.0);
    let scalar = ScalarCurvature::from_ricci_with(&metric, &ricci, 0.0, add_product);
    assert!((scalar.get()).abs() < 1e-10);
}

#[test]
fn test_sphere_ricci_and_scalar() {
    // 2-sphere at θ = π/4
    let theta = std::f64::consts::FRAC_PI_4;
    let metric = sphere_2_at_theta(theta);
    let gamma = sphere_christoffel(&metric, theta);
    let riemann = sphere_riemann(&metric, &gamma, theta);

    let ricci = RicciTensor::from_riemann_with(&riemann, 0.0, plus);
    assert!(ricci.is_symmetric_with(within(1e-8)));

    let scalar = ScalarCurvature::from_ricci_with(&metric, &ricci, 0.0, add_product);
    // For unit 2-sphere, scalar curvature = 2/R² = 2
    assert!((scalar.get() - 2.0).abs() < 1e-6,
        "Scalar curvature = {}, expected 2.0", scalar.get());
}

#[test]
fn test_ricci_symmetry() {
    let ricci = RicciTensor::zero(4, 0.0);
    assert!(ricci.is_symmetric_with(within(1e-10)));
}

#[test]
fn test_flat_space_zero_curvature() {
    let dim = 4;
    let metric = flat(dim);
    let riemann = RiemannTensor::zero(dim, 0.0);
    let ricci = RicciTensor::from_riemann_with(&riemann, 0.0, plus);
    let scalar = ScalarCurvature::from_ricci_with(&metric, &ricci, 0.0, add_product);

    assert!((scalar.get()).abs() < 1e-10);
    assert!(ricci.is_symmetric_with(within(1e-10)));
}

#[test]
fn test_minkowski_zero_curvature() {
    let metric = minkowski(4);
    let riemann = RiemannTensor::zero(4, 0.0);
    let ricci = RicciTensor::from_riemann_with(&riemann, 0.0, plus);
    let scalar = ScalarCurvature::from_ricci_with(&metric, &ricci, 0.0, add_product);
    assert!((scalar.get()).abs() < 1e-10);
}

#[test]
fn test_sphere_scalar_curvature_invariant() {
    // Scalar curvature of unit sphere is 2, regardless of θ
    for &theta in &[0.5, 1.0, std::f64::consts::FRAC_PI_4, std::f64::consts::FRAC_PI_2] {
        let metric = sphere_2_at_theta(theta);
        let gamma = sphere_christoffel(&metric, theta);
        let riemann = sphere_riemann(&metric, &gamma, theta);
        let ricci = RicciTensor::from_riemann_with(&riemann, 0.0, plus);
        let scalar = ScalarCurvature::from_ricci_with(&metric, &ricci, 0.0, add_product);
        assert!((scalar.get() - 2.0).abs() < 1e-6,
            "R = {} at θ = {}, expected 2.0", scalar.get(), theta);
    }
}

#[test]
fn ricci_contracts_first_and_third_riemann_indices() {
    // R_ij = Σ_k R^k_{ikj}: put R^1_{011} = 3 and R^0_{000} = 2.
    let mut riemann = RiemannTensor::zero(2, 0.0);
    riemann.components.set4(1, 0, 1, 1, 3.0);
    riemann.components.set4(0, 0, 0, 0, 2.0);
    let ricci = RicciTensor::from_riemann_with(&riemann, 0.0, plus);
    assert_eq!(ricci.get(0, 1), 3.0);
    assert_eq!(ricci.get(0, 0), 2.0);
    assert_eq!(ricci.get(1, 0), 0.0);
    assert!(!ricci.is_symmetric_with(within(1e-10)));
}

#[test]
fn riemann_antisymmetry_in_last_indices_is_exact() {
    let theta = 0.7;
    let metric = sphere_2_at_theta(theta);
    let gamma = sphere_christoffel(&metric, theta);
    let riemann = sphere_riemann(&metric, &gamma, theta);
    for i in 0..2 {
        for j in 0..2 {
            for k in 0..2 {
                for l in 0..2 {
                    assert_eq!(riemann.get(i, j, l, k), -riemann.get(i, j, k, l));
                }
            }
        }
    }
}

#[test]
fn christoffel_lower_symmetry_is_exact_for_symmetric_derivatives() {
    let metric = metric_from_rows(3, vec![2.0, 0.5, 0.1, 0.5, 3.0, 0.2, 0.1, 0.2, 1.5], MetricSignature::Riemannian);
    // ∂g_ij/∂x^k symmetric in i, j
    let dg = |i: usize, j: usize, k: usize| -> f64 {
        let (a, b) = if i <= j { (i, j) } else { (j, i) };
        0.1 * (a as f64) + 0.37 * (b as f64) - 0.05 * (k as f64) + 0.013 * ((a * b * k) as f64)
    };
    let gamma = christoffel_from(&metric, dg);
    for k in 0..3 {
        for i in 0..3 {
            for j in 0..3 {
                assert_eq!(gamma.get(k, i, j), gamma.get(k, j, i));
                assert_eq!(gamma.get_first(k, i, j), gamma.get_first(k, j, i));
            }
        }
    }
}

#[test]
fn first_bianchi_identity_is_exact_with_integer_symbols() {
    // Γ^a_{bc} = Γ^a_{cb} and ∂Γ^a_{bc}/∂x^f symmetric in b, c, all small
    // integers, so every sum below is computed exactly.
    let dim = 3;
    let mut gamma = ChristoffelSymbols::zero(dim, 0.0);
    for a in 0..dim {
        for b in 0..dim {
            for c in 0..dim {
                let v = (a * 7 + (b + c) * 3 + b * c) as f64 - 5.0;
                gamma.second_kind.set3(a, b, c, v);
            }
        }
    }
    let dgamma = |a: usize, b: usize, c: usize, f: usize| -> f64 {
        ((a + 1) * (b + c + 2) + b * c * (f + 1)) as f64 - 4.0 * (f as f64)
    };
    let riemann = RiemannTensor::from_christoffel_fn_with(&gamma, dgamma, 0.0, difference, curvature_step);
    for i in 0..dim {
        for j in 0..dim {
            for k in 0..dim {
                for l in 0..dim {
                    let sum = riemann.get(i, j, k, l) + riemann.get(i, k, l, j) + riemann.get(i, l, j, k);
                    assert_eq!(sum, 0.0, "Bianchi sum at ({}, {}, {}, {})", i, j, k, l);
                }
            }
        }
    }
    assert!(riemann.satisfies_bianchi_identity_with(vanishes_within(0.0)));
}

#[test]
fn flat_connection_leaves_derivatives_and_curvature_unchanged() {
    let gamma = ChristoffelSymbols::zero(3, 0.0);
    let v = Tensor::vector(3, vec![1.5, -2.0, 3.25], IndexType::Contravariant);
    let dv = Tensor::rank2(3, [IndexType::Contravariant, IndexType::Covariant],
        vec![0.1, 0.2, -0.3, 4.0, 5.5, -6.0, 0.7, 0.8, 0.9]);
    let r = covariant_derivative_with(&gamma, &v, &dv, add_product);
    assert_eq!(r.data, dv.data);
    let omega = Tensor::vector(3, vec![2.0, 0.5, -1.0], IndexType::Covariant);
    let rc = covariant_derivative_covector_with(&gamma, &omega, &dv, sub_product);
    assert_eq!(rc.data, dv.data);
    let accel = geodesic_acceleration_with(&gamma, &v, 0.0, geodesic_step);
    assert!(accel.data.iter().all(|&a| a == 0.0));
    let riemann = RiemannTensor::from_christoffel_fn_with(&gamma, |_, _, _, _| 0.0, 0.0, difference, curvature_step);
    assert!(riemann.components.data.iter().all(|&x| x == 0.0));
    let metric = metric_from_rows(3, vec![2.0, 0.5, 0.0, 0.5, 3.0, 0.0, 0.0, 0.0, 1.0], MetricSignature::Riemannian);
    let flat_gamma = christoffel_from(&metric, |_, _, _| 0.0);
    assert!(flat_gamma.second_kind.data.iter().all(|&x| x == 0.0));
    assert!(flat_gamma.first_kind.data.iter().all(|&x| x == 0.0));
}

#[test]
fn ricci_contracts_components_of_any_index_types() {
    let mut components = Tensor::zeros(2, vec![IndexType::Covariant; 4], 0.0);
    components.set4(0, 0, 0, 1, 2.0);
    components.set4(1, 0, 1, 1, 5.0);
    components.set4(1, 1, 1, 0, 7.0);
    let covariant = Tensor::zeros(2, vec![IndexType::Covariant; 4], 0.0);
    let riemann = RiemannTensor { dim: 2, components, covariant };
    let ricci = RicciTensor::from_riemann_with(&riemann, 0.0, plus);
    assert_eq!(ricci.components.index_types, vec![IndexType::Covariant, IndexType::Covariant]);
    // R_ij = Σ_k R(k, i, k, j)
    assert_eq!(ricci.components.data, vec![0.0, 7.0, 7.0, 0.0]);
}

#[test]
fn covariant_riemann_lowers_components_of_any_index_types() {
    let mut components = Tensor::zeros(2, vec![IndexType::Covariant; 4], 0.0);
    components.set4(0, 1, 0, 1, 3.0);
    components.set4(1, 1, 0, 1, 4.0);
    let covariant = Tensor::zeros(2, vec![IndexType::Covariant; 4], 0.0);
    let mut riemann = RiemannTensor { dim: 2, components, covariant };
    let g = Tensor::rank2(2, [IndexType::Covariant, IndexType::Covariant], vec![2.0, 1.0, 1.0, 3.0]);
    riemann.compute_covariant_with(&g, 0.0, add_product);
    assert_eq!(riemann.covariant.index_types, vec![IndexType::Covariant; 4]);
    // R_{i101} = g_i0 R(0,1,0,1) + g_i1 R(1,1,0,1)
    assert_eq!(riemann.get_cov(0, 1, 0, 1), 2.0 * 3.0 + 1.0 * 4.0);
    assert_eq!(riemann.get_cov(1, 1, 0, 1), 1.0 * 3.0 + 3.0 * 4.0);
    assert_eq!(riemann.get_cov(0, 0, 0, 0), 0.0);
}

#[test]
fn christoffel_from_closure_matches_tabulated_derivatives() {
    let theta = 0.7f64;
    let metric = sphere_2_at_theta(theta);
    let f = |i: usize, j: usize, k: usize| -> f64 {
        if i == 1 && j == 1 && k == 0 { 2.0 * theta.sin() * theta.cos() } else { 0.0 }
    };
    let from_fn = christoffel_from(&metric, f);
    let mut dg = Tensor::zeros(2, vec![IndexType::Covariant; 3], 0.0);
    for k in 0..2 {
        for i in 0..2 {
            for j in 0..2 {
                dg.set3(k, i, j, f(i, j, k));
            }
        }
    }
    let from_table = ChristoffelSymbols::from_metric_derivatives_with(&metric, &dg, first_kind, 0.0, add_product);
    assert_eq!(from_fn.first_kind.data, from_table.first_kind.data);
    assert_eq!(from_fn.second_kind.data, from_table.second_kind.data);
}

#[test]
fn riemann_from_closure_matches_tabulated_derivatives() {
    let theta = 0.7f64;
    let metric = sphere_2_at_theta(theta);
    let gamma = sphere_christoffel(&metric, theta);
    let f = |i: usize, j: usize, k: usize, l: usize| -> f64 {
        if i == 0 && j == 1 && k == 1 && l == 0 { -(2.0 * theta).cos() }
        else if i == 1 && j == 0 && k == 1 && l == 0 { -1.0 / theta.sin().powi(2) }
        else { 0.0 }
    };
    let from_fn = RiemannTensor::from_christoffel_fn_with(&gamma, f, 0.0, difference, curvature_step);
    let mut dgamma = Tensor::zeros(
        2,
        vec![IndexType::Contravariant, IndexType::Covariant, IndexType::Covariant, IndexType::Covariant],
        0.0,
    );
    for i in 0..2 {
        for j in 0..2 {
            for k in 0..2 {
                for l in 0..2 {
                    dgamma.set4(i, j, k, l, f(i, j, k, l));
                }
            }
        }
    }
    let from_table = RiemannTensor::from_christoffel_with(&gamma, &dgamma, 0.0, difference, curvature_step);
    assert_eq!(from_fn.components.data, from_table.components.data);
    assert_eq!(from_fn.covariant.data, from_table.covariant.data);
}

#[test]
fn geodesic_test_matches_the_acceleration() {
    let theta = 0.7f64;
    let metric = sphere_2_at_theta(theta);
    let gamma = sphere_christoffel(&metric, theta);
    for v in [vec![1.0, 0.0], vec![0.0, 1.0], vec![0.0, 0.0]] {
        let velocity = Tensor::vector(2, v, IndexType::Contravariant);
        let accel = geodesic_acceleration_with(&gamma, &velocity, 0.0, geodesic_step);
        let expected = accel.data.iter().all(|&a| a.abs() < 1e-10);
        assert_eq!(is_geodesic_with(&gamma, &velocity, 0.0, geodesic_step, below(1e-10)), expected);
    }
}
